//! Big-endian byte strings read as natural numbers.
use vstd::prelude::*;

verus! {

/// The natural number that a big-endian byte string denotes.
pub open spec fn be_value(s: Seq<u8>) -> nat
    decreases s.len(),
{
    if s.len() == 0 {
        0
    } else {
        (be_value(s.drop_last()) * 256 + s.last()) as nat
    }
}

/// `256` raised to the power `n`.
pub open spec fn pow256(n: nat) -> nat
    decreases n,
{
    if n == 0 {
        1
    } else {
        (256 * pow256((n - 1) as nat)) as nat
    }
}

pub proof fn lemma_pow256_positive(n: nat)
    ensures
        pow256(n) >= 1,
    decreases n,
{
    if n > 0 {
        lemma_pow256_positive((n - 1) as nat);
    }
}

/// Twelve bytes hold less than `2^96`, well within a `u128`.
pub proof fn lemma_pow256_96()
    ensures
        pow256(12) == 0x1_0000_0000_0000_0000_0000_0000,
{
    reveal_with_fuel(pow256, 13);
}

/// A string of `n` bytes denotes a number below `256^n`.
pub proof fn lemma_be_value_bound(s: Seq<u8>)
    ensures
        be_value(s) < pow256(s.len()),
    decreases s.len(),
{
    if s.len() > 0 {
        let p = s.drop_last();
        lemma_be_value_bound(p);
        let (v, q) = (be_value(p), pow256(p.len()));
        assert(v * 256 + s.last() < 256 * q) by (nonlinear_arith)
            requires
                v < q,
                s.last() < 256,
        ;
    }
}

/// Splitting a byte string: the head is worth `256^(tail length)` times its value.
pub proof fn lemma_be_value_append(a: Seq<u8>, b: Seq<u8>)
    ensures
        be_value(a + b) == be_value(a) * pow256(b.len()) + be_value(b),
    decreases b.len(),
{
    if b.len() == 0 {
        assert(a + b =~= a);
        assert(pow256(0) == 1);
        assert(be_value(b) == 0);
        assert(be_value(a) * 1 == be_value(a));
    } else {
        let bl = b.drop_last();
        assert((a + b).drop_last() =~= a + bl);
        assert((a + b).last() == b.last());
        lemma_be_value_append(a, bl);
        let (x, p, y) = (be_value(a), pow256(bl.len()), be_value(bl));
        assert(pow256(b.len()) == 256 * p);
        assert(be_value(b) == y * 256 + b.last());
        assert(be_value(a + b) == be_value(a + bl) * 256 + b.last());
        assert((x * p + y) * 256 + b.last() == x * (256 * p) + (y * 256 + b.last()))
            by (nonlinear_arith);
        assert(be_value(a + b) == x * pow256(b.len()) + be_value(b));
    }
}

/// A prefix of a byte string is worth at most the whole string.
pub proof fn lemma_be_value_prefix_le(s: Seq<u8>, k: int)
    requires
        0 <= k <= s.len(),
    ensures
        be_value(s.take(k)) <= be_value(s),
{
    let (a, b) = (s.take(k), s.skip(k));
    assert(a + b =~= s);
    lemma_be_value_append(a, b);
    lemma_pow256_positive(b.len());
    let (x, p) = (be_value(a), pow256(b.len()));
    assert(x <= x * p) by (nonlinear_arith)
        requires
            p >= 1,
    ;
}

/// Reads a big-endian byte string as a `u128`, or `None` where its value does
/// not fit.
pub fn be_to_u128(s: &[u8]) -> (r: Option<u128>)
    ensures
        r is Some <==> be_value(s@) <= u128::MAX,
        r matches Some(v) ==> v == be_value(s@),
{
    let mut acc: u128 = 0;
    let mut i: usize = 0;
    while i < s.len()
        invariant
            i <= s.len(),
            acc == be_value(s@.take(i as int)),
        decreases s.len() - i,
    {
        assert(s@.take(i + 1).drop_last() =~= s@.take(i as int));
        let b = s[i];
        if acc > (u128::MAX - b as u128) / 256 {
            assert(acc * 256 + b > u128::MAX) by (nonlinear_arith)
                requires
                    acc > (u128::MAX - b) / 256,
                    b < 256,
            ;
            proof {
                lemma_be_value_prefix_le(s@, i + 1);
            }
            return None;
        }
        assert(acc * 256 + b <= u128::MAX) by (nonlinear_arith)
            requires
                acc <= (u128::MAX - b) / 256,
                b < 256,
        ;
        acc = acc * 256 + b as u128;
        i = i + 1;
    }
    assert(s@.take(s.len() as int) =~= s@);
    Some(acc)
}

} // verus!
