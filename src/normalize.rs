//! Turning fixed-point relative weights into integer allocation units.
use vstd::prelude::*;

verus! {

/// Units shared out over the whole table, the reserved row included.
pub const TOTAL_CAPACITY: u16 = 65535;

/// Units held by the reserved row, outside the normalized pool.
pub const RESERVED_ALLOCATION: u16 = 1311;

/// Units left for the normalized pool.
pub const POOL_CAPACITY: u16 = TOTAL_CAPACITY - RESERVED_ALLOCATION;

/// The headroom fraction `HEADROOM_NUM / HEADROOM_DEN` of the capacity that
/// the pool's provisional allocations may use.
pub const HEADROOM_NUM: u128 = 98;

pub const HEADROOM_DEN: u128 = 100;

/// `TOTAL_CAPACITY * HEADROOM_NUM`: the numerator of every provisional share.
pub const SHARE_NUM: u128 = 6422430;

/// The largest pool sum whose products with `SHARE_NUM` fit in 128 bits.
pub const MAX_POOL: u128 = u128::MAX / SHARE_NUM;

/// Smallest fixed-point relative weight (half a percent) that keeps an asset
/// in the pool.
pub const MIN_RELATIVE_WEIGHT: u128 = 50_000_000_000_000_000_000_000_000;

/// Why no allocation could be made.
#[derive(Debug, Clone, Copy, PartialEq, Eq, Structural)]
pub enum AllocationError {
    /// The pool holds no weight: every asset was filtered out, or all weights
    /// are zero.
    EmptyPool,
    /// The pool's weight sum exceeds `MAX_POOL`.
    Overflow,
}

/// Sum of the weights of a pool.
pub open spec fn pool_sum(ws: Seq<u128>) -> int
    decreases ws.len(),
{
    if ws.len() == 0 {
        0
    } else {
        pool_sum(ws.drop_last()) + ws.last()
    }
}

/// `floor(capacity * headroom * w / s)`: the provisional units of a weight `w`
/// in a pool of sum `s`.
pub open spec fn provisional(w: int, s: int) -> int {
    (w * SHARE_NUM) / (HEADROOM_DEN * s)
}

/// Sum of the provisional units of a pool's weights, against the sum `s`.
pub open spec fn provisional_sum(ws: Seq<u128>, s: int) -> int
    decreases ws.len(),
{
    if ws.len() == 0 {
        0
    } else {
        provisional_sum(ws.drop_last(), s) + provisional(ws.last() as int, s)
    }
}

/// Units of the pool that the provisional floors leave over.
pub open spec fn remainder(ws: Seq<u128>) -> int {
    POOL_CAPACITY - provisional_sum(ws, pool_sum(ws))
}

/// Whether position `i` of the pool receives one of the leftover units: the
/// first `remainder % count` positions do.
pub open spec fn receives_extra(ws: Seq<u128>, i: int) -> bool {
    i < remainder(ws) % (ws.len() as int)
}

/// The final units of position `i`: its provisional floor, an even share of
/// the remainder, and one leftover unit for the first positions.
pub open spec fn allocation(ws: Seq<u128>, i: int) -> int {
    provisional(ws[i] as int, pool_sum(ws)) + remainder(ws) / (ws.len() as int) + if receives_extra(
        ws,
        i,
    ) {
        1int
    } else {
        0int
    }
}

/// Sum of the final units of the first `k` positions.
pub open spec fn allocation_prefix_sum(ws: Seq<u128>, k: int) -> int
    decreases k,
{
    if k <= 0 {
        0
    } else {
        allocation_prefix_sum(ws, k - 1) + allocation(ws, k - 1)
    }
}

proof fn lemma_take_step(ws: Seq<u128>, i: int)
    requires
        0 <= i < ws.len(),
    ensures
        ws.take(i + 1).drop_last() == ws.take(i),
        ws.take(i + 1).last() == ws[i],
        pool_sum(ws.take(i + 1)) == pool_sum(ws.take(i)) + ws[i],
        forall|s: int| #[trigger]
            provisional_sum(ws.take(i + 1), s) == provisional_sum(ws.take(i), s) + provisional(
                ws[i] as int,
                s,
            ),
{
    assert(ws.take(i + 1).drop_last() =~= ws.take(i));
}

proof fn lemma_take_all(ws: Seq<u128>)
    ensures
        ws.take(ws.len() as int) == ws,
{
    assert(ws.take(ws.len() as int) =~= ws);
}

proof fn lemma_pool_nonneg(ws: Seq<u128>)
    ensures
        pool_sum(ws) >= 0,
    decreases ws.len(),
{
    if ws.len() > 0 {
        lemma_pool_nonneg(ws.drop_last());
    }
}

/// A prefix of a pool weighs no more than the pool.
proof fn lemma_pool_prefix_le(ws: Seq<u128>, k: int)
    requires
        0 <= k <= ws.len(),
    ensures
        pool_sum(ws.take(k)) <= pool_sum(ws),
    decreases ws.len() - k,
{
    if k < ws.len() {
        lemma_take_step(ws, k);
        lemma_pool_prefix_le(ws, k + 1);
    } else {
        lemma_take_all(ws);
    }
}

/// A provisional floor never exceeds the exact share it truncates.
proof fn lemma_provisional_le(w: int, s: int)
    requires
        w >= 0,
        s > 0,
    ensures
        0 <= provisional(w, s),
        provisional(w, s) * (HEADROOM_DEN * s) <= w * SHARE_NUM,
{
    let x = w * SHARE_NUM;
    let d = HEADROOM_DEN * s;
    vstd::arithmetic::div_mod::lemma_fundamental_div_mod(x, d);
    vstd::arithmetic::div_mod::lemma_mod_bound(x, d);
    vstd::arithmetic::div_mod::lemma_div_pos_is_pos(x, d);
    assert(x == d * (x / d) + x % d);
    assert((x / d) * d == d * (x / d)) by (nonlinear_arith);
    assert(provisional(w, s) == x / d);
}

/// The provisional floors of a prefix together stay within the exact shares
/// of that prefix.
proof fn lemma_provisional_sum_le(ws: Seq<u128>, k: int, s: int)
    requires
        0 <= k <= ws.len(),
        s > 0,
    ensures
        0 <= provisional_sum(ws.take(k), s),
        provisional_sum(ws.take(k), s) * (HEADROOM_DEN * s) <= pool_sum(ws.take(k)) * SHARE_NUM,
    decreases k,
{
    if k == 0 {
        assert(ws.take(0) =~= Seq::<u128>::empty());
    } else {
        lemma_provisional_sum_le(ws, k - 1, s);
        lemma_take_step(ws, k - 1);
        lemma_provisional_le(ws[k - 1] as int, s);
        let (p, q, a, w, d) = (
            provisional_sum(ws.take(k - 1), s),
            provisional(ws[k - 1] as int, s),
            pool_sum(ws.take(k - 1)),
            ws[k - 1] as int,
            HEADROOM_DEN * s,
        );
        assert((p + q) * d <= (a + w) * SHARE_NUM) by (nonlinear_arith)
            requires
                p * d <= a * SHARE_NUM,
                q * d <= w * SHARE_NUM,
        ;
    }
}

/// In a pool of positive weight the provisional floors leave a remainder
/// between zero and the pool's capacity.
pub proof fn lemma_remainder_in_range(ws: Seq<u128>)
    requires
        pool_sum(ws) > 0,
    ensures
        0 <= remainder(ws) <= POOL_CAPACITY,
{
    let s = pool_sum(ws);
    lemma_provisional_sum_le(ws, ws.len() as int, s);
    lemma_take_all(ws);
    let p = provisional_sum(ws, s);
    assert(p * 100 <= 6422430) by (nonlinear_arith)
        requires
            p * (100 * s) <= s * 6422430,
            s > 0,
    ;
}

/// Sum of the final units over the whole pool.
pub open spec fn allocation_total(ws: Seq<u128>) -> int {
    allocation_prefix_sum(ws, ws.len() as int)
}

proof fn lemma_allocation_prefix(ws: Seq<u128>, k: int)
    requires
        pool_sum(ws) > 0,
        0 <= k <= ws.len(),
    ensures
        allocation_prefix_sum(ws, k) == provisional_sum(ws.take(k), pool_sum(ws)) + k * (remainder(
            ws,
        ) / (ws.len() as int)) + if k < remainder(ws) % (ws.len() as int) {
            k
        } else {
            remainder(ws) % (ws.len() as int)
        },
    decreases k,
{
    if k == 0 {
        assert(ws.take(0) =~= Seq::<u128>::empty());
    } else {
        lemma_allocation_prefix(ws, k - 1);
        lemma_take_step(ws, k - 1);
        let b = remainder(ws) / (ws.len() as int);
        assert(k * b == (k - 1) * b + b) by (nonlinear_arith);
    }
}

/// A filtered pool has positive weight: each survivor carries at least the
/// minimum relevance.
pub proof fn lemma_filtered_pool_positive(ws: Seq<u128>)
    requires
        ws.len() > 0,
        forall|i: int| 0 <= i < ws.len() ==> ws[i] >= MIN_RELATIVE_WEIGHT,
    ensures
        pool_sum(ws) > 0,
{
    assert(ws.take(0) =~= Seq::<u128>::empty());
    lemma_take_step(ws, 0);
    lemma_pool_prefix_le(ws, 1);
}

/// For every filtered, non-empty pool the final units of the survivors and the
/// reserved row add up to exactly the total capacity.
pub proof fn lemma_allocation_exact(ws: Seq<u128>)
    requires
        ws.len() > 0,
        forall|i: int| 0 <= i < ws.len() ==> ws[i] >= MIN_RELATIVE_WEIGHT,
    ensures
        allocation_total(ws) + RESERVED_ALLOCATION == TOTAL_CAPACITY,
{
    lemma_filtered_pool_positive(ws);
    lemma_remainder_in_range(ws);
    lemma_allocation_prefix(ws, ws.len() as int);
    lemma_take_all(ws);
    let n = ws.len() as int;
    let r = remainder(ws);
    vstd::arithmetic::div_mod::lemma_fundamental_div_mod(r, n);
    vstd::arithmetic::div_mod::lemma_mod_bound(r, n);
    assert(n * (r / n) == (r / n) * n) by (nonlinear_arith);
}

/// The leftover units go to exactly the first `remainder % count` survivors,
/// one each, and with them the table still does not exceed the total capacity.
pub proof fn lemma_remainder_fairness(ws: Seq<u128>)
    requires
        ws.len() > 0,
        forall|i: int| 0 <= i < ws.len() ==> ws[i] >= MIN_RELATIVE_WEIGHT,
    ensures
        0 <= remainder(ws) % (ws.len() as int) < ws.len(),
        forall|i: int|
            0 <= i < ws.len() ==> (#[trigger] receives_extra(ws, i) <==> i < remainder(ws) % (
            ws.len() as int)),
        forall|i: int|
            0 <= i < ws.len() ==> #[trigger] allocation(ws, i) == provisional(
                ws[i] as int,
                pool_sum(ws),
            ) + remainder(ws) / (ws.len() as int) + if receives_extra(ws, i) {
                1int
            } else {
                0int
            },
        allocation_total(ws) + RESERVED_ALLOCATION <= TOTAL_CAPACITY,
{
    lemma_allocation_exact(ws);
    vstd::arithmetic::div_mod::lemma_mod_bound(remainder(ws), ws.len() as int);
}

/// Final units for each position of a pool of fixed-point weights: the
/// provisional floors plus the evenly spread remainder, with the leftover
/// units going to the first positions.
pub fn allocate(weights: &Vec<u128>) -> (r: Result<Vec<u16>, AllocationError>)
    ensures
        r == Err::<Vec<u16>, AllocationError>(AllocationError::EmptyPool) <==> pool_sum(weights@)
            == 0,
        r == Err::<Vec<u16>, AllocationError>(AllocationError::Overflow) <==> pool_sum(weights@)
            > MAX_POOL,
        r matches Ok(a) ==> a@.len() == weights@.len() && forall|i: int|
            0 <= i < a@.len() ==> a@[i] == allocation(weights@, i),
{
    let ghost ws = weights@;
    let n = weights.len();
    let mut s: u128 = 0;
    let mut i: usize = 0;
    while i < n
        invariant
            n == ws.len(),
            ws == weights@,
            i <= n,
            s == pool_sum(ws.take(i as int)),
            s <= MAX_POOL,
        decreases n - i,
    {
        proof {
            lemma_take_step(ws, i as int);
        }
        if weights[i] > MAX_POOL - s {
            proof {
                lemma_pool_prefix_le(ws, i + 1);
            }
            return Err(AllocationError::Overflow);
        }
        s = s + weights[i];
        i = i + 1;
    }
    proof {
        lemma_take_all(ws);
    }
    if s == 0 {
        return Err(AllocationError::EmptyPool);
    }
    let d: u128 = HEADROOM_DEN * s;
    let mut provisionals: Vec<u16> = Vec::new();
    let mut psum: u16 = 0;
    let mut i: usize = 0;
    while i < n
        invariant
            n == ws.len(),
            ws == weights@,
            i <= n,
            s == pool_sum(ws),
            0 < s <= MAX_POOL,
            d == HEADROOM_DEN * s,
            provisionals@.len() == i,
            forall|j: int| 0 <= j < i ==> provisionals@[j] == provisional(ws[j] as int, s as int),
            psum == provisional_sum(ws.take(i as int), s as int),
        decreases n - i,
    {
        proof {
            lemma_take_step(ws, i as int);
            lemma_pool_prefix_le(ws, i + 1);
            lemma_provisional_sum_le(ws, i + 1, s as int);
            lemma_provisional_le(ws[i as int] as int, s as int);
            lemma_pool_nonneg(ws.take(i as int));
        }
        let w = weights[i];
        assert(w * SHARE_NUM <= MAX_POOL * SHARE_NUM) by (nonlinear_arith)
            requires
                w <= MAX_POOL,
        ;
        let p = w * SHARE_NUM / d;
        let ghost q = provisional_sum(ws.take(i + 1), s as int);
        assert(q <= POOL_CAPACITY) by (nonlinear_arith)
            requires
                q * (100 * s) <= pool_sum(ws.take(i + 1)) * 6422430,
                pool_sum(ws.take(i + 1)) <= s,
                s > 0,
        ;
        provisionals.push(p as u16);
        psum = psum + p as u16;
        i = i + 1;
    }
    proof {
        lemma_take_all(ws);
        lemma_remainder_in_range(ws);
    }
    let rem: usize = (POOL_CAPACITY - psum) as usize;
    let base: usize = rem / n;
    let extra: usize = rem % n;
    proof {
        vstd::arithmetic::div_mod::lemma_fundamental_div_mod(rem as int, n as int);
        vstd::arithmetic::div_mod::lemma_mod_bound(rem as int, n as int);
        assert(base <= base * n) by (nonlinear_arith)
            requires
                n >= 1,
        ;
    }
    let mut out: Vec<u16> = Vec::new();
    let mut i: usize = 0;
    while i < n
        invariant
            n == ws.len(),
            n > 0,
            ws == weights@,
            i <= n,
            s == pool_sum(ws),
            s > 0,
            psum == provisional_sum(ws, s as int),
            rem == remainder(ws),
            base == (rem as int) / (n as int),
            extra == (rem as int) % (n as int),
            rem == n * base + extra,
            extra < n,
            base <= rem,
            provisionals@.len() == n,
            forall|j: int| 0 <= j < n ==> provisionals@[j] == provisional(ws[j] as int, s as int),
            out@.len() == i,
            forall|j: int| 0 <= j < i ==> out@[j] == allocation(ws, j),
        decreases n - i,
    {
        proof {
            lemma_take_step(ws, i as int);
            lemma_provisional_sum_le(ws, i as int, s as int);
            lemma_provisional_sum_le(ws, i + 1, s as int);
            lemma_provisional_prefix_le(ws, i + 1, s as int);
        }
        let one: usize = if i < extra {
            1
        } else {
            0
        };
        let a = provisionals[i] as usize + base + one;
        out.push(a as u16);
        i = i + 1;
    }
    Ok(out)
}

/// The provisional floors of a prefix are part of those of the whole pool.
proof fn lemma_provisional_prefix_le(ws: Seq<u128>, k: int, s: int)
    requires
        0 <= k <= ws.len(),
        s > 0,
    ensures
        provisional_sum(ws.take(k), s) <= provisional_sum(ws, s),
    decreases ws.len() - k,
{
    if k < ws.len() {
        lemma_take_step(ws, k);
        lemma_provisional_le(ws[k] as int, s);
        lemma_provisional_prefix_le(ws, k + 1, s);
    } else {
        lemma_take_all(ws);
    }
}

} // verus!
