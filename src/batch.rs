//! Grouping assets into per-chain batched reads, and scattering the batches'
//! results back to the assets by their original positions.
use vstd::prelude::*;

use crate::asset::SPECIAL_CHAIN_ID;

verus! {

/// A batched read to one chain: the positions of the assets routed to it, in
/// increasing order.
pub struct ChainBatch {
    pub chain_id: u128,
    pub indices: Vec<usize>,
}

/// The batches of one aggregation pass: one per distinct ordinary chain, in
/// order of first appearance, and one for the special chain's assets, which
/// are read on a path of their own.
pub struct BatchPlan {
    pub batches: Vec<ChainBatch>,
    pub special: ChainBatch,
}

/// A batch came back with another number of results than it asked for.
#[derive(Debug, Clone, Copy, PartialEq, Eq, Structural)]
pub enum BatchError {
    SizeMismatch { expected: usize, got: usize },
}

/// The positions of `chains` that hold `chain`, in increasing order.
pub open spec fn positions(chains: Seq<u128>, chain: u128) -> Seq<usize>
    decreases chains.len(),
{
    if chains.len() == 0 {
        Seq::empty()
    } else if chains.last() == chain {
        positions(chains.drop_last(), chain).push((chains.len() - 1) as usize)
    } else {
        positions(chains.drop_last(), chain)
    }
}

/// The plan routes every asset of `chains` exactly as grouping by chain tag
/// asks.
pub open spec fn plans(chains: Seq<u128>, batches: Seq<ChainBatch>, special: ChainBatch) -> bool {
    &&& special.chain_id == SPECIAL_CHAIN_ID
    &&& special.indices@ == positions(chains, SPECIAL_CHAIN_ID)
    &&& forall|b: int|
        0 <= b < batches.len() ==> (#[trigger] batches[b]).chain_id != SPECIAL_CHAIN_ID
            && batches[b].indices@ == positions(chains, batches[b].chain_id)
            && batches[b].indices@.len() > 0
    &&& forall|b1: int, b2: int|
        0 <= b1 < b2 < batches.len() ==> (#[trigger] batches[b1]).chain_id != (#[trigger] batches[b2]).chain_id
    &&& forall|i: int|
        0 <= i < chains.len() && chains[i] != SPECIAL_CHAIN_ID ==> exists|b: int|
            0 <= b < batches.len() && (#[trigger] batches[b]).chain_id == #[trigger] chains[i]
    &&& forall|b1: int, b2: int|
        0 <= b1 < b2 < batches.len() ==> (#[trigger] batches[b1]).indices@[0] < (#[trigger] batches[b2]).indices@[0]
}

proof fn lemma_positions_step(chains: Seq<u128>, i: int, chain: u128)
    requires
        0 <= i < chains.len(),
    ensures
        positions(chains.take(i + 1), chain) == if chains[i] == chain {
            positions(chains.take(i), chain).push(i as usize)
        } else {
            positions(chains.take(i), chain)
        },
{
    assert(chains.take(i + 1).drop_last() =~= chains.take(i));
}

proof fn lemma_positions_increasing(chains: Seq<u128>, chain: u128)
    requires
        chains.len() <= usize::MAX,
    ensures
        forall|k1: int, k2: int|
            0 <= k1 < k2 < positions(chains, chain).len() ==> #[trigger] positions(chains, chain)[k1]
                < #[trigger] positions(chains, chain)[k2],
    decreases chains.len(),
{
    if chains.len() > 0 {
        let d = chains.drop_last();
        lemma_positions_increasing(d, chain);
        lemma_positions_bounded(d, chain);
        let p = positions(chains, chain);
        let q = positions(d, chain);
        assert forall|k1: int, k2: int| 0 <= k1 < k2 < p.len() implies #[trigger] p[k1] < #[trigger] p[k2] by {
            assert(p[k1] == q[k1]);
            if k2 < q.len() {
                assert(p[k2] == q[k2]);
            }
        }
    }
}

proof fn lemma_positions_bounded(chains: Seq<u128>, chain: u128)
    requires
        chains.len() <= usize::MAX,
    ensures
        forall|k: int|
            0 <= k < positions(chains, chain).len() ==> #[trigger] positions(chains, chain)[k]
                < chains.len() && chains[positions(chains, chain)[k] as int] == chain,
    decreases chains.len(),
{
    if chains.len() > 0 {
        let d = chains.drop_last();
        lemma_positions_bounded(d, chain);
        let p = positions(chains, chain);
        assert forall|k: int| 0 <= k < p.len() implies #[trigger] p[k] < chains.len() && chains[p[k] as int] == chain by {
            if k < positions(d, chain).len() {
                assert(p[k] == positions(d, chain)[k]);
                assert(chains[p[k] as int] == d[p[k] as int]);
            } else {
                assert(p[k] == (chains.len() - 1) as usize);
            }
        }
    }
}

/// Groups the assets, given by their chain tags, into one batch per distinct
/// ordinary chain and the batch of the special chain.
pub fn plan_batches(chains: &Vec<u128>) -> (r: BatchPlan)
    ensures
        plans(chains@, r.batches@, r.special),
{
    let ghost c = chains@;
    let mut batches: Vec<ChainBatch> = Vec::new();
    let mut special: Vec<usize> = Vec::new();
    let mut i: usize = 0;
    while i < chains.len()
        invariant
            c == chains@,
            i <= c.len(),
            plans(c.take(i as int), batches@, (ChainBatch { chain_id: SPECIAL_CHAIN_ID, indices: special })),
        decreases c.len() - i,
    {
        let ci = chains[i];
        let ghost prev = batches@;
        proof {
            assert forall|x: u128| true implies #[trigger] positions(c.take(i + 1), x) == if c[i as int] == x {
                positions(c.take(i as int), x).push(i)
            } else {
                positions(c.take(i as int), x)
            } by {
                lemma_positions_step(c, i as int, x);
            }
        }
        if ci == SPECIAL_CHAIN_ID {
            special.push(i);
        } else {
            let mut b: usize = 0;
            while b < batches.len() && batches[b].chain_id != ci
                invariant
                    b <= batches@.len(),
                    forall|j: int| 0 <= j < b ==> (#[trigger] batches@[j]).chain_id != ci,
                decreases batches@.len() - b,
            {
                b = b + 1;
            }
            if b < batches.len() {
                assert(batches@[b as int].indices@.len() > 0);
                batches[b].indices.push(i);
                assert(batches@ == prev.update(
                    b as int,
                    ChainBatch { chain_id: ci, indices: batches@[b as int].indices },
                ));
            } else {
                let mut indices: Vec<usize> = Vec::new();
                indices.push(i);
                batches.push(ChainBatch { chain_id: ci, indices });
                assert(positions(c.take(i as int), ci).len() == 0) by {
                    lemma_positions_bounded(c.take(i as int), ci);
                    if positions(c.take(i as int), ci).len() > 0 {
                        let k = positions(c.take(i as int), ci)[0] as int;
                        assert(c.take(i as int)[k] == ci);
                    }
                }
                assert(batches@[b as int].indices@ =~= positions(c.take(i as int), ci).push(i));
                assert forall|b1: int| 0 <= b1 < b implies (#[trigger] batches@[b1]).indices@[0] < i by {
                    lemma_positions_bounded(c.take(i as int), batches@[b1].chain_id);
                }
            }
        }
        i = i + 1;
        proof {
            let t = c.take(i as int);
            assert forall|j: int| 0 <= j < t.len() && t[j] != SPECIAL_CHAIN_ID implies exists|b: int|
                0 <= b < batches@.len() && (#[trigger] batches@[b]).chain_id == #[trigger] t[j] by {
                if j < i - 1 {
                    assert(t[j] == c.take(i - 1)[j]);
                    let b0 = choose|b: int| 0 <= b < prev.len() && (#[trigger] prev[b]).chain_id == c.take(i - 1)[j];
                    assert(batches@[b0].chain_id == prev[b0].chain_id);
                } else {
                    let b0 = choose|b: int| 0 <= b < batches@.len() && (#[trigger] batches@[b]).chain_id == ci;
                    assert(batches@[b0].chain_id == ci);
                }
            }
        }
    }
    assert(c.take(c.len() as int) =~= c);
    BatchPlan { batches, special: ChainBatch { chain_id: SPECIAL_CHAIN_ID, indices: special } }
}

/// Slot `k` of batch `b` asks for the asset at position `i`.
pub open spec fn claims(batches: Seq<ChainBatch>, b: int, k: int, i: int) -> bool {
    &&& 0 <= b < batches.len()
    &&& 0 <= k < batches[b].indices@.len()
    &&& batches[b].indices@[k] == i
}

/// Every slot asks for a position below `n`, and no two slots ask for the
/// same position.
pub open spec fn slots_valid(batches: Seq<ChainBatch>, n: nat) -> bool {
    &&& forall|b: int, k: int|
        0 <= b < batches.len() && 0 <= k < batches[b].indices@.len() ==> #[trigger] batches[b].indices@[k] < n
    &&& forall|b1: int, k1: int, b2: int, k2: int|
        #[trigger] claims(batches, b1, k1, batches[b1].indices@[k1] as int) && #[trigger] claims(
            batches,
            b2,
            k2,
            batches[b1].indices@[k1] as int,
        ) ==> b1 == b2 && k1 == k2
}

/// A plan made by grouping gives every asset at most one slot.
pub proof fn lemma_plan_slots_valid(chains: Seq<u128>, batches: Seq<ChainBatch>, special: ChainBatch)
    requires
        chains.len() <= usize::MAX,
        plans(chains, batches, special),
    ensures
        slots_valid(batches, chains.len()),
{
    assert forall|b: int, k: int| 0 <= b < batches.len() && 0 <= k < batches[b].indices@.len() implies #[trigger] batches[b].indices@[k] < chains.len() by {
        lemma_positions_bounded(chains, batches[b].chain_id);
    }
    assert forall|b1: int, k1: int, b2: int, k2: int|
        #[trigger] claims(batches, b1, k1, batches[b1].indices@[k1] as int) && #[trigger] claims(
            batches,
            b2,
            k2,
            batches[b1].indices@[k1] as int,
        ) implies b1 == b2 && k1 == k2 by {
        let i = batches[b1].indices@[k1];
        lemma_positions_bounded(chains, batches[b1].chain_id);
        lemma_positions_bounded(chains, batches[b2].chain_id);
        if b1 != b2 {
            if b1 < b2 {
                assert(batches[b1].chain_id != batches[b2].chain_id);
            } else {
                assert(batches[b2].chain_id != batches[b1].chain_id);
            }
        } else {
            lemma_positions_increasing(chains, batches[b1].chain_id);
        }
    }
}

/// A lone batch that holds the positions of one chain gives every asset at
/// most one slot.
pub proof fn lemma_lone_batch_valid(chains: Seq<u128>, batch: ChainBatch)
    requires
        chains.len() <= usize::MAX,
        batch.indices@ == positions(chains, batch.chain_id),
    ensures
        slots_valid(seq![batch], chains.len()),
{
    let bs = seq![batch];
    lemma_positions_bounded(chains, batch.chain_id);
    lemma_positions_increasing(chains, batch.chain_id);
    assert forall|b: int, k: int| 0 <= b < bs.len() && 0 <= k < bs[b].indices@.len() implies #[trigger] bs[b].indices@[k] < chains.len() by {
        assert(bs[b] == batch);
    }
    assert forall|b1: int, k1: int, b2: int, k2: int|
        #[trigger] claims(bs, b1, k1, bs[b1].indices@[k1] as int) && #[trigger] claims(
            bs,
            b2,
            k2,
            bs[b1].indices@[k1] as int,
        ) implies b1 == b2 && k1 == k2 by {
        assert(bs[b1] == batch && bs[b2] == batch);
    }
}

/// Every batch came back with exactly one result per slot.
pub open spec fn sizes_match<T>(batches: Seq<ChainBatch>, results: Seq<Vec<T>>) -> bool {
    &&& results.len() == batches.len()
    &&& forall|b: int| 0 <= b < batches.len() ==> (#[trigger] results[b])@.len() == batches[b].indices@.len()
}

/// What each of `n` positions receives: the result of the slot that asks for
/// it, or nothing where no slot does.
pub open spec fn scattered<T>(batches: Seq<ChainBatch>, results: Seq<Vec<T>>, n: nat) -> Seq<Option<T>> {
    Seq::new(
        n,
        |i: int|
            if exists|b: int, k: int| claims(batches, b, k, i) {
                let (b, k) = choose|b: int, k: int| claims(batches, b, k, i);
                Some(results[b]@[k])
            } else {
                None
            },
    )
}

/// However the chains' batches are ordered, by submission or by completion,
/// each asset receives the same result: reordering the batches together with
/// their results leaves the scattered outcome unchanged.
pub proof fn lemma_completion_order_free<T>(
    batches: Seq<ChainBatch>,
    results: Seq<Vec<T>>,
    perm: Seq<int>,
    n: nat,
)
    requires
        slots_valid(batches, n),
        sizes_match(batches, results),
        perm.len() == batches.len(),
        forall|j: int| 0 <= j < perm.len() ==> 0 <= #[trigger] perm[j] < batches.len(),
        forall|j1: int, j2: int|
            0 <= j1 < perm.len() && 0 <= j2 < perm.len() && j1 != j2 ==> #[trigger] perm[j1] != #[trigger] perm[j2],
        forall|b: int| 0 <= b < batches.len() ==> #[trigger] perm.contains(b),
    ensures
        scattered(
            Seq::new(batches.len(), |j: int| batches[perm[j]]),
            Seq::new(batches.len(), |j: int| results[perm[j]]),
            n,
        ) == scattered(batches, results, n),
{
    let bs2 = Seq::new(batches.len(), |j: int| batches[perm[j]]);
    let rs2 = Seq::new(batches.len(), |j: int| results[perm[j]]);
    let lhs = scattered(bs2, rs2, n);
    let rhs = scattered(batches, results, n);
    assert forall|i: int| 0 <= i < n implies lhs[i] == rhs[i] by {
        if exists|b: int, k: int| claims(batches, b, k, i) {
            let (b, k) = choose|b: int, k: int| claims(batches, b, k, i);
            assert(perm.contains(b));
            let j = choose|j: int| 0 <= j < perm.len() && #[trigger] perm[j] == b;
            assert(claims(bs2, j, k, i));
            let (j2, k2) = choose|j: int, k: int| claims(bs2, j, k, i);
            assert(claims(batches, perm[j2], k2, i));
            assert(claims(batches, b, k, batches[b].indices@[k] as int));
            assert(claims(batches, perm[j2], k2, batches[b].indices@[k] as int));
        } else {
            if exists|j: int, k: int| claims(bs2, j, k, i) {
                let (j2, k2) = choose|j: int, k: int| claims(bs2, j, k, i);
                assert(claims(batches, perm[j2], k2, i));
            }
        }
    }
    assert(lhs =~= rhs);
}

/// Checks that every batch returned as many results as it asked for, then
/// hands each result to the position its slot stands for. A size mismatch in
/// any batch is fatal: nothing is scattered.
pub fn scatter<T>(n: usize, batches: &Vec<ChainBatch>, results: Vec<Vec<T>>) -> (r: Result<Vec<Option<T>>, BatchError>)
    requires
        slots_valid(batches@, n as nat),
    ensures
        r is Err <==> !sizes_match(batches@, results@),
        r matches Ok(out) ==> out@ == scattered(batches@, results@, n as nat),
{
    if results.len() != batches.len() {
        return Err(BatchError::SizeMismatch { expected: batches.len(), got: results.len() });
    }
    let mut b: usize = 0;
    while b < batches.len()
        invariant
            results@.len() == batches@.len(),
            b <= batches@.len(),
            forall|j: int| 0 <= j < b ==> (#[trigger] results@[j])@.len() == batches@[j].indices@.len(),
        decreases batches@.len() - b,
    {
        if results[b].len() != batches[b].indices.len() {
            return Err(
                BatchError::SizeMismatch { expected: batches[b].indices.len(), got: results[b].len() },
            );
        }
        b = b + 1;
    }
    let ghost bs = batches@;
    let ghost orig = results@;
    let mut out: Vec<Option<T>> = Vec::new();
    let mut i: usize = 0;
    while i < n
        invariant
            i <= n,
            out@.len() == i,
            forall|j: int| 0 <= j < i ==> (#[trigger] out@[j]) is None,
        decreases n - i,
    {
        out.push(None);
        i = i + 1;
    }
    let mut results = results;
    let mut b: usize = 0;
    while b < batches.len()
        invariant
            bs == batches@,
            slots_valid(bs, n as nat),
            sizes_match(bs, orig),
            b <= bs.len(),
            results@ == orig.skip(b as int),
            out@.len() == n,
            forall|b1: int, k1: int|
                0 <= b1 < b && 0 <= k1 < bs[b1].indices@.len() ==> out@[#[trigger] bs[b1].indices@[k1] as int]
                    == Some(orig[b1]@[k1]),
            forall|j: int|
                0 <= j < n && (#[trigger] out@[j]) is Some ==> exists|b1: int, k1: int|
                    b1 < b && claims(bs, b1, k1, j),
        decreases bs.len() - b,
    {
        assert(results@[0] == orig[b as int]);
        let mut rb = results.remove(0);
        assert(results@ =~= orig.skip(b + 1));
        let ghost row = orig[b as int]@;
        let mut k: usize = 0;
        while k < batches[b].indices.len()
            invariant
                bs == batches@,
                slots_valid(bs, n as nat),
                sizes_match(bs, orig),
                b < bs.len(),
                row == orig[b as int]@,
                row.len() == bs[b as int].indices@.len(),
                k <= row.len(),
                rb@ == row.skip(k as int),
                out@.len() == n,
                forall|b1: int, k1: int|
                    ((0 <= b1 < b && 0 <= k1 < bs[b1].indices@.len()) || (b1 == b && 0 <= k1 < k))
                        ==> out@[#[trigger] bs[b1].indices@[k1] as int] == Some(orig[b1]@[k1]),
                forall|j: int|
                    0 <= j < n && (#[trigger] out@[j]) is Some ==> exists|b1: int, k1: int|
                        (b1 < b || (b1 == b && k1 < k)) && claims(bs, b1, k1, j),
            decreases row.len() - k,
        {
            let idx = batches[b].indices[k];
            assert(rb@[0] == row[k as int]);
            let x = rb.remove(0);
            assert(rb@ =~= row.skip(k + 1));
            let ghost before = out@;
            out[idx] = Some(x);
            assert(claims(bs, b as int, k as int, idx as int));
            assert forall|b1: int, k1: int|
                ((0 <= b1 < b && 0 <= k1 < bs[b1].indices@.len()) || (b1 == b && 0 <= k1 < k + 1))
                    implies out@[#[trigger] bs[b1].indices@[k1] as int] == Some(orig[b1]@[k1]) by {
                if b1 != b || k1 != k {
                    assert(claims(bs, b1, k1, bs[b1].indices@[k1] as int));
                    if bs[b1].indices@[k1] == idx {
                        assert(claims(bs, b as int, k as int, bs[b1].indices@[k1] as int));
                    }
                }
            }
            assert forall|j: int| 0 <= j < n && (#[trigger] out@[j]) is Some implies exists|b1: int, k1: int|
                (b1 < b || (b1 == b && k1 < k + 1)) && claims(bs, b1, k1, j) by {
                if j != idx {
                    assert(before[j] is Some);
                }
            }
            k = k + 1;
        }
        b = b + 1;
    }
    assert(out@ =~= scattered(bs, orig, n as nat)) by {
        assert forall|j: int| 0 <= j < n implies out@[j] == #[trigger] scattered(bs, orig, n as nat)[j] by {
            if exists|b1: int, k1: int| claims(bs, b1, k1, j) {
                let (b1, k1) = choose|b1: int, k1: int| claims(bs, b1, k1, j);
                assert(out@[bs[b1].indices@[k1] as int] == Some(orig[b1]@[k1]));
            } else {
                if out@[j] is Some {
                    assert(exists|b1: int, k1: int| b1 < bs.len() && claims(bs, b1, k1, j));
                }
            }
        }
    }
    Ok(out)
}

} // verus!
