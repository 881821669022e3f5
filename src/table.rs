//! The allocation table: filtering the assets, allocating their units and
//! ordering the rows.
use vstd::prelude::*;

use crate::asset::{same_address, AssetData, SPECIAL_CHAIN_ID};
use crate::normalize::{
    allocate, allocation, lemma_filtered_pool_positive, pool_sum, AllocationError, MAX_POOL,
    MIN_RELATIVE_WEIGHT, RESERVED_ALLOCATION,
};

verus! {

/// Token address of the one asset that is never part of the pool.
pub const INACTIVE_ASSET: [u8; 20] = [
    0x57, 0x6e, 0x2b, 0xed, 0x8f, 0x7b, 0x46, 0xd3, 0x40, 0x16,
    0x19, 0x89, 0x11, 0xcd, 0xf9, 0x88, 0x6f, 0x78, 0xbe, 0xa7,
];

/// Whether an asset stays in the pool: it is not excluded, and its relative
/// weight reaches the minimum relevance.
pub open spec fn is_survivor(a: AssetData) -> bool {
    &&& a.token_addr@ != INACTIVE_ASSET@
    &&& a.relative_weight matches Some(w) && w >= MIN_RELATIVE_WEIGHT
}

/// The assets that stay in the pool, in their order.
pub open spec fn survivors(s: Seq<AssetData>) -> Seq<AssetData>
    decreases s.len(),
{
    if s.len() == 0 {
        s
    } else if is_survivor(s.last()) {
        survivors(s.drop_last()).push(s.last())
    } else {
        survivors(s.drop_last())
    }
}

/// The relative weights of a list of assets whose weights are known.
pub open spec fn weights_of(s: Seq<AssetData>) -> Seq<u128> {
    s.map_values(|a: AssetData| a.relative_weight->0)
}

/// An asset with its final units set, and nothing else changed.
pub open spec fn with_units(a: AssetData, units: int) -> AssetData {
    AssetData { converted_weight: Some(units as u16), ..a }
}

proof fn lemma_survivors_weights(s: Seq<AssetData>)
    ensures
        forall|i: int|
            0 <= i < survivors(s).len() ==> #[trigger] is_survivor(survivors(s)[i]),
    decreases s.len(),
{
    if s.len() > 0 {
        let p = survivors(s.drop_last());
        lemma_survivors_weights(s.drop_last());
        assert forall|i: int| 0 <= i < survivors(s).len() implies #[trigger] is_survivor(
            survivors(s)[i],
        ) by {
            if i < p.len() {
                assert(survivors(s)[i] == p[i]);
            }
        }
    }
}

/// Whether an asset stays in the pool; its relative weight must be known.
pub fn keeps(a: &AssetData) -> (r: bool)
    requires
        a.relative_weight is Some,
    ensures
        r == is_survivor(*a),
{
    match a.relative_weight {
        Some(w) => !same_address(&a.token_addr, &INACTIVE_ASSET) && w >= MIN_RELATIVE_WEIGHT,
        None => false,
    }
}

/// Drops the excluded and irrelevant assets, keeping the order of the rest.
pub fn retain_survivors(asset_data: &mut Vec<AssetData>)
    requires
        forall|i: int| 0 <= i < old(asset_data)@.len() ==> (#[trigger] old(asset_data)@[i]).relative_weight is Some,
    ensures
        final(asset_data)@ == survivors(old(asset_data)@),
{
    let ghost orig = asset_data@;
    let ghost mut j: int = 0;
    let mut i: usize = 0;
    while i < asset_data.len()
        invariant
            0 <= j <= orig.len(),
            forall|k: int| 0 <= k < orig.len() ==> (#[trigger] orig[k]).relative_weight is Some,
            i == survivors(orig.take(j)).len(),
            asset_data@ == survivors(orig.take(j)) + orig.skip(j),
        decreases asset_data@.len() - i,
    {
        assert(orig.take(j + 1).drop_last() =~= orig.take(j));
        assert(asset_data@[i as int] == orig[j]);
        if keeps(&asset_data[i]) {
            assert(survivors(orig.take(j)).push(orig[j]) + orig.skip(j + 1) =~= survivors(
                orig.take(j),
            ) + orig.skip(j));
            i = i + 1;
        } else {
            let _ = asset_data.remove(i);
            assert(survivors(orig.take(j)) + orig.skip(j + 1) =~= (survivors(orig.take(j))
                + orig.skip(j)).remove(i as int));
        }
        proof {
            j = j + 1;
        }
    }
    assert(orig.skip(j).len() == 0);
    assert(j == orig.len());
    assert(orig.take(j) =~= orig);
    assert(asset_data@ =~= survivors(orig));
}

/// Filters the assets and gives each survivor its final units. On success the
/// survivors stand in their order, each with `converted_weight` set to its
/// allocation; on failure they stand filtered, with no units set.
pub fn calculate_actual_weights(asset_data: &mut Vec<AssetData>) -> (r: Result<(), AllocationError>)
    requires
        forall|i: int| 0 <= i < old(asset_data)@.len() ==> (#[trigger] old(asset_data)@[i]).relative_weight is Some,
    ensures
        ({
            let kept = survivors(old(asset_data)@);
            let ws = weights_of(kept);
            &&& r == Err::<(), AllocationError>(AllocationError::EmptyPool) <==> kept.len() == 0
            &&& r == Err::<(), AllocationError>(AllocationError::Overflow) <==> pool_sum(ws) > MAX_POOL
            &&& r is Err ==> final(asset_data)@ == kept
            &&& r is Ok ==> final(asset_data)@.len() == kept.len() && forall|i: int|
                0 <= i < kept.len() ==> #[trigger] final(asset_data)@[i] == with_units(
                    kept[i],
                    allocation(ws, i),
                )
        }),
{
    let ghost before = asset_data@;
    retain_survivors(asset_data);
    let ghost kept = asset_data@;
    let ghost ws = weights_of(kept);
    proof {
        lemma_survivors_weights(before);
        assert(kept == survivors(before));
    }
    let mut weights: Vec<u128> = Vec::new();
    let mut i: usize = 0;
    while i < asset_data.len()
        invariant
            asset_data@ == kept,
            forall|k: int| 0 <= k < kept.len() ==> #[trigger] is_survivor(kept[k]),
            i <= kept.len(),
            weights@ == weights_of(kept).take(i as int),
        decreases kept.len() - i,
    {
        assert(is_survivor(kept[i as int]));
        let w = match asset_data[i].relative_weight {
            Some(w) => w,
            None => 0,
        };
        weights.push(w);
        i = i + 1;
        assert(weights@ =~= weights_of(kept).take(i as int));
    }
    assert(weights@ =~= ws);
    proof {
        if kept.len() > 0 {
            assert forall|k: int| 0 <= k < ws.len() implies ws[k] >= MIN_RELATIVE_WEIGHT by {
                assert(is_survivor(kept[k]));
            }
            lemma_filtered_pool_positive(ws);
        } else {
            assert(ws.len() == 0);
        }
    }
    let units = match allocate(&weights) {
        Ok(u) => u,
        Err(e) => {
            return Err(e);
        },
    };
    let mut i: usize = 0;
    while i < asset_data.len()
        invariant
            asset_data@.len() == kept.len(),
            units@.len() == kept.len(),
            forall|k: int| 0 <= k < units@.len() ==> units@[k] == allocation(ws, k),
            i <= kept.len(),
            forall|k: int| 0 <= k < i ==> #[trigger] asset_data@[k] == with_units(kept[k], allocation(ws, k)),
            forall|k: int| i <= k < kept.len() ==> #[trigger] asset_data@[k] == kept[k],
        decreases kept.len() - i,
    {
        asset_data[i].converted_weight = Some(units[i]);
        i = i + 1;
    }
    Ok(())
}

/// Display name of a chain tag, where it is known.
pub open spec fn label_of(chain_id: u128) -> Option<Seq<char>> {
    if chain_id == SPECIAL_CHAIN_ID {
        Some("SOLANA"@)
    } else if chain_id == 8453 {
        Some("BASE"@)
    } else if chain_id == 1 {
        Some("ETHEREUM"@)
    } else if chain_id == 56 {
        Some("BSC"@)
    } else if chain_id == 43114 {
        Some("AVALANCHE"@)
    } else if chain_id == 10 {
        Some("OPTIMISM"@)
    } else if chain_id == 42161 {
        Some("ARBITRUM"@)
    } else {
        None
    }
}

/// Display name of a chain tag, for the table's chain column.
pub fn chain_label(chain_id: u128) -> (r: Option<&'static str>)
    ensures
        r is None <==> label_of(chain_id) is None,
        r matches Some(s) ==> label_of(chain_id) == Some(s@),
{
    if chain_id == SPECIAL_CHAIN_ID {
        Some("SOLANA")
    } else if chain_id == 8453 {
        Some("BASE")
    } else if chain_id == 1 {
        Some("ETHEREUM")
    } else if chain_id == 56 {
        Some("BSC")
    } else if chain_id == 43114 {
        Some("AVALANCHE")
    } else if chain_id == 10 {
        Some("OPTIMISM")
    } else if chain_id == 42161 {
        Some("ARBITRUM")
    } else {
        None
    }
}

/// Token address of the reserved row.
pub const RESERVED_TOKEN: [u8; 20] = [
    0x10, 0x0c, 0xe3, 0xe3, 0x39, 0x1c, 0x00, 0xb6, 0xa5, 0x29,
    0x11, 0x31, 0x3a, 0x4e, 0xa8, 0xd2, 0x3c, 0x8a, 0x38, 0xd8,
];

/// Chain tag of the reserved row.
pub const RESERVED_CHAIN_ID: u128 = 8453;

/// The synthetic reserved row: a fixed, protocol-owned entry with its fixed
/// units and no relative weight.
pub fn reserved_entry() -> (r: AssetData)
    ensures
        r.id@ == Seq::new(32, |i: int| 0u8),
        r.token_addr == RESERVED_TOKEN,
        r.chain_id == RESERVED_CHAIN_ID,
        r.symbol matches Some(s) && s@ == "JOOCE"@,
        r.relative_weight is None,
        r.converted_weight == Some(RESERVED_ALLOCATION),
{
    let id: [u8; 32] = [0u8; 32];
    assert(id@ =~= Seq::new(32, |i: int| 0u8));
    AssetData {
        id,
        token_addr: RESERVED_TOKEN,
        chain_id: RESERVED_CHAIN_ID,
        symbol: Some("JOOCE".to_owned()),
        relative_weight: None,
        converted_weight: Some(RESERVED_ALLOCATION),
    }
}

/// Row `a` comes before row `b`: more units first, and the earlier position
/// first among equal units.
pub open spec fn ranks_before(units: Seq<u16>, a: int, b: int) -> bool {
    units[a] > units[b] || (units[a] == units[b] && a < b)
}

/// `order` lists every position of `units` once, more units first and ties
/// in their original order.
pub open spec fn is_allocation_order(units: Seq<u16>, order: Seq<usize>) -> bool {
    &&& order.len() == units.len()
    &&& forall|j: int| 0 <= j < order.len() ==> #[trigger] order[j] < units.len()
    &&& forall|k: usize| k < units.len() ==> #[trigger] order.contains(k)
    &&& forall|j1: int, j2: int|
        0 <= j1 < j2 < order.len() ==> ranks_before(units, #[trigger] order[j1] as int, #[trigger] order[j2] as int)
}

/// The positions of `units` sorted by descending units, stable on position.
pub fn allocation_order(units: &Vec<u16>) -> (order: Vec<usize>)
    ensures
        is_allocation_order(units@, order@),
{
    let n = units.len();
    let mut order: Vec<usize> = Vec::new();
    let mut i: usize = 0;
    while i < n
        invariant
            n == units@.len(),
            i <= n,
            order@.len() == i,
            forall|j: int| 0 <= j < order@.len() ==> #[trigger] order@[j] < i,
            forall|k: usize| k < i ==> #[trigger] order@.contains(k),
            forall|j1: int, j2: int|
                0 <= j1 < j2 < order@.len() ==> ranks_before(units@, #[trigger] order@[j1] as int, #[trigger] order@[j2] as int),
        decreases n - i,
    {
        let mut p: usize = 0;
        while p < order.len() && units[order[p]] >= units[i]
            invariant
                n == units@.len(),
                i < n,
                p <= order@.len(),
                forall|j: int| 0 <= j < order@.len() ==> #[trigger] order@[j] < i,
                forall|j: int| 0 <= j < p ==> units@[#[trigger] order@[j] as int] >= units@[i as int],
            decreases order@.len() - p,
        {
            p = p + 1;
        }
        let ghost prev = order@;
        order.insert(p, i);
        assert(order@ == prev.insert(p as int, i));
        assert forall|k: usize| k < i + 1 implies #[trigger] order@.contains(k) by {
            if k < i {
                assert(prev.contains(k));
                let j = choose|j: int| 0 <= j < prev.len() && prev[j] == k;
                if j < p {
                    assert(order@[j] == k);
                } else {
                    assert(order@[j + 1] == k);
                }
            } else {
                assert(order@[p as int] == i);
            }
        }
        assert forall|j1: int, j2: int| 0 <= j1 < j2 < order@.len() implies ranks_before(
            units@,
            #[trigger] order@[j1] as int,
            #[trigger] order@[j2] as int,
        ) by {
            if j2 < p {
                assert(ranks_before(units@, prev[j1] as int, prev[j2] as int));
            } else if j2 == p {
                assert(units@[prev[j1] as int] >= units@[i as int]);
            } else if j1 == p {
                if p < prev.len() {
                    assert(units@[prev[p as int] as int] < units@[i as int]);
                    if j2 - 1 > p {
                        assert(ranks_before(units@, prev[p as int] as int, prev[j2 - 1] as int));
                    }
                }
            } else if j1 < p {
                assert(ranks_before(units@, prev[j1] as int, prev[j2 - 1] as int));
            } else {
                assert(ranks_before(units@, prev[j1 - 1] as int, prev[j2 - 1] as int));
            }
        }
        i = i + 1;
    }
    order
}

/// The units of a list of rows whose units are known.
pub open spec fn units_of(rows: Seq<AssetData>) -> Seq<u16> {
    rows.map_values(|a: AssetData| a.converted_weight->0)
}

/// `sorted` is `rows` taken in the order `order`.
pub open spec fn permuted_by(rows: Seq<AssetData>, order: Seq<usize>, sorted: Seq<AssetData>) -> bool {
    &&& sorted.len() == order.len()
    &&& forall|j: int| 0 <= j < order.len() ==> #[trigger] sorted[j] == rows[order[j] as int]
}

/// Sorts rows by descending units; rows with equal units keep their order.
pub fn sort_by_allocation(rows: Vec<AssetData>) -> (r: Vec<AssetData>)
    requires
        forall|i: int| 0 <= i < rows@.len() ==> (#[trigger] rows@[i]).converted_weight is Some,
    ensures
        exists|order: Seq<usize>|
            is_allocation_order(units_of(rows@), order) && permuted_by(rows@, order, r@),
{
    let ghost orig = rows@;
    let n = rows.len();
    let mut rows = rows;
    let mut slots: Vec<Option<AssetData>> = Vec::new();
    let mut units: Vec<u16> = Vec::new();
    let mut i: usize = 0;
    while i < n
        invariant
            n == orig.len(),
            forall|k: int| 0 <= k < n ==> (#[trigger] orig[k]).converted_weight is Some,
            i <= n,
            rows@ == orig.skip(i as int),
            slots@.len() == i,
            forall|k: int| 0 <= k < i ==> #[trigger] slots@[k] == Some(orig[k]),
            units@ == units_of(orig).take(i as int),
        decreases n - i,
    {
        assert(rows@[0] == orig[i as int]);
        let row = rows.remove(0);
        assert(rows@ =~= orig.skip(i + 1));
        let u = match row.converted_weight {
            Some(u) => u,
            None => 0,
        };
        units.push(u);
        slots.push(Some(row));
        i = i + 1;
        assert(units@ =~= units_of(orig).take(i as int));
    }
    assert(units@ =~= units_of(orig));
    let order = allocation_order(&units);
    let mut out: Vec<AssetData> = Vec::new();
    let mut j: usize = 0;
    while j < n
        invariant
            n == orig.len(),
            is_allocation_order(units_of(orig), order@),
            j <= n,
            slots@.len() == n,
            forall|k: int|
                0 <= k < n ==> #[trigger] slots@[k] == if order@.take(j as int).contains(k as usize) {
                    None
                } else {
                    Some(orig[k])
                },
            out@.len() == j,
            forall|m: int| 0 <= m < j ==> #[trigger] out@[m] == orig[order@[m] as int],
        decreases n - j,
    {
        let k = order[j];
        assert(!order@.take(j as int).contains(k)) by {
            if order@.take(j as int).contains(k) {
                let m = choose|m: int| 0 <= m < j && order@.take(j as int)[m] == k;
                assert(ranks_before(units_of(orig), order@[m] as int, order@[j as int] as int));
            }
        }
        assert(order@.take(j + 1) =~= order@.take(j as int).push(k));
        let ghost prev_slots = slots@;
        let ghost prefix = order@.take(j as int);
        let taken = slots[k].take();
        assert(slots@ == prev_slots.update(k as int, None));
        match taken {
            Some(row) => out.push(row),
            None => {},
        }
        j = j + 1;
        assert forall|q: int| 0 <= q < n implies #[trigger] slots@[q] == if order@.take(
            j as int,
        ).contains(q as usize) {
            None
        } else {
            Some(orig[q])
        } by {
            let ext = order@.take(j as int);
            assert(ext == prefix.push(k));
            if q != k as int {
                assert(slots@[q] == prev_slots[q]);
                if prefix.contains(q as usize) {
                    let m = choose|m: int| 0 <= m < prefix.len() && prefix[m] == q as usize;
                    assert(ext[m] == q as usize);
                }
                if ext.contains(q as usize) {
                    let m = choose|m: int| 0 <= m < ext.len() && ext[m] == q as usize;
                    assert(prefix[m] == q as usize);
                }
            } else {
                assert(ext[ext.len() - 1] == q as usize);
            }
        }
    }
    out
}

/// Whether a row is the reserved row.
pub open spec fn is_reserved_row(a: AssetData) -> bool {
    &&& a.token_addr == RESERVED_TOKEN
    &&& a.chain_id == RESERVED_CHAIN_ID
    &&& a.symbol matches Some(s) && s@ == "JOOCE"@
    &&& a.relative_weight is None
    &&& a.converted_weight == Some(RESERVED_ALLOCATION)
}

/// The final table: the allocated assets and the reserved row, sorted by
/// descending units, ties kept in list order with the reserved row last.
pub fn build_table(asset_data: Vec<AssetData>) -> (r: Vec<AssetData>)
    requires
        forall|i: int| 0 <= i < asset_data@.len() ==> (#[trigger] asset_data@[i]).converted_weight is Some,
    ensures
        exists|reserved: AssetData, order: Seq<usize>|
            is_reserved_row(reserved) && is_allocation_order(units_of(asset_data@.push(reserved)), order)
                && permuted_by(asset_data@.push(reserved), order, r@),
{
    let ghost before = asset_data@;
    let mut rows = asset_data;
    let reserved = reserved_entry();
    let ghost res = reserved;
    rows.push(reserved);
    assert(rows@ == before.push(res));
    let r = sort_by_allocation(rows);
    assert(is_reserved_row(res));
    r
}

} // verus!
