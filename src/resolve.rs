//! Filling the assets' weights and symbols from the batched reads' results.
use vstd::prelude::*;

use crate::asset::AssetData;
use crate::batch::{
    lemma_lone_batch_valid, lemma_plan_slots_valid, plans, scatter, scattered, sizes_match,
    BatchError, BatchPlan, ChainBatch,
};
use crate::bytes::be_value;
use crate::ratio::{scaled_ratio, u256_division, RatioError};

verus! {

/// What `str::to_uppercase` makes of a string.
pub uninterp spec fn upper_of(s: Seq<char>) -> Seq<char>;

/// Relies on `str::to_uppercase`: the result depends on the characters alone.
#[verifier::external_body]
fn uppercase(s: &str) -> (r: String)
    ensures
        r@ == upper_of(s@),
{
    s.to_uppercase()
}

/// A string with its trailing NUL padding removed.
pub open spec fn trim_nuls(s: Seq<char>) -> Seq<char>
    decreases s.len(),
{
    if s.len() > 0 && s.last() == '\0' {
        trim_nuls(s.drop_last())
    } else {
        s
    }
}

/// Relies on `str::trim_end_matches` with a `char` pattern: every trailing
/// occurrence of the character is removed, nothing else.
#[verifier::external_body]
fn trim_end_nuls(s: &str) -> (r: &str)
    ensures
        r@ == trim_nuls(s@),
{
    s.trim_end_matches('\0')
}

/// The chain tags of a list of assets.
pub open spec fn chains_of(assets: Seq<AssetData>) -> Seq<u128> {
    assets.map_values(|a: AssetData| a.chain_id)
}

/// The chain tags of a list of assets, in order.
pub fn chain_ids(asset_data: &Vec<AssetData>) -> (r: Vec<u128>)
    ensures
        r@ == chains_of(asset_data@),
{
    let mut r: Vec<u128> = Vec::new();
    let mut i: usize = 0;
    while i < asset_data.len()
        invariant
            i <= asset_data@.len(),
            r@ == chains_of(asset_data@).take(i as int),
        decreases asset_data@.len() - i,
    {
        r.push(asset_data[i].chain_id);
        i = i + 1;
        assert(r@ =~= chains_of(asset_data@).take(i as int));
    }
    assert(r@ =~= chains_of(asset_data@));
    r
}

/// The display symbol an asset receives: the uppercased ticker of its chain's
/// batch, or the uppercased, NUL-trimmed metadata symbol of the special chain,
/// or empty where neither was read.
pub open spec fn symbol_of(evm: Option<String>, special: Option<Option<String>>) -> Seq<char> {
    match evm {
        Some(s) => upper_of(s@),
        None => match special {
            Some(Some(raw)) => upper_of(trim_nuls(raw@)),
            _ => Seq::empty(),
        },
    }
}

/// Whether an asset's symbol is set to `s`.
pub open spec fn has_symbol(a: AssetData, s: Seq<char>) -> bool {
    &&& a.symbol matches Some(x) && x@ == s
}

/// Sets every asset's display symbol from the batched ticker reads (one list
/// per ordinary chain batch of `plan`) and the special chain's metadata
/// symbols (`None` where an account was missing or did not decode, which
/// leaves the symbol empty). A batch with the wrong number of results is
/// fatal, and then no asset changes.
pub fn resolve_symbols(
    asset_data: &mut Vec<AssetData>,
    plan: BatchPlan,
    evm_results: Vec<Vec<String>>,
    special_results: Vec<Option<String>>,
) -> (r: Result<(), BatchError>)
    requires
        plans(chains_of(old(asset_data)@), plan.batches@, plan.special),
    ensures
        r is Err <==> !sizes_match(plan.batches@, evm_results@) || special_results@.len()
            != plan.special.indices@.len(),
        r is Err ==> final(asset_data)@ == old(asset_data)@,
        r is Ok ==> final(asset_data)@.len() == old(asset_data)@.len() && forall|i: int|
            0 <= i < old(asset_data)@.len() ==> {
                let a = #[trigger] final(asset_data)@[i];
                let o = old(asset_data)@[i];
                &&& a.id == o.id && a.token_addr == o.token_addr && a.chain_id == o.chain_id
                &&& a.relative_weight == o.relative_weight && a.converted_weight == o.converted_weight
                &&& has_symbol(
                    a,
                    symbol_of(
                        scattered(plan.batches@, evm_results@, old(asset_data)@.len())[i],
                        scattered(seq![plan.special], seq![special_results], old(asset_data)@.len())[i],
                    ),
                )
            },
{
    let n = asset_data.len();
    let ghost plan_in = plan;
    proof {
        lemma_plan_slots_valid(chains_of(asset_data@), plan_in.batches@, plan.special);
        lemma_lone_batch_valid(chains_of(asset_data@), plan.special);
    }
    let ghost evm_in = evm_results@;
    let ghost special_in = special_results;
    let evm = match scatter(n, &plan.batches, evm_results) {
        Ok(v) => v,
        Err(e) => {
            return Err(e);
        },
    };
    let BatchPlan { batches: _, special: special_batch } = plan;
    let mut special_batches: Vec<ChainBatch> = Vec::new();
    special_batches.push(special_batch);
    let mut special_in_vec: Vec<Vec<Option<String>>> = Vec::new();
    special_in_vec.push(special_results);
    assert(special_batches@ =~= seq![plan_in.special]);
    assert(special_in_vec@ =~= seq![special_in]);
    assert(sizes_match(special_batches@, special_in_vec@) <==> special_in@.len()
        == plan_in.special.indices@.len()) by {
        assert(special_batches@[0] == plan_in.special);
        assert(special_in_vec@[0] == special_in);
    }
    let special = match scatter(n, &special_batches, special_in_vec) {
        Ok(v) => v,
        Err(e) => {
            return Err(e);
        },
    };
    let ghost before = asset_data@;
    let mut evm = evm;
    let mut special = special;
    let mut i: usize = 0;
    while i < n
        invariant
            n == before.len(),
            asset_data@.len() == n,
            evm@.len() == n,
            special@.len() == n,
            i <= n,
            forall|k: int| i <= k < n ==> #[trigger] asset_data@[k] == before[k],
            forall|k: int| i <= k < n ==> #[trigger] evm@[k] == scattered(plan_in.batches@, evm_in, n as nat)[k],
            forall|k: int| i <= k < n ==> #[trigger] special@[k] == scattered(seq![plan_in.special], seq![special_in], n as nat)[k],
            forall|k: int| 0 <= k < i ==> {
                let a = #[trigger] asset_data@[k];
                let o = before[k];
                &&& a.id == o.id && a.token_addr == o.token_addr && a.chain_id == o.chain_id
                &&& a.relative_weight == o.relative_weight && a.converted_weight == o.converted_weight
                &&& has_symbol(
                    a,
                    symbol_of(
                        scattered(plan_in.batches@, evm_in, n as nat)[k],
                        scattered(seq![plan_in.special], seq![special_in], n as nat)[k],
                    ),
                )
            },
        decreases n - i,
    {
        let e = evm[i].take();
        let sp = special[i].take();
        let symbol = match e {
            Some(s) => uppercase(s.as_str()),
            None => match sp {
                Some(Some(raw)) => uppercase(trim_end_nuls(raw.as_str())),
                _ => String::new(),
            },
        };
        asset_data[i].symbol = Some(symbol);
        i = i + 1;
    }
    Ok(())
}

/// Why the relative weights could not be set.
#[derive(Debug, Clone, Copy, PartialEq, Eq, Structural)]
pub enum WeightError {
    /// The weight batch returned another number of results than assets.
    SizeMismatch { expected: usize, got: usize },
    /// A weight could not be turned into fixed point.
    Ratio(RatioError),
}

/// The fixed-point relative weight of a raw weight against the total.
pub open spec fn relative_of(weight: [u8; 32], total: [u8; 32]) -> nat {
    scaled_ratio(be_value(weight@), be_value(total@))
}

/// Sets every asset's relative weight to `weights[i] / total` in fixed
/// point, from one batched read with one raw weight per asset. Any failure is
/// fatal, and then no asset changes: a batch of the wrong size, a zero total,
/// or a ratio too large for 128 bits.
pub fn apply_relative_weights(
    asset_data: &mut Vec<AssetData>,
    weights: &Vec<[u8; 32]>,
    total: &[u8; 32],
) -> (r: Result<(), WeightError>)
    ensures
        r == Err::<(), WeightError>(
            WeightError::SizeMismatch { expected: old(asset_data)@.len() as usize, got: weights@.len() as usize },
        ) <==> weights@.len() != old(asset_data)@.len(),
        r == Err::<(), WeightError>(WeightError::Ratio(RatioError::ZeroDenominator)) <==> weights@.len()
            == old(asset_data)@.len() > 0 && be_value(total@) == 0,
        r == Err::<(), WeightError>(WeightError::Ratio(RatioError::Overflow)) <==> weights@.len()
            == old(asset_data)@.len() && be_value(total@) > 0 && exists|i: int|
            0 <= i < weights@.len() && relative_of(#[trigger] weights@[i], *total) > u128::MAX,
        r is Ok <==> weights@.len() == old(asset_data)@.len() && (weights@.len() == 0 || be_value(
            total@,
        ) > 0) && forall|i: int|
            0 <= i < weights@.len() ==> relative_of(#[trigger] weights@[i], *total) <= u128::MAX,
        r is Err ==> final(asset_data)@ == old(asset_data)@,
        r is Ok ==> final(asset_data)@.len() == old(asset_data)@.len() && forall|i: int|
            0 <= i < old(asset_data)@.len() ==> {
                let a = #[trigger] final(asset_data)@[i];
                let o = old(asset_data)@[i];
                &&& a.id == o.id && a.token_addr == o.token_addr && a.chain_id == o.chain_id
                &&& a.symbol == o.symbol && a.converted_weight == o.converted_weight
                &&& a.relative_weight == Some(relative_of(weights@[i], *total) as u128)
            },
{
    let n = asset_data.len();
    if weights.len() != n {
        return Err(WeightError::SizeMismatch { expected: n, got: weights.len() });
    }
    let mut ratios: Vec<u128> = Vec::new();
    let mut i: usize = 0;
    while i < n
        invariant
            n == asset_data@.len(),
            weights@.len() == n,
            i <= n,
            ratios@.len() == i,
            be_value(total@) > 0 || i == 0,
            forall|k: int| 0 <= k < i ==> #[trigger] ratios@[k] == relative_of(weights@[k], *total),
            forall|k: int| 0 <= k < i ==> relative_of(#[trigger] weights@[k], *total) <= u128::MAX,
        decreases n - i,
    {
        match u256_division(&weights[i], total) {
            Ok(q) => ratios.push(q),
            Err(e) => {
                assert(e == RatioError::Overflow ==> relative_of(weights@[i as int], *total) > u128::MAX);
                return Err(WeightError::Ratio(e));
            },
        }
        i = i + 1;
    }
    assert(!exists|k: int| 0 <= k < weights@.len() && relative_of(#[trigger] weights@[k], *total) > u128::MAX);
    let ghost before = asset_data@;
    let mut i: usize = 0;
    while i < n
        invariant
            n == before.len(),
            asset_data@.len() == n,
            ratios@.len() == n,
            i <= n,
            forall|k: int| 0 <= k < n ==> #[trigger] ratios@[k] == relative_of(weights@[k], *total),
            forall|k: int| i <= k < n ==> #[trigger] asset_data@[k] == before[k],
            forall|k: int| 0 <= k < i ==> {
                let a = #[trigger] asset_data@[k];
                let o = before[k];
                &&& a.id == o.id && a.token_addr == o.token_addr && a.chain_id == o.chain_id
                &&& a.symbol == o.symbol && a.converted_weight == o.converted_weight
                &&& a.relative_weight == Some(relative_of(weights@[k], *total) as u128)
            },
        decreases n - i,
    {
        asset_data[i].relative_weight = Some(ratios[i]);
        i = i + 1;
    }
    Ok(())
}

} // verus!
