use weight_table::asset::{AssetData, SPECIAL_CHAIN_ID};
use weight_table::batch::{plan_batches, scatter, BatchError, ChainBatch};
use weight_table::ratio::{RatioError, SCALE};
use weight_table::resolve::{apply_relative_weights, chain_ids, resolve_symbols, WeightError};

fn word(v: u128) -> [u8; 32] {
    let mut out = [0u8; 32];
    out[16..].copy_from_slice(&v.to_be_bytes());
    out
}

fn on_chain(chain_id: u128, tag: u8) -> AssetData {
    AssetData {
        id: [tag; 32],
        token_addr: [tag; 20],
        chain_id,
        symbol: None,
        relative_weight: None,
        converted_weight: None,
    }
}

fn sample() -> Vec<AssetData> {
    vec![
        on_chain(1, 0),
        on_chain(8453, 1),
        on_chain(1, 2),
        on_chain(SPECIAL_CHAIN_ID, 3),
        on_chain(56, 4),
        on_chain(8453, 5),
    ]
}

fn strings(v: &[&str]) -> Vec<String> {
    v.iter().map(|s| s.to_string()).collect()
}

#[test]
fn plan_groups_by_first_appearance() {
    let plan = plan_batches(&chain_ids(&sample()));
    let got: Vec<(u128, Vec<usize>)> = plan.batches.iter().map(|b| (b.chain_id, b.indices.clone())).collect();
    assert_eq!(got, vec![(1, vec![0, 2]), (8453, vec![1, 5]), (56, vec![4])]);
    assert_eq!(plan.special.chain_id, SPECIAL_CHAIN_ID);
    assert_eq!(plan.special.indices, vec![3]);
}

#[test]
fn plan_of_nothing() {
    let plan = plan_batches(&vec![]);
    assert!(plan.batches.is_empty());
    assert!(plan.special.indices.is_empty());
}

#[test]
fn symbols_land_in_input_order() {
    let mut assets = sample();
    let plan = plan_batches(&chain_ids(&assets));
    let evm = vec![strings(&["weth", "usdc"]), strings(&["aero", "Degen"]), strings(&["cake"])];
    let special = vec![Some("bonk\0\0\0\0".to_string())];
    resolve_symbols(&mut assets, plan, evm, special).unwrap();
    let got: Vec<String> = assets.iter().map(|a| a.symbol.clone().unwrap()).collect();
    assert_eq!(got, strings(&["WETH", "AERO", "USDC", "BONK", "CAKE", "DEGEN"]));
    assert_eq!(assets[4].token_addr, [4u8; 20]);
}

#[test]
fn undecodable_metadata_leaves_symbol_empty() {
    let mut assets = sample();
    let plan = plan_batches(&chain_ids(&assets));
    let evm = vec![strings(&["a", "b"]), strings(&["c", "d"]), strings(&["e"])];
    resolve_symbols(&mut assets, plan, evm, vec![None]).unwrap();
    assert_eq!(assets[3].symbol.as_deref(), Some(""));
    assert_eq!(assets[0].symbol.as_deref(), Some("A"));
}

#[test]
fn short_symbol_batch_is_fatal() {
    let mut assets = sample();
    let plan = plan_batches(&chain_ids(&assets));
    let evm = vec![strings(&["weth"]), strings(&["aero", "degen"]), strings(&["cake"])];
    let r = resolve_symbols(&mut assets, plan, evm, vec![None]);
    assert_eq!(r, Err(BatchError::SizeMismatch { expected: 2, got: 1 }));
    assert!(assets.iter().all(|a| a.symbol.is_none()));
}

#[test]
fn short_special_batch_is_fatal() {
    let mut assets = sample();
    let plan = plan_batches(&chain_ids(&assets));
    let evm = vec![strings(&["a", "b"]), strings(&["c", "d"]), strings(&["e"])];
    let r = resolve_symbols(&mut assets, plan, evm, vec![]);
    assert_eq!(r, Err(BatchError::SizeMismatch { expected: 1, got: 0 }));
}

#[test]
fn scatter_is_independent_of_completion_order() {
    let batches = vec![
        ChainBatch { chain_id: 1, indices: vec![0, 2] },
        ChainBatch { chain_id: 8453, indices: vec![1, 4] },
        ChainBatch { chain_id: 56, indices: vec![3] },
    ];
    let in_submission = scatter(5, &batches, vec![vec!['a', 'c'], vec!['b', 'e'], vec!['d']]).unwrap();
    let reordered = vec![
        ChainBatch { chain_id: 56, indices: vec![3] },
        ChainBatch { chain_id: 1, indices: vec![0, 2] },
        ChainBatch { chain_id: 8453, indices: vec![1, 4] },
    ];
    let in_completion = scatter(5, &reordered, vec![vec!['d'], vec!['a', 'c'], vec!['b', 'e']]).unwrap();
    let expected = vec![Some('a'), Some('b'), Some('c'), Some('d'), Some('e')];
    assert_eq!(in_submission, expected);
    assert_eq!(in_completion, expected);
}

#[test]
fn scatter_leaves_unrouted_positions_empty() {
    let batches = vec![ChainBatch { chain_id: 1, indices: vec![1] }];
    assert_eq!(scatter(3, &batches, vec![vec![7u8]]).unwrap(), vec![None, Some(7), None]);
}

#[test]
fn batch_one_short_is_fatal() {
    let batches = vec![
        ChainBatch { chain_id: 1, indices: vec![0, 1] },
        ChainBatch { chain_id: 10, indices: vec![2, 3, 4] },
    ];
    let r = scatter(5, &batches, vec![vec![1u8, 2], vec![3, 4]]);
    assert_eq!(r, Err(BatchError::SizeMismatch { expected: 3, got: 2 }));
    let r = scatter(5, &batches, vec![vec![1u8, 2]]);
    assert_eq!(r, Err(BatchError::SizeMismatch { expected: 2, got: 1 }));
}

#[test]
fn weights_applied_by_position() {
    let mut assets = sample();
    let weights = vec![word(1), word(2), word(3), word(4), word(0), word(10)];
    apply_relative_weights(&mut assets, &weights, &word(10)).unwrap();
    let got: Vec<u128> = assets.iter().map(|a| a.relative_weight.unwrap()).collect();
    assert_eq!(got, vec![SCALE / 10, SCALE / 5, 3 * SCALE / 10, 2 * SCALE / 5, 0, SCALE]);
}

#[test]
fn weight_batch_one_short_is_fatal() {
    let mut assets = sample();
    let weights = vec![word(1); 5];
    let r = apply_relative_weights(&mut assets, &weights, &word(10));
    assert_eq!(r, Err(WeightError::SizeMismatch { expected: 6, got: 5 }));
    assert!(assets.iter().all(|a| a.relative_weight.is_none()));
}

#[test]
fn weight_total_zero_is_fatal() {
    let mut assets = sample();
    let weights = vec![word(1); 6];
    let r = apply_relative_weights(&mut assets, &weights, &word(0));
    assert_eq!(r, Err(WeightError::Ratio(RatioError::ZeroDenominator)));
    assert!(assets.iter().all(|a| a.relative_weight.is_none()));
}

#[test]
fn weight_too_large_is_fatal() {
    let mut assets = vec![on_chain(1, 0), on_chain(1, 1)];
    let weights = vec![word(1), word(u128::MAX)];
    let r = apply_relative_weights(&mut assets, &weights, &word(1));
    assert_eq!(r, Err(WeightError::Ratio(RatioError::Overflow)));
    assert!(assets[0].relative_weight.is_none());
}
