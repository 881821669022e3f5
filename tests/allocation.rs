use weight_table::asset::AssetData;
use weight_table::normalize::{
    allocate, AllocationError, MAX_POOL, MIN_RELATIVE_WEIGHT, RESERVED_ALLOCATION, TOTAL_CAPACITY,
};
use weight_table::ratio::{RatioError, SCALE};
use weight_table::table::{
    allocation_order, build_table, calculate_actual_weights, chain_label, reserved_entry,
    INACTIVE_ASSET, RESERVED_TOKEN,
};
use weight_table::u256_division;

fn word(v: u128) -> [u8; 32] {
    let mut out = [0u8; 32];
    out[16..].copy_from_slice(&v.to_be_bytes());
    out
}

fn asset(addr_byte: u8, weight: u128) -> AssetData {
    AssetData {
        id: [addr_byte; 32],
        token_addr: [addr_byte; 20],
        chain_id: 1,
        symbol: Some(format!("T{}", addr_byte)),
        relative_weight: Some(weight),
        converted_weight: None,
    }
}

fn total(units: &[u16]) -> u32 {
    units.iter().map(|u| *u as u32).sum()
}

#[test]
fn check_conversion() {
    let num_one = word(1000);
    let num_two = word(1000);
    let result = u256_division(&num_one, &num_two);
    assert_eq!(result, Ok(SCALE));
}

#[test]
fn ratio_truncates_a_third() {
    assert_eq!(u256_division(&word(1), &word(3)), Ok(3333333333333333333333333333));
    assert_eq!(u256_division(&word(2), &word(3)), Ok(6666666666666666666666666666));
}

#[test]
fn ratio_of_full_width_values() {
    let big = [0xffu8; 32];
    assert_eq!(u256_division(&big, &big), Ok(SCALE));
    let mut half = [0xffu8; 32];
    half[0] = 0x7f;
    assert_eq!(u256_division(&half, &big), Ok(SCALE / 2 - 1));
}

#[test]
fn ratio_zero_denominator() {
    assert_eq!(u256_division(&word(5), &word(0)), Err(RatioError::ZeroDenominator));
}

#[test]
fn ratio_overflow() {
    assert_eq!(u256_division(&word(u128::MAX), &word(1)), Err(RatioError::Overflow));
}

#[test]
fn two_survivors_scenario() {
    let units = allocate(&vec![6 * SCALE / 10, 4 * SCALE / 10]).unwrap();
    assert_eq!(units, vec![38535, 25689]);
    assert_eq!(total(&units) + RESERVED_ALLOCATION as u32, TOTAL_CAPACITY as u32);
}

#[test]
fn remainder_goes_to_first_positions() {
    let units = allocate(&vec![SCALE / 7, 2 * SCALE / 7, 4 * SCALE / 7]).unwrap();
    assert_eq!(units, vec![9175, 18350, 36699]);
    assert_eq!(total(&units) + RESERVED_ALLOCATION as u32, 65535);
}

#[test]
fn equal_weights_share_evenly() {
    let units = allocate(&vec![SCALE / 3, SCALE / 3, SCALE / 3]).unwrap();
    assert_eq!(units, vec![21408, 21408, 21408]);
}

#[test]
fn exactness_over_many_pools() {
    for n in 1..40u128 {
        let ws: Vec<u128> = (1..=n).map(|i| MIN_RELATIVE_WEIGHT + i * i * 79 * SCALE / 10000).collect();
        let units = allocate(&ws).unwrap();
        assert_eq!(total(&units) + RESERVED_ALLOCATION as u32, 65535);
    }
}

#[test]
fn empty_pool_is_fatal() {
    assert_eq!(allocate(&vec![]), Err(AllocationError::EmptyPool));
    assert_eq!(allocate(&vec![0, 0]), Err(AllocationError::EmptyPool));
}

#[test]
fn oversized_pool_is_refused() {
    assert_eq!(allocate(&vec![MAX_POOL, 1]), Err(AllocationError::Overflow));
    assert!(allocate(&vec![MAX_POOL]).is_ok());
}

#[test]
fn filtering_everything_is_fatal() {
    let mut excluded = asset(1, SCALE / 2);
    excluded.token_addr = INACTIVE_ASSET;
    let mut assets = vec![excluded, asset(2, MIN_RELATIVE_WEIGHT - 1)];
    assert_eq!(calculate_actual_weights(&mut assets), Err(AllocationError::EmptyPool));
    assert!(assets.is_empty());
}

#[test]
fn filtering_then_allocating() {
    let mut excluded = asset(9, SCALE / 2);
    excluded.token_addr = INACTIVE_ASSET;
    let mut assets = vec![
        asset(1, 3 * SCALE / 10),
        excluded,
        asset(2, MIN_RELATIVE_WEIGHT - 1),
        asset(3, 2 * SCALE / 10),
    ];
    calculate_actual_weights(&mut assets).unwrap();
    assert_eq!(assets.len(), 2);
    assert_eq!(assets[0].token_addr, [1u8; 20]);
    assert_eq!(assets[1].token_addr, [3u8; 20]);
    assert_eq!(assets[0].converted_weight, Some(38535));
    assert_eq!(assets[1].converted_weight, Some(25689));
    assert_eq!(assets[0].symbol.as_deref(), Some("T1"));
}

#[test]
fn minimum_weight_survives() {
    let mut assets = vec![asset(1, MIN_RELATIVE_WEIGHT)];
    calculate_actual_weights(&mut assets).unwrap();
    assert_eq!(assets[0].converted_weight, Some(64224));
}

#[test]
fn order_is_descending_and_stable() {
    assert_eq!(allocation_order(&vec![5, 9, 5, 1, 9]), vec![1, 4, 0, 2, 3]);
    assert_eq!(allocation_order(&vec![]), Vec::<usize>::new());
}

#[test]
fn table_holds_reserved_row() {
    let mut assets = vec![asset(1, SCALE / 100), asset(2, 98 * SCALE / 100), asset(3, SCALE / 100)];
    calculate_actual_weights(&mut assets).unwrap();
    let table = build_table(assets);
    assert_eq!(table.len(), 4);
    let units: Vec<u16> = table.iter().map(|a| a.converted_weight.unwrap()).collect();
    assert_eq!(units, vec![62939, 1311, 643, 642]);
    assert_eq!(table[1].token_addr, RESERVED_TOKEN);
    assert_eq!(table[2].token_addr, [1u8; 20]);
    assert_eq!(table[3].token_addr, [3u8; 20]);
    assert_eq!(total(&units), 65535);
}

#[test]
fn reserved_row_fields() {
    let r = reserved_entry();
    assert_eq!(r.symbol.as_deref(), Some("JOOCE"));
    assert_eq!(r.chain_id, 8453);
    assert_eq!(r.converted_weight, Some(1311));
    assert_eq!(r.relative_weight, None);
}

#[test]
fn chain_labels() {
    assert_eq!(chain_label(8453), Some("BASE"));
    assert_eq!(chain_label(1151111081099710), Some("SOLANA"));
    assert_eq!(chain_label(42161), Some("ARBITRUM"));
    assert_eq!(chain_label(7), None);
}

#[test]
fn ratio_truncation_bound_holds() {
    for (n, d) in [(1u128, 3u128), (2, 7), (999, 1000), (5, 5), (0, 9), (123456789, 987654321)] {
        let q = u256_division(&word(n), &word(d)).unwrap();
        assert!(q * d <= n * SCALE);
        assert!(n * SCALE < (q + 1) * d);
    }
}
