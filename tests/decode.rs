use weight_table::asset::{decode_asset_id, SPECIAL_CHAIN_ID, SPECIAL_CHAIN_SENTINEL};
use weight_table::decode_asset_ids;

fn packed(high: [u8; 12], addr: [u8; 20]) -> [u8; 32] {
    let mut id = [0u8; 32];
    id[..12].copy_from_slice(&high);
    id[12..].copy_from_slice(&addr);
    id
}

#[test]
fn decodes_chain_and_address() {
    let mut high = [0u8; 12];
    high[10] = 0x21;
    high[11] = 0x05;
    let id = packed(high, [0xab; 20]);
    let a = decode_asset_id(&id);
    assert_eq!(a.chain_id, 8453);
    assert_eq!(a.token_addr, [0xab; 20]);
    assert_eq!(a.id, id);
    assert!(a.symbol.is_none() && a.relative_weight.is_none() && a.converted_weight.is_none());
}

#[test]
fn decodes_full_width_chain_tag() {
    let a = decode_asset_id(&packed([0xff; 12], [1; 20]));
    assert_eq!(a.chain_id, (1u128 << 96) - 1);
}

#[test]
fn sentinel_address_means_special_chain() {
    let mut high = [0u8; 12];
    high[11] = 1;
    let a = decode_asset_id(&packed(high, SPECIAL_CHAIN_SENTINEL));
    assert_eq!(a.chain_id, SPECIAL_CHAIN_ID);
    let b = decode_asset_id(&packed([0x5a; 12], SPECIAL_CHAIN_SENTINEL));
    assert_eq!(b.chain_id, SPECIAL_CHAIN_ID);
    assert_eq!(b.token_addr, SPECIAL_CHAIN_SENTINEL);
}

#[test]
fn decodes_list_in_order_with_duplicates() {
    let mut high = [0u8; 12];
    high[11] = 10;
    let x = packed(high, [7; 20]);
    let y = packed([0; 12], [9; 20]);
    let out = decode_asset_ids(&[x, y, x]);
    assert_eq!(out.len(), 3);
    assert_eq!(out[0].chain_id, 10);
    assert_eq!(out[1].chain_id, 0);
    assert_eq!(out[1].token_addr, [9; 20]);
    assert_eq!(out[2].id, x);
    assert!(decode_asset_ids(&[]).is_empty());
}
