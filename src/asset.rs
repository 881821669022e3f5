//! Asset records and the decoding of packed 256-bit asset identifiers.
use vstd::prelude::*;

use crate::bytes::{be_to_u128, be_value};

verus! {

/// Chain tag of the one non-EVM chain, whose assets are read through
/// metadata accounts instead of contract calls.
pub const SPECIAL_CHAIN_ID: u128 = 1151111081099710;

/// Token address that stands for an asset of the special chain, whatever
/// the identifier's high bytes say.
pub const SPECIAL_CHAIN_SENTINEL: [u8; 20] = [
    0xa6, 0x97, 0xe2, 0x72, 0xa7, 0x37, 0x44, 0xb3, 0x43, 0x52,
    0x8c, 0x3b, 0xc4, 0x70, 0x2f, 0x25, 0x65, 0xb2, 0xf4, 0x22,
];

/// One asset of the governance table. Address, chain tag and identifier are
/// fixed at decoding; the other fields are filled in by later stages.
pub struct AssetData {
    /// The packed identifier, big-endian.
    pub id: [u8; 32],
    /// The token address: the low 20 bytes of the identifier.
    pub token_addr: [u8; 20],
    /// The chain tag.
    pub chain_id: u128,
    /// Display ticker, once resolved.
    pub symbol: Option<String>,
    /// Relative weight in fixed point (see `SCALE`), once resolved.
    pub relative_weight: Option<u128>,
    /// Final integer allocation, once computed.
    pub converted_weight: Option<u16>,
}

/// The token address packed in an identifier: its low 20 bytes.
pub open spec fn address_of(id: Seq<u8>) -> Seq<u8> {
    id.subrange(12, 32)
}

/// The chain tag packed in an identifier: the big-endian value of its high 12
/// bytes, except for the sentinel address, which always means the special chain.
pub open spec fn chain_of(id: Seq<u8>) -> nat {
    if address_of(id) == SPECIAL_CHAIN_SENTINEL@ {
        SPECIAL_CHAIN_ID as nat
    } else {
        be_value(id.subrange(0, 12))
    }
}

/// What decoding makes of an identifier: address and chain tag set, the
/// rest not yet known.
pub open spec fn decoded(id: [u8; 32], a: AssetData) -> bool {
    &&& a.id == id
    &&& a.token_addr@ == address_of(id@)
    &&& a.chain_id == chain_of(id@)
    &&& a.symbol is None
    &&& a.relative_weight is None
    &&& a.converted_weight is None
}

/// Whether two addresses are the same.
pub fn same_address(a: &[u8; 20], b: &[u8; 20]) -> (r: bool)
    ensures
        r == (a@ == b@),
{
    let mut i: usize = 0;
    while i < 20
        invariant
            i <= 20,
            forall|j: int| 0 <= j < i ==> a@[j] == b@[j],
        decreases 20 - i,
    {
        if a[i] != b[i] {
            return false;
        }
        i = i + 1;
    }
    assert(a@ =~= b@);
    true
}

/// Decodes one packed identifier.
pub fn decode_asset_id(id: &[u8; 32]) -> (r: AssetData)
    ensures
        decoded(*id, r),
{
    let mut token_addr: [u8; 20] = [0u8; 20];
    let mut high: [u8; 12] = [0u8; 12];
    let mut i: usize = 0;
    while i < 20
        invariant
            i <= 20,
            forall|j: int| 0 <= j < i ==> token_addr@[j] == id@[12 + j],
            forall|j: int| 0 <= j < i && j < 12 ==> high@[j] == id@[j],
        decreases 20 - i,
    {
        token_addr[i] = id[12 + i];
        if i < 12 {
            high[i] = id[i];
        }
        i = i + 1;
    }
    assert(token_addr@ =~= address_of(id@));
    assert(high@ =~= id@.subrange(0, 12));
    let chain_id = if same_address(&token_addr, &SPECIAL_CHAIN_SENTINEL) {
        SPECIAL_CHAIN_ID
    } else {
        proof {
            crate::bytes::lemma_be_value_bound(high@);
            crate::bytes::lemma_pow256_96();
        }
        // Twelve bytes always fit, so the `None` arm is never taken.
        match be_to_u128(high.as_slice()) {
            Some(v) => v,
            None => 0,
        }
    };
    AssetData {
        id: *id,
        token_addr,
        chain_id,
        symbol: None,
        relative_weight: None,
        converted_weight: None,
    }
}

/// Decodes a list of packed identifiers, one record per identifier, in the
/// same order; duplicates are kept where they stand. Decoding cannot fail.
pub fn decode_asset_ids(asset_ids: &[[u8; 32]]) -> (r: Vec<AssetData>)
    ensures
        r@.len() == asset_ids@.len(),
        forall|i: int| 0 <= i < asset_ids@.len() ==> decoded(asset_ids@[i], #[trigger] r@[i]),
{
    let mut out: Vec<AssetData> = Vec::new();
    let mut i: usize = 0;
    while i < asset_ids.len()
        invariant
            i <= asset_ids@.len(),
            out@.len() == i,
            forall|j: int| 0 <= j < i ==> decoded(asset_ids@[j], #[trigger] out@[j]),
        decreases asset_ids@.len() - i,
    {
        out.push(decode_asset_id(&asset_ids[i]));
        i = i + 1;
    }
    out
}

} // verus!
