//! Decoding of the 13-byte order frames of the plain TCP feed.
use vstd::prelude::*;
use crate::wire::{from_le32, from_le64, read_le32, read_le64};

verus! {

/// Length of a frame: type byte, 8-byte price, 4-byte quantity.
pub const FRAME_LEN: usize = 13;

pub struct Order {
    pub order_type: String,
    pub price: u64,
    pub quantity: u32,
}

/// Name of the order type coded by the first byte: 0 is an ask, 1 a bid.
pub open spec fn order_type_name(code: u8) -> Seq<char> {
    if code == 0 {
        "ASK"@
    } else if code == 1 {
        "BID"@
    } else {
        "UNKNOWN"@
    }
}

/// Decodes the first 13 bytes of `bytes` (little-endian price then quantity);
/// `None` when fewer are given.
pub fn parse_order(bytes: &[u8]) -> (r: Option<Order>)
    ensures
        bytes@.len() < 13 ==> r is None,
        bytes@.len() >= 13 ==> r is Some && r->0.order_type@ == order_type_name(bytes@[0])
            && r->0.price == from_le64(bytes@.subrange(1, 9)) && r->0.quantity == from_le32(
            bytes@.subrange(9, 13),
        ),
{
    if bytes.len() < FRAME_LEN {
        return None;
    }
    let order_type = if bytes[0] == 0 {
        "ASK".to_string()
    } else if bytes[0] == 1 {
        "BID".to_string()
    } else {
        "UNKNOWN".to_string()
    };
    let price = read_le64(bytes, 1);
    let quantity = read_le32(bytes, 9);
    Some(Order { order_type, price, quantity })
}

} // verus!
