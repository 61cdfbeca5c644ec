//! Plain order and trade records exchanged with the simple matching engine.
use vstd::prelude::*;

verus! {

/// A 48-byte order record: side 1 sells, any other side buys.
#[derive(Debug, Clone, Copy)]
pub struct Order {
    pub id: u64,
    pub price: u64,
    pub qty: u64,
    pub user_id: u64,
    pub company_id: u64,
    pub side: u8,
    pub _padding: [u8; 7],
}

#[derive(Debug, Clone, Copy)]
pub struct Trade {
    pub buyer_id: u64,
    pub seller_id: u64,
    pub price: u64,
    pub qty: u64,
}

} // verus!
