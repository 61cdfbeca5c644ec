//! Static validation of incoming transactions against the set of known accounts.
use vstd::prelude::*;
use std::collections::HashSet;
use crate::api::Order;

verus! {

broadcast use vstd::std_specs::hash::group_hash_axioms;

/// Largest quantity a single transaction may carry.
pub const MAX_QTY: u64 = 1_000_000;

/// The users that hold an account.
pub struct AccountDb {
    users: HashSet<u64>,
}

impl View for AccountDb {
    type V = Set<u64>;

    closed spec fn view(&self) -> Set<u64> {
        self.users@
    }
}

impl AccountDb {
    pub fn new() -> (r: Self)
        ensures
            r@ == Set::<u64>::empty(),
    {
        AccountDb { users: HashSet::new() }
    }

    /// Registers `user_id`.
    pub fn open(&mut self, user_id: u64)
        ensures
            final(self)@ == old(self)@.insert(user_id),
    {
        self.users.insert(user_id);
    }

    pub fn contains(&self, user_id: u64) -> (r: bool)
        ensures
            r == self@.contains(user_id),
    {
        self.users.contains(&user_id)
    }
}

/// A transaction is valid when its user has an account, its price is positive and its
/// quantity lies in `1..=MAX_QTY`.
pub open spec fn valid_transaction(order: Order, accounts: Set<u64>) -> bool {
    accounts.contains(order.user_id) && order.price > 0 && order.qty > 0 && order.qty <= MAX_QTY
}

pub fn verify_transaction(order: &Order, accounts: &AccountDb) -> (r: bool)
    ensures
        r == valid_transaction(*order, accounts@),
{
    accounts.contains(order.user_id) && order.price > 0 && order.qty > 0 && order.qty <= MAX_QTY
}

} // verus!
