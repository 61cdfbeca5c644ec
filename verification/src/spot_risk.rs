//! Pre-trade checks over spot balances: USD for buyers, BTC for sellers.
use vstd::prelude::*;
use std::collections::HashMap;
use crate::api::Order;

verus! {

broadcast use vstd::std_specs::hash::group_hash_axioms;

#[derive(Debug, Default, Clone, Copy)]
pub struct Account {
    pub usd: u64,
    pub btc: u64,
}

/// The account of `user`, an empty one when it has none yet.
pub open spec fn account_of(m: Map<u64, Account>, user: u64) -> Account {
    if m.contains_key(user) {
        m[user]
    } else {
        Account { usd: 0, btc: 0 }
    }
}

/// Whether the order passes: a buy (side 0) needs `price * qty` USD, any other side
/// needs `qty` BTC.
pub open spec fn risk_ok(a: Account, o: Order) -> bool {
    if o.side == 0 {
        a.usd >= o.price * o.qty
    } else {
        a.btc >= o.qty
    }
}

/// The account after a passing order has been charged.
pub open spec fn charged(a: Account, o: Order) -> Account {
    if o.side == 0 {
        Account { usd: (a.usd - o.price * o.qty) as u64, ..a }
    } else {
        Account { btc: (a.btc - o.qty) as u64, ..a }
    }
}

pub struct RiskEngine {
    accounts: HashMap<u64, Account>,
}

impl View for RiskEngine {
    type V = Map<u64, Account>;

    closed spec fn view(&self) -> Map<u64, Account> {
        self.accounts@
    }
}

impl RiskEngine {
    pub fn new() -> (r: Self)
        ensures
            r@ == Map::<u64, Account>::empty(),
    {
        Self { accounts: HashMap::new() }
    }

    /// Credits `usd` and `btc` to `user_id`, opening the account if needed.
    pub fn deposit(&mut self, user_id: u64, usd: u64, btc: u64)
        requires
            account_of(old(self)@, user_id).usd + usd <= u64::MAX,
            account_of(old(self)@, user_id).btc + btc <= u64::MAX,
        ensures
            final(self)@ == old(self)@.insert(
                user_id,
                Account {
                    usd: (account_of(old(self)@, user_id).usd + usd) as u64,
                    btc: (account_of(old(self)@, user_id).btc + btc) as u64,
                },
            ),
    {
        let mut account = match self.accounts.get(&user_id) {
            Some(a) => *a,
            None => Account { usd: 0, btc: 0 },
        };
        account.usd = account.usd + usd;
        account.btc = account.btc + btc;
        self.accounts.insert(user_id, account);
    }

    /// Charges the order's cost to its user when the balance covers it and says
    /// whether it did; the user's account is opened either way.
    pub fn check_risk(&mut self, order: &Order) -> (r: bool)
        requires
            order.side == 0 ==> order.price * order.qty <= u64::MAX,
        ensures
            r == risk_ok(account_of(old(self)@, order.user_id), *order),
            final(self)@ == old(self)@.insert(
                order.user_id,
                if r {
                    charged(account_of(old(self)@, order.user_id), *order)
                } else {
                    account_of(old(self)@, order.user_id)
                },
            ),
    {
        let mut account = match self.accounts.get(&order.user_id) {
            Some(a) => *a,
            None => Account { usd: 0, btc: 0 },
        };
        let mut ok = false;
        if order.side == 0 {
            let cost = order.price * order.qty;
            if account.usd >= cost {
                account.usd = account.usd - cost;
                ok = true;
            }
        } else {
            if account.btc >= order.qty {
                account.btc = account.btc - order.qty;
                ok = true;
            }
        }
        self.accounts.insert(order.user_id, account);
        ok
    }

    /// Delivers `qty` BTC to the buyer and `price * qty` USD to the seller; a trade
    /// of a user with itself changes nothing.
    pub fn settle_trade(&mut self, buy_user_id: u64, sell_user_id: u64, price: u64, qty: u64)
        requires
            buy_user_id != sell_user_id ==> {
                &&& account_of(old(self)@, buy_user_id).btc + qty <= u64::MAX
                &&& price * qty <= u64::MAX
                &&& account_of(old(self)@, sell_user_id).usd + price * qty <= u64::MAX
            },
        ensures
            buy_user_id == sell_user_id ==> final(self)@ == old(self)@,
            buy_user_id != sell_user_id ==> final(self)@ == old(self)@.insert(
                buy_user_id,
                Account {
                    btc: (account_of(old(self)@, buy_user_id).btc + qty) as u64,
                    ..account_of(old(self)@, buy_user_id)
                },
            ).insert(
                sell_user_id,
                Account {
                    usd: (account_of(old(self)@, sell_user_id).usd + price * qty) as u64,
                    ..account_of(old(self)@, sell_user_id)
                },
            ),
    {
        if buy_user_id == sell_user_id {
            return;
        }
        let mut buyer = match self.accounts.get(&buy_user_id) {
            Some(a) => *a,
            None => Account { usd: 0, btc: 0 },
        };
        buyer.btc = buyer.btc + qty;
        self.accounts.insert(buy_user_id, buyer);
        let mut seller = match self.accounts.get(&sell_user_id) {
            Some(a) => *a,
            None => Account { usd: 0, btc: 0 },
        };
        seller.usd = seller.usd + price * qty;
        self.accounts.insert(sell_user_id, seller);
    }

    /// The account of `user_id`, if it has one.
    pub fn get_account(&self, user_id: u64) -> (r: Option<Account>)
        ensures
            r == (if self@.contains_key(user_id) {
                Some(self@[user_id])
            } else {
                None::<Account>
            }),
    {
        match self.accounts.get(&user_id) {
            Some(a) => Some(*a),
            None => None,
        }
    }
}


/// The pre-trade check passes exactly when the account covers the order's need
/// (`price * qty` USD for a buy, `qty` BTC otherwise), and charging then takes exactly
/// that need and nothing else.
pub proof fn lemma_check_charges_need(a: Account, o: Order)
    requires
        o.side == 0 ==> o.price * o.qty <= u64::MAX,
    ensures
        o.side == 0 ==> risk_ok(a, o) == (a.usd >= o.price * o.qty),
        o.side != 0 ==> risk_ok(a, o) == (a.btc >= o.qty),
        risk_ok(a, o) && o.side == 0 ==> charged(a, o).usd + o.price * o.qty == a.usd && charged(a, o).btc == a.btc,
        risk_ok(a, o) && o.side != 0 ==> charged(a, o).btc + o.qty == a.btc && charged(a, o).usd == a.usd,
{
}
} // verus!
