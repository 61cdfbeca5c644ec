//! Two-state margin accounting: every account holds available and locked USD and, per
//! symbol, available and locked asset. Orders lock funds before they trade; trades,
//! cancels and unfilled market remainders move them on.
use vstd::prelude::*;
use vstd::array::spec_array_update;
use std::collections::HashMap;
use std::collections::hash_map::Entry;
use crate::types::{Order, OrderType, RejectReason, Side, Trade};

verus! {

broadcast use {vstd::std_specs::hash::group_hash_axioms, vstd::array::group_array_axioms};

#[derive(Debug, Clone, Copy, PartialEq, Eq)]
pub struct Account {
    pub user_id: u64,
    pub usd_available: u64,
    pub usd_locked: u64,
    pub asset_available: [u64; 3],
    pub asset_locked: [u64; 3],
}

impl Account {
    pub open spec fn spec_new(user_id: u64, initial_usd: u64) -> Account {
        Account { user_id, usd_available: initial_usd, usd_locked: 0, asset_available: [0, 0, 0], asset_locked: [0, 0, 0] }
    }

    /// An account holding `initial_usd` available and nothing else.
    pub fn new(user_id: u64, initial_usd: u64) -> (r: Self)
        ensures
            r == Account::spec_new(user_id, initial_usd),
    {
        Account { user_id, usd_available: initial_usd, usd_locked: 0, asset_available: [0, 0, 0], asset_locked: [0, 0, 0] }
    }
}

/// `a` with `d` added to element `i` (within range by the caller's requirement).
pub open spec fn arr_add(a: [u64; 3], i: int, d: int) -> [u64; 3] {
    spec_array_update(a, i, (a[i] + d) as u64)
}

/// `a` with element `i` reduced by `d`, stopping at zero.
pub open spec fn arr_sat_sub(a: [u64; 3], i: int, d: int) -> [u64; 3] {
    spec_array_update(a, i, if a[i] >= d { (a[i] - d) as u64 } else { 0 })
}

pub open spec fn sat_sub(a: int, b: int) -> int {
    if a >= b {
        a - b
    } else {
        0
    }
}

pub open spec fn sat_mul(a: u64, b: u64) -> u64 {
    if a * b <= u64::MAX {
        (a * b) as u64
    } else {
        u64::MAX
    }
}

/// `a * b`, or `u64::MAX` when the product does not fit.
pub fn saturating_mul_u64(a: u64, b: u64) -> (r: u64)
    ensures
        r == sat_mul(a, b),
{
    match a.checked_mul(b) {
        Some(v) => v,
        None => u64::MAX,
    }
}

/// The account of `u`, or a fresh empty one.
pub open spec fn account_or_new(m: Map<u64, Account>, u: u64) -> Account {
    if m.contains_key(u) {
        m[u]
    } else {
        Account::spec_new(u, 0)
    }
}

pub open spec fn spec_deposit(m: Map<u64, Account>, u: u64, usd: u64, symbol_id: u16, asset: u64) -> Map<u64, Account> {
    if symbol_id >= 3 {
        m
    } else {
        let a = account_or_new(m, u);
        m.insert(
            u,
            Account {
                usd_available: (a.usd_available + usd) as u64,
                asset_available: arr_add(a.asset_available, symbol_id as int, asset as int),
                ..a
            },
        )
    }
}

/// Whether `deposit` stays within `u64`.
pub open spec fn deposit_fits(m: Map<u64, Account>, u: u64, usd: u64, symbol_id: u16, asset: u64) -> bool {
    let a = account_or_new(m, u);
    symbol_id < 3 ==> a.usd_available + usd <= u64::MAX && a.asset_available[symbol_id as int] + asset <= u64::MAX
}

/// The funds an order reserves before it may trade: `price * qty` USD for a buy, `qty`
/// of the asset for a sell.
pub open spec fn spec_lock(m: Map<u64, Account>, o: Order) -> Result<Map<u64, Account>, RejectReason> {
    let sym = o.symbol_id as int;
    if o.spec_kind() == OrderType::Cancel {
        Ok(m)
    } else if o.qty == 0 || o.symbol_id >= 3 {
        Err(RejectReason::InvalidOrder)
    } else if !m.contains_key(o.user_id) {
        Err(RejectReason::Unauthorized)
    } else {
        let a = m[o.user_id];
        if o.side == 0 {
            if o.price == 0 || o.price * o.qty > u64::MAX {
                Err(RejectReason::InvalidOrder)
            } else if a.usd_available < o.price * o.qty {
                Err(RejectReason::InsufficientFunds)
            } else {
                Ok(
                    m.insert(
                        o.user_id,
                        Account {
                            usd_available: (a.usd_available - o.price * o.qty) as u64,
                            usd_locked: (a.usd_locked + o.price * o.qty) as u64,
                            ..a
                        },
                    ),
                )
            }
        } else if a.asset_available[sym] < o.qty {
            Err(RejectReason::InsufficientFunds)
        } else {
            Ok(
                m.insert(
                    o.user_id,
                    Account {
                        asset_available: arr_add(a.asset_available, sym, -(o.qty as int)),
                        asset_locked: arr_add(a.asset_locked, sym, o.qty as int),
                        ..a
                    },
                ),
            )
        }
    }
}

/// Whether the locked balance that `lock_order_funds` raises stays within `u64` when
/// the funds suffice (a refused order raises nothing).
pub open spec fn lock_fits(m: Map<u64, Account>, o: Order) -> bool {
    let a = m[o.user_id];
    let sym = o.symbol_id as int;
    (o.spec_kind() != OrderType::Cancel && o.qty > 0 && o.symbol_id < 3 && m.contains_key(o.user_id)) ==> if o.side == 0 {
        (o.price * o.qty <= u64::MAX && a.usd_available >= o.price * o.qty) ==> a.usd_locked + o.price * o.qty
            <= u64::MAX
    } else {
        a.asset_available[sym] >= o.qty ==> a.asset_locked[sym] + o.qty <= u64::MAX
    }
}

/// Returns `qty` of a buy at `price` (USD) or of a sell (asset) from locked to available.
pub open spec fn spec_unlock(m: Map<u64, Account>, u: u64, symbol_id: u16, side: Side, price: u64, qty: u64) -> Map<u64, Account> {
    if qty == 0 || symbol_id >= 3 || !m.contains_key(u) {
        m
    } else {
        let a = m[u];
        let sym = symbol_id as int;
        if side == Side::Buy {
            let l = sat_mul(price, qty);
            m.insert(
                u,
                Account {
                    usd_locked: sat_sub(a.usd_locked as int, l as int) as u64,
                    usd_available: (a.usd_available + l) as u64,
                    ..a
                },
            )
        } else {
            m.insert(
                u,
                Account {
                    asset_locked: arr_sat_sub(a.asset_locked, sym, qty as int),
                    asset_available: arr_add(a.asset_available, sym, qty as int),
                    ..a
                },
            )
        }
    }
}

pub open spec fn unlock_fits(m: Map<u64, Account>, u: u64, symbol_id: u16, side: Side, price: u64, qty: u64) -> bool {
    let a = m[u];
    (qty > 0 && symbol_id < 3 && m.contains_key(u)) ==> if side == Side::Buy {
        a.usd_available + sat_mul(price, qty) <= u64::MAX
    } else {
        a.asset_available[symbol_id as int] + qty <= u64::MAX
    }
}

/// The side an order's code names; unknown codes count as buys.
pub open spec fn side_or_buy(o: Order) -> Side {
    match Side::spec_from_code(o.side) {
        Some(s) => s,
        None => Side::Buy,
    }
}

/// Returns what a market order locked but did not use: the budget of its unexecuted
/// quantity for a buy, its unexecuted quantity for a sell.
pub open spec fn spec_refund(
    m: Map<u64, Account>,
    u: u64,
    symbol_id: u16,
    side: Side,
    budget_price: u64,
    requested: u64,
    executed_qty: u64,
    executed_cost: u64,
) -> Map<u64, Account> {
    if symbol_id >= 3 || !m.contains_key(u) {
        m
    } else {
        let a = m[u];
        let sym = symbol_id as int;
        if side == Side::Buy {
            let budget = sat_mul(budget_price, requested);
            let released = sat_mul(budget_price, executed_qty);
            if budget > released {
                let surplus = budget - released;
                m.insert(
                    u,
                    Account {
                        usd_locked: sat_sub(a.usd_locked as int, surplus) as u64,
                        usd_available: (a.usd_available + surplus) as u64,
                        ..a
                    },
                )
            } else {
                m
            }
        } else {
            let unexecuted = sat_sub(requested as int, executed_qty as int);
            if unexecuted > 0 {
                m.insert(
                    u,
                    Account {
                        asset_locked: arr_sat_sub(a.asset_locked, sym, unexecuted),
                        asset_available: arr_add(a.asset_available, sym, unexecuted),
                        ..a
                    },
                )
            } else {
                m
            }
        }
    }
}

pub open spec fn refund_fits(
    m: Map<u64, Account>,
    u: u64,
    symbol_id: u16,
    side: Side,
    budget_price: u64,
    requested: u64,
    executed_qty: u64,
    executed_cost: u64,
) -> bool {
    let a = m[u];
    (symbol_id < 3 && m.contains_key(u)) ==> if side == Side::Buy {
        a.usd_available + sat_sub(sat_mul(budget_price, requested) as int, sat_mul(budget_price, executed_qty) as int) <= u64::MAX
    } else {
        a.asset_available[symbol_id as int] + sat_sub(requested as int, executed_qty as int) <= u64::MAX
    }
}

/// The buyer's side of settling trade `t`: the lock at the buyer's price is released,
/// the difference to the trade cost refunded and the asset credited.
pub open spec fn settle_buyer(m: Map<u64, Account>, t: Trade, taker_limit_price: u64) -> Map<u64, Account> {
    let cost = sat_mul(t.price, t.qty);
    if !m.contains_key(t.buyer_id) {
        m
    } else {
        let b = m[t.buyer_id];
        let locked_price = if t.buyer_id == t.maker_user_id {
            t.price
        } else {
            taker_limit_price
        };
        let l = sat_mul(locked_price, t.qty);
        m.insert(
            t.buyer_id,
            Account {
                usd_locked: sat_sub(b.usd_locked as int, l as int) as u64,
                usd_available: if l > cost {
                    (b.usd_available + (l - cost)) as u64
                } else {
                    b.usd_available
                },
                asset_available: arr_add(b.asset_available, t.symbol_id as int, t.qty as int),
                ..b
            },
        )
    }
}

/// The seller's side of settling trade `t`: the asset leaves the lock, the cost is credited.
pub open spec fn settle_seller(m: Map<u64, Account>, t: Trade) -> Map<u64, Account> {
    let cost = sat_mul(t.price, t.qty);
    if !m.contains_key(t.seller_id) {
        m
    } else {
        let s = m[t.seller_id];
        m.insert(
            t.seller_id,
            Account {
                asset_locked: arr_sat_sub(s.asset_locked, t.symbol_id as int, t.qty as int),
                usd_available: (s.usd_available + cost) as u64,
                ..s
            },
        )
    }
}

pub open spec fn spec_settle(m: Map<u64, Account>, t: Trade, taker_limit_price: u64) -> Map<u64, Account> {
    if t.symbol_id >= 3 {
        m
    } else {
        settle_seller(settle_buyer(m, t, taker_limit_price), t)
    }
}

pub open spec fn settle_fits(m: Map<u64, Account>, t: Trade, taker_limit_price: u64) -> bool {
    let cost = sat_mul(t.price, t.qty);
    let b = m[t.buyer_id];
    let locked_price = if t.buyer_id == t.maker_user_id {
        t.price
    } else {
        taker_limit_price
    };
    let l = sat_mul(locked_price, t.qty);
    let m1 = settle_buyer(m, t, taker_limit_price);
    let s = m1[t.seller_id];
    t.symbol_id < 3 ==> {
        &&& m.contains_key(t.buyer_id) ==> {
            &&& b.usd_available + sat_sub(l as int, cost as int) <= u64::MAX
            &&& b.asset_available[t.symbol_id as int] + t.qty <= u64::MAX
        }
        &&& m1.contains_key(t.seller_id) ==> s.usd_available + cost <= u64::MAX
    }
}

pub struct RiskEngine {
    pub accounts: HashMap<u64, Account>,
}

impl View for RiskEngine {
    type V = Map<u64, Account>;

    open spec fn view(&self) -> Map<u64, Account> {
        self.accounts@
    }
}

impl Default for RiskEngine {
    fn default() -> (r: Self)
        ensures
            r@ == Map::<u64, Account>::empty(),
    {
        RiskEngine::new()
    }
}

impl RiskEngine {
    /// An engine without accounts.
    pub fn new() -> (r: Self)
        ensures
            r@ == Map::<u64, Account>::empty(),
    {
        RiskEngine { accounts: HashMap::new() }
    }

    /// Credits `usd` and `asset_qty` of symbol `symbol_id` to `user_id`, opening the
    /// account when it does not exist; an unknown symbol is ignored.
    pub fn deposit(&mut self, user_id: u64, usd: u64, symbol_id: u16, asset_qty: u64)
        requires
            deposit_fits(old(self)@, user_id, usd, symbol_id, asset_qty),
        ensures
            final(self)@ == spec_deposit(old(self)@, user_id, usd, symbol_id, asset_qty),
    {
        let sym_idx = symbol_id as usize;
        if sym_idx >= 3 {
            return;
        }
        let mut account = match self.accounts.get(&user_id) {
            Some(a) => *a,
            None => Account::new(user_id, 0),
        };
        account.usd_available = account.usd_available + usd;
        account.asset_available[sym_idx] = account.asset_available[sym_idx] + asset_qty;
        self.accounts.insert(user_id, account);
    }

    /// The account of `user_id`, if any.
    pub fn get_account(&self, user_id: u64) -> (r: Option<&Account>)
        ensures
            match r {
                Some(a) => self@.contains_key(user_id) && *a == self@[user_id],
                None => !self@.contains_key(user_id),
            },
    {
        self.accounts.get(&user_id)
    }

    /// The account of `user_id` for modification, if any.
    pub fn get_account_mut(&mut self, user_id: u64) -> (r: Option<&mut Account>)
        ensures
            match r {
                Some(a) => old(self)@.contains_key(user_id) && *a == old(self)@[user_id] && final(self)@ == old(
                    self,
                )@.insert(user_id, *final(a)),
                None => !old(self)@.contains_key(user_id) && final(self)@ == old(self)@,
            },
    {
        match self.accounts.entry(user_id) {
            Entry::Occupied(o) => Some(o.into_mut()),
            Entry::Vacant(_) => None,
        }
    }

    /// Pre-trade margin reservation: locks USD for a buy and the asset for a sell, or
    /// refuses the order.
    pub fn lock_order_funds(&mut self, order: &Order) -> (r: Result<(), RejectReason>)
        requires
            lock_fits(old(self)@, *order),
        ensures
            match spec_lock(old(self)@, *order) {
                Ok(m) => r is Ok && final(self)@ == m,
                Err(e) => r == Err::<(), RejectReason>(e) && final(self)@ == old(self)@,
            },
    {
        let order_type = order.kind();
        if order_type == OrderType::Cancel {
            return Ok(());
        }
        if order.qty == 0 {
            return Err(RejectReason::InvalidOrder);
        }
        let sym_idx = order.symbol_id as usize;
        if sym_idx >= 3 {
            return Err(RejectReason::InvalidOrder);
        }
        let mut account = match self.accounts.get(&order.user_id) {
            Some(a) => *a,
            None => {
                return Err(RejectReason::Unauthorized);
            },
        };
        let is_buy = order.side == Side::Buy.code();
        if is_buy {
            if order.price == 0 {
                return Err(RejectReason::InvalidOrder);
            }
            let required_usd = match order.price.checked_mul(order.qty) {
                Some(v) => v,
                None => {
                    return Err(RejectReason::InvalidOrder);
                },
            };
            if account.usd_available < required_usd {
                return Err(RejectReason::InsufficientFunds);
            }
            account.usd_available = account.usd_available - required_usd;
            account.usd_locked = account.usd_locked + required_usd;
        } else {
            if account.asset_available[sym_idx] < order.qty {
                return Err(RejectReason::InsufficientFunds);
            }
            account.asset_available[sym_idx] = account.asset_available[sym_idx] - order.qty;
            account.asset_locked[sym_idx] = account.asset_locked[sym_idx] + order.qty;
        }
        self.accounts.insert(order.user_id, account);
        Ok(())
    }

    /// Returns locked margin of an order that was cancelled or expired unfilled.
    pub fn unlock_order_funds(&mut self, user_id: u64, symbol_id: u16, side: Side, price: u64, unexecuted_qty: u64)
        requires
            unlock_fits(old(self)@, user_id, symbol_id, side, price, unexecuted_qty),
        ensures
            final(self)@ == spec_unlock(old(self)@, user_id, symbol_id, side, price, unexecuted_qty),
    {
        if unexecuted_qty == 0 {
            return;
        }
        let sym_idx = symbol_id as usize;
        if sym_idx >= 3 {
            return;
        }
        let mut account = match self.accounts.get(&user_id) {
            Some(a) => *a,
            None => {
                return;
            },
        };
        if side == Side::Buy {
            let locked_usd = saturating_mul_u64(price, unexecuted_qty);
            account.usd_locked = account.usd_locked.saturating_sub(locked_usd);
            account.usd_available = account.usd_available + locked_usd;
        } else {
            account.asset_locked[sym_idx] = account.asset_locked[sym_idx].saturating_sub(unexecuted_qty);
            account.asset_available[sym_idx] = account.asset_available[sym_idx] + unexecuted_qty;
        }
        self.accounts.insert(user_id, account);
    }

    /// Returns the locked margin of `unexecuted_qty` of `order`.
    pub fn unlock_cancelled_order_margin(&mut self, order: &Order, unexecuted_qty: u64)
        requires
            unlock_fits(old(self)@, order.user_id, order.symbol_id, side_or_buy(*order), order.price, unexecuted_qty),
        ensures
            final(self)@ == spec_unlock(old(self)@, order.user_id, order.symbol_id, side_or_buy(*order), order.price, unexecuted_qty),
    {
        let side = match order.get_side() {
            Some(s) => s,
            None => Side::Buy,
        };
        self.unlock_order_funds(order.user_id, order.symbol_id, side, order.price, unexecuted_qty);
    }

    /// Returns what a market order locked but did not use: for a buy, the budget of the
    /// unexecuted quantity (settlement has already released the budget of the executed
    /// quantity, refunding any price improvement); for a sell, the unexecuted quantity.
    /// The executed cost is not needed for either.
    pub fn refund_market_order_remainder(
        &mut self,
        user_id: u64,
        symbol_id: u16,
        side: Side,
        budget_price: u64,
        total_requested_qty: u64,
        total_executed_qty: u64,
        total_executed_cost: u64,
    )
        requires
            refund_fits(old(self)@, user_id, symbol_id, side, budget_price, total_requested_qty, total_executed_qty, total_executed_cost),
        ensures
            final(self)@ == spec_refund(
                old(self)@,
                user_id,
                symbol_id,
                side,
                budget_price,
                total_requested_qty,
                total_executed_qty,
                total_executed_cost,
            ),
    {
        let sym_idx = symbol_id as usize;
        if sym_idx >= 3 {
            return;
        }
        let mut account = match self.accounts.get(&user_id) {
            Some(a) => *a,
            None => {
                return;
            },
        };
        if side == Side::Buy {
            let locked_budget = saturating_mul_u64(budget_price, total_requested_qty);
            let released = saturating_mul_u64(budget_price, total_executed_qty);
            if locked_budget > released {
                let surplus = locked_budget - released;
                account.usd_locked = account.usd_locked.saturating_sub(surplus);
                account.usd_available = account.usd_available + surplus;
                self.accounts.insert(user_id, account);
            }
        } else {
            let unexecuted_qty = total_requested_qty.saturating_sub(total_executed_qty);
            if unexecuted_qty > 0 {
                account.asset_locked[sym_idx] = account.asset_locked[sym_idx].saturating_sub(unexecuted_qty);
                account.asset_available[sym_idx] = account.asset_available[sym_idx] + unexecuted_qty;
                self.accounts.insert(user_id, account);
            }
        }
    }

    /// Settles trade `t` between the buyer's and the seller's accounts; a buyer who locked
    /// at `taker_limit_price` above the trade price is refunded the difference.
    pub fn settle_trade(&mut self, trade: &Trade, taker_limit_price: u64)
        requires
            settle_fits(old(self)@, *trade, taker_limit_price),
        ensures
            final(self)@ == spec_settle(old(self)@, *trade, taker_limit_price),
    {
        let total_cost = saturating_mul_u64(trade.price, trade.qty);
        let sym_idx = trade.symbol_id as usize;
        if sym_idx >= 3 {
            return;
        }
        match self.accounts.get(&trade.buyer_id) {
            Some(b) => {
                let mut buyer = *b;
                let locked_price = if trade.buyer_id == trade.maker_user_id {
                    trade.price
                } else {
                    taker_limit_price
                };
                let locked_usd = saturating_mul_u64(locked_price, trade.qty);
                buyer.usd_locked = buyer.usd_locked.saturating_sub(locked_usd);
                if locked_usd > total_cost {
                    buyer.usd_available = buyer.usd_available + (locked_usd - total_cost);
                }
                buyer.asset_available[sym_idx] = buyer.asset_available[sym_idx] + trade.qty;
                self.accounts.insert(trade.buyer_id, buyer);
            },
            None => {},
        }
        match self.accounts.get(&trade.seller_id) {
            Some(sl) => {
                let mut seller = *sl;
                seller.asset_locked[sym_idx] = seller.asset_locked[sym_idx].saturating_sub(trade.qty);
                seller.usd_available = seller.usd_available + total_cost;
                self.accounts.insert(trade.seller_id, seller);
            },
            None => {},
        }
    }
}


/// Locking moves funds, it never creates or destroys them: for every user, available
/// plus locked USD, and available plus locked of each asset, are the same after a
/// successful lock as before, and no account appears or disappears.
pub proof fn lemma_lock_conserves(m: Map<u64, Account>, o: Order, u: u64, sym: int)
    requires
        spec_lock(m, o) is Ok,
        lock_fits(m, o),
        0 <= sym < 3,
    ensures
        spec_lock(m, o)->Ok_0.dom() == m.dom(),
        m.contains_key(u) ==> {
            let a = m[u];
            let b = spec_lock(m, o)->Ok_0[u];
            &&& b.usd_available + b.usd_locked == a.usd_available + a.usd_locked
            &&& b.asset_available[sym] + b.asset_locked[sym] == a.asset_available[sym] + a.asset_locked[sym]
        },
{
    broadcast use vstd::array::group_array_axioms;

    let m2 = spec_lock(m, o)->Ok_0;
    assert(m2.dom() =~= m.dom());
}

/// Releasing the full quantity of an order just locked, as
/// `unlock_cancelled_order_margin` does on a cancel, is always allowed and gives every
/// account back exactly as it was before the lock.
pub proof fn lemma_lock_unlock_roundtrip(m: Map<u64, Account>, o: Order)
    requires
        spec_lock(m, o) is Ok,
        lock_fits(m, o),
        o.spec_kind() != OrderType::Cancel,
        o.side <= 1,
    ensures
        unlock_fits(spec_lock(m, o)->Ok_0, o.user_id, o.symbol_id, side_or_buy(o), o.price, o.qty),
        spec_unlock(spec_lock(m, o)->Ok_0, o.user_id, o.symbol_id, side_or_buy(o), o.price, o.qty) == m,
        spec_unlock(
            spec_lock(m, o)->Ok_0,
            o.user_id,
            o.symbol_id,
            if o.side == 0 {
                Side::Buy
            } else {
                Side::Sell
            },
            o.price,
            o.qty,
        ) == m,
{
    broadcast use vstd::array::group_array_axioms;

    let m2 = spec_lock(m, o)->Ok_0;
    let a = m[o.user_id];
    let sym = o.symbol_id as int;
    assert(side_or_buy(o) == (if o.side == 0 {
        Side::Buy
    } else {
        Side::Sell
    }));
    let r = spec_unlock(m2, o.user_id, o.symbol_id, if o.side == 0 {
        Side::Buy
    } else {
        Side::Sell
    }, o.price, o.qty);
    if o.side == 0 {
        assert(r[o.user_id] == a);
    } else {
        let b = m2[o.user_id];
        assert(r[o.user_id].asset_locked =~= a.asset_locked);
        assert(r[o.user_id].asset_available =~= a.asset_available);
        assert(r[o.user_id] == a);
    }
    assert(r =~= m);
}

/// Settlement of a trade between two users whose locks cover it moves exactly the
/// trade's cost in USD from the buyer to the seller and its quantity of the asset from
/// the seller to the buyer: each side's available plus locked total changes by that
/// amount, and a buyer that locked at a higher limit gets the difference back as
/// available funds (price improvement).
pub proof fn lemma_settle_moves_cost(m: Map<u64, Account>, t: Trade, limit: u64)
    requires
        t.symbol_id < 3,
        t.buyer_id != t.seller_id,
        m.contains_key(t.buyer_id),
        m.contains_key(t.seller_id),
        t.price * t.qty <= u64::MAX,
        t.buyer_id != t.maker_user_id ==> limit >= t.price && limit * t.qty <= u64::MAX,
        m[t.buyer_id].usd_locked >= (if t.buyer_id == t.maker_user_id {
            t.price
        } else {
            limit
        }) * t.qty,
        m[t.seller_id].asset_locked[t.symbol_id as int] >= t.qty,
        settle_fits(m, t, limit),
    ensures
        ({
            let sym = t.symbol_id as int;
            let cost = t.price * t.qty;
            let b0 = m[t.buyer_id];
            let s0 = m[t.seller_id];
            let m2 = spec_settle(m, t, limit);
            let b1 = m2[t.buyer_id];
            let s1 = m2[t.seller_id];
            &&& b1.usd_available + b1.usd_locked == b0.usd_available + b0.usd_locked - cost
            &&& b1.asset_available[sym] == b0.asset_available[sym] + t.qty
            &&& s1.usd_available == s0.usd_available + cost
            &&& s1.asset_locked[sym] == s0.asset_locked[sym] - t.qty
            &&& t.buyer_id != t.maker_user_id ==> b1.usd_available == b0.usd_available + (limit - t.price) * t.qty
        }),
{
    broadcast use vstd::array::group_array_axioms;

    let locked_price = if t.buyer_id == t.maker_user_id {
        t.price
    } else {
        limit
    };
    assert(locked_price * t.qty >= t.price * t.qty) by (nonlinear_arith)
        requires
            locked_price >= t.price,
    ;
    assert(locked_price * t.qty - t.price * t.qty == (locked_price - t.price) * t.qty) by (nonlinear_arith);
    assert(locked_price * t.qty <= u64::MAX);
}


/// A deposit credits and never overwrites: for a known symbol, the account's available
/// USD and available asset afterwards are what they were before (nothing, for a new
/// account) plus the amounts deposited, its locked funds and other assets stay, and no
/// other account changes; an unknown symbol changes nothing. So two deposits of 5 of an
/// asset leave 10.
pub proof fn lemma_deposit_credits(m: Map<u64, Account>, u: u64, usd: u64, symbol_id: u16, asset: u64)
    requires
        deposit_fits(m, u, usd, symbol_id, asset),
    ensures
        ({
            let m2 = spec_deposit(m, u, usd, symbol_id, asset);
            let sym = symbol_id as int;
            let known = m.contains_key(u);
            &&& symbol_id >= 3 ==> m2 == m
            &&& symbol_id < 3 ==> {
                &&& m2.contains_key(u)
                &&& m2[u].usd_available == (if known { m[u].usd_available as int } else { 0 }) + usd
                &&& m2[u].asset_available[sym] == (if known { m[u].asset_available[sym] as int } else { 0 }) + asset
                &&& m2[u].usd_locked == (if known { m[u].usd_locked } else { 0 })
                &&& forall|j: int| 0 <= j < 3 ==> #[trigger] m2[u].asset_locked[j] == (if known { m[u].asset_locked[j] } else { 0 })
                &&& forall|j: int| 0 <= j < 3 && j != sym ==> #[trigger] m2[u].asset_available[j] == (if known {
                    m[u].asset_available[j]
                } else {
                    0
                })
                &&& forall|v: u64| v != u ==> (#[trigger] m2.contains_key(v) == m.contains_key(v) && (m.contains_key(v) ==> m2[v] == m[v]))
            }
        }),
{
    broadcast use vstd::array::group_array_axioms;

}

/// Refunding a market order's remainder moves funds from locked to available and
/// creates none. For a buy, the user's available plus locked USD is unchanged and the
/// locked USD falls by the budget of the unexecuted quantity (budget price times
/// requested minus executed); for a sell, available plus locked of the asset is
/// unchanged and the locked asset falls by requested minus executed. That much must be
/// locked. Nothing else changes.
pub proof fn lemma_refund_conserves(
    m: Map<u64, Account>,
    u: u64,
    symbol_id: u16,
    side: Side,
    budget_price: u64,
    requested: u64,
    executed: u64,
    cost: u64,
)
    requires
        symbol_id < 3,
        m.contains_key(u),
        executed <= requested,
        refund_fits(m, u, symbol_id, side, budget_price, requested, executed, cost),
        side == Side::Buy ==> budget_price * requested <= u64::MAX && m[u].usd_locked >= budget_price * (requested - executed),
        side == Side::Sell ==> m[u].asset_locked[symbol_id as int] >= requested - executed,
    ensures
        ({
            let m2 = spec_refund(m, u, symbol_id, side, budget_price, requested, executed, cost);
            let sym = symbol_id as int;
            let a = m[u];
            let b = m2[u];
            &&& m2.contains_key(u)
            &&& side == Side::Buy ==> {
                &&& b.usd_available + b.usd_locked == a.usd_available + a.usd_locked
                &&& b.usd_locked == a.usd_locked - budget_price * (requested - executed)
                &&& b.asset_available == a.asset_available
                &&& b.asset_locked == a.asset_locked
            }
            &&& side == Side::Sell ==> {
                &&& b.asset_available[sym] + b.asset_locked[sym] == a.asset_available[sym] + a.asset_locked[sym]
                &&& b.asset_locked[sym] == a.asset_locked[sym] - (requested - executed)
                &&& b.usd_available == a.usd_available
                &&& b.usd_locked == a.usd_locked
                &&& forall|j: int| 0 <= j < 3 && j != sym ==> #[trigger] b.asset_available[j] == a.asset_available[j]
                    && b.asset_locked[j] == a.asset_locked[j]
            }
            &&& forall|v: u64| v != u ==> (#[trigger] m2.contains_key(v) == m.contains_key(v) && (m.contains_key(v) ==> m2[v] == m[v]))
        }),
{
    broadcast use vstd::array::group_array_axioms;

    if side == Side::Buy {
        let bp = budget_price as int;
        let q = requested as int;
        let e = executed as int;
        assert(bp * e <= bp * q && bp * e >= 0) by (nonlinear_arith)
            requires
                0 <= e <= q,
                bp >= 0,
        ;
        assert(bp * q - bp * e == bp * (q - e)) by (nonlinear_arith);
        assert(sat_mul(budget_price, requested) == bp * q);
        assert(sat_mul(budget_price, executed) == bp * e);
    }
}

/// Locking reserves exactly what an order needs and refuses what it cannot cover. A
/// cancel request locks nothing. Any other order is refused, with nothing changed, when
/// its quantity is 0 or its symbol unknown (invalid), when its user has no account
/// (unauthorized), when a buy has a zero price or a price times quantity beyond `u64`
/// (invalid), or when the available funds fall short of the need (insufficient). Else
/// the need (price times quantity USD for a buy, the quantity of the asset for a sell)
/// moves from available to locked, and nothing else changes.
pub proof fn lemma_lock_reserves_need(m: Map<u64, Account>, o: Order)
    requires
        lock_fits(m, o),
    ensures
        ({
            let r = spec_lock(m, o);
            let u = o.user_id;
            let sym = o.symbol_id as int;
            let buy = o.side == 0;
            &&& o.spec_kind() == OrderType::Cancel ==> r == Ok::<Map<u64, Account>, RejectReason>(m)
            &&& o.spec_kind() != OrderType::Cancel ==> {
                &&& (o.qty == 0 || o.symbol_id >= 3) ==> r == Err::<Map<u64, Account>, RejectReason>(RejectReason::InvalidOrder)
                &&& (o.qty > 0 && o.symbol_id < 3 && !m.contains_key(u)) ==> r == Err::<Map<u64, Account>, RejectReason>(
                    RejectReason::Unauthorized,
                )
                &&& (o.qty > 0 && o.symbol_id < 3 && m.contains_key(u)) ==> {
                    let a = m[u];
                    &&& buy && (o.price == 0 || o.price * o.qty > u64::MAX) ==> r == Err::<Map<u64, Account>, RejectReason>(
                        RejectReason::InvalidOrder,
                    )
                    &&& buy && o.price > 0 && o.price * o.qty <= u64::MAX ==> {
                        &&& a.usd_available < o.price * o.qty ==> r == Err::<Map<u64, Account>, RejectReason>(
                            RejectReason::InsufficientFunds,
                        )
                        &&& a.usd_available >= o.price * o.qty ==> r is Ok && {
                            let b = r->Ok_0[u];
                            &&& b.usd_available == a.usd_available - o.price * o.qty
                            &&& b.usd_locked == a.usd_locked + o.price * o.qty
                            &&& b.asset_available == a.asset_available
                            &&& b.asset_locked == a.asset_locked
                        }
                    }
                    &&& !buy && a.asset_available[sym] < o.qty ==> r == Err::<Map<u64, Account>, RejectReason>(
                        RejectReason::InsufficientFunds,
                    )
                    &&& !buy && a.asset_available[sym] >= o.qty ==> r is Ok && {
                        let b = r->Ok_0[u];
                        &&& b.asset_available[sym] == a.asset_available[sym] - o.qty
                        &&& b.asset_locked[sym] == a.asset_locked[sym] + o.qty
                        &&& b.usd_available == a.usd_available
                        &&& b.usd_locked == a.usd_locked
                        &&& forall|j: int| 0 <= j < 3 && j != sym ==> #[trigger] b.asset_available[j] == a.asset_available[j]
                            && b.asset_locked[j] == a.asset_locked[j]
                    }
                }
                &&& r matches Ok(m2) ==> forall|v: u64| v != u ==> (#[trigger] m2.contains_key(v) == m.contains_key(v) && (
                    m.contains_key(v) ==> m2[v] == m[v]))
            }
        }),
{
    broadcast use vstd::array::group_array_axioms;

}

/// Unlocking returns exactly the amount named from locked to available: `price *
/// qty` USD for a buy, `qty` of the asset for a sell, when that much is locked. The
/// user's available plus locked of that currency is unchanged, and nothing else
/// changes.
pub proof fn lemma_unlock_returns_amount(m: Map<u64, Account>, u: u64, symbol_id: u16, side: Side, price: u64, qty: u64)
    requires
        symbol_id < 3,
        m.contains_key(u),
        unlock_fits(m, u, symbol_id, side, price, qty),
        side == Side::Buy ==> price * qty <= u64::MAX && m[u].usd_locked >= price * qty,
        side == Side::Sell ==> m[u].asset_locked[symbol_id as int] >= qty,
    ensures
        ({
            let m2 = spec_unlock(m, u, symbol_id, side, price, qty);
            let sym = symbol_id as int;
            let a = m[u];
            let b = m2[u];
            &&& m2.contains_key(u)
            &&& side == Side::Buy ==> {
                &&& b.usd_locked == a.usd_locked - price * qty
                &&& b.usd_available == a.usd_available + price * qty
                &&& b.asset_available == a.asset_available
                &&& b.asset_locked == a.asset_locked
            }
            &&& side == Side::Sell ==> {
                &&& b.asset_locked[sym] == a.asset_locked[sym] - qty
                &&& b.asset_available[sym] == a.asset_available[sym] + qty
                &&& b.usd_available == a.usd_available
                &&& b.usd_locked == a.usd_locked
                &&& forall|j: int| 0 <= j < 3 && j != sym ==> #[trigger] b.asset_available[j] == a.asset_available[j]
                    && b.asset_locked[j] == a.asset_locked[j]
            }
            &&& forall|v: u64| v != u ==> (#[trigger] m2.contains_key(v) == m.contains_key(v) && (m.contains_key(v) ==> m2[v] == m[v]))
        }),
{
    broadcast use vstd::array::group_array_axioms;

    if qty == 0 {
        assert(price * qty == 0) by (nonlinear_arith)
            requires
                qty == 0,
        ;
    }
}
} // verus!
