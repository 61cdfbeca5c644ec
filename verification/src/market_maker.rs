//! Order flow of the two-user trading client: user 1 quotes around the base price
//! and cancels its own quotes, user 2 sends small market orders, so the two users'
//! orders meet without either trading against itself.
use vstd::prelude::*;
use crate::types::{Order, OrderType, Side, Symbol};

verus! {

/// The random draws for one client order.
#[derive(Debug, Clone, Copy)]
pub struct ClientDraws {
    /// Instrument: 0 BTC, 1 ETH, 2 SOL.
    pub symbol_idx: usize,
    /// 0..7 quote, 7..9 cancel (when a quote is active), otherwise a market order.
    pub action: u32,
    pub buy: bool,
    /// Distance of a quote from the base price.
    pub spread_offset: u64,
    /// Quantity of a quote.
    pub qty: u64,
    /// Picks the quote to cancel, modulo the number of active quotes.
    pub cancel_pick: usize,
}

/// Base price of each instrument, in cents.
pub open spec fn base_price(symbol_idx: int) -> u64 {
    if symbol_idx == 0 {
        6_500_000
    } else if symbol_idx == 1 {
        350_000
    } else {
        15_000
    }
}

pub open spec fn symbol_of(symbol_idx: int) -> Symbol {
    if symbol_idx == 0 {
        Symbol::Btc
    } else if symbol_idx == 1 {
        Symbol::Eth
    } else {
        Symbol::Sol
    }
}

pub open spec fn side_of_draw(buy: bool) -> Side {
    if buy {
        Side::Buy
    } else {
        Side::Sell
    }
}

pub open spec fn sat_sub_u64(a: u64, b: u64) -> u64 {
    if a >= b {
        (a - b) as u64
    } else {
        0
    }
}

pub open spec fn sat_add_u64(a: u64, b: u64) -> u64 {
    if a + b <= u64::MAX {
        (a + b) as u64
    } else {
        u64::MAX
    }
}

/// The next client order, the next order id and the active quotes afterwards:
/// - a quote of user 1 below (buy) or above (sell) the base price, recorded as active;
/// - or the cancel of an active quote, which leaves the list (the last entry takes
///   its place);
/// - or a market order of user 2 for one lot with a budget of base price + 100.
pub open spec fn spec_client_order(d: ClientDraws, next_id: u64, active: Seq<(u64, Symbol, u64)>) -> (
    Order,
    u64,
    Seq<(u64, Symbol, u64)>,
) {
    let sym = symbol_of(d.symbol_idx as int);
    let base = base_price(d.symbol_idx as int);
    let side = side_of_draw(d.buy);
    if d.action < 7 {
        let price = if d.buy {
            sat_sub_u64(base, d.spread_offset)
        } else {
            sat_add_u64(base, d.spread_offset)
        };
        (
            Order::spec_limit(next_id, 1, sym, side, price, d.qty, next_id),
            (next_id + 1) as u64,
            active.push((next_id, sym, 1)),
        )
    } else if d.action < 9 && active.len() > 0 {
        let i = d.cancel_pick as int % active.len() as int;
        let e = active[i];
        (
            Order {
                id: e.0,
                price: 0,
                qty: 0,
                user_id: e.2,
                client_order_id: e.0,
                side: 0,
                order_type: OrderType::Cancel.spec_code(),
                symbol_id: e.1.spec_code(),
                magic: crate::types::ORDER_MAGIC,
                _padding: [0u8, 0u8],
            },
            next_id,
            active.update(i, active.last()).drop_last(),
        )
    } else {
        (
            Order {
                order_type: OrderType::Market.spec_code(),
                ..Order::spec_limit(next_id, 2, sym, side, (base + 100) as u64, 1, next_id)
            },
            (next_id + 1) as u64,
            active,
        )
    }
}

/// Builds the next client order from `d`, advancing `next_id` and updating the list of
/// active quotes.
pub fn next_client_order(d: ClientDraws, next_id: &mut u64, active: &mut Vec<(u64, Symbol, u64)>) -> (r: Order)
    requires
        d.symbol_idx < 3,
        *old(next_id) < u64::MAX,
    ensures
        ({
            let s = spec_client_order(d, *old(next_id), old(active)@);
            &&& r == s.0
            &&& *final(next_id) == s.1
            &&& final(active)@ == s.2
        }),
{
    let symbol = if d.symbol_idx == 0 {
        Symbol::Btc
    } else if d.symbol_idx == 1 {
        Symbol::Eth
    } else {
        Symbol::Sol
    };
    let base: u64 = if d.symbol_idx == 0 {
        6_500_000
    } else if d.symbol_idx == 1 {
        350_000
    } else {
        15_000
    };
    let side = if d.buy {
        Side::Buy
    } else {
        Side::Sell
    };
    if d.action < 7 {
        let price = if d.buy {
            base.saturating_sub(d.spread_offset)
        } else {
            base.saturating_add(d.spread_offset)
        };
        let ord = Order::new_limit(*next_id, 1, symbol, side, price, d.qty);
        active.push((*next_id, symbol, 1));
        *next_id = *next_id + 1;
        ord
    } else if d.action < 9 && active.len() > 0 {
        let i = d.cancel_pick % active.len();
        let (target, target_symbol, user) = active.swap_remove(i);
        Order::new_cancel(target, user, target_symbol)
    } else {
        let ord = Order::new_market(*next_id, 2, symbol, side, 1, base + 100);
        *next_id = *next_id + 1;
        ord
    }
}

/// The client never trades against itself: quotes are user 1's, market orders user
/// 2's, and a cancel names a quote of the active list, so when every active quote is
/// user 1's, so is every cancel, and the list stays all user 1's.
pub proof fn lemma_client_roles(d: ClientDraws, next_id: u64, active: Seq<(u64, Symbol, u64)>)
    requires
        forall|i: int| 0 <= i < active.len() ==> (#[trigger] active[i]).2 == 1,
    ensures
        ({
            let s = spec_client_order(d, next_id, active);
            &&& s.0.order_type == OrderType::Limit.spec_code() ==> s.0.user_id == 1
            &&& s.0.order_type == OrderType::Market.spec_code() ==> s.0.user_id == 2
            &&& s.0.order_type == OrderType::Cancel.spec_code() ==> s.0.user_id == 1 && exists|i: int|
                0 <= i < active.len() && active[i].0 == s.0.id && active[i].1.spec_code() == s.0.symbol_id
            &&& forall|i: int| 0 <= i < s.2.len() ==> (#[trigger] s.2[i]).2 == 1
        }),
{
    let s = spec_client_order(d, next_id, active);
    if d.action < 7 {
        assert forall|i: int| 0 <= i < s.2.len() implies (#[trigger] s.2[i]).2 == 1 by {
            if i < active.len() {
                assert(s.2[i] == active[i]);
            }
        }
    } else if d.action < 9 && active.len() > 0 {
        let i = d.cancel_pick as int % active.len() as int;
        assert(0 <= i < active.len());
        assert forall|j: int| 0 <= j < s.2.len() implies (#[trigger] s.2[j]).2 == 1 by {
            if j == i {
                assert(s.2[j] == active[active.len() - 1]);
            } else {
                assert(s.2[j] == active[j]);
            }
        }
    }
}

} // verus!
