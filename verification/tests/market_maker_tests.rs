use orderbook::market_maker::{next_client_order, ClientDraws};
use orderbook::types::{OrderType, Side, Symbol};

fn draws(action: u32, buy: bool, cancel_pick: usize) -> ClientDraws {
    ClientDraws { symbol_idx: 1, action, buy, spread_offset: 25, qty: 3, cancel_pick }
}

#[test]
fn quotes_are_user_one_on_the_passive_side() {
    let mut next_id = 10u64;
    let mut active = Vec::new();
    let bid = next_client_order(draws(0, true, 0), &mut next_id, &mut active);
    assert_eq!(bid.get_order_type(), Some(OrderType::Limit));
    assert_eq!((bid.id, bid.user_id, bid.price, bid.qty), (10, 1, 349_975, 3));
    assert_eq!(bid.side, Side::Buy as u8);
    let ask = next_client_order(draws(6, false, 0), &mut next_id, &mut active);
    assert_eq!((ask.id, ask.user_id, ask.price), (11, 1, 350_025));
    assert_eq!(ask.side, Side::Sell as u8);
    assert_eq!(next_id, 12);
    assert_eq!(active, vec![(10, Symbol::Eth, 1), (11, Symbol::Eth, 1)]);
}

#[test]
fn market_orders_are_user_two_with_a_budget_above_base() {
    let mut next_id = 5u64;
    let mut active = Vec::new();
    let m = next_client_order(ClientDraws { symbol_idx: 0, action: 9, buy: true, spread_offset: 0, qty: 0, cancel_pick: 0 }, &mut next_id, &mut active);
    assert_eq!(m.get_order_type(), Some(OrderType::Market));
    assert_eq!((m.id, m.user_id, m.qty, m.price), (5, 2, 1, 6_500_100));
    assert_eq!(next_id, 6);
    assert!(active.is_empty());
}

#[test]
fn a_cancel_removes_the_named_quote() {
    let mut next_id = 1u64;
    let mut active = vec![(1, Symbol::Btc, 1), (2, Symbol::Eth, 1), (3, Symbol::Sol, 1)];
    let c = next_client_order(draws(7, true, 4), &mut next_id, &mut active);
    assert_eq!(c.get_order_type(), Some(OrderType::Cancel));
    assert_eq!((c.id, c.user_id, c.symbol_id), (2, 1, Symbol::Eth as u16));
    assert_eq!(active, vec![(1, Symbol::Btc, 1), (3, Symbol::Sol, 1)]);
    assert_eq!(next_id, 1);
}

#[test]
fn with_no_active_quote_a_cancel_draw_sends_a_market_order() {
    let mut next_id = 7u64;
    let mut active = Vec::new();
    let m = next_client_order(draws(8, false, 0), &mut next_id, &mut active);
    assert_eq!(m.get_order_type(), Some(OrderType::Market));
    assert_eq!(m.user_id, 2);
    assert_eq!(next_id, 8);
}
