use orderbook::book::{MultiAssetEngine, OrderBook};
use orderbook::protocol::{Cancel, Message, NewOrder, Side as WireSide};
use orderbook::risk::RiskEngine;
use orderbook::types::{Order, RejectReason, Side, Symbol, Trade};

#[test]
fn no_trade_between_a_user_and_itself() {
    let mut book = OrderBook::new(Symbol::Btc);
    let mut trades = Vec::new();
    book.process(Order::new_limit(1, 1, Symbol::Btc, Side::Sell, 100, 3), 1, &mut trades).unwrap();
    book.process(Order::new_limit(2, 2, Symbol::Btc, Side::Sell, 100, 3), 2, &mut trades).unwrap();
    book.process(Order::new_limit(3, 2, Symbol::Btc, Side::Sell, 99, 3), 2, &mut trades).unwrap();
    let res = book.process(Order::new_limit(4, 2, Symbol::Btc, Side::Buy, 100, 9), 2, &mut trades).unwrap();
    assert!(res.stp_triggered);
    assert!(trades.iter().all(|t| t.maker_user_id != t.taker_user_id));
    assert_eq!(res.executed_qty, trades.iter().map(|t| t.qty).sum::<u64>());
    assert_eq!(res.executed_qty + res.remaining_qty, 9);
}

#[test]
fn limit_orders_never_trade_through_their_limit() {
    let mut book = OrderBook::new(Symbol::Eth);
    let mut trades = Vec::new();
    for (i, p) in [100u64, 101, 102, 103].iter().enumerate() {
        book.process(Order::new_limit(i as u64 + 1, 1, Symbol::Eth, Side::Sell, *p, 2), 1, &mut trades).unwrap();
    }
    let res = book.process(Order::new_limit(10, 2, Symbol::Eth, Side::Buy, 102, 100), 2, &mut trades).unwrap();
    assert_eq!(res.executed_qty, 6);
    assert!(trades.iter().all(|t| t.price <= 102));
    // Prices come best first.
    assert!(trades.windows(2).all(|w| w[0].price <= w[1].price));
    // The remainder rests as the new best bid, below the best ask: the book is not crossed.
    let (bid, ask) = book.get_bbo();
    assert_eq!(bid, Some((102, 94)));
    assert_eq!(ask, Some((103, 2)));
}

#[test]
fn only_the_owner_cancels_and_refusal_changes_nothing() {
    let mut engine = MultiAssetEngine::new();
    let mut trades = Vec::new();
    engine.process(Order::new_limit(5, 1, Symbol::Sol, Side::Buy, 10, 4), 1, &mut trades).unwrap();
    assert_eq!(engine.cancel_order(Symbol::Sol as u16, 2, 5).unwrap_err(), RejectReason::Unauthorized);
    assert_eq!(engine.get_book(Symbol::Sol as u16).unwrap().get_bbo().0, Some((10, 4)));
    let o = engine.cancel_order(Symbol::Sol as u16, 1, 5).unwrap();
    assert_eq!(o.user_id, 1);
    assert_eq!(engine.get_book(Symbol::Sol as u16).unwrap().get_bbo().0, None);
}

#[test]
fn lock_then_unlock_restores_the_account() {
    let mut risk = RiskEngine::new();
    risk.deposit(1, 5_000, Symbol::Btc as u16, 7);
    let before = *risk.get_account(1).unwrap();
    let buy = Order::new_limit(1, 1, Symbol::Btc, Side::Buy, 100, 20);
    risk.lock_order_funds(&buy).unwrap();
    let mid = *risk.get_account(1).unwrap();
    assert_eq!(mid.usd_available + mid.usd_locked, before.usd_available + before.usd_locked);
    risk.unlock_order_funds(1, Symbol::Btc as u16, Side::Buy, 100, 20);
    assert_eq!(*risk.get_account(1).unwrap(), before);
    let sell = Order::new_limit(2, 1, Symbol::Btc, Side::Sell, 100, 7);
    risk.lock_order_funds(&sell).unwrap();
    risk.unlock_order_funds(1, Symbol::Btc as u16, Side::Sell, 100, 7);
    assert_eq!(*risk.get_account(1).unwrap(), before);
}

#[test]
fn protocol_frames_are_canonical() {
    let m = Message::NewOrder(NewOrder { order_id: 3, instrument: 4, side: WireSide::Sell, price: 5, qty: 6, ts_ns: 7 });
    let b = m.to_binary();
    let back = Message::try_from_binary(&b).unwrap();
    assert_eq!(back, m);
    assert_eq!(back.to_binary(), b);
    let c = Message::Cancel(Cancel { order_id: u64::MAX, instrument: u32::MAX, ts_ns: 0 });
    assert_eq!(Message::from_binary(&c.to_binary()), c);
}

#[test]
fn wire_order_round_trips() {
    let o = Order::new_limit(0x0102030405060708, 9, Symbol::Sol, Side::Sell, 42, 17);
    let bytes = o.to_wire_bytes();
    assert_eq!(bytes.len(), 48);
    assert_eq!(Order::from_wire_bytes(&bytes), o);
    assert_eq!(o.to_le().from_le(), o);
}

#[test]
fn resting_then_cancelling_leaves_the_book_unchanged() {
    let mut book = OrderBook::new(Symbol::Btc);
    let mut trades = Vec::new();
    book.process(Order::new_limit(1, 1, Symbol::Btc, Side::Buy, 100, 3), 1, &mut trades).unwrap();
    book.process(Order::new_limit(2, 2, Symbol::Btc, Side::Sell, 105, 4), 2, &mut trades).unwrap();
    let before = book.get_depth(10);
    // At an existing level.
    book.process(Order::new_limit(3, 3, Symbol::Btc, Side::Buy, 100, 7), 3, &mut trades).unwrap();
    assert_ne!(book.get_depth(10), before);
    assert_eq!(book.cancel_order(3, 3).unwrap().qty, 7);
    assert_eq!(book.get_depth(10), before);
    // At a new level.
    book.process(Order::new_limit(4, 3, Symbol::Btc, Side::Sell, 110, 2), 3, &mut trades).unwrap();
    assert_eq!(book.cancel_order(3, 4).unwrap().price, 110);
    assert_eq!(book.get_depth(10), before);
    assert!(trades.is_empty());
}

#[test]
fn market_buy_refund_returns_only_the_unspent_budget() {
    let mut risk = RiskEngine::new();
    risk.deposit(1, 1_000, 0, 0);
    risk.deposit(2, 0, 0, 5);
    assert_eq!(risk.lock_order_funds(&Order::new_market(1, 1, Symbol::Btc, Side::Buy, 10, 100)), Ok(()));
    assert_eq!(risk.lock_order_funds(&Order::new_limit(2, 2, Symbol::Btc, Side::Sell, 90, 5)), Ok(()));
    let t = Trade {
        match_id: 0,
        maker_order_id: 0,
        taker_order_id: 0,
        maker_client_order_id: 0,
        taker_client_order_id: 0,
        maker_user_id: 2,
        taker_user_id: 1,
        maker_client_id: 0,
        taker_client_id: 0,
        buyer_id: 1,
        seller_id: 2,
        maker_side: 0,
        symbol_id: 0,
        price: 90,
        qty: 5,
    };
    risk.settle_trade(&t, 100);
    risk.refund_market_order_remainder(1, 0, Side::Buy, 100, 10, 5, 450);
    let a = *risk.get_account(1).unwrap();
    assert_eq!(a.usd_available, 550);
    assert_eq!(a.usd_locked, 0);
    assert_eq!(a.asset_available[0], 5);
    let s = *risk.get_account(2).unwrap();
    assert_eq!(s.usd_available, 450);
    assert_eq!(s.asset_locked[0], 0);
}

#[test]
fn a_cancelled_order_leaves_both_indices() {
    let mut book = OrderBook::new(Symbol::Btc);
    let mut trades = Vec::new();
    book.process(Order::new_client_limit(77, 4, Symbol::Btc, Side::Buy, 50, 2), 9, &mut trades).unwrap();
    let placed = book.cancel_order(4, 77).unwrap();
    assert_eq!((placed.user_id, placed.client_order_id), (4, 77));
    assert_eq!(book.cancel_order(4, placed.id).unwrap_err(), RejectReason::OrderNotFound);
    assert_eq!(book.cancel_order(4, 77).unwrap_err(), RejectReason::OrderNotFound);
    assert_eq!(book.get_bbo(), (None, None));
}

#[test]
fn a_new_book_is_empty_and_counts_from_one() {
    let mut book = OrderBook::new(Symbol::Sol);
    assert_eq!(book.symbol, Symbol::Sol);
    assert_eq!(book.get_bbo(), (None, None));
    assert_eq!(book.order_index.len(), 0);
    assert_eq!(book.order_arena.active_count, 0);
    assert_eq!(book.next_order_id(), 1);
    assert_eq!(book.next_order_id(), 2);
}

#[test]
fn exchange_ids_are_never_reused() {
    let mut book = OrderBook::new(Symbol::Btc);
    let mut trades = Vec::new();
    book.process(Order::new_limit(100, 1, Symbol::Btc, Side::Buy, 10, 1), 1, &mut trades).unwrap();
    let fresh = book.next_order_id();
    assert!(fresh > 100);
    book.process(Order::new_client_limit(5, 2, Symbol::Btc, Side::Buy, 9, 1), 2, &mut trades).unwrap();
    assert!(book.next_order_id() > fresh + 1);
}

#[test]
fn a_fresh_arena_hands_out_each_index_once_then_refuses() {
    let mut arena = orderbook::arena::OrderArena::new(3);
    let o = Order::new_limit(1, 1, Symbol::Btc, Side::Buy, 1, 1);
    assert_eq!(arena.allocate(o, 0), Ok(0));
    assert_eq!(arena.allocate(o, 0), Ok(1));
    assert_eq!(arena.allocate(o, 0), Ok(2));
    assert_eq!(arena.allocate(o, 0), Err(RejectReason::EngineFull));
    assert_eq!(arena.active_count, 3);
}

#[test]
fn a_level_queue_pops_in_push_order() {
    let mut arena = orderbook::arena::OrderArena::new(4);
    let mut level = orderbook::arena::PriceLevelNode::default();
    for (i, q) in [(2u32, 5u64), (0, 7), (3, 1)] {
        arena.nodes[i as usize].order.qty = q;
        level.push_order(i, &mut arena);
    }
    assert_eq!((level.total_qty, level.order_count), (13, 3));
    assert_eq!(level.pop_order(&mut arena), Some(2));
    assert_eq!(level.pop_order(&mut arena), Some(0));
    assert_eq!(level.total_qty, 1);
    assert_eq!(level.pop_order(&mut arena), Some(3));
    assert_eq!(level.pop_order(&mut arena), None);
    assert_eq!(level.order_count, 0);
}
