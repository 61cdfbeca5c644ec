use orderbook::book::MultiAssetEngine;
use orderbook::gateway::OutboundEvent;
use orderbook::pipeline::handle_order;
use orderbook::risk::RiskEngine;
use orderbook::types::{Order, RejectReason, Side, Symbol};

fn setup() -> (MultiAssetEngine, RiskEngine) {
    let engine = MultiAssetEngine::new();
    let mut risk = RiskEngine::new();
    risk.deposit(1, 1_000_000, Symbol::Btc as u16, 100);
    risk.deposit(2, 1_000_000, Symbol::Btc as u16, 100);
    (engine, risk)
}

#[test]
fn step_acknowledges_matches_settles_and_broadcasts() {
    let (mut engine, mut risk) = setup();
    let mut trades = Vec::new();
    let mut events = Vec::new();

    let mut ask = Order::new_limit(0, 2, Symbol::Btc, Side::Sell, 1_000, 5);
    ask.client_order_id = 11;
    let logged = handle_order(&mut engine, &mut risk, ask, 7, &mut trades, &mut events).unwrap();
    assert_eq!(logged.id, 1);
    assert_eq!(events.len(), 2);
    assert!(matches!(events[0], OutboundEvent::ClientAck { client_id: 7, .. }));
    assert!(matches!(events[1], OutboundEvent::BboBroadcast { .. }));
    assert_eq!(risk.get_account(2).unwrap().asset_locked[0], 5);

    events.clear();
    let bid = Order::new_limit(0, 1, Symbol::Btc, Side::Buy, 1_100, 3);
    let logged = handle_order(&mut engine, &mut risk, bid, 8, &mut trades, &mut events).unwrap();
    assert_eq!(logged.id, 2);
    assert_eq!(trades.len(), 1);
    assert_eq!((trades[0].price, trades[0].qty), (1_000, 3));
    assert_eq!(events.len(), 3);
    match events[1] {
        OutboundEvent::TradeFill { taker_client_id, maker_client_id, taker_msg, maker_msg } => {
            assert_eq!((taker_client_id, maker_client_id), (8, 7));
            assert_eq!(taker_msg.qty, 3);
            assert_eq!(maker_msg.is_maker, 1);
            assert_eq!(maker_msg.extra_price, 11);
        }
        _ => panic!("expected a fill"),
    }
    match events[2] {
        OutboundEvent::BboBroadcast { msg } => {
            assert_eq!((msg.price, msg.qty, msg.extra_price, msg.extra_qty), (0, 0, 1_000, 2));
        }
        _ => panic!("expected a broadcast"),
    }
    // Buyer paid 3 * 1000 and had 3 * 100 of price improvement refunded.
    let buyer = risk.get_account(1).unwrap();
    assert_eq!(buyer.usd_available, 1_000_000 - 3_000);
    assert_eq!(buyer.usd_locked, 0);
    assert_eq!(buyer.asset_available[0], 103);
    let seller = risk.get_account(2).unwrap();
    assert_eq!(seller.usd_available, 1_003_000);
    assert_eq!(seller.asset_locked[0], 2);
}

#[test]
fn step_rejects_unfunded_orders_and_foreign_cancels() {
    let (mut engine, mut risk) = setup();
    let mut trades = Vec::new();
    let mut events = Vec::new();

    let too_big = Order::new_limit(0, 1, Symbol::Btc, Side::Buy, 1_000_000, 2);
    assert!(handle_order(&mut engine, &mut risk, too_big, 1, &mut trades, &mut events).is_none());
    match events[0] {
        OutboundEvent::ClientReject { client_id, msg } => {
            assert_eq!(client_id, 1);
            assert_eq!(msg.reject_code, RejectReason::InsufficientFunds as u8);
        }
        _ => panic!("expected a reject"),
    }

    events.clear();
    let bid = Order::new_limit(0, 1, Symbol::Btc, Side::Buy, 10, 2);
    let logged = handle_order(&mut engine, &mut risk, bid, 1, &mut trades, &mut events).unwrap();
    events.clear();
    let foreign = Order::new_cancel(logged.id, 2, Symbol::Btc);
    assert!(handle_order(&mut engine, &mut risk, foreign, 2, &mut trades, &mut events).is_none());
    match events[0] {
        OutboundEvent::ClientReject { msg, .. } => assert_eq!(msg.reject_code, RejectReason::Unauthorized as u8),
        _ => panic!("expected a reject"),
    }
    events.clear();
    let own = Order::new_cancel(logged.id, 1, Symbol::Btc);
    assert!(handle_order(&mut engine, &mut risk, own, 1, &mut trades, &mut events).is_some());
    match events[0] {
        OutboundEvent::ClientCancelOk { msg, .. } => assert_eq!(msg.qty, 2),
        _ => panic!("expected a cancel confirmation"),
    }
    assert_eq!(risk.get_account(1).unwrap().usd_locked, 0);
    assert_eq!(risk.get_account(1).unwrap().usd_available, 1_000_000);
}

#[test]
fn step_cuts_self_trades_and_releases_the_remainder() {
    let (mut engine, mut risk) = setup();
    let mut trades = Vec::new();
    let mut events = Vec::new();
    handle_order(&mut engine, &mut risk, Order::new_limit(0, 1, Symbol::Btc, Side::Sell, 500, 4), 1, &mut trades, &mut events);
    events.clear();
    handle_order(&mut engine, &mut risk, Order::new_limit(0, 1, Symbol::Btc, Side::Buy, 500, 4), 1, &mut trades, &mut events);
    assert!(trades.is_empty());
    assert!(events.iter().any(|e| matches!(e, OutboundEvent::ClientReject { msg, .. } if msg.reject_code == RejectReason::SelfTradePrevented as u8)));
    let acct = risk.get_account(1).unwrap();
    assert_eq!(acct.usd_locked, 0);
    assert_eq!(acct.usd_available, 1_000_000);
    assert_eq!(acct.asset_locked[0], 4);
}
