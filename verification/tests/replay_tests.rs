use orderbook::book::MultiAssetEngine;
use orderbook::risk::RiskEngine;
use orderbook::types::{Order, Side, Symbol};

#[test]
fn replay_reconstructs_books_and_balances() {
    let records = vec![
        Order::new_limit(1, 1, Symbol::Btc, Side::Sell, 60_000_00, 5),
        Order::new_limit(2, 2, Symbol::Eth, Side::Sell, 3_000_00, 10),
        Order::new_limit(3, 3, Symbol::Btc, Side::Buy, 60_000_00, 2),
    ];
    let mut engine = MultiAssetEngine::new();
    let mut risk = RiskEngine::new();
    risk.deposit(1, 0, Symbol::Btc as u16, 10);
    risk.deposit(2, 0, Symbol::Eth as u16, 20);
    risk.deposit(3, 500_000_00, Symbol::Btc as u16, 0);
    let mut scratch = Vec::new();
    for order in records {
        engine.replay_order(order, &mut scratch, &mut risk).unwrap();
    }
    let (_, btc_ask) = engine.get_book(Symbol::Btc as u16).unwrap().get_bbo();
    assert_eq!(btc_ask, Some((60_000_00, 3)));
    let (_, eth_ask) = engine.get_book(Symbol::Eth as u16).unwrap().get_bbo();
    assert_eq!(eth_ask, Some((3_000_00, 10)));
    let acc3 = risk.get_account(3).unwrap();
    assert_eq!(acc3.asset_available[Symbol::Btc as usize], 2);
    assert_eq!(acc3.usd_available, 380_000_00);
    assert_eq!(engine.next_order_id(), 4);
}

#[test]
fn replay_of_deposits_is_self_contained() {
    let records = vec![
        Order::new_deposit(1, 100_000_00, Symbol::Btc as u16, 10),
        Order::new_deposit(2, 500_000_00, Symbol::Btc as u16, 0),
        Order::new_limit(1, 1, Symbol::Btc, Side::Sell, 60_000_00, 5),
        Order::new_limit(2, 2, Symbol::Btc, Side::Buy, 60_000_00, 2),
    ];
    let mut engine = MultiAssetEngine::new();
    let mut risk = RiskEngine::new();
    let mut scratch = Vec::new();
    for order in records {
        engine.replay_order(order, &mut scratch, &mut risk).unwrap();
    }
    let acc1 = risk.get_account(1).unwrap();
    assert_eq!(acc1.usd_available, 220_000_00);
    assert_eq!(acc1.asset_available[Symbol::Btc as usize], 5);
    assert_eq!(acc1.asset_locked[Symbol::Btc as usize], 3);
    let acc2 = risk.get_account(2).unwrap();
    assert_eq!(acc2.usd_available, 380_000_00);
    assert_eq!(acc2.asset_available[Symbol::Btc as usize], 2);
}
