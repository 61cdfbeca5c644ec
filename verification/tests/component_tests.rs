use orderbook::api::Order as ApiOrder;
use orderbook::arena::{OrderArena, PriceLevelArena};
use orderbook::connection::parse_order;
use orderbook::gateway::admit_inbound;
use orderbook::matching_engine::MatchingEngine;
use orderbook::metrics::LatencyHistogram;
use orderbook::order_ring_buffer::OrderRingBuffer;
use orderbook::scheduler::{route, Venue};
use orderbook::sequencer::Sequencer;
use orderbook::spot_risk::RiskEngine as SpotRisk;
use orderbook::types::{Order, OrderType, RejectReason, Side, Symbol, ORDER_MAGIC};
use orderbook::validator::{verify_transaction, AccountDb, MAX_QTY};
use orderbook::workload::{generate_order_stream, FastRng};

fn api_order(id: u64, side: u8, price: u64, qty: u64, user_id: u64) -> ApiOrder {
    ApiOrder { id, price, qty, user_id, company_id: 0, side, _padding: [0u8; 7] }
}

#[test]
fn matching_engine_fills_best_price_first_and_rests_remainder() {
    let mut me = MatchingEngine::new();
    assert!(me.process(api_order(1, 1, 101, 5, 10)).is_empty());
    assert!(me.process(api_order(2, 1, 100, 5, 11)).is_empty());
    // Buy 7 @ 101: takes 5 @ 100 first, then 2 @ 101.
    let trades = me.process(api_order(3, 0, 101, 7, 12));
    assert_eq!(trades.len(), 2);
    assert_eq!((trades[0].price, trades[0].qty, trades[0].buyer_id, trades[0].seller_id), (100, 5, 12, 11));
    assert_eq!((trades[1].price, trades[1].qty, trades[1].buyer_id, trades[1].seller_id), (101, 2, 12, 10));
    assert!(me.asks.get(&100).is_none());
    assert_eq!(me.asks.get(&101).unwrap()[0].qty, 3);
    assert!(me.bids.is_empty());
}

#[test]
fn matching_engine_respects_limit_and_time_priority() {
    let mut me = MatchingEngine::new();
    me.process(api_order(1, 0, 99, 4, 1));
    me.process(api_order(2, 0, 99, 4, 2));
    // Sell 5 @ 100 does not cross and rests.
    assert!(me.process(api_order(3, 1, 100, 5, 3)).is_empty());
    assert_eq!(me.asks.get(&100).unwrap().len(), 1);
    // Sell 6 @ 99: first bid (user 1) then user 2.
    let trades = me.process(api_order(4, 1, 99, 6, 4));
    assert_eq!(trades.len(), 2);
    assert_eq!((trades[0].buyer_id, trades[0].qty), (1, 4));
    assert_eq!((trades[1].buyer_id, trades[1].qty), (2, 2));
    assert_eq!(me.bids.get(&99).unwrap()[0].qty, 2);
}

#[test]
fn spot_risk_checks_and_settles() {
    let mut risk = SpotRisk::new();
    risk.deposit(1, 1_000, 0);
    risk.deposit(2, 0, 5);
    assert!(risk.check_risk(&api_order(1, 0, 100, 3, 1)));
    assert_eq!(risk.get_account(1).unwrap().usd, 700);
    assert!(!risk.check_risk(&api_order(2, 0, 100, 8, 1)));
    assert_eq!(risk.get_account(1).unwrap().usd, 700);
    assert!(risk.check_risk(&api_order(3, 1, 100, 5, 2)));
    assert_eq!(risk.get_account(2).unwrap().btc, 0);
    assert!(!risk.check_risk(&api_order(4, 1, 100, 1, 3)));
    assert!(risk.get_account(3).is_some());
    risk.settle_trade(1, 2, 90, 3);
    assert_eq!(risk.get_account(1).unwrap().btc, 3);
    assert_eq!(risk.get_account(2).unwrap().usd, 270);
    risk.settle_trade(1, 1, 90, 3);
    assert_eq!(risk.get_account(1).unwrap().btc, 3);
}

#[test]
fn ring_buffer_is_fifo_and_bounded() {
    let mut rb: OrderRingBuffer<2> = OrderRingBuffer::new();
    assert!(rb.is_empty());
    let a = Order::new_limit(1, 1, Symbol::Btc, Side::Buy, 10, 1);
    let b = Order::new_limit(2, 1, Symbol::Btc, Side::Buy, 11, 1);
    let c = Order::new_limit(3, 1, Symbol::Btc, Side::Buy, 12, 1);
    assert!(rb.push_back(a));
    assert!(rb.push_back(b));
    assert!(!rb.push_back(c));
    assert_eq!(rb.len(), 2);
    rb.front_mut().unwrap().qty = 9;
    assert_eq!(rb.pop_front().unwrap().qty, 9);
    assert!(rb.push_back(c));
    assert_eq!(rb.pop_front().unwrap().id, 2);
    assert_eq!(rb.pop_front().unwrap().id, 3);
    assert!(rb.pop_front().is_none());
    assert!(rb.front_mut().is_none());
}

#[test]
fn histogram_buckets_and_values() {
    assert_eq!(LatencyHistogram::value_to_bucket(0), 0);
    assert_eq!(LatencyHistogram::value_to_bucket(15), 15);
    assert_eq!(LatencyHistogram::value_to_bucket(16), 16);
    assert_eq!(LatencyHistogram::value_to_bucket(31), 31);
    assert_eq!(LatencyHistogram::value_to_bucket(32), 32);
    assert_eq!(LatencyHistogram::value_to_bucket(1_000), 111);
    assert_eq!(LatencyHistogram::value_to_bucket(u64::MAX), 543);
    assert_eq!(LatencyHistogram::bucket_to_value(15), 15);
    assert_eq!(LatencyHistogram::bucket_to_value(16), 16);
    assert_eq!(LatencyHistogram::bucket_to_value(32), 33);
    assert_eq!(LatencyHistogram::bucket_to_value(111), 1_008);
    let v = LatencyHistogram::bucket_to_value(LatencyHistogram::value_to_bucket(123_456));
    assert!(16 * v.abs_diff(123_456) <= 123_456);
}

#[test]
fn histogram_percentiles() {
    let mut h = LatencyHistogram::new();
    assert_eq!(h.percentile_percent(50), 0);
    for v in [10u64, 20, 30, 40] {
        h.record(v);
    }
    assert_eq!(h.count(), 4);
    assert_eq!(h.percentile_percent(50), 20);
    assert_eq!(h.percentile_percent(100), 41);
    assert_eq!(h.percentile_for_target(100), 40);
    let s = h.summary();
    assert_eq!(s.avg_ns, 25);
    assert_eq!(s.min_ns, 10);
}

#[test]
fn connection_frames_decode() {
    let mut b = vec![1u8];
    b.extend_from_slice(&1234u64.to_le_bytes());
    b.extend_from_slice(&56u32.to_le_bytes());
    let o = parse_order(&b).unwrap();
    assert_eq!(o.order_type, "BID");
    assert_eq!(o.price, 1234);
    assert_eq!(o.quantity, 56);
    b[0] = 0;
    assert_eq!(parse_order(&b).unwrap().order_type, "ASK");
    b[0] = 9;
    assert_eq!(parse_order(&b).unwrap().order_type, "UNKNOWN");
    assert!(parse_order(&b[..12]).is_none());
}

#[test]
fn gateway_quarantines_inbound_ids() {
    let o = Order::new_limit(77, 1, Symbol::Btc, Side::Buy, 100, 1);
    let a = admit_inbound(o).unwrap();
    assert_eq!(a.id, 0);
    assert_eq!(a.client_order_id, 77);
    let mut o2 = o;
    o2.client_order_id = 5;
    let a2 = admit_inbound(o2).unwrap();
    assert_eq!((a2.id, a2.client_order_id), (0, 5));
    let c = Order::new_cancel(9, 1, Symbol::Eth);
    let ac = admit_inbound(c).unwrap();
    assert_eq!(ac.id, 9);
    assert_eq!(ac.get_order_type(), Some(OrderType::Cancel));
    let mut bad = o;
    bad.magic = ORDER_MAGIC ^ 1;
    assert!(admit_inbound(bad).is_none());
}

#[test]
fn scheduler_routes_by_letter() {
    assert_eq!(route('B'), Some(Venue::Btc));
    assert_eq!(route('E'), Some(Venue::Eth));
    assert_eq!(route('S'), Some(Venue::Sol));
    assert_eq!(route('X'), None);
}

#[test]
fn validator_checks_account_price_and_qty() {
    let mut db = AccountDb::new();
    db.open(7);
    assert!(verify_transaction(&api_order(1, 0, 10, 1, 7), &db));
    assert!(verify_transaction(&api_order(1, 0, 10, MAX_QTY, 7), &db));
    assert!(!verify_transaction(&api_order(1, 0, 10, MAX_QTY + 1, 7), &db));
    assert!(!verify_transaction(&api_order(1, 0, 0, 1, 7), &db));
    assert!(!verify_transaction(&api_order(1, 0, 10, 0, 7), &db));
    assert!(!verify_transaction(&api_order(1, 0, 10, 1, 8), &db));
}

#[test]
fn sequencer_counts_from_one() {
    let s = Sequencer::new();
    assert_eq!(s.next(), 1);
    assert_eq!(s.next(), 2);
}

#[test]
fn rng_is_xorshift() {
    let mut r = FastRng::new(0);
    assert_eq!(r.0, 0xdeadbeefcafebabe);
    let mut x: u64 = 0xdeadbeefcafebabe;
    x ^= x << 13;
    x ^= x >> 7;
    x ^= x << 17;
    assert_eq!(r.next_u64(), x);
    let v = r.gen_range(3..7);
    assert!((3..7).contains(&v));
}

#[test]
fn order_stream_cancels_only_earlier_quotes() {
    let s = generate_order_stream(2_000);
    assert_eq!(s.len(), 2_000);
    let mut last_id = 0u64;
    for (i, o) in s.iter().enumerate() {
        if o.get_order_type() == Some(OrderType::Cancel) {
            assert!(s[..i].iter().any(|q| q.id == o.id && q.user_id == o.user_id && q.symbol_id == o.symbol_id));
        } else {
            assert!(o.id > last_id);
            last_id = o.id;
            assert!(o.qty >= 1 && o.qty < 10);
        }
    }
}

#[test]
fn order_stream_opens_with_the_seeded_draws() {
    let s = generate_order_stream(6);
    let expected = [
        Order::new_limit(1, 3, Symbol::Eth, Side::Sell, 349_800, 1),
        Order::new_limit(2, 1, Symbol::Btc, Side::Sell, 6_500_096, 2),
        Order::new_limit(3, 3, Symbol::Btc, Side::Buy, 6_500_200, 2),
        Order::new_limit(4, 2, Symbol::Eth, Side::Buy, 349_924, 5),
        Order::new_limit(5, 2, Symbol::Eth, Side::Sell, 350_025, 7),
        Order::new_limit(6, 2, Symbol::Btc, Side::Sell, 6_500_076, 8),
    ];
    assert_eq!(s.len(), 6);
    for (got, want) in s.iter().zip(expected.iter()) {
        assert_eq!(got.to_wire_bytes(), want.to_wire_bytes());
    }
}

#[test]
fn codes_convert_with_try_from() {
    assert_eq!(Side::try_from(1u8), Ok(Side::Sell));
    assert_eq!(Side::try_from(2u8), Err(()));
    assert_eq!(OrderType::try_from(3u8), Ok(OrderType::Deposit));
    assert_eq!(OrderType::try_from(4u8), Err(()));
    assert_eq!(Symbol::try_from(2u16), Ok(Symbol::Sol));
    assert_eq!(Symbol::try_from(1u8), Ok(Symbol::Eth));
    assert_eq!(Symbol::try_from(3u16), Err(()));
    assert_eq!(Symbol::Eth.as_str(), "ETH/USD");
}

#[test]
fn prefund_opens_ten_funded_accounts() {
    let mut risk = orderbook::risk::RiskEngine::new();
    orderbook::workload::prefund(&mut risk);
    for u in 1..=10u64 {
        let a = risk.get_account(u).unwrap();
        assert_eq!(a.usd_available, 100_000_000_000);
        assert_eq!(a.asset_available, [1_000_000, 1_000_000, 10_000_000]);
        assert_eq!(a.asset_locked, [0, 0, 0]);
    }
    assert!(risk.get_account(11).is_none());
}

#[test]
fn higher_percentiles_report_no_lower_latency() {
    let mut h = LatencyHistogram::new();
    for v in [5u64, 17, 33, 64, 129, 1_000, 70_000, 3_000_000] {
        h.record(v);
    }
    let mut last = 0;
    for p in 0..=100u64 {
        let v = h.percentile_percent(p);
        assert!(v >= last);
        last = v;
    }
}

#[test]
fn exhausted_arenas_report_engine_full() {
    let mut levels = PriceLevelArena::new(2);
    assert!(levels.allocate(100).is_ok());
    assert!(levels.allocate(101).is_ok());
    assert_eq!(levels.allocate(102), Err(RejectReason::EngineFull));
    let mut nodes = OrderArena::new(1);
    let o = Order::new_limit(1, 1, Symbol::Btc, Side::Buy, 10, 1);
    let idx = nodes.allocate(o, 0).unwrap();
    assert_eq!(nodes.allocate(o, 0), Err(RejectReason::EngineFull));
    nodes.deallocate(idx);
    assert_eq!(nodes.allocate(o, 0), Ok(idx));
}

#[test]
fn invalid_orders_are_refused_by_the_margin_check() {
    let mut risk = orderbook::risk::RiskEngine::new();
    risk.deposit(1, 1_000, Symbol::Btc as u16, 5);
    let zero_qty = Order::new_limit(1, 1, Symbol::Btc, Side::Buy, 10, 0);
    assert_eq!(risk.lock_order_funds(&zero_qty), Err(RejectReason::InvalidOrder));
    let mut bad_symbol = Order::new_limit(2, 1, Symbol::Btc, Side::Buy, 10, 1);
    bad_symbol.symbol_id = 7;
    assert_eq!(risk.lock_order_funds(&bad_symbol), Err(RejectReason::InvalidOrder));
    let stranger = Order::new_limit(3, 9, Symbol::Btc, Side::Buy, 10, 1);
    assert_eq!(risk.lock_order_funds(&stranger), Err(RejectReason::Unauthorized));
}

#[test]
fn bench_step_settles_fills_and_counts_them() {
    let mut engine = orderbook::book::MultiAssetEngine::new();
    let mut risk = orderbook::risk::RiskEngine::new();
    orderbook::workload::prefund(&mut risk);
    let mut scratch = Vec::new();
    let ask = Order::new_limit(1, 1, Symbol::Btc, Side::Sell, 100, 5);
    let t = orderbook::workload::bench_step(&mut engine, &mut risk, &ask, &mut scratch);
    assert!(t.processed && !t.cancelled && !t.stp);
    assert_eq!(t.trades, 0);
    let bid = Order::new_limit(2, 2, Symbol::Btc, Side::Buy, 110, 3);
    let t = orderbook::workload::bench_step(&mut engine, &mut risk, &bid, &mut scratch);
    assert!(t.processed);
    assert_eq!(t.trades, 1);
    let buyer = *risk.get_account(2).unwrap();
    assert_eq!(buyer.usd_available, 100_000_000_000 - 300);
    assert_eq!(buyer.usd_locked, 0);
    assert_eq!(buyer.asset_available[0], 1_000_003);
    let cancel = Order::new_cancel(1, 1, Symbol::Btc);
    let t = orderbook::workload::bench_step(&mut engine, &mut risk, &cancel, &mut scratch);
    assert!(t.cancelled && !t.processed);
    let seller = *risk.get_account(1).unwrap();
    assert_eq!(seller.asset_locked[0], 0);
    assert_eq!(seller.asset_available[0], 1_000_000 - 3);
    assert_eq!(seller.usd_available, 100_000_000_000 + 300);
    let broke = Order::new_limit(3, 99, Symbol::Btc, Side::Buy, 100, 1);
    let t = orderbook::workload::bench_step(&mut engine, &mut risk, &broke, &mut scratch);
    assert!(!t.processed && !t.cancelled);
}
