use orderbook::book::MultiAssetEngine;
use orderbook::risk::RiskEngine;
use orderbook::types::{Order, Side, Symbol};
use orderbook::wal::{crc32, decode_wal, encode_wal_record, next_seq_id, wal_header, Crc32Table, WalHeader, WAL_RECORD_LEN};

fn log_of(orders: &[(Order, u64)]) -> Vec<u8> {
    let table = Crc32Table::new();
    let mut file = wal_header();
    for (i, (o, ts)) in orders.iter().enumerate() {
        file.extend(encode_wal_record(&table, WalHeader { seq_id: i as u64 + 1, timestamp_ns: *ts }, o));
    }
    file
}

#[test]
fn crc32_matches_the_ieee_check_value() {
    assert_eq!(crc32(b"123456789"), 0xCBF4_3926);
    assert_eq!(crc32(b""), 0);
    assert_eq!(Crc32Table::new().checksum(b"The quick brown fox jumps over the lazy dog"), 0x414F_A339);
}

#[test]
fn test_wal_write_and_recovery_replay() {
    let orders: Vec<(Order, u64)> = (1..=50u64)
        .map(|i| (Order::new_limit(i, i * 10, Symbol::Btc, Side::Buy, 100_00 + i, 1), 1_000_000 + i))
        .collect();
    let file = log_of(&orders);
    assert_eq!(&file[..4], &0x5741_4C31u32.to_le_bytes());
    let records = decode_wal(&Crc32Table::new(), &file).unwrap();
    assert_eq!(records.len(), 50);
    for (idx, (header, order)) in records.iter().enumerate() {
        let expected = idx as u64 + 1;
        assert_eq!(header.seq_id, expected);
        assert_eq!(header.timestamp_ns, 1_000_000 + expected);
        assert_eq!(order.id, expected);
        assert_eq!(order.price, 100_00 + expected);
    }
}

#[test]
fn wal_stops_at_a_damaged_or_torn_record() {
    let orders: Vec<(Order, u64)> =
        (1..=3u64).map(|i| (Order::new_limit(i, 1, Symbol::Eth, Side::Sell, 500, i), i)).collect();
    let file = log_of(&orders);
    let mut torn = file.clone();
    torn.truncate(file.len() - 5);
    assert_eq!(decode_wal(&Crc32Table::new(), &torn).unwrap().len(), 2);
    let mut flipped = file.clone();
    flipped[8 + WAL_RECORD_LEN + 20] ^= 0x01;
    assert_eq!(decode_wal(&Crc32Table::new(), &flipped).unwrap().len(), 1);
    assert!(decode_wal(&Crc32Table::new(), &file[8..]).is_none());
}

#[test]
fn test_engine_wal_deposit_and_self_contained_recovery() {
    let file = log_of(&[
        (Order::new_deposit(1, 100_000_00, Symbol::Btc as u16, 10), 100),
        (Order::new_deposit(2, 500_000_00, Symbol::Btc as u16, 0), 200),
        (Order::new_limit(1, 1, Symbol::Btc, Side::Sell, 60_000_00, 5), 300),
        (Order::new_limit(2, 2, Symbol::Btc, Side::Buy, 60_000_00, 2), 400),
    ]);
    let records = decode_wal(&Crc32Table::new(), &file).unwrap();
    assert_eq!(records.len(), 4);
    let mut engine = MultiAssetEngine::new();
    let mut risk = RiskEngine::new();
    let mut scratch = Vec::new();
    for (_header, order) in records {
        engine.replay_order(order, &mut scratch, &mut risk).unwrap();
    }
    let acc1 = risk.get_account(1).unwrap();
    assert_eq!(acc1.usd_available, 220_000_00);
    assert_eq!(acc1.asset_available[Symbol::Btc as usize], 5);
    assert_eq!(acc1.asset_locked[Symbol::Btc as usize], 3);
    let acc2 = risk.get_account(2).unwrap();
    assert_eq!(acc2.usd_available, 380_000_00);
    assert_eq!(acc2.asset_available[Symbol::Btc as usize], 2);
    assert_eq!(engine.next_order_id(), 3);
}

#[test]
fn test_engine_wal_replay_full_state_recovery() {
    let file = log_of(&[
        (Order::new_limit(1, 1, Symbol::Btc, Side::Sell, 60_000_00, 5), 1000),
        (Order::new_limit(2, 2, Symbol::Eth, Side::Sell, 3_000_00, 10), 2000),
        (Order::new_limit(3, 3, Symbol::Btc, Side::Buy, 60_000_00, 2), 3000),
    ]);
    let mut fresh_engine = MultiAssetEngine::new();
    let mut fresh_risk = RiskEngine::new();
    fresh_risk.deposit(1, 0, Symbol::Btc as u16, 10);
    fresh_risk.deposit(2, 0, Symbol::Eth as u16, 20);
    fresh_risk.deposit(3, 500_000_00, Symbol::Btc as u16, 0);
    let records = decode_wal(&Crc32Table::new(), &file).unwrap();
    assert_eq!(records.len(), 3);
    let mut scratch_trades = Vec::new();
    for (_header, order) in records {
        fresh_engine.replay_order(order, &mut scratch_trades, &mut fresh_risk).unwrap();
    }
    let (_, btc_ask) = fresh_engine.get_book(Symbol::Btc as u16).unwrap().get_bbo();
    assert_eq!(btc_ask, Some((60_000_00, 3)));
    let (_, eth_ask) = fresh_engine.get_book(Symbol::Eth as u16).unwrap().get_bbo();
    assert_eq!(eth_ask, Some((3_000_00, 10)));
    let acc3 = fresh_risk.get_account(3).unwrap();
    assert_eq!(acc3.asset_available[Symbol::Btc as usize], 2);
    assert_eq!(acc3.usd_available, 380_000_00);
}

#[test]
fn sequence_resumes_after_the_last_record() {
    let file = log_of(&[
        (Order::new_limit(1, 1, Symbol::Btc, Side::Sell, 100, 1), 10),
        (Order::new_limit(2, 1, Symbol::Btc, Side::Sell, 101, 1), 20),
    ]);
    let records = decode_wal(&Crc32Table::new(), &file).unwrap();
    assert_eq!(next_seq_id(&records), Some(3));
    assert_eq!(next_seq_id(&Vec::new()), Some(1));
    let full = vec![(WalHeader { seq_id: u64::MAX, timestamp_ns: 0 }, Order::new_limit(1, 1, Symbol::Btc, Side::Buy, 1, 1))];
    assert_eq!(next_seq_id(&full), None);
}
