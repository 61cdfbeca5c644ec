use orderbook::protocol::{Cancel, Message, NewOrder, Side};

#[test]
fn test_binary_round_trip_new_order() {
    let order = NewOrder {
        order_id: 42,
        instrument: 7,
        side: Side::Buy,
        price: 12345,
        qty: 100,
        ts_ns: 999,
    };
    let msg = Message::NewOrder(order.clone());
    let bin = msg.to_binary();
    let decoded = Message::from_binary(&bin);
    match decoded {
        Message::NewOrder(no) => assert_eq!(no, order),
        _ => panic!("Decoded message is not NewOrder"),
    }
}

#[test]
fn test_binary_round_trip_cancel() {
    let cancel = Cancel {
        order_id: 99,
        instrument: 3,
        ts_ns: 888,
    };
    let msg = Message::Cancel(cancel.clone());
    let bin = msg.to_binary();
    let decoded = Message::from_binary(&bin);
    match decoded {
        Message::Cancel(c) => assert_eq!(c, cancel),
        _ => panic!("Decoded message is not Cancel"),
    }
}

#[test]
fn test_new_order_frame_layout() {
    let msg = Message::NewOrder(NewOrder {
        order_id: 0x0102,
        instrument: 5,
        side: Side::Sell,
        price: 7,
        qty: 8,
        ts_ns: 9,
    });
    let bin = msg.to_binary();
    assert_eq!(bin.len(), 38);
    assert_eq!(bin[0], 0);
    assert_eq!(bin[1], 0x02);
    assert_eq!(bin[2], 0x01);
    assert_eq!(bin[9], 5);
    assert_eq!(bin[13], 1);
    assert_eq!(bin[14], 7);
    assert_eq!(bin[22], 8);
    assert_eq!(bin[30], 9);
}

#[test]
fn test_cancel_frame_layout() {
    let msg = Message::Cancel(Cancel { order_id: 1, instrument: 2, ts_ns: 3 });
    let bin = msg.to_binary();
    assert_eq!(bin.len(), 21);
    assert_eq!(bin[0], 1);
    assert_eq!(bin[1], 1);
    assert_eq!(bin[9], 2);
    assert_eq!(bin[13], 3);
}

#[test]
fn test_malformed_frames_are_refused() {
    let good = Message::Cancel(Cancel { order_id: 1, instrument: 2, ts_ns: 3 }).to_binary();
    assert!(Message::try_from_binary(&good).is_some());
    assert!(Message::try_from_binary(&good[..20]).is_none());
    let mut bad_tag = good.clone();
    bad_tag[0] = 7;
    assert!(Message::try_from_binary(&bad_tag).is_none());
    let mut new_order = Message::NewOrder(NewOrder {
        order_id: 1,
        instrument: 1,
        side: Side::Buy,
        price: 1,
        qty: 1,
        ts_ns: 1,
    })
    .to_binary();
    new_order[13] = 2;
    assert!(Message::try_from_binary(&new_order).is_none());
    assert!(Message::try_from_binary(&[]).is_none());
}
