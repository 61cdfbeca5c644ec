//! One step of the exchange's matching stage: an inbound order is checked against the
//! risk engine, matched by the engine of its symbol, settled, and turned into the
//! messages for the clients and the record for the write-ahead log.
use vstd::prelude::*;
use crate::book::{
    after_process_fits, after_process_risk, lemma_trades_totals_prefix, settle_all, settle_all_fits,
    trades_cost, trades_qty, process_ok, MultiAssetEngine, OrderBook,
};
use crate::book_spec::{queue_qty, spec_cancel, spec_process, stamp, BookState};
use crate::gateway::OutboundEvent;
use crate::risk::{
    lemma_lock_unlock_roundtrip, lock_fits, saturating_mul_u64, side_or_buy, spec_lock, spec_unlock, unlock_fits, Account,
    RiskEngine,
};
use crate::types::{
    spec_server_message, Order, OrderType, RejectReason, ServerMessage, ServerMsgType, Side, Trade,
};

verus! {

/// Rejection sent back to the client of `o`.
pub open spec fn reject_event(client_id: u64, o: Order, reason: RejectReason) -> OutboundEvent {
    OutboundEvent::ClientReject {
        client_id,
        msg: spec_server_message(
            ServerMsgType::Rejected,
            o.symbol_id as u8,
            reason.spec_code(),
            0,
            o.id,
            o.user_id,
            0,
            0,
            0,
            o.client_order_id,
            0,
        ),
    }
}

/// The two execution reports of a trade, to its taker and to its maker.
pub open spec fn fill_event(t: Trade) -> OutboundEvent {
    OutboundEvent::TradeFill {
        taker_client_id: t.taker_client_id,
        maker_client_id: t.maker_client_id,
        taker_msg: spec_server_message(
            ServerMsgType::Filled,
            t.symbol_id as u8,
            0,
            0,
            t.taker_order_id,
            t.taker_user_id,
            t.match_id,
            t.price,
            t.qty,
            t.taker_client_order_id,
            0,
        ),
        maker_msg: spec_server_message(
            ServerMsgType::Filled,
            t.symbol_id as u8,
            0,
            1,
            t.maker_order_id,
            t.maker_user_id,
            t.match_id,
            t.price,
            t.qty,
            t.maker_client_order_id,
            0,
        ),
    }
}

/// Best bid and offer of a book state, zeros for an empty side.
pub open spec fn bbo_event(sym: u8, st: BookState) -> OutboundEvent {
    let (bp, bq) = if st.bids.len() == 0 {
        (0u64, 0u64)
    } else {
        (st.bids[0].price, queue_qty(st.bids[0].queue) as u64)
    };
    let (ap, aq) = if st.asks.len() == 0 {
        (0u64, 0u64)
    } else {
        (st.asks[0].price, queue_qty(st.asks[0].queue) as u64)
    };
    OutboundEvent::BboBroadcast { msg: spec_server_message(ServerMsgType::Bbo, sym, 0, 0, 0, 0, 0, bp, bq, ap, aq) }
}

/// The order as the engine will know it: a zero id takes the engine's counter.
pub open spec fn assign_id(o: Order, ctr: u64) -> Order {
    if o.id == 0 {
        Order { id: ctr, ..o }
    } else {
        o
    }
}

/// What one step does, as plain values: the new state of the order's book, the new
/// counter, the accounts, the trades, the messages and the log record.
pub struct StepOutcome {
    pub book: BookState,
    pub counter: u64,
    pub accounts: Map<u64, Account>,
    pub trades: Seq<Trade>,
    pub events: Seq<OutboundEvent>,
    pub wal: Option<Order>,
}

/// One step of the matching stage on the order `o` of connection `client_id`:
/// - a cancel removes the order (by exchange id) if its owner asks, releases its funds,
///   confirms and logs; otherwise it is rejected;
/// - any other order first locks its funds (rejected when it cannot), takes an id if
///   it has none, is acknowledged and logged, and is processed by its book; the trades
///   are settled and reported to both sides, a remainder cut by self-trade prevention
///   is released and rejected, a market order's unused budget is refunded, and the
///   new best bid and offer are broadcast; an order the book refuses has its funds
///   released and is rejected.
pub open spec fn spec_step(e: MultiAssetEngine, m: Map<u64, Account>, o: Order, client_id: u64) -> StepOutcome {
    let sym = o.symbol_id as int;
    let st = e.book(sym).state();
    if o.spec_kind() == OrderType::Cancel {
        if o.symbol_id >= 3 {
            StepOutcome {
                book: st,
                counter: e.counter(),
                accounts: m,
                trades: Seq::empty(),
                events: seq![reject_event(client_id, o, RejectReason::InvalidOrder)],
                wal: None,
            }
        } else {
            let (st2, c) = spec_cancel(st, o.user_id, o.id);
            match c {
                Ok(x) => StepOutcome {
                    book: st2,
                    counter: e.counter(),
                    accounts: spec_unlock(m, x.user_id, x.symbol_id, side_or_buy(x), x.price, x.qty),
                    trades: Seq::empty(),
                    events: seq![
                        OutboundEvent::ClientCancelOk {
                            client_id,
                            msg: spec_server_message(
                                ServerMsgType::Cancelled,
                                o.symbol_id as u8,
                                0,
                                0,
                                x.id,
                                o.user_id,
                                0,
                                0,
                                x.qty,
                                x.client_order_id,
                                0,
                            ),
                        },
                    ],
                    wal: Some(o),
                },
                Err(reason) => StepOutcome {
                    book: st,
                    counter: e.counter(),
                    accounts: m,
                    trades: Seq::empty(),
                    events: seq![reject_event(client_id, o, reason)],
                    wal: None,
                },
            }
        }
    } else {
        match spec_lock(m, o) {
            Err(reason) => StepOutcome {
                book: st,
                counter: e.counter(),
                accounts: m,
                trades: Seq::empty(),
                events: seq![reject_event(client_id, o, reason)],
                wal: None,
            },
            Ok(m1) => {
                let o1 = assign_id(o, e.counter());
                let ctr1 = if o.id == 0 {
                    (e.counter() + 1) as u64
                } else {
                    e.counter()
                };
                let (o2, ctr2) = stamp(o1, ctr1);
                let out = spec_process(st, o2, client_id);
                let ack = OutboundEvent::ClientAck {
                    client_id,
                    msg: spec_server_message(
                        ServerMsgType::Accepted,
                        o1.symbol_id as u8,
                        0,
                        0,
                        o1.id,
                        o1.user_id,
                        0,
                        0,
                        0,
                        o1.client_order_id,
                        0,
                    ),
                };
                match out.result {
                    Ok(rep) => StepOutcome {
                        book: out.state,
                        counter: ctr2,
                        accounts: after_process_risk(m1, o1, out.trades, rep),
                        trades: out.trades,
                        events: seq![ack] + out.trades.map_values(|t: Trade| fill_event(t)) + (if rep.stp_triggered
                            && rep.remaining_qty > 0 {
                            seq![reject_event(client_id, o1, RejectReason::SelfTradePrevented)]
                        } else {
                            Seq::empty()
                        }) + seq![bbo_event(o1.symbol_id as u8, out.state)],
                        wal: Some(o1),
                    },
                    Err(reason) => StepOutcome {
                        book: out.state,
                        counter: ctr2,
                        accounts: spec_unlock(m1, o1.user_id, o1.symbol_id, side_or_buy(o1), o1.price, o1.qty),
                        trades: out.trades,
                        events: seq![ack, reject_event(client_id, o1, reason)],
                        wal: Some(o1),
                    },
                }
            },
        }
    }
}

/// The arithmetic of a step stays within `u64` and the book has room for its ids.
pub open spec fn step_ok(e: MultiAssetEngine, m: Map<u64, Account>, o: Order, client_id: u64) -> bool {
    let sym = o.symbol_id as int;
    let st = e.book(sym).state();
    if o.spec_kind() == OrderType::Cancel {
        o.symbol_id < 3 ==> match spec_cancel(st, o.user_id, o.id).1 {
            Ok(x) => unlock_fits(m, x.user_id, x.symbol_id, side_or_buy(x), x.price, x.qty),
            Err(_) => true,
        }
    } else {
        &&& lock_fits(m, o)
        &&& match spec_lock(m, o) {
            Err(_) => true,
            Ok(m1) => {
                let o1 = assign_id(o, e.counter());
                let ctr1 = if o.id == 0 {
                    (e.counter() + 1) as u64
                } else {
                    e.counter()
                };
                let o2 = stamp(o1, ctr1).0;
                let out = spec_process(st, o2, client_id);
                &&& o.id == 0 ==> e.counter() + 1 < u64::MAX
                &&& o.id != 0 ==> o.id < u64::MAX
                &&& process_ok(st, o2)
                &&& match out.result {
                    Ok(rep) => after_process_fits(m1, o1, out.trades, rep),
                    Err(_) => unlock_fits(m1, o1.user_id, o1.symbol_id, side_or_buy(o1), o1.price, o1.qty),
                }
            },
        }
    }
}

/// Appends the execution reports of `trade` for its taker and its maker.
fn report_fill(trade: &Trade, events: &mut Vec<OutboundEvent>)
    ensures
        final(events)@ == old(events)@.push(fill_event(*trade)),
{
    let taker_msg = ServerMessage::fill(
        trade.taker_order_id,
        trade.taker_client_order_id,
        trade.taker_user_id,
        trade.symbol_id as u8,
        trade.match_id,
        trade.price,
        trade.qty,
        false,
    );
    let maker_msg = ServerMessage::fill(
        trade.maker_order_id,
        trade.maker_client_order_id,
        trade.maker_user_id,
        trade.symbol_id as u8,
        trade.match_id,
        trade.price,
        trade.qty,
        true,
    );
    events.push(
        OutboundEvent::TradeFill {
            taker_client_id: trade.taker_client_id,
            maker_client_id: trade.maker_client_id,
            taker_msg,
            maker_msg,
        },
    );
}

/// Runs one step on `order` from connection `client_id`: `trades` ends up holding the
/// step's trades, the messages are appended to `events`, and the order to log, if any,
/// is returned.
#[verifier::spinoff_prover]
#[verifier::rlimit(100)]
pub fn handle_order(
    engine: &mut MultiAssetEngine,
    risk: &mut RiskEngine,
    order: Order,
    client_id: u64,
    trades: &mut Vec<Trade>,
    events: &mut Vec<OutboundEvent>,
) -> (wal: Option<Order>)
    requires
        old(engine).wf(),
        step_ok(*old(engine), old(risk)@, order, client_id),
    ensures
        final(engine).wf(),
        ({
            let out = spec_step(*old(engine), old(risk)@, order, client_id);
            &&& order.symbol_id < 3 ==> final(engine).book(order.symbol_id as int).state() == out.book
            &&& forall|i: int| 0 <= i < 3 && i != order.symbol_id ==> #[trigger] final(engine).book(i) == old(engine).book(i)
            &&& order.symbol_id >= 3 ==> forall|i: int| #[trigger] final(engine).book(i) == old(engine).book(i)
            &&& final(engine).counter() == out.counter
            &&& final(risk)@ == out.accounts
            &&& final(trades)@ == out.trades
            &&& final(events)@ == old(events)@ + out.events
            &&& wal == out.wal
        }),
{
    let ghost e0 = *engine;
    let ghost m0 = risk@;
    let ghost ev0 = events@;
    trades.clear();
    let order_type = order.kind();
    if order_type == OrderType::Cancel {
        match engine.cancel_order(order.symbol_id, order.user_id, order.id) {
            Ok(cancelled) => {
                risk.unlock_cancelled_order_margin(&cancelled, cancelled.qty);
                events.push(
                    OutboundEvent::ClientCancelOk {
                        client_id,
                        msg: ServerMessage::cancel_ok(
                            cancelled.id,
                            cancelled.client_order_id,
                            order.user_id,
                            order.symbol_id as u8,
                            cancelled.qty,
                        ),
                    },
                );
                return Some(order);
            },
            Err(reason) => {
                events.push(
                    OutboundEvent::ClientReject {
                        client_id,
                        msg: ServerMessage::reject(
                            order.id,
                            order.client_order_id,
                            order.user_id,
                            order.symbol_id as u8,
                            reason,
                        ),
                    },
                );
                return None;
            },
        }
    }
    match risk.lock_order_funds(&order) {
        Err(reason) => {
            events.push(
                OutboundEvent::ClientReject {
                    client_id,
                    msg: ServerMessage::reject(
                        order.id,
                        order.client_order_id,
                        order.user_id,
                        order.symbol_id as u8,
                        reason,
                    ),
                },
            );
            return None;
        },
        Ok(()) => {},
    }
    let ghost m1 = risk@;
    let mut order = order;
    if order.id == 0 {
        order.id = engine.next_order_id();
    }
    events.push(
        OutboundEvent::ClientAck {
            client_id,
            msg: ServerMessage::ack(order.id, order.client_order_id, order.user_id, order.symbol_id as u8),
        },
    );
    let ghost o1 = order;
    match engine.process(order, client_id, trades) {
        Ok(report) => {
            let ghost ts = trades@;
            let ghost ev1 = events@;
            let mut total_executed_qty = 0u64;
            let mut total_executed_cost = 0u64;
            let mut i: usize = 0;
            while i < trades.len()
                invariant
                    i <= trades.len(),
                    ts == trades@,
                    risk@ == settle_all(m1, ts.take(i as int), order.price),
                    total_executed_qty == trades_qty(ts.take(i as int)),
                    total_executed_cost == trades_cost(ts.take(i as int)),
                    settle_all_fits(m1, ts, order.price),
                    events@ == ev1 + ts.take(i as int).map_values(|t: Trade| fill_event(t)),
                decreases trades.len() - i,
            {
                proof {
                    assert(ts.take(i as int + 1).drop_last() =~= ts.take(i as int));
                    lemma_trades_totals_prefix(ts, i as int + 1);
                }
                let trade = &trades[i];
                risk.settle_trade(trade, order.price);
                total_executed_qty = total_executed_qty + trade.qty;
                total_executed_cost = total_executed_cost + saturating_mul_u64(trade.price, trade.qty);
                report_fill(trade, events);
                proof {
                    assert(ts.take(i as int + 1).map_values(|t: Trade| fill_event(t)) =~= ts.take(i as int).map_values(
                        |t: Trade| fill_event(t),
                    ).push(fill_event(ts[i as int])));
                }
                i = i + 1;
            }
            proof {
                assert(ts.take(ts.len() as int) =~= ts);
            }
            if report.stp_triggered && report.remaining_qty > 0 {
                risk.unlock_cancelled_order_margin(&order, report.remaining_qty);
                events.push(
                    OutboundEvent::ClientReject {
                        client_id,
                        msg: ServerMessage::reject(
                            order.id,
                            order.client_order_id,
                            order.user_id,
                            order.symbol_id as u8,
                            RejectReason::SelfTradePrevented,
                        ),
                    },
                );
            }
            if order_type == OrderType::Market && !report.stp_triggered {
                let side = match order.get_side() {
                    Some(s) => s,
                    None => Side::Buy,
                };
                risk.refund_market_order_remainder(
                    order.user_id,
                    order.symbol_id,
                    side,
                    order.price,
                    order.qty,
                    total_executed_qty,
                    total_executed_cost,
                );
            }
            match engine.get_book(order.symbol_id) {
                Some(book) => {
                    let (best_bid, best_ask) = book.get_bbo();
                    let (bid_p, bid_q) = match best_bid {
                        Some(b) => b,
                        None => (0, 0),
                    };
                    let (ask_p, ask_q) = match best_ask {
                        Some(a) => a,
                        None => (0, 0),
                    };
                    events.push(
                        OutboundEvent::BboBroadcast {
                            msg: ServerMessage::bbo(order.symbol_id as u8, bid_p, bid_q, ask_p, ask_q),
                        },
                    );
                },
                None => {},
            }
        },
        Err(reason) => {
            risk.unlock_cancelled_order_margin(&order, order.qty);
            events.push(
                OutboundEvent::ClientReject {
                    client_id,
                    msg: ServerMessage::reject(
                        order.id,
                        order.client_order_id,
                        order.user_id,
                        order.symbol_id as u8,
                        reason,
                    ),
                },
            );
        },
    }
    Some(order)
}


/// A refused order costs its user nothing. When the funds cannot be locked, the step
/// leaves the accounts, the book and the id counter as they were, makes no trade and
/// journals nothing. When they are locked but the engine then refuses the order, the
/// lock is released in full, so the accounts end exactly as before the step.
pub proof fn lemma_refused_step_keeps_funds(e: MultiAssetEngine, m: Map<u64, Account>, o: Order, client_id: u64)
    requires
        lock_fits(m, o),
        o.spec_kind() != OrderType::Cancel,
        o.side <= 1,
    ensures
        ({
            let out = spec_step(e, m, o, client_id);
            let sym = o.symbol_id as int;
            &&& spec_lock(m, o) is Err ==> {
                &&& out.accounts == m
                &&& out.book == e.book(sym).state()
                &&& out.counter == e.counter()
                &&& out.trades.len() == 0
                &&& out.wal is None
            }
            &&& spec_lock(m, o) is Ok ==> {
                let o1 = assign_id(o, e.counter());
                let ctr1 = if o.id == 0 {
                    (e.counter() + 1) as u64
                } else {
                    e.counter()
                };
                spec_process(e.book(sym).state(), stamp(o1, ctr1).0, client_id).result is Err ==> out.accounts == m
            }
        }),
{
    if spec_lock(m, o) is Ok {
        lemma_lock_unlock_roundtrip(m, o);
        let o1 = assign_id(o, e.counter());
        assert(side_or_buy(o1) == side_or_buy(o));
    }
}
} // verus!
