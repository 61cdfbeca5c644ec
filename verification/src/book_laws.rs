//! Properties of matching that hold for every book and every order: self-trade
//! prevention, conservation of quantity, price protection and owner-only cancels.
use vstd::prelude::*;
use crate::book_spec::{
    better, make_trade, match_queue, match_side, min_u64, side_of, spec_cancel, spec_process,
    stamp, stops_at, with_qty, BookState, LevelState, Outcome, ReportState, Resting, cancel_target,
    level_pos, node_pos, sorted_pos, spec_rest, with_side, lemma_level_pos, lemma_node_pos,
    lemma_sorted_pos_bound, after_match, remove_ids, spec_place, index_rested,
};
use crate::book::{empty_book_state, lemma_trades_qty_nonneg, trades_qty};
use crate::index::FastIndexEntry;
use crate::types::{Order, OrderType, RejectReason, Trade};

verus! {

/// Quantities add up over concatenated trade sequences.
pub proof fn lemma_trades_qty_add(a: Seq<Trade>, b: Seq<Trade>)
    ensures
        trades_qty(a + b) == trades_qty(a) + trades_qty(b),
    decreases b.len(),
{
    if b.len() == 0 {
        assert(a + b =~= a);
    } else {
        assert((a + b).drop_last() =~= a + b.drop_last());
        assert((a + b).last() == b.last());
        lemma_trades_qty_add(a, b.drop_last());
    }
}

proof fn lemma_trades_qty_single(t: Trade)
    ensures
        trades_qty(seq![t]) == t.qty,
{
    assert(seq![t].drop_last() =~= Seq::<Trade>::empty());
    assert(trades_qty(Seq::<Trade>::empty()) == 0);
    assert(seq![t].last() == t);
}

/// A side of the book as the engine keeps it: every level holds orders of its own
/// price and side with a positive quantity, and levels run best price first.
pub open spec fn side_valid(levels: Seq<LevelState>, is_sell: bool) -> bool {
    &&& forall|i: int, k: int|
        #![trigger levels[i].queue[k]]
        0 <= i < levels.len() && 0 <= k < levels[i].queue.len() ==> {
            &&& levels[i].queue[k].order.price == levels[i].price
            &&& (levels[i].queue[k].order.side == 1) == is_sell
            &&& levels[i].queue[k].order.qty > 0
        }
    &&& forall|i: int, j: int|
        0 <= i < j < levels.len() ==> better(#[trigger] levels[i].price, #[trigger] levels[j].price, is_sell)
}

/// Every trade of `ts` is between two different users, has `taker` as taker, and is
/// at a price no worse than `limit` for the taker (a sell when `is_sell`) when
/// `bounded`.
pub open spec fn trades_ok(ts: Seq<Trade>, taker: u64, limit: u64, is_sell: bool, bounded: bool) -> bool {
    forall|j: int|
        0 <= j < ts.len() ==> {
            &&& (#[trigger] ts[j]).maker_user_id != ts[j].taker_user_id
            &&& ts[j].taker_user_id == taker
            &&& bounded ==> if is_sell {
                ts[j].price >= limit
            } else {
                ts[j].price <= limit
            }
        }
}

/// Matching against one queue: the incoming order keeps everything but its quantity,
/// its quantity drops by exactly what traded, no trade is with its own user, and
/// every trade is at the price of an order of the queue.
pub proof fn lemma_match_queue_laws(q: Seq<Resting>, inc: Order, c: u64, tid: int)
    ensures
        match_queue(q, inc, c, tid).incoming == with_qty(inc, match_queue(q, inc, c, tid).incoming.qty),
        match_queue(q, inc, c, tid).incoming.qty + trades_qty(match_queue(q, inc, c, tid).trades) == inc.qty,
        forall|j: int|
            0 <= j < match_queue(q, inc, c, tid).trades.len() ==> {
                &&& (#[trigger] match_queue(q, inc, c, tid).trades[j]).maker_user_id != inc.user_id
                &&& match_queue(q, inc, c, tid).trades[j].taker_user_id == inc.user_id
                &&& exists|k: int|
                    0 <= k < q.len() && match_queue(q, inc, c, tid).trades[j].price == #[trigger] q[k].order.price
            },
    decreases q.len(),
{
    let qm = match_queue(q, inc, c, tid);
    if inc.qty == 0 || q.len() == 0 {
    } else if q[0].order.user_id == inc.user_id {
    } else {
        let r = q[0];
        let tq = min_u64(inc.qty, r.order.qty);
        let t = make_trade(r, inc, c, tid as u64, tq);
        let inc2 = with_qty(inc, (inc.qty - tq) as u64);
        let r2 = Resting { order: with_qty(r.order, (r.order.qty - tq) as u64), ..r };
        if r2.order.qty == 0 {
            let rest = match_queue(q.drop_first(), inc2, c, tid + 1);
            lemma_match_queue_laws(q.drop_first(), inc2, c, tid + 1);
            let all = seq![t] + rest.trades;
            lemma_trades_qty_single(t);
            lemma_trades_qty_add(seq![t], rest.trades);
            assert(t.qty == tq);
            assert forall|j: int| 0 <= j < all.len() implies {
                &&& (#[trigger] all[j]).maker_user_id != inc.user_id
                &&& all[j].taker_user_id == inc.user_id
                &&& exists|k: int| 0 <= k < q.len() && all[j].price == #[trigger] q[k].order.price
            } by {
                if j == 0 {
                    assert(all[0].price == q[0].order.price);
                } else {
                    assert(all[j] == rest.trades[j - 1]);
                    let k = choose|k: int|
                        0 <= k < q.drop_first().len() && rest.trades[j - 1].price == #[trigger] q.drop_first()[k].order.price;
                    assert(q.drop_first()[k] == q[k + 1]);
                }
            }
        } else {
            assert(seq![t][0].price == q[0].order.price);
            lemma_trades_qty_single(t);
        }
    }
}

/// Matching against a side: no trade is with the taker's own user, quantity is
/// conserved, and a limit order (or a market order with a bound) never trades at a
/// price worse than its limit.
pub proof fn lemma_match_side_laws(
    levels: Seq<LevelState>,
    inc: Order,
    kind: OrderType,
    is_sell: bool,
    c: u64,
    tid: int,
)
    requires
        side_valid(levels, !is_sell),
    ensures
        match_side(levels, inc, kind, is_sell, c, tid).incoming == with_qty(
            inc,
            match_side(levels, inc, kind, is_sell, c, tid).incoming.qty,
        ),
        match_side(levels, inc, kind, is_sell, c, tid).incoming.qty + trades_qty(
            match_side(levels, inc, kind, is_sell, c, tid).trades,
        ) == inc.qty,
        trades_ok(
            match_side(levels, inc, kind, is_sell, c, tid).trades,
            inc.user_id,
            inc.price,
            is_sell,
            kind == OrderType::Limit || (kind == OrderType::Market && inc.price > 0),
        ),
    decreases levels.len(),
{
    let bounded = kind == OrderType::Limit || (kind == OrderType::Market && inc.price > 0);
    if inc.qty == 0 || levels.len() == 0 || stops_at(levels[0].price, inc, kind, is_sell) {
    } else {
        let l = levels[0];
        let qm = match_queue(l.queue, inc, c, tid);
        lemma_match_queue_laws(l.queue, inc, c, tid);
        assert(trades_ok(qm.trades, inc.user_id, inc.price, is_sell, bounded)) by {
            assert forall|j: int| 0 <= j < qm.trades.len() implies {
                &&& (#[trigger] qm.trades[j]).maker_user_id != qm.trades[j].taker_user_id
                &&& qm.trades[j].taker_user_id == inc.user_id
                &&& bounded ==> if is_sell {
                    qm.trades[j].price >= inc.price
                } else {
                    qm.trades[j].price <= inc.price
                }
            } by {
                let k = choose|k: int| 0 <= k < l.queue.len() && qm.trades[j].price == #[trigger] l.queue[k].order.price;
                assert(levels[0].queue[k].order.price == levels[0].price);
            }
        }
        if qm.queue.len() == 0 && !qm.stp {
            let rest = match_side(levels.drop_first(), qm.incoming, kind, is_sell, c, tid + qm.trades.len());
            assert(side_valid(levels.drop_first(), !is_sell)) by {
                assert forall|i: int, k: int|
                    0 <= i < levels.drop_first().len() && 0 <= k < levels.drop_first()[i].queue.len() implies {
                    &&& #[trigger] levels.drop_first()[i].queue[k].order.price == levels.drop_first()[i].price
                    &&& (levels.drop_first()[i].queue[k].order.side == 1) == !is_sell
                    &&& levels.drop_first()[i].queue[k].order.qty > 0
                } by {
                    assert(levels.drop_first()[i] == levels[i + 1]);
                }
                assert forall|i: int, j: int| 0 <= i < j < levels.drop_first().len() implies better(
                    #[trigger] levels.drop_first()[i].price,
                    #[trigger] levels.drop_first()[j].price,
                    !is_sell,
                ) by {
                    assert(levels.drop_first()[i] == levels[i + 1]);
                    assert(levels.drop_first()[j] == levels[j + 1]);
                }
            }
            lemma_match_side_laws(levels.drop_first(), qm.incoming, kind, is_sell, c, tid + qm.trades.len());
            lemma_trades_qty_add(qm.trades, rest.trades);
            let all = qm.trades + rest.trades;
            assert(with_qty(qm.incoming, rest.incoming.qty) == with_qty(inc, rest.incoming.qty));
            assert forall|j: int| 0 <= j < all.len() implies {
                &&& (#[trigger] all[j]).maker_user_id != all[j].taker_user_id
                &&& all[j].taker_user_id == inc.user_id
                &&& bounded ==> if is_sell {
                    all[j].price >= inc.price
                } else {
                    all[j].price <= inc.price
                }
            } by {
                if j < qm.trades.len() {
                    assert(all[j] == qm.trades[j]);
                } else {
                    assert(all[j] == rest.trades[j - qm.trades.len()]);
                }
            }
        }
    }
}

/// Time priority within a level: the trades against a queue take its orders in queue
/// order, the `j`-th trade filling the `j`-th oldest resting order.
pub proof fn lemma_match_queue_fifo(q: Seq<Resting>, inc: Order, c: u64, tid: int)
    ensures
        match_queue(q, inc, c, tid).trades.len() <= q.len(),
        forall|j: int|
            0 <= j < match_queue(q, inc, c, tid).trades.len() ==> {
                &&& (#[trigger] match_queue(q, inc, c, tid).trades[j]).maker_order_id == q[j].order.id
                &&& match_queue(q, inc, c, tid).trades[j].maker_user_id == q[j].order.user_id
                &&& match_queue(q, inc, c, tid).trades[j].match_id == (tid + j) as u64
            },
    decreases q.len(),
{
    if inc.qty == 0 || q.len() == 0 {
    } else if q[0].order.user_id == inc.user_id {
    } else {
        let r = q[0];
        let tq = min_u64(inc.qty, r.order.qty);
        let inc2 = with_qty(inc, (inc.qty - tq) as u64);
        let r2 = Resting { order: with_qty(r.order, (r.order.qty - tq) as u64), ..r };
        if r2.order.qty == 0 {
            lemma_match_queue_fifo(q.drop_first(), inc2, c, tid + 1);
            let rest = match_queue(q.drop_first(), inc2, c, tid + 1);
            let t = make_trade(r, inc, c, tid as u64, tq);
            let all = match_queue(q, inc, c, tid).trades;
            assert(all == seq![t] + rest.trades);
            assert forall|j: int| 0 <= j < all.len() implies {
                &&& (#[trigger] all[j]).maker_order_id == q[j].order.id
                &&& all[j].maker_user_id == q[j].order.user_id
                &&& all[j].match_id == (tid + j) as u64
            } by {
                if j > 0 {
                    assert(all[j] == rest.trades[j - 1]);
                    assert(q.drop_first()[j - 1] == q[j]);
                } else {
                    assert(all[0] == t);
                }
            }
        } else {
            let t = make_trade(r, inc, c, tid as u64, tq);
            assert(match_queue(q, inc, c, tid).trades == seq![t]);
            assert(seq![t][0] == t);
        }
    }
}

/// Every trade of matching against one queue is at the price of the queue's orders,
/// when they all share one price.
proof fn lemma_match_queue_single_price(q: Seq<Resting>, inc: Order, c: u64, tid: int, p: u64)
    requires
        forall|k: int| 0 <= k < q.len() ==> (#[trigger] q[k]).order.price == p,
    ensures
        forall|j: int| 0 <= j < match_queue(q, inc, c, tid).trades.len() ==> (#[trigger] match_queue(q, inc, c, tid).trades[j]).price == p,
{
    lemma_match_queue_laws(q, inc, c, tid);
    let ts = match_queue(q, inc, c, tid).trades;
    assert forall|j: int| 0 <= j < ts.len() implies (#[trigger] ts[j]).price == p by {
        let k = choose|k: int| 0 <= k < q.len() && ts[j].price == #[trigger] q[k].order.price;
    }
}

/// Price priority: the trades of one matching pass come best price first, each at the
/// price of a level of the side, so no later trade is at a better price than an earlier
/// one.
pub proof fn lemma_match_side_price_priority(
    levels: Seq<LevelState>,
    inc: Order,
    kind: OrderType,
    is_sell: bool,
    c: u64,
    tid: int,
)
    requires
        side_valid(levels, !is_sell),
    ensures
        ({
            let ts = match_side(levels, inc, kind, is_sell, c, tid).trades;
            &&& forall|j: int| 0 <= j < ts.len() ==> exists|i: int| 0 <= i < levels.len() && (#[trigger] ts[j]).price == levels[i].price
            &&& forall|a: int, b: int| 0 <= a < b < ts.len() ==> !better(#[trigger] ts[b].price, #[trigger] ts[a].price, !is_sell)
        }),
    decreases levels.len(),
{
    if inc.qty == 0 || levels.len() == 0 || stops_at(levels[0].price, inc, kind, is_sell) {
    } else {
        let l = levels[0];
        let qm = match_queue(l.queue, inc, c, tid);
        assert forall|k: int| 0 <= k < l.queue.len() implies (#[trigger] l.queue[k]).order.price == l.price by {
            assert(levels[0].queue[k].order.price == levels[0].price);
        }
        lemma_match_queue_single_price(l.queue, inc, c, tid, l.price);
        if qm.queue.len() == 0 && !qm.stp {
            let rest_levels = levels.drop_first();
            assert(side_valid(rest_levels, !is_sell)) by {
                assert forall|i: int, k: int|
                    0 <= i < rest_levels.len() && 0 <= k < rest_levels[i].queue.len() implies {
                    &&& #[trigger] rest_levels[i].queue[k].order.price == rest_levels[i].price
                    &&& (rest_levels[i].queue[k].order.side == 1) == !is_sell
                    &&& rest_levels[i].queue[k].order.qty > 0
                } by {
                    assert(rest_levels[i] == levels[i + 1]);
                }
                assert forall|i: int, j: int| 0 <= i < j < rest_levels.len() implies better(
                    #[trigger] rest_levels[i].price,
                    #[trigger] rest_levels[j].price,
                    !is_sell,
                ) by {
                    assert(rest_levels[i] == levels[i + 1]);
                    assert(rest_levels[j] == levels[j + 1]);
                }
            }
            lemma_match_side_price_priority(rest_levels, qm.incoming, kind, is_sell, c, tid + qm.trades.len());
            let rest = match_side(rest_levels, qm.incoming, kind, is_sell, c, tid + qm.trades.len());
            let all = qm.trades + rest.trades;
            assert forall|j: int| 0 <= j < all.len() implies exists|i: int| 0 <= i < levels.len() && (#[trigger] all[j]).price == levels[i].price by {
                if j < qm.trades.len() {
                    assert(all[j] == qm.trades[j]);
                    assert(all[j].price == levels[0].price);
                } else {
                    assert(all[j] == rest.trades[j - qm.trades.len()]);
                    let i = choose|i: int| 0 <= i < rest_levels.len() && rest.trades[j - qm.trades.len()].price == rest_levels[i].price;
                    assert(rest_levels[i] == levels[i + 1]);
                }
            }
            assert forall|a: int, b: int| 0 <= a < b < all.len() implies !better(#[trigger] all[b].price, #[trigger] all[a].price, !is_sell) by {
                if b < qm.trades.len() {
                    assert(all[a] == qm.trades[a]);
                    assert(all[b] == qm.trades[b]);
                } else if a < qm.trades.len() {
                    assert(all[a] == qm.trades[a]);
                    assert(all[b] == rest.trades[b - qm.trades.len()]);
                    let i = choose|i: int| 0 <= i < rest_levels.len() && rest.trades[b - qm.trades.len()].price == rest_levels[i].price;
                    assert(rest_levels[i] == levels[i + 1]);
                    assert(better(levels[0].price, levels[i + 1].price, !is_sell));
                } else {
                    assert(all[a] == rest.trades[a - qm.trades.len()]);
                    assert(all[b] == rest.trades[b - qm.trades.len()]);
                }
            }
        } else {
            assert forall|j: int| 0 <= j < qm.trades.len() implies exists|i: int| 0 <= i < levels.len() && (#[trigger] qm.trades[j]).price == levels[i].price by {
                assert(qm.trades[j].price == levels[0].price);
            }
        }
    }
}

/// Self-trade prevention, conservation, price protection and price priority for a
/// whole order: no trade is between the taker and itself; when processing succeeds the
/// reported executed quantity is the total traded and executed plus remaining is the
/// order's quantity; a limit order (or a bounded market order) trades only at its limit
/// or better; and the trades come best price first.
pub proof fn lemma_process_laws(s: BookState, o: Order, c: u64)
    requires
        side_valid(s.bids, false),
        side_valid(s.asks, true),
        o.spec_kind() != OrderType::Cancel,
    ensures
        ({
            let out = spec_process(s, o, c);
            let kind = o.spec_kind();
            &&& trades_ok(
                out.trades,
                o.user_id,
                o.price,
                o.side == 1,
                kind == OrderType::Limit || (kind == OrderType::Market && o.price > 0),
            )
            &&& out.result matches Ok(rep) ==> {
                &&& rep.executed_qty == trades_qty(out.trades)
                &&& rep.executed_qty + rep.remaining_qty == o.qty
            }
            &&& forall|a: int, b: int|
                0 <= a < b < out.trades.len() ==> !better(#[trigger] out.trades[b].price, #[trigger] out.trades[a].price, o.side != 1)
        }),
{
    let kind = o.spec_kind();
    let (o1, ctr1) = stamp(o, s.order_ctr);
    let s0 = BookState { order_ctr: ctr1, ..s };
    let is_sell = o1.side == 1;
    assert(side_valid(side_of(s0, !is_sell), !is_sell));
    lemma_match_side_laws(side_of(s0, !is_sell), o1, kind, is_sell, c, s0.trade_ctr as int);
    lemma_match_side_price_priority(side_of(s0, !is_sell), o1, kind, is_sell, c, s0.trade_ctr as int);
    let sm = match_side(side_of(s0, !is_sell), o1, kind, is_sell, c, s0.trade_ctr as int);
    assert(o1.qty == o.qty && o1.user_id == o.user_id && o1.price == o.price && o1.side == o.side);
    assert(sm.incoming.qty <= o1.qty) by {
        lemma_trades_qty_nonneg(sm.trades);
    }
    crate::book_spec::lemma_rest_executed(
        crate::book_spec::after_match(s0, sm, is_sell),
        sm.incoming,
        c,
        is_sell,
        (o1.qty - sm.incoming.qty) as u64,
    );
}

/// Only the owner of an order can cancel it: a cancel that succeeds returns an order
/// of the requesting user, and one refused leaves the book as it was.
pub proof fn lemma_cancel_owner_only(s: BookState, user: u64, id: u64)
    requires
        side_valid(s.bids, false),
        side_valid(s.asks, true),
    ensures
        spec_cancel(s, user, id).1 is Err ==> spec_cancel(s, user, id).0 == s,
        spec_cancel(s, user, id).1 == Err::<Order, RejectReason>(RejectReason::Unauthorized) <==> (cancel_target(
            s,
            user,
            id,
        ) matches Some(e) && e.user_id != user),
        spec_cancel(s, user, id).1 is Ok ==> (cancel_target(s, user, id) matches Some(e) && e.user_id == user),
{
}


/// `level_pos` only looks at the level indices.
proof fn lemma_level_pos_update(levels: Seq<LevelState>, i: int, lv: LevelState, l: u32)
    requires
        0 <= i < levels.len(),
        lv.idx == levels[i].idx,
    ensures
        level_pos(levels.update(i, lv), l) == level_pos(levels, l),
    decreases levels.len(),
{
    if levels.len() > 0 && levels[0].idx != l {
        if i > 0 {
            assert(levels.update(i, lv).drop_first() =~= levels.drop_first().update(i - 1, lv));
            lemma_level_pos_update(levels.drop_first(), i - 1, lv, l);
        } else {
            assert(levels.update(i, lv).drop_first() =~= levels.drop_first());
        }
    }
}

proof fn lemma_level_pos_bound(levels: Seq<LevelState>, l: u32)
    ensures
        0 <= level_pos(levels, l) <= levels.len(),
        level_pos(levels, l) < levels.len() ==> levels[level_pos(levels, l)].idx == l,
    decreases levels.len(),
{
    if levels.len() > 0 && levels[0].idx != l {
        lemma_level_pos_bound(levels.drop_first(), l);
    }
}

/// Resting an order and then cancelling it by its id gives the book back exactly as
/// it was, and the cancel returns the order: for a limit order with a fresh id and
/// client order id, resting on its own side of a book where the free node is queued
/// nowhere, the free level is not in use, every level is non-empty and the price
/// index names a level of that side.
pub proof fn lemma_rest_then_cancel(s: BookState, inc: Order, c: u64, is_sell: bool)
    requires
        (inc.side == 1) == is_sell,
        s.order_free.len() > 0,
        forall|j: int, k: int|
            0 <= j < side_of(s, is_sell).len() && 0 <= k < side_of(s, is_sell)[j].queue.len()
                ==> #[trigger] side_of(s, is_sell)[j].queue[k].node != s.order_free[0],
        forall|j: int| 0 <= j < side_of(s, is_sell).len() ==> (#[trigger] side_of(s, is_sell)[j]).queue.len() > 0,
        s.level_free.len() > 0 ==> forall|j: int|
            0 <= j < side_of(s, is_sell).len() ==> (#[trigger] side_of(s, is_sell)[j]).idx != s.level_free[0],
        s.price_index.contains_key(inc.price) ==> level_pos(side_of(s, is_sell), s.price_index[inc.price])
            < side_of(s, is_sell).len(),
        !s.order_index.contains_key(inc.id),
        !s.client_index.contains_key((inc.user_id, inc.client_order_id)),
        spec_rest(s, inc, c, is_sell, 0).1 is Ok,
    ensures
        spec_cancel(spec_rest(s, inc, c, is_sell, 0).0, inc.user_id, inc.id) == (s, Ok::<Order, RejectReason>(inc)),
{
    let own = side_of(s, is_sell);
    let node = s.order_free[0];
    let r = Resting { node, order: inc, client_id: c };
    let s2 = spec_rest(s, inc, c, is_sell, 0).0;
    let e = FastIndexEntry {
        order_id: inc.id,
        client_order_id: inc.client_order_id,
        user_id: inc.user_id,
        price: inc.price,
        node_idx: node,
        side: inc.side,
        occupied: true,
    };
    assert(cancel_target(s2, inc.user_id, inc.id) == Some(e));
    let own2 = side_of(s2, is_sell);
    let (s3, res) = spec_cancel(s2, inc.user_id, inc.id);
    if s.price_index.contains_key(inc.price) {
        let l = s.price_index[inc.price];
        let i = level_pos(own, l);
        lemma_level_pos_bound(own, l);
        let lv2 = LevelState { queue: own[i].queue.push(r), ..own[i] };
        assert(own2 == own.update(i, lv2));
        lemma_level_pos_update(own, i, lv2, l);
        assert(level_pos(own2, l) == i);
        let q = own2[i].queue;
        assert(q == own[i].queue.push(r));
        assert forall|j: int| 0 <= j < own[i].queue.len() implies (#[trigger] q[j]).node != node by {
            assert(q[j] == own[i].queue[j]);
            assert(own[i].queue[j].node != node);
        }
        lemma_node_pos(q, node, own[i].queue.len() as int);
        assert(q.remove(own[i].queue.len() as int) =~= own[i].queue);
        assert(own.update(i, LevelState { queue: own[i].queue, ..own[i] }) =~= own);
        assert(s3.order_index =~= s.order_index);
        assert(s3.client_index =~= s.client_index);
        assert(s3.order_free =~= s.order_free);
        assert(s3.bids =~= s.bids);
        assert(s3.asks =~= s.asks);
        assert(s3 == s);
        assert(res == Ok::<Order, RejectReason>(q[own[i].queue.len() as int].order));
    } else {
        let l = s.level_free[0];
        let pos = sorted_pos(own, inc.price, is_sell);
        lemma_sorted_pos_bound(own, inc.price, is_sell);
        let nl = LevelState { idx: l, price: inc.price, queue: seq![r] };
        assert(own2 == own.insert(pos, nl));
        assert forall|j: int| 0 <= j < pos implies (#[trigger] own2[j]).idx != l by {
            assert(own2[j] == own[j]);
        }
        lemma_level_pos(own2, l, pos);
        lemma_node_pos(seq![r], node, 0);
        assert(seq![r].remove(0) =~= Seq::<Resting>::empty());
        assert(own2.remove(pos) =~= own);
        assert(s3.order_index =~= s.order_index);
        assert(s3.client_index =~= s.client_index);
        assert(s3.price_index =~= s.price_index);
        assert(s3.order_free =~= s.order_free);
        assert(s3.level_free =~= s.level_free);
        assert(s3.bids =~= s.bids);
        assert(s3.asks =~= s.asks);
        assert(s3 == s);
    }
}

/// Every id the order index holds is below the book's order counter.
pub open spec fn ids_below_counter(s: BookState) -> bool {
    forall|k: u64| #[trigger] s.order_index.contains_key(k) ==> k < s.order_ctr
}

proof fn lemma_remove_ids_shrinks(m: Map<u64, FastIndexEntry>, f: Seq<Resting>)
    ensures
        forall|k: u64| #[trigger] remove_ids(m, f).contains_key(k) ==> m.contains_key(k),
    decreases f.len(),
{
    if f.len() > 0 {
        lemma_remove_ids_shrinks(m, f.drop_last());
        assert forall|k: u64| #[trigger] remove_ids(m, f).contains_key(k) implies m.contains_key(k) by {
            assert(remove_ids(m, f) == remove_ids(m, f.drop_last()).remove(f.last().order.id));
            assert(remove_ids(m, f.drop_last()).contains_key(k));
        }
    }
}

/// Exchange ids are never reused. Processing an order never lowers the book's order
/// counter and keeps every id of the order index below it; an order without an id takes
/// the counter itself as its id, and any processed order's id ends up below the new
/// counter. With `next_order_id` handing out the counter and raising it by one, and a
/// new book holding no id, every id handed out is above every id handed out or kept
/// before.
pub proof fn lemma_ids_stay_below_counter(s: BookState, o: Order, c: u64)
    requires
        ids_below_counter(s),
        side_valid(s.bids, false),
        side_valid(s.asks, true),
        o.id == 0 ==> s.order_ctr < u64::MAX,
        o.id != 0 ==> o.id < u64::MAX,
    ensures
        ({
            let out = spec_process(s, o, c);
            &&& ids_below_counter(out.state)
            &&& out.state.order_ctr >= s.order_ctr
            &&& o.spec_kind() != OrderType::Cancel ==> stamp(o, s.order_ctr).0.id < out.state.order_ctr
            &&& o.spec_kind() != OrderType::Cancel && o.id == 0 ==> stamp(o, s.order_ctr).0.id == s.order_ctr
        }),
{
    let kind = o.spec_kind();
    if kind == OrderType::Cancel {
        let target = if o.id != 0 {
            o.id
        } else {
            o.client_order_id
        };
        let s2 = spec_cancel(s, o.user_id, target).0;
        assert(s2.order_ctr == s.order_ctr);
        assert forall|k: u64| #[trigger] s2.order_index.contains_key(k) implies k < s2.order_ctr by {
            assert(s.order_index.contains_key(k));
        }
    } else {
        let (o1, ctr1) = stamp(o, s.order_ctr);
        let s0 = BookState { order_ctr: ctr1, ..s };
        let is_sell = o1.side == 1;
        let sm = match_side(side_of(s0, !is_sell), o1, kind, is_sell, c, s0.trade_ctr as int);
        lemma_match_side_laws(side_of(s0, !is_sell), o1, kind, is_sell, c, s0.trade_ctr as int);
        let s1 = after_match(s0, sm, is_sell);
        lemma_remove_ids_shrinks(s0.order_index, sm.filled);
        assert(s1.order_ctr == ctr1);
        assert(ids_below_counter(s1));
        let executed = (o1.qty - sm.incoming.qty) as u64;
        if !sm.stp && kind != OrderType::Market && sm.incoming.qty > 0 && kind == OrderType::Limit {
            let inc = sm.incoming;
            assert(inc.id == o1.id);
            if s1.order_free.len() > 0 {
                let node = s1.order_free[0];
                let s1b = BookState { order_free: s1.order_free.drop_first(), ..s1 };
                let r = Resting { node, order: inc, client_id: c };
                let st = spec_place(s1b, r, is_sell, executed).0;
                assert(st.order_ctr == ctr1);
                assert forall|k: u64| #[trigger] st.order_index.contains_key(k) implies k < st.order_ctr by {
                    if k != inc.id {
                        assert(s1.order_index.contains_key(k));
                    }
                }
            }
        }
    }
}

/// A new book holds no id below its counter to collide with, and the id
/// `next_order_id` hands out (the counter) is held by no order of a book whose ids stay
/// below its counter, which they still do once the counter is raised by one.
pub proof fn lemma_next_id_fresh(s: BookState)
    requires
        ids_below_counter(s),
        s.order_ctr < u64::MAX,
    ensures
        ids_below_counter(empty_book_state()),
        empty_book_state().order_ctr == 1,
        !s.order_index.contains_key(s.order_ctr),
        forall|k: u64| #[trigger] s.order_index.contains_key(k) ==> k < s.order_ctr,
        ids_below_counter(BookState { order_ctr: (s.order_ctr + 1) as u64, ..s }),
{
}

/// For every kind of order, a successful process reports as executed exactly the
/// quantity of the trades it made. A cancel makes no trade, so it executes nothing,
/// and it reports as remaining the open quantity of the order it took off the book.
pub proof fn lemma_process_reports_fills(s: BookState, o: Order, c: u64)
    requires
        side_valid(s.bids, false),
        side_valid(s.asks, true),
    ensures
        ({
            let out = spec_process(s, o, c);
            &&& out.result matches Ok(rep) ==> rep.executed_qty == trades_qty(out.trades)
            &&& o.spec_kind() == OrderType::Cancel ==> {
                let target = if o.id != 0 {
                    o.id
                } else {
                    o.client_order_id
                };
                let removed = spec_cancel(s, o.user_id, target).1;
                &&& out.trades.len() == 0
                &&& out.result is Ok <==> removed is Ok
                &&& out.result matches Ok(rep) ==> rep.executed_qty == 0 && rep.remaining_qty == removed->Ok_0.qty
                    && !rep.stp_triggered
            }
        }),
{
    if o.spec_kind() == OrderType::Cancel {
        assert(trades_qty(Seq::<Trade>::empty()) == 0);
    } else {
        lemma_process_laws(s, o, c);
    }
}
} // verus!
