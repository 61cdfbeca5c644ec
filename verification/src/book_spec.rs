//! The mathematical model of an order book and the functional specification of
//! matching, resting and cancelling against it.
//!
//! A side of the book is a sequence of price levels, best price first; a level is a
//! FIFO queue of resting orders. Matching walks the opposite side best level first and
//! each level head first (price-time priority), stops at the limit price, and stops
//! without trading when it meets an order of the same user (self-trade prevention).
use vstd::prelude::*;
use crate::index::{FastIndexEntry, FAST_CLIENT_LIMIT, FAST_MAP_LIMIT, FAST_PRICE_LIMIT};
use crate::types::{Order, OrderType, RejectReason, Trade};

verus! {

/// A resting order: the arena node that holds it, the order (with its remaining
/// quantity) and the connection it came from.
pub struct Resting {
    pub node: u32,
    pub order: Order,
    pub client_id: u64,
}

/// A price level: its arena index, its price and its FIFO queue.
pub struct LevelState {
    pub idx: u32,
    pub price: u64,
    pub queue: Seq<Resting>,
}

/// The abstract state of an order book.
pub struct BookState {
    /// Bid levels, highest price first.
    pub bids: Seq<LevelState>,
    /// Ask levels, lowest price first.
    pub asks: Seq<LevelState>,
    /// Free order nodes, next to be allocated first.
    pub order_free: Seq<u32>,
    /// Free price levels, next to be allocated first.
    pub level_free: Seq<u32>,
    pub order_index: Map<u64, FastIndexEntry>,
    pub client_index: Map<(u64, u64), u64>,
    pub price_index: Map<u64, u32>,
    pub trade_ctr: u64,
    pub order_ctr: u64,
}

/// Result of `ExecutionReport`-producing operations, as a plain value.
pub struct ReportState {
    pub executed_qty: u64,
    pub remaining_qty: u64,
    pub stp_triggered: bool,
}

/// An order with exchange id `id` rests in some level of `s`.
pub open spec fn rests(s: BookState, id: u64) -> bool {
    ||| exists|i: int, k: int|
        0 <= i < s.bids.len() && 0 <= k < s.bids[i].queue.len() && (#[trigger] s.bids[i].queue[k]).order.id == id
    ||| exists|i: int, k: int|
        0 <= i < s.asks.len() && 0 <= k < s.asks[i].queue.len() && (#[trigger] s.asks[i].queue[k]).order.id == id
}

/// Total quantity resting in a queue.
pub open spec fn queue_qty(q: Seq<Resting>) -> int
    decreases q.len(),
{
    if q.len() == 0 {
        0
    } else {
        queue_qty(q.drop_last()) + q.last().order.qty
    }
}

/// The total of a queue is its head's quantity plus the total of the rest.
pub proof fn lemma_queue_qty_first(q: Seq<Resting>)
    requires
        q.len() > 0,
    ensures
        queue_qty(q) == q[0].order.qty + queue_qty(q.drop_first()),
        queue_qty(q) >= q[0].order.qty,
    decreases q.len(),
{
    lemma_queue_qty_nonneg(q.drop_first());
    assert(queue_qty(q) == queue_qty(q.drop_last()) + q.last().order.qty);
    if q.len() > 1 {
        lemma_queue_qty_first(q.drop_last());
        assert(q.drop_last().drop_first() =~= q.drop_first().drop_last());
        assert(queue_qty(q.drop_first()) == queue_qty(q.drop_first().drop_last()) + q.drop_first().last().order.qty);
    } else {
        assert(q.drop_first().len() == 0);
        assert(q.drop_last().len() == 0);
        assert(queue_qty(q.drop_last()) == 0);
        assert(queue_qty(q.drop_first()) == 0);
    }
}

pub proof fn lemma_queue_qty_nonneg(q: Seq<Resting>)
    ensures
        queue_qty(q) >= 0,
    decreases q.len(),
{
    if q.len() > 0 {
        lemma_queue_qty_nonneg(q.drop_last());
    }
}

/// Appending a resting order adds its quantity.
pub proof fn lemma_queue_qty_push(q: Seq<Resting>, r: Resting)
    ensures
        queue_qty(q.push(r)) == queue_qty(q) + r.order.qty,
{
    assert(q.push(r).drop_last() =~= q);
}

/// Replacing the head changes the total by the difference of quantities.
pub proof fn lemma_queue_qty_update_first(q: Seq<Resting>, r: Resting)
    requires
        q.len() > 0,
    ensures
        queue_qty(q.update(0, r)) == queue_qty(q) - q[0].order.qty + r.order.qty,
{
    lemma_queue_qty_first(q);
    lemma_queue_qty_first(q.update(0, r));
    assert(q.update(0, r).drop_first() =~= q.drop_first());
}

/// Removing the element at `k` subtracts its quantity.
pub proof fn lemma_queue_qty_remove(q: Seq<Resting>, k: int)
    requires
        0 <= k < q.len(),
    ensures
        queue_qty(q.remove(k)) == queue_qty(q) - q[k].order.qty,
    decreases q.len(),
{
    if k == q.len() - 1 {
        assert(q.remove(k) =~= q.drop_last());
    } else {
        lemma_queue_qty_remove(q.drop_last(), k);
        assert(q.remove(k).drop_last() =~= q.drop_last().remove(k));
        assert(q.remove(k).last() == q.last());
    }
}

pub open spec fn side_code(is_sell: bool) -> u8 {
    if is_sell {
        1
    } else {
        0
    }
}

/// Price `p` comes before price `q` on the side (`is_sell`: asks, ascending).
pub open spec fn better(p: u64, q: u64, is_sell: bool) -> bool {
    if is_sell {
        p < q
    } else {
        p > q
    }
}

pub open spec fn min_u64(a: u64, b: u64) -> u64 {
    if a <= b {
        a
    } else {
        b
    }
}

/// The trade of `qty` lots between resting order `r` (maker) and `inc` (taker).
pub open spec fn make_trade(r: Resting, inc: Order, taker_client: u64, match_id: u64, qty: u64) -> Trade {
    Trade {
        match_id,
        maker_order_id: r.order.id,
        taker_order_id: inc.id,
        maker_client_order_id: r.order.client_order_id,
        taker_client_order_id: inc.client_order_id,
        maker_user_id: r.order.user_id,
        taker_user_id: inc.user_id,
        maker_client_id: r.client_id,
        taker_client_id: taker_client,
        buyer_id: if inc.side == 0 {
            inc.user_id
        } else {
            r.order.user_id
        },
        seller_id: if inc.side == 0 {
            r.order.user_id
        } else {
            inc.user_id
        },
        maker_side: r.order.side,
        symbol_id: inc.symbol_id,
        price: r.order.price,
        qty,
    }
}

pub open spec fn with_qty(o: Order, qty: u64) -> Order {
    Order { qty, ..o }
}

pub struct QueueMatch {
    pub queue: Seq<Resting>,
    pub incoming: Order,
    pub trades: Seq<Trade>,
    pub stp: bool,
    /// Resting orders filled completely, in fill order, with quantity 0.
    pub filled: Seq<Resting>,
}

/// Matching `inc` against one FIFO queue; trade ids start at `tid`.
pub open spec fn match_queue(q: Seq<Resting>, inc: Order, taker_client: u64, tid: int) -> QueueMatch
    decreases q.len(),
{
    if inc.qty == 0 || q.len() == 0 {
        QueueMatch { queue: q, incoming: inc, trades: Seq::empty(), stp: false, filled: Seq::empty() }
    } else if q[0].order.user_id == inc.user_id {
        QueueMatch { queue: q, incoming: inc, trades: Seq::empty(), stp: true, filled: Seq::empty() }
    } else {
        let r = q[0];
        let tq = min_u64(inc.qty, r.order.qty);
        let t = make_trade(r, inc, taker_client, tid as u64, tq);
        let inc2 = with_qty(inc, (inc.qty - tq) as u64);
        let r2 = Resting { order: with_qty(r.order, (r.order.qty - tq) as u64), ..r };
        if r2.order.qty == 0 {
            let rest = match_queue(q.drop_first(), inc2, taker_client, tid + 1);
            QueueMatch {
                queue: rest.queue,
                incoming: rest.incoming,
                trades: seq![t] + rest.trades,
                stp: rest.stp,
                filled: seq![r2] + rest.filled,
            }
        } else {
            QueueMatch {
                queue: q.update(0, r2),
                incoming: inc2,
                trades: seq![t],
                stp: false,
                filled: Seq::empty(),
            }
        }
    }
}

/// Matching stops at a level whose price is beyond the limit of a limit order, or
/// beyond the slippage bound of a market order that has one (`price > 0`).
pub open spec fn stops_at(price: u64, inc: Order, kind: OrderType, is_sell: bool) -> bool {
    let beyond = if is_sell {
        price < inc.price
    } else {
        price > inc.price
    };
    (kind == OrderType::Limit && beyond) || (kind == OrderType::Market && inc.price > 0 && beyond)
}

pub struct SideMatch {
    pub levels: Seq<LevelState>,
    pub incoming: Order,
    pub trades: Seq<Trade>,
    pub stp: bool,
    pub filled: Seq<Resting>,
    /// Levels emptied and removed, best first.
    pub removed: Seq<LevelState>,
}

/// Matching `inc` (a sell when `is_sell`) against the opposite side `levels`.
pub open spec fn match_side(
    levels: Seq<LevelState>,
    inc: Order,
    kind: OrderType,
    is_sell: bool,
    taker_client: u64,
    tid: int,
) -> SideMatch
    decreases levels.len(),
{
    if inc.qty == 0 || levels.len() == 0 || stops_at(levels[0].price, inc, kind, is_sell) {
        SideMatch {
            levels,
            incoming: inc,
            trades: Seq::empty(),
            stp: false,
            filled: Seq::empty(),
            removed: Seq::empty(),
        }
    } else {
        let l = levels[0];
        let qm = match_queue(l.queue, inc, taker_client, tid);
        if qm.queue.len() == 0 {
            if qm.stp {
                SideMatch {
                    levels: levels.drop_first(),
                    incoming: qm.incoming,
                    trades: qm.trades,
                    stp: true,
                    filled: qm.filled,
                    removed: seq![l],
                }
            } else {
                let rest = match_side(
                    levels.drop_first(),
                    qm.incoming,
                    kind,
                    is_sell,
                    taker_client,
                    tid + qm.trades.len(),
                );
                SideMatch {
                    levels: rest.levels,
                    incoming: rest.incoming,
                    trades: qm.trades + rest.trades,
                    stp: rest.stp,
                    filled: qm.filled + rest.filled,
                    removed: seq![l] + rest.removed,
                }
            }
        } else {
            SideMatch {
                levels: levels.update(0, LevelState { queue: qm.queue, ..l }),
                incoming: qm.incoming,
                trades: qm.trades,
                stp: qm.stp,
                filled: qm.filled,
                removed: Seq::empty(),
            }
        }
    }
}

/// The free list after returning the nodes of `f` to it, in order.
pub open spec fn push_nodes(free: Seq<u32>, f: Seq<Resting>) -> Seq<u32>
    decreases f.len(),
{
    if f.len() == 0 {
        free
    } else {
        seq![f.last().node] + push_nodes(free, f.drop_last())
    }
}

pub proof fn lemma_push_nodes_add(free: Seq<u32>, a: Seq<Resting>, b: Seq<Resting>)
    ensures
        push_nodes(push_nodes(free, a), b) == push_nodes(free, a + b),
    decreases b.len(),
{
    if b.len() > 0 {
        lemma_push_nodes_add(free, a, b.drop_last());
        assert((a + b).drop_last() =~= a + b.drop_last());
    } else {
        assert(a + b =~= a);
    }
}

pub proof fn lemma_push_levels_add(free: Seq<u32>, a: Seq<LevelState>, b: Seq<LevelState>)
    ensures
        push_levels(push_levels(free, a), b) == push_levels(free, a + b),
    decreases b.len(),
{
    if b.len() > 0 {
        lemma_push_levels_add(free, a, b.drop_last());
        assert((a + b).drop_last() =~= a + b.drop_last());
    } else {
        assert(a + b =~= a);
    }
}

pub proof fn lemma_remove_ids_add(m: Map<u64, FastIndexEntry>, a: Seq<Resting>, b: Seq<Resting>)
    ensures
        remove_ids(remove_ids(m, a), b) == remove_ids(m, a + b),
    decreases b.len(),
{
    if b.len() > 0 {
        lemma_remove_ids_add(m, a, b.drop_last());
        assert((a + b).drop_last() =~= a + b.drop_last());
    } else {
        assert(a + b =~= a);
    }
}

pub proof fn lemma_remove_clients_add(m: Map<(u64, u64), u64>, a: Seq<Resting>, b: Seq<Resting>)
    ensures
        remove_clients(remove_clients(m, a), b) == remove_clients(m, a + b),
    decreases b.len(),
{
    if b.len() > 0 {
        lemma_remove_clients_add(m, a, b.drop_last());
        assert((a + b).drop_last() =~= a + b.drop_last());
    } else {
        assert(a + b =~= a);
    }
}

pub proof fn lemma_remove_prices_add(m: Map<u64, u32>, a: Seq<LevelState>, b: Seq<LevelState>)
    ensures
        remove_prices(remove_prices(m, a), b) == remove_prices(m, a + b),
    decreases b.len(),
{
    if b.len() > 0 {
        lemma_remove_prices_add(m, a, b.drop_last());
        assert((a + b).drop_last() =~= a + b.drop_last());
    } else {
        assert(a + b =~= a);
    }
}

/// The level free list after returning the levels of `ls` to it, in order.
pub open spec fn push_levels(free: Seq<u32>, ls: Seq<LevelState>) -> Seq<u32>
    decreases ls.len(),
{
    if ls.len() == 0 {
        free
    } else {
        seq![ls.last().idx] + push_levels(free, ls.drop_last())
    }
}

/// The order index after removing the ids of the orders in `f`.
pub open spec fn remove_ids(m: Map<u64, FastIndexEntry>, f: Seq<Resting>) -> Map<u64, FastIndexEntry>
    decreases f.len(),
{
    if f.len() == 0 {
        m
    } else {
        remove_ids(m, f.drop_last()).remove(f.last().order.id)
    }
}

/// The client index after removing the (user, client order id) keys of the orders in `f`.
pub open spec fn remove_clients(m: Map<(u64, u64), u64>, f: Seq<Resting>) -> Map<(u64, u64), u64>
    decreases f.len(),
{
    if f.len() == 0 {
        m
    } else {
        remove_clients(m, f.drop_last()).remove((f.last().order.user_id, f.last().order.client_order_id))
    }
}

/// The price index after removing the prices of the levels in `ls`.
pub open spec fn remove_prices(m: Map<u64, u32>, ls: Seq<LevelState>) -> Map<u64, u32>
    decreases ls.len(),
{
    if ls.len() == 0 {
        m
    } else {
        remove_prices(m, ls.drop_last()).remove(ls.last().price)
    }
}

/// Position at which a new level at `price` enters the side: after every better level.
pub open spec fn sorted_pos(levels: Seq<LevelState>, price: u64, is_sell: bool) -> int
    decreases levels.len(),
{
    if levels.len() == 0 || better(price, levels[0].price, is_sell) {
        0
    } else {
        1 + sorted_pos(levels.drop_first(), price, is_sell)
    }
}

/// `sorted_pos` is the first position whose price the new price beats, when every
/// earlier level beats the new price.
pub proof fn lemma_sorted_pos(levels: Seq<LevelState>, price: u64, is_sell: bool, p: int)
    requires
        0 <= p <= levels.len(),
        forall|j: int| 0 <= j < p ==> better(#[trigger] levels[j].price, price, is_sell),
        p < levels.len() ==> better(price, levels[p].price, is_sell),
    ensures
        sorted_pos(levels, price, is_sell) == p,
    decreases levels.len(),
{
    if p > 0 {
        assert(better(levels[0].price, price, is_sell));
        assert(!better(price, levels[0].price, is_sell));
        let rest = levels.drop_first();
        assert forall|j: int| 0 <= j < p - 1 implies better(#[trigger] rest[j].price, price, is_sell) by {
            assert(rest[j] == levels[j + 1]);
        }
        lemma_sorted_pos(rest, price, is_sell, p - 1);
    }
}

pub proof fn lemma_sorted_pos_bound(levels: Seq<LevelState>, price: u64, is_sell: bool)
    ensures
        0 <= sorted_pos(levels, price, is_sell) <= levels.len(),
    decreases levels.len(),
{
    if levels.len() > 0 && !better(price, levels[0].price, is_sell) {
        lemma_sorted_pos_bound(levels.drop_first(), price, is_sell);
    }
}

/// Position of the level with arena index `l`.
pub open spec fn level_pos(levels: Seq<LevelState>, l: u32) -> int
    decreases levels.len(),
{
    if levels.len() == 0 || levels[0].idx == l {
        0
    } else {
        1 + level_pos(levels.drop_first(), l)
    }
}

/// `level_pos` finds the first level with index `l`.
pub proof fn lemma_level_pos(levels: Seq<LevelState>, l: u32, i: int)
    requires
        0 <= i < levels.len(),
        levels[i].idx == l,
        forall|j: int| 0 <= j < i ==> (#[trigger] levels[j]).idx != l,
    ensures
        level_pos(levels, l) == i,
    decreases i,
{
    if i > 0 {
        let rest = levels.drop_first();
        assert forall|j: int| 0 <= j < i - 1 implies (#[trigger] rest[j]).idx != l by {
            assert(rest[j] == levels[j + 1]);
        }
        lemma_level_pos(rest, l, i - 1);
    }
}

/// `node_pos` finds the first resting order held in node `n`.
pub proof fn lemma_node_pos(q: Seq<Resting>, n: u32, k: int)
    requires
        0 <= k < q.len(),
        q[k].node == n,
        forall|j: int| 0 <= j < k ==> (#[trigger] q[j]).node != n,
    ensures
        node_pos(q, n) == k,
    decreases k,
{
    if k > 0 {
        let rest = q.drop_first();
        assert forall|j: int| 0 <= j < k - 1 implies (#[trigger] rest[j]).node != n by {
            assert(rest[j] == q[j + 1]);
        }
        lemma_node_pos(rest, n, k - 1);
    }
}

/// Position of the resting order held in node `n`.
pub open spec fn node_pos(q: Seq<Resting>, n: u32) -> int
    decreases q.len(),
{
    if q.len() == 0 || q[0].node == n {
        0
    } else {
        1 + node_pos(q.drop_first(), n)
    }
}

pub open spec fn side_of(s: BookState, is_sell: bool) -> Seq<LevelState> {
    if is_sell {
        s.asks
    } else {
        s.bids
    }
}

pub open spec fn with_side(s: BookState, is_sell: bool, levels: Seq<LevelState>) -> BookState {
    if is_sell {
        BookState { asks: levels, ..s }
    } else {
        BookState { bids: levels, ..s }
    }
}

/// The order after the engine stamps its id: a zero id takes the counter, a non-zero
/// id keeps itself and raises the counter past it.
pub open spec fn stamp(o: Order, ctr: u64) -> (Order, u64) {
    if o.id == 0 {
        (Order { id: ctr, ..o }, (ctr + 1) as u64)
    } else {
        (o, if ctr >= o.id + 1 {
            ctr
        } else {
            (o.id + 1) as u64
        })
    }
}

/// The book after matching `inc` against the opposite side (before any resting).
pub open spec fn after_match(s: BookState, sm: SideMatch, is_sell: bool) -> BookState {
    let opp = !is_sell;
    BookState {
        order_free: push_nodes(s.order_free, sm.filled),
        level_free: push_levels(s.level_free, sm.removed),
        order_index: remove_ids(s.order_index, sm.filled),
        client_index: remove_clients(s.client_index, sm.filled),
        price_index: remove_prices(s.price_index, sm.removed),
        trade_ctr: (s.trade_ctr + sm.trades.len()) as u64,
        ..with_side(s, opp, sm.levels)
    }
}

pub struct Outcome {
    pub state: BookState,
    pub trades: Seq<Trade>,
    pub result: Result<ReportState, RejectReason>,
}

pub open spec fn report(executed_qty: u64, remaining_qty: u64, stp: bool) -> ReportState {
    ReportState { executed_qty, remaining_qty, stp_triggered: stp }
}

/// Entering the rested order `inc`, held in `node`, in the order index (refused when
/// full) and, when it has room, in the client index.
pub open spec fn index_rested(s4: BookState, inc: Order, node: u32, executed: u64) -> (
    BookState,
    Result<ReportState, RejectReason>,
) {
    if s4.order_index.len() >= FAST_MAP_LIMIT {
        (s4, Err(RejectReason::EngineFull))
    } else {
        let e = FastIndexEntry {
            order_id: inc.id,
            client_order_id: inc.client_order_id,
            user_id: inc.user_id,
            price: inc.price,
            node_idx: node,
            side: inc.side,
            occupied: true,
        };
        let s5 = BookState { order_index: s4.order_index.insert(inc.id, e), ..s4 };
        let s6 = if s5.client_index.len() < FAST_CLIENT_LIMIT {
            BookState { client_index: s5.client_index.insert((inc.user_id, inc.client_order_id), inc.id), ..s5 }
        } else {
            s5
        };
        (s6, Ok(report(executed, inc.qty, false)))
    }
}

/// Placing the resting order `r` (already holding its node) on side `is_sell`: at the
/// existing level of its price, or at a new level, then in the indices.
pub open spec fn spec_place(s1: BookState, r: Resting, is_sell: bool, executed: u64) -> (
    BookState,
    Result<ReportState, RejectReason>,
) {
    let inc = r.order;
    let own = side_of(s1, is_sell);
    let placed: Option<BookState> = if s1.price_index.contains_key(inc.price) {
        let l = s1.price_index[inc.price];
        let i = level_pos(own, l);
        Some(with_side(s1, is_sell, own.update(i, LevelState { queue: own[i].queue.push(r), ..own[i] })))
    } else if s1.level_free.len() == 0 {
        None
    } else {
        let l = s1.level_free[0];
        let s2 = BookState { level_free: s1.level_free.drop_first(), ..s1 };
        if s2.price_index.len() >= FAST_PRICE_LIMIT {
            None
        } else {
            let s3 = BookState { price_index: s2.price_index.insert(inc.price, l), ..s2 };
            Some(
                with_side(
                    s3,
                    is_sell,
                    own.insert(sorted_pos(own, inc.price, is_sell), LevelState { idx: l, price: inc.price, queue: seq![r] }),
                ),
            )
        }
    };
    match placed {
        None => {
            let leaked = if s1.price_index.contains_key(inc.price) || s1.level_free.len() == 0 {
                s1
            } else {
                BookState { level_free: s1.level_free.drop_first(), ..s1 }
            };
            (leaked, Err(RejectReason::EngineFull))
        },
        Some(s4) => index_rested(s4, inc, r.node, executed),
    }
}

/// Resting the unfilled remainder `inc` of a limit order on its own side.
pub open spec fn spec_rest(s: BookState, inc: Order, client_id: u64, is_sell: bool, executed: u64) -> (
    BookState,
    Result<ReportState, RejectReason>,
) {
    if s.order_free.len() == 0 {
        (s, Err(RejectReason::EngineFull))
    } else {
        let node = s.order_free[0];
        let s1 = BookState { order_free: s.order_free.drop_first(), ..s };
        spec_place(s1, Resting { node, order: inc, client_id }, is_sell, executed)
    }
}

/// The index entry a cancel request `(user, id)` resolves to: by exchange id first,
/// then by the user's client order id.
pub open spec fn cancel_target(s: BookState, user: u64, id: u64) -> Option<FastIndexEntry> {
    if s.order_index.contains_key(id) {
        Some(s.order_index[id])
    } else if s.client_index.contains_key((user, id)) && s.order_index.contains_key(
        s.client_index[(user, id)],
    ) {
        Some(s.order_index[s.client_index[(user, id)]])
    } else {
        None
    }
}

/// Cancelling order `id` on behalf of `user`.
pub open spec fn spec_cancel(s: BookState, user: u64, id: u64) -> (BookState, Result<Order, RejectReason>) {
    match cancel_target(s, user, id) {
        None => (s, Err(RejectReason::OrderNotFound)),
        Some(e) => {
            if e.user_id != user {
                (s, Err(RejectReason::Unauthorized))
            } else {
                let is_sell = e.side == 1;
                let own = side_of(s, is_sell);
                let l = s.price_index[e.price];
                let i = level_pos(own, l);
                let q = own[i].queue;
                let k = node_pos(q, e.node_idx);
                let cancelled = q[k].order;
                let q2 = q.remove(k);
                let s1 = BookState {
                    order_free: seq![e.node_idx] + s.order_free,
                    order_index: s.order_index.remove(e.order_id),
                    client_index: s.client_index.remove((e.user_id, e.client_order_id)),
                    ..s
                };
                let s2 = if q2.len() == 0 {
                    BookState {
                        level_free: seq![l] + s1.level_free,
                        price_index: s1.price_index.remove(e.price),
                        ..with_side(s1, is_sell, own.remove(i))
                    }
                } else {
                    with_side(s1, is_sell, own.update(i, LevelState { queue: q2, ..own[i] }))
                };
                (s2, Ok(cancelled))
            }
        },
    }
}

/// Processing `order` (from connection `client_id`) against book `s`.
pub open spec fn spec_process(s: BookState, order: Order, client_id: u64) -> Outcome {
    let kind = order.spec_kind();
    if kind == OrderType::Cancel {
        let target = if order.id != 0 {
            order.id
        } else {
            order.client_order_id
        };
        let (s1, r) = spec_cancel(s, order.user_id, target);
        Outcome {
            state: s1,
            trades: Seq::empty(),
            result: match r {
                Ok(o) => Ok(report(0, o.qty, false)),
                Err(e) => Err(e),
            },
        }
    } else {
        let (o1, ctr1) = stamp(order, s.order_ctr);
        let s0 = BookState { order_ctr: ctr1, ..s };
        let is_sell = o1.side == 1;
        let sm = match_side(side_of(s0, !is_sell), o1, kind, is_sell, client_id, s0.trade_ctr as int);
        let s1 = after_match(s0, sm, is_sell);
        let executed = (o1.qty - sm.incoming.qty) as u64;
        let remaining = sm.incoming.qty;
        if sm.stp {
            Outcome { state: s1, trades: sm.trades, result: Ok(report(executed, remaining, true)) }
        } else if kind == OrderType::Market {
            Outcome { state: s1, trades: sm.trades, result: Ok(report(executed, remaining, false)) }
        } else if remaining > 0 && kind == OrderType::Limit {
            let (s2, r) = spec_rest(s1, sm.incoming, client_id, is_sell, executed);
            Outcome { state: s2, trades: sm.trades, result: r }
        } else {
            Outcome { state: s1, trades: sm.trades, result: Ok(report(executed, remaining, false)) }
        }
    }
}

} // verus!

verus! {

/// The executed quantity passed to `spec_rest` only shows in its report.
pub proof fn lemma_rest_executed(s: BookState, inc: Order, c: u64, is_sell: bool, e: u64)
    ensures
        spec_rest(s, inc, c, is_sell, e).0 == spec_rest(s, inc, c, is_sell, 0).0,
        spec_rest(s, inc, c, is_sell, e).1 == (match spec_rest(s, inc, c, is_sell, 0).1 {
            Ok(_) => Ok(report(e, inc.qty, false)),
            Err(x) => Err::<ReportState, RejectReason>(x),
        }),
{
}

} // verus!
