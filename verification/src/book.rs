//! The single-symbol order book: an intrusive doubly-linked price ladder per side over
//! a price level arena, FIFO order queues over an order arena, and three
//! open-addressing indices.
use vstd::prelude::*;
pub use crate::index::{FastClientIndex, FastOrderIndex, FastPriceIndex};
use crate::arena::{
    fresh_level, nodes_after_push, nodes_after_unlink, relink, sat_sub, OrderArena, OrderNode,
    PriceLevelArena, PriceLevelNode, MAX_ARENA_ORDERS, MAX_PRICE_LEVELS,
};
use crate::book_spec::{
    after_match, better, cancel_target, spec_place, lemma_queue_qty_first, min_u64, lemma_push_nodes_add, lemma_push_levels_add,
    lemma_remove_ids_add, lemma_remove_clients_add, lemma_remove_prices_add, lemma_rest_executed, lemma_queue_qty_push, lemma_queue_qty_remove,
    lemma_queue_qty_update_first, lemma_sorted_pos, lemma_level_pos, lemma_node_pos, index_rested, level_pos, make_trade, match_queue, match_side, node_pos, push_levels,
    push_nodes, queue_qty, remove_clients, rests, remove_ids, remove_prices, report, side_of, sorted_pos,
    spec_cancel, spec_process, spec_rest, stamp, stops_at, with_qty, with_side, BookState,
    LevelState, Outcome, QueueMatch, ReportState, Resting, SideMatch,
};
use crate::index::{FastIndexEntry, FAST_CLIENT_LIMIT, FAST_MAP_LIMIT, FAST_PRICE_LIMIT, NULL_IDX};
use crate::risk::{
    deposit_fits, lock_fits, refund_fits, sat_mul, settle_buyer, settle_fits, settle_seller, side_or_buy, spec_deposit,
    spec_lock, spec_refund, spec_settle, spec_unlock, unlock_fits, Account, RiskEngine, saturating_mul_u64,
};
use crate::book_laws::{lemma_rest_then_cancel, side_valid};
use crate::types::{MarketDepthLevel, Order, OrderType, RejectReason, Side, Symbol, Trade};

verus! {

/// Structured report returned from matching execution.
#[derive(Debug, Clone, Copy, PartialEq, Eq)]
pub struct ExecutionReport {
    pub executed_qty: u64,
    pub remaining_qty: u64,
    pub stp_triggered: bool,
}

impl ExecutionReport {
    pub open spec fn spec_state(self) -> ReportState {
        ReportState {
            executed_qty: self.executed_qty,
            remaining_qty: self.remaining_qty,
            stp_triggered: self.stp_triggered,
        }
    }
}

pub open spec fn report_view(r: Result<ExecutionReport, RejectReason>) -> Result<ReportState, RejectReason> {
    match r {
        Ok(x) => Ok(x.spec_state()),
        Err(e) => Err(e),
    }
}

/// Two level nodes agree on everything but their ladder links and free-list link.
pub open spec fn same_queue_fields(x: PriceLevelNode, y: PriceLevelNode) -> bool {
    &&& x.price == y.price
    &&& x.head_order == y.head_order
    &&& x.tail_order == y.tail_order
    &&& x.total_qty == y.total_qty
    &&& x.order_count == y.order_count
}

/// Level nodes after level `l` is unlinked from its ladder.
pub open spec fn levels_after_unlink(nodes: Seq<PriceLevelNode>, l: u32) -> Seq<PriceLevelNode> {
    let p = nodes[l as int].prev_level;
    let x = nodes[l as int].next_level;
    let n1 = if p != NULL_IDX {
        nodes.update(p as int, PriceLevelNode { next_level: x, ..nodes[p as int] })
    } else {
        nodes
    };
    let n2 = if x != NULL_IDX {
        n1.update(x as int, PriceLevelNode { prev_level: p, ..n1[x as int] })
    } else {
        n1
    };
    n2.update(l as int, PriceLevelNode { prev_level: NULL_IDX, next_level: NULL_IDX, ..n2[l as int] })
}

/// A level arena stays well-formed when only the ladder links of its nodes change.
proof fn lemma_level_arena_same_links(x: &PriceLevelArena, y: &PriceLevelArena)
    requires
        x.wf(),
        y.free_head == x.free_head,
        y.free_list == x.free_list,
        y.nodes@.len() == x.nodes@.len(),
        forall|j: int| 0 <= j < x.nodes@.len() ==> (#[trigger] y.nodes@[j]).active == x.nodes@[j].active && y.nodes@[j].next_free == x.nodes@[j].next_free,
    ensures
        y.wf(),
{
}

/// Whether price `p` comes before price `q` on side `is_sell`.
fn is_better(p: u64, q: u64, is_sell: bool) -> (r: bool)
    ensures
        r == better(p, q, is_sell),
{
    if is_sell {
        p < q
    } else {
        p > q
    }
}

/// No level of the side opposite to `is_sell` is at or beyond `price`: a limit order at
/// `price` on side `is_sell` would not trade.
pub open spec fn no_cross(st: BookState, price: u64, is_sell: bool) -> bool {
    side_of(st, !is_sell).len() == 0 || better(side_of(st, !is_sell)[0].price, price, is_sell)
}

/// Resting `qty` more at `price` on side `is_sell` keeps the level's total within `u64`.
pub open spec fn rest_fits(st: BookState, price: u64, qty: u64, is_sell: bool) -> bool {
    forall|j: int|
        0 <= j < side_of(st, is_sell).len() && (#[trigger] side_of(st, is_sell)[j]).price == price ==> queue_qty(
            side_of(st, is_sell)[j].queue,
        ) + qty <= u64::MAX
}

/// What `process` needs of the book and the order: room in the order id counter and
/// the trade id counter, and room in the total of the level where a limit order rests.
pub open spec fn process_ok(st: BookState, order: Order) -> bool {
    let kind = order.spec_kind();
    kind != OrderType::Cancel ==> {
        &&& (order.id == 0 ==> st.order_ctr < u64::MAX)
        &&& (order.id != 0 ==> order.id < u64::MAX)
        &&& trade_budget(st) + 1 < u64::MAX
        &&& (kind == OrderType::Limit ==> rest_fits(st, order.price, order.qty, order.side == 1))
    }
}

/// The accounts after settling `ts` in order, each against `taker_limit_price`.
pub open spec fn settle_all(m: Map<u64, Account>, ts: Seq<Trade>, taker_limit_price: u64) -> Map<u64, Account>
    decreases ts.len(),
{
    if ts.len() == 0 {
        m
    } else {
        spec_settle(settle_all(m, ts.drop_last(), taker_limit_price), ts.last(), taker_limit_price)
    }
}

/// Total quantity of `ts`.
pub open spec fn trades_qty(ts: Seq<Trade>) -> int
    decreases ts.len(),
{
    if ts.len() == 0 {
        0
    } else {
        trades_qty(ts.drop_last()) + ts.last().qty
    }
}

/// Total cost of `ts`, each trade's `price * qty` saturating.
pub open spec fn trades_cost(ts: Seq<Trade>) -> int
    decreases ts.len(),
{
    if ts.len() == 0 {
        0
    } else {
        trades_cost(ts.drop_last()) + sat_mul(ts.last().price, ts.last().qty)
    }
}

/// Settling each of `ts` in turn stays within `u64`, and so do the running totals.
pub open spec fn settle_all_fits(m: Map<u64, Account>, ts: Seq<Trade>, taker_limit_price: u64) -> bool {
    &&& forall|k: int| 0 <= k < ts.len() ==> settle_fits(settle_all(m, ts.take(k), taker_limit_price), #[trigger] ts[k], taker_limit_price)
    &&& trades_qty(ts) <= u64::MAX
    &&& trades_cost(ts) <= u64::MAX
}

/// The accounts after an order was processed with result `rep` and trades `ts`: trades
/// settled, the remainder of an order stopped by self-trade prevention unlocked, and the
/// unused budget of a market order refunded.
pub open spec fn after_process_risk(m1: Map<u64, Account>, o: Order, ts: Seq<Trade>, rep: ReportState) -> Map<u64, Account> {
    let m2 = settle_all(m1, ts, o.price);
    let m3 = if rep.stp_triggered && rep.remaining_qty > 0 {
        spec_unlock(m2, o.user_id, o.symbol_id, side_or_buy(o), o.price, rep.remaining_qty)
    } else {
        m2
    };
    if o.spec_kind() == OrderType::Market && !rep.stp_triggered {
        spec_refund(m3, o.user_id, o.symbol_id, side_or_buy(o), o.price, o.qty, trades_qty(ts) as u64, trades_cost(ts) as u64)
    } else {
        m3
    }
}

pub open spec fn after_process_fits(m1: Map<u64, Account>, o: Order, ts: Seq<Trade>, rep: ReportState) -> bool {
    let m2 = settle_all(m1, ts, o.price);
    let m3 = if rep.stp_triggered && rep.remaining_qty > 0 {
        spec_unlock(m2, o.user_id, o.symbol_id, side_or_buy(o), o.price, rep.remaining_qty)
    } else {
        m2
    };
    &&& settle_all_fits(m1, ts, o.price)
    &&& rep.stp_triggered && rep.remaining_qty > 0 ==> unlock_fits(m2, o.user_id, o.symbol_id, side_or_buy(o), o.price, rep.remaining_qty)
    &&& o.spec_kind() == OrderType::Market && !rep.stp_triggered ==> refund_fits(
        m3,
        o.user_id,
        o.symbol_id,
        side_or_buy(o),
        o.price,
        o.qty,
        trades_qty(ts) as u64,
        trades_cost(ts) as u64,
    )
}

/// Trade ids the book may still hand out while matching: the counter plus one for each
/// arena node in use.
pub open spec fn trade_budget(st: BookState) -> int {
    st.trade_ctr + MAX_ARENA_ORDERS - st.order_free.len()
}

/// Margin (on top of the resting orders that can trade) by which the trade id
/// counter must stay below `u64::MAX`.
pub open spec fn trade_ctr_room(ctr: u64) -> bool {
    ctr + MAX_ARENA_ORDERS + 1 < u64::MAX
}

pub struct OrderBook {
    pub symbol: Symbol,
    pub best_bid: u32,
    pub best_ask: u32,
    pub price_index: FastPriceIndex,
    pub level_arena: PriceLevelArena,
    pub order_arena: OrderArena,
    pub order_index: FastOrderIndex,
    pub client_order_index: FastClientIndex,
    pub trade_id_counter: u64,
    pub order_id_counter: u64,
    pub bid_levels: Ghost<Seq<u32>>,
    pub ask_levels: Ghost<Seq<u32>>,
    pub queues: Ghost<Map<u32, Seq<u32>>>,
}

impl OrderBook {
    pub closed spec fn lv(&self, l: u32) -> PriceLevelNode {
        self.level_arena.nodes@[l as int]
    }

    pub closed spec fn nd(&self, n: u32) -> OrderNode {
        self.order_arena.nodes@[n as int]
    }

    pub closed spec fn ladder(&self, is_sell: bool) -> Seq<u32> {
        if is_sell {
            self.ask_levels@
        } else {
            self.bid_levels@
        }
    }

    pub closed spec fn best(&self, is_sell: bool) -> u32 {
        if is_sell {
            self.best_ask
        } else {
            self.best_bid
        }
    }

    pub closed spec fn resting(&self, n: u32) -> Resting {
        Resting { node: n, order: self.nd(n).order, client_id: self.nd(n).client_id }
    }

    pub closed spec fn level_state(&self, l: u32) -> LevelState {
        LevelState {
            idx: l,
            price: self.lv(l).price,
            queue: self.queues@[l].map_values(|n: u32| self.resting(n)),
        }
    }

    #[verifier::opaque]
    pub closed spec fn side_state(&self, is_sell: bool) -> Seq<LevelState> {
        self.ladder(is_sell).map_values(|l: u32| self.level_state(l))
    }

    /// The abstract state of the book.
    pub closed spec fn state(&self) -> BookState {
        BookState {
            bids: self.side_state(false),
            asks: self.side_state(true),
            order_free: self.order_arena.free_list@,
            level_free: self.level_arena.free_list@,
            order_index: self.order_index@,
            client_index: self.client_order_index@,
            price_index: self.price_index@,
            trade_ctr: self.trade_id_counter,
            order_ctr: self.order_id_counter,
        }
    }

    /// All levels of both sides.
    pub closed spec fn all_levels(&self) -> Seq<u32> {
        self.bid_levels@ + self.ask_levels@
    }

    #[verifier::opaque]
    pub closed spec fn queue_ok(&self, l: u32, is_sell: bool) -> bool {
        let q = self.queues@[l];
        let lv = self.lv(l);
        &&& lv.head_order == (if q.len() == 0 {
            NULL_IDX
        } else {
            q[0]
        })
        &&& lv.tail_order == (if q.len() == 0 {
            NULL_IDX
        } else {
            q.last()
        })
        &&& q.no_duplicates()
        &&& forall|k: int|
            0 <= k < q.len() ==> {
                &&& ((#[trigger] q[k]) as int) < MAX_ARENA_ORDERS
                &&& self.nd(q[k]).active
                &&& self.nd(q[k]).prev == (if k == 0 {
                    NULL_IDX
                } else {
                    q[k - 1]
                })
                &&& self.nd(q[k]).next == (if k + 1 < q.len() {
                    q[k + 1]
                } else {
                    NULL_IDX
                })
                &&& self.nd(q[k]).order.price == lv.price
                &&& (self.nd(q[k]).order.side == 1) == is_sell
                &&& self.nd(q[k]).order.qty > 0
            }
        &&& lv.total_qty == queue_qty(self.level_state(l).queue)
        &&& lv.order_count == q.len()
    }

    #[verifier::opaque]
    pub closed spec fn ladder_ok(&self, is_sell: bool) -> bool {
        let lad = self.ladder(is_sell);
        &&& self.best(is_sell) == (if lad.len() == 0 {
            NULL_IDX
        } else {
            lad[0]
        })
        &&& forall|i: int|
            0 <= i < lad.len() ==> {
                &&& ((#[trigger] lad[i]) as int) < MAX_PRICE_LEVELS
                &&& self.lv(lad[i]).active
                &&& self.queues@.contains_key(lad[i])
                &&& self.lv(lad[i]).prev_level == (if i == 0 {
                    NULL_IDX
                } else {
                    lad[i - 1]
                })
                &&& self.lv(lad[i]).next_level == (if i + 1 < lad.len() {
                    lad[i + 1]
                } else {
                    NULL_IDX
                })
                &&& self.queue_ok(lad[i], is_sell)
            }
        &&& forall|i: int, j: int|
            0 <= i < j < lad.len() ==> better(
                self.lv(#[trigger] lad[i]).price,
                self.lv(#[trigger] lad[j]).price,
                is_sell,
            )
    }

    /// Every level is non-empty, except possibly the level `hole`.
    #[verifier::opaque]
    pub closed spec fn levels_nonempty(&self, hole: Option<u32>) -> bool {
        &&& forall|i: int|
            0 <= i < self.bid_levels@.len() && hole != Some(self.bid_levels@[i]) ==> self.queues@[#[trigger] self.bid_levels@[i]].len() > 0
        &&& forall|i: int|
            0 <= i < self.ask_levels@.len() && hole != Some(self.ask_levels@[i]) ==> self.queues@[#[trigger] self.ask_levels@[i]].len() > 0
    }

    #[verifier::opaque]
    pub closed spec fn cross_ok(&self) -> bool {
        let all = self.all_levels();
        &&& all.no_duplicates()
        &&& (self.bid_levels@.len() > 0 && self.ask_levels@.len() > 0 ==> self.lv(self.bid_levels@[0]).price < self.lv(
            self.ask_levels@[0],
        ).price)
        &&& forall|a: int, b: int, ka: int, kb: int|
            0 <= a < all.len() && 0 <= b < all.len() && a != b && 0 <= ka < self.queues@[all[a]].len() && 0
                <= kb < self.queues@[all[b]].len() ==> #[trigger] self.queues@[all[a]][ka] != #[trigger] self.queues@[all[b]][kb]
    }

    #[verifier::opaque]
    pub closed spec fn price_index_ok(&self) -> bool {
        let all = self.all_levels();
        &&& forall|a: int|
            0 <= a < all.len() ==> self.price_index@.contains_key(self.lv(#[trigger] all[a]).price)
                && self.price_index@[self.lv(all[a]).price] == all[a]
        &&& forall|p: u64|
            #[trigger] self.price_index@.contains_key(p) ==> exists|a: int|
                0 <= a < all.len() && self.lv(#[trigger] all[a]).price == p
    }

    #[verifier::opaque]
    pub closed spec fn order_index_ok(&self) -> bool {
        forall|id: u64|
            #[trigger] self.order_index@.contains_key(id) ==> {
                let e = self.order_index@[id];
                let n = self.nd(e.node_idx);
                &&& e.order_id == id
                &&& e.occupied
                &&& (e.node_idx as int) < MAX_ARENA_ORDERS
                &&& self.price_index@.contains_key(e.price)
                &&& self.queues@.contains_key(self.price_index@[e.price])
                &&& self.queues@[self.price_index@[e.price]].contains(e.node_idx)
                &&& n.order.id == id
                &&& n.order.price == e.price
                &&& n.order.user_id == e.user_id
                &&& n.order.client_order_id == e.client_order_id
                &&& n.order.side == e.side
            }
    }

    #[verifier::opaque]
    pub closed spec fn wf_except(&self, hole: Option<u32>) -> bool {
        &&& self.order_arena.wf()
        &&& self.order_arena.capacity == MAX_ARENA_ORDERS
        &&& self.level_arena.wf()
        &&& self.level_arena.nodes@.len() == MAX_PRICE_LEVELS
        &&& self.price_index.wf()
        &&& self.order_index.wf()
        &&& self.client_order_index.wf()
        &&& self.ladder_ok(false)
        &&& self.ladder_ok(true)
        &&& self.levels_nonempty(hole)
        &&& self.cross_ok()
        &&& self.price_index_ok()
        &&& self.order_index_ok()
    }

    pub closed spec fn wf(&self) -> bool {
        self.wf_except(None)
    }

    proof fn lemma_side_valid(&self, is_sell: bool)
        requires
            self.wf(),
        ensures
            side_valid(self.side_state(is_sell), is_sell),
    {
        reveal(OrderBook::wf_except);
        reveal(OrderBook::side_state);
        reveal(OrderBook::ladder_ok);
        let lad = self.ladder(is_sell);
        let side = self.side_state(is_sell);
        assert forall|i: int, k: int|
            #![trigger side[i].queue[k]]
            0 <= i < side.len() && 0 <= k < side[i].queue.len() implies {
            &&& side[i].queue[k].order.price == side[i].price
            &&& (side[i].queue[k].order.side == 1) == is_sell
            &&& side[i].queue[k].order.qty > 0
        } by {
            let l = lad[i];
            assert(self.queue_ok(l, is_sell));
            reveal(OrderBook::queue_ok);
            let q = self.queues@[l];
            assert(side[i] == self.level_state(l));
            assert(side[i].queue[k] == self.resting(q[k]));
        }
        assert forall|i: int, j: int| 0 <= i < j < side.len() implies better(
            #[trigger] side[i].price,
            #[trigger] side[j].price,
            is_sell,
        ) by {
            assert(side[i] == self.level_state(lad[i]));
            assert(side[j] == self.level_state(lad[j]));
        }
    }

    /// On a well-formed book, resting a fresh limit order on its own side and then
    /// cancelling it by its id gives the book back exactly, provided the price index
    /// does not name a level of the other side at the order's price.
    pub proof fn lemma_wf_rest_then_cancel(&self, inc: Order, c: u64, is_sell: bool)
        requires
            self.wf(),
            (inc.side == 1) == is_sell,
            self.state().price_index.contains_key(inc.price) ==> level_pos(
                side_of(self.state(), is_sell),
                self.state().price_index[inc.price],
            ) < side_of(self.state(), is_sell).len(),
            !self.state().order_index.contains_key(inc.id),
            !self.state().client_index.contains_key((inc.user_id, inc.client_order_id)),
            spec_rest(self.state(), inc, c, is_sell, 0).1 is Ok,
        ensures
            spec_cancel(spec_rest(self.state(), inc, c, is_sell, 0).0, inc.user_id, inc.id) == (
                self.state(),
                Ok::<Order, RejectReason>(inc),
            ),
    {
        reveal(OrderBook::wf_except);
        reveal(OrderBook::side_state);
        reveal(OrderBook::ladder_ok);
        reveal(OrderBook::levels_nonempty);
        let st = self.state();
        let own = side_of(st, is_sell);
        let lad = self.ladder(is_sell);
        assert(own == self.side_state(is_sell));
        if st.order_free.len() > 0 {
            let f = st.order_free[0];
            assert(st.order_free.contains(f));
            assert(!self.nd(f).active);
            assert forall|j: int, k: int|
                0 <= j < own.len() && 0 <= k < own[j].queue.len() implies #[trigger] own[j].queue[k].node != f by {
                let l = lad[j];
                assert(self.queue_ok(l, is_sell));
                reveal(OrderBook::queue_ok);
                assert(own[j] == self.level_state(l));
                assert(own[j].queue[k] == self.resting(self.queues@[l][k]));
                assert(self.nd(self.queues@[l][k]).active);
            }
        }
        assert forall|j: int| 0 <= j < own.len() implies (#[trigger] own[j]).queue.len() > 0 by {
            assert(own[j] == self.level_state(lad[j]));
        }
        if st.level_free.len() > 0 {
            let fl = st.level_free[0];
            assert(st.level_free.contains(fl));
            assert(!self.lv(fl).active);
            assert forall|j: int| 0 <= j < own.len() implies (#[trigger] own[j]).idx != fl by {
                assert(own[j] == self.level_state(lad[j]));
                assert(self.lv(lad[j]).active);
            }
        }
        if st.order_free.len() == 0 {
            assert(spec_rest(st, inc, c, is_sell, 0).1 is Err);
        }
        lemma_rest_then_cancel(st, inc, c, is_sell);
    }

    /// A well-formed book has both sides in engine order (each level holding positive
    /// orders of its price and side, best price first), no empty level, is never
    /// crossed (its best bid is below its best ask), and indexes no order that does not
    /// rest in it.
    pub proof fn lemma_wf_book_laws(&self)
        requires
            self.wf(),
        ensures
            side_valid(self.state().bids, false),
            side_valid(self.state().asks, true),
            self.state().bids.len() > 0 && self.state().asks.len() > 0 ==> self.state().bids[0].price
                < self.state().asks[0].price,
            forall|j: int| 0 <= j < self.state().bids.len() ==> (#[trigger] self.state().bids[j]).queue.len() > 0,
            forall|j: int| 0 <= j < self.state().asks.len() ==> (#[trigger] self.state().asks[j]).queue.len() > 0,
            forall|id: u64| #[trigger] self.state().order_index.contains_key(id) ==> rests(self.state(), id),
    {
        self.lemma_index_rests();
        self.lemma_side_valid(false);
        self.lemma_side_valid(true);
        reveal(OrderBook::wf_except);
        reveal(OrderBook::side_state);
        reveal(OrderBook::cross_ok);
        reveal(OrderBook::levels_nonempty);
        assert forall|j: int| 0 <= j < self.state().bids.len() implies (#[trigger] self.state().bids[j]).queue.len() > 0 by {
            assert(self.state().bids[j] == self.level_state(self.bid_levels@[j]));
        }
        assert forall|j: int| 0 <= j < self.state().asks.len() implies (#[trigger] self.state().asks[j]).queue.len() > 0 by {
            assert(self.state().asks[j] == self.level_state(self.ask_levels@[j]));
        }
        if self.state().bids.len() > 0 && self.state().asks.len() > 0 {
            assert(self.state().bids[0] == self.level_state(self.bid_levels@[0]));
            assert(self.state().asks[0] == self.level_state(self.ask_levels@[0]));
        }
    }

    proof fn lemma_index_rests(&self)
        requires
            self.wf(),
        ensures
            forall|id: u64| #[trigger] self.state().order_index.contains_key(id) ==> rests(self.state(), id),
    {
        reveal(OrderBook::wf_except);
        reveal(OrderBook::order_index_ok);
        reveal(OrderBook::price_index_ok);
        reveal(OrderBook::side_state);
        assert forall|id: u64| #[trigger] self.state().order_index.contains_key(id) implies rests(self.state(), id) by {
            assert(self.order_index@.contains_key(id));
            let e = self.order_index@[id];
            let all = self.all_levels();
            assert(self.price_index@.contains_key(e.price));
            let a = choose|a: int| 0 <= a < all.len() && self.lv(#[trigger] all[a]).price == e.price;
            let l = all[a];
            assert(self.price_index@[e.price] == l);
            let q = self.queues@[l];
            assert(q.contains(e.node_idx));
            let k = choose|k: int| 0 <= k < q.len() && q[k] == e.node_idx;
            let nb = self.bid_levels@.len() as int;
            if a < nb {
                assert(all[a] == self.bid_levels@[a]);
                let lv = self.state().bids[a];
                assert(lv == self.level_state(l));
                assert(lv.queue[k] == self.resting(e.node_idx));
                assert(lv.queue[k].order.id == id);
            } else {
                let b = a - nb;
                assert(all[a] == self.ask_levels@[b]);
                let lv = self.state().asks[b];
                assert(lv == self.level_state(l));
                assert(lv.queue[k] == self.resting(e.node_idx));
                assert(lv.queue[k].order.id == id);
            }
        }
    }

    /// On a well-formed book a successful cancel takes the cancelled order out of both
    /// indices: its exchange id leaves the order index and its (user, client order id)
    /// key the client index.
    pub proof fn lemma_wf_cancel_unindexes(&self, user: u64, id: u64)
        requires
            self.wf(),
        ensures
            ({
                let (s2, r) = spec_cancel(self.state(), user, id);
                r is Ok ==> {
                    &&& !s2.order_index.contains_key(r->Ok_0.id)
                    &&& !s2.client_index.contains_key((r->Ok_0.user_id, r->Ok_0.client_order_id))
                }
            }),
    {
        let st = self.state();
        match cancel_target(st, user, id) {
            None => {},
            Some(e) => {
                let x = if st.order_index.contains_key(id) {
                    id
                } else {
                    st.client_index[(user, id)]
                };
                assert(self.order_index@.contains_key(x) && self.order_index@[x] == e);
                let loc = self.lemma_entry_location(x);
                self.lemma_best(None, e.side == 1);
            },
        }
    }

    /// The public index and arena fields of a well-formed book are those of its
    /// abstract state: the order index and client index are the state's, and the
    /// arena's active nodes are those not on the state's free list.
    pub proof fn lemma_wf_fields(&self)
        requires
            self.wf(),
        ensures
            self.order_index.wf(),
            self.client_order_index.wf(),
            self.order_arena.wf(),
            self.order_index@ == self.state().order_index,
            self.client_order_index@ == self.state().client_index,
            self.order_arena.capacity == MAX_ARENA_ORDERS,
            self.order_arena.active_count + self.state().order_free.len() == MAX_ARENA_ORDERS,
    {
        reveal(OrderBook::wf_except);
    }

    /// `a` and `b` hold the same arenas, indices, ladders and queues.
    pub closed spec fn same_structure(&self, b: &Self) -> bool {
        &&& self.best_bid == b.best_bid
        &&& self.best_ask == b.best_ask
        &&& self.price_index == b.price_index
        &&& self.level_arena == b.level_arena
        &&& self.order_arena == b.order_arena
        &&& self.order_index == b.order_index
        &&& self.client_order_index == b.client_order_index
        &&& self.bid_levels == b.bid_levels
        &&& self.ask_levels == b.ask_levels
        &&& self.queues == b.queues
    }

    #[verifier::spinoff_prover]
    #[verifier::rlimit(100)]
    proof fn lemma_wf_frame(&self, b: &Self, hole: Option<u32>)
        requires
            self.same_structure(b),
        ensures
            self.wf_except(hole) == b.wf_except(hole),
            self.side_state(false) == b.side_state(false),
            self.side_state(true) == b.side_state(true),
    {
        assert forall|l: u32| #[trigger] self.level_state(l) == b.level_state(l) by {
            assert(self.queues@[l].map_values(|n: u32| self.resting(n)) =~= b.queues@[l].map_values(
                |n: u32| b.resting(n),
            ));
        }
        assert(self.side_state(false) =~= b.side_state(false)) by {
            reveal(OrderBook::side_state);
        }
        assert(self.side_state(true) =~= b.side_state(true)) by {
            reveal(OrderBook::side_state);
        }
        assert forall|l: u32, s: bool| #[trigger] self.queue_ok(l, s) == b.queue_ok(l, s) by {
            reveal(OrderBook::queue_ok);
        }
        assert(self.ladder_ok(false) == b.ladder_ok(false)) by {
            reveal(OrderBook::ladder_ok);
        }
        assert(self.ladder_ok(true) == b.ladder_ok(true)) by {
            reveal(OrderBook::ladder_ok);
        }
        assert(self.levels_nonempty(hole) == b.levels_nonempty(hole)) by {
            reveal(OrderBook::levels_nonempty);
        }
        assert(self.cross_ok() == b.cross_ok()) by {
            reveal(OrderBook::cross_ok);
        }
        assert(self.price_index_ok() == b.price_index_ok()) by {
            reveal(OrderBook::price_index_ok);
            assert(self.all_levels() == b.all_levels());
            assert forall|l: u32| #[trigger] self.lv(l) == b.lv(l) by {}
            if self.price_index_ok() {
                assert forall|p: u64| #[trigger] b.price_index@.contains_key(p) implies exists|a: int|
                    0 <= a < b.all_levels().len() && b.lv(#[trigger] b.all_levels()[a]).price == p by {
                    let a = choose|a: int| 0 <= a < self.all_levels().len() && self.lv(#[trigger] self.all_levels()[a]).price == p;
                    assert(b.lv(b.all_levels()[a]).price == p);
                }
            }
            if b.price_index_ok() {
                assert forall|p: u64| #[trigger] self.price_index@.contains_key(p) implies exists|a: int|
                    0 <= a < self.all_levels().len() && self.lv(#[trigger] self.all_levels()[a]).price == p by {
                    let a = choose|a: int| 0 <= a < b.all_levels().len() && b.lv(#[trigger] b.all_levels()[a]).price == p;
                    assert(self.lv(self.all_levels()[a]).price == p);
                }
            }
        }
        assert(self.order_index_ok() == b.order_index_ok()) by {
            reveal(OrderBook::order_index_ok);
        }
        reveal(OrderBook::wf_except);
    }

    proof fn lemma_best(&self, hole: Option<u32>, is_sell: bool)
        requires
            self.wf_except(hole),
        ensures
            self.best(is_sell) == (if self.ladder(is_sell).len() == 0 {
                NULL_IDX
            } else {
                self.ladder(is_sell)[0]
            }),
            self.side_state(is_sell).len() == self.ladder(is_sell).len(),
            (self.best(is_sell) == NULL_IDX) == (self.ladder(is_sell).len() == 0),
    {
        reveal(OrderBook::wf_except);
        reveal(OrderBook::ladder_ok);
        reveal(OrderBook::side_state);
        if self.ladder(is_sell).len() > 0 {
            assert((self.ladder(is_sell)[0] as int) < MAX_PRICE_LEVELS);
        }
    }

    /// What well-formedness says about the `i`-th level of a side.
    proof fn lemma_level_facts(&self, hole: Option<u32>, is_sell: bool, i: int)
        requires
            self.wf_except(hole),
            0 <= i < self.ladder(is_sell).len(),
        ensures
            ({
                let lad = self.ladder(is_sell);
                let l = lad[i];
                let q = self.queues@[l];
                &&& (l as int) < MAX_PRICE_LEVELS
                &&& self.level_arena.nodes@.len() == MAX_PRICE_LEVELS
                &&& self.lv(l).active
                &&& self.queues@.contains_key(l)
                &&& self.lv(l).prev_level == (if i == 0 { NULL_IDX } else { lad[i - 1] })
                &&& self.lv(l).next_level == (if i + 1 < lad.len() { lad[i + 1] } else { NULL_IDX })
                &&& self.lv(l).head_order == (if q.len() == 0 { NULL_IDX } else { q[0] })
                &&& self.lv(l).tail_order == (if q.len() == 0 { NULL_IDX } else { q.last() })
                &&& self.lv(l).total_qty == queue_qty(self.level_state(l).queue)
                &&& self.lv(l).order_count == q.len()
                &&& q.len() <= MAX_ARENA_ORDERS
                &&& (q.len() > 0 ==> (q[0] as int) < MAX_ARENA_ORDERS)
                &&& self.side_state(is_sell)[i] == self.level_state(l)
                &&& self.best(is_sell) == lad[0]
            }),
    {
        reveal(OrderBook::wf_except);
        reveal(OrderBook::ladder_ok);
        reveal(OrderBook::side_state);
        let lad = self.ladder(is_sell);
        assert(self.queue_ok(lad[i], is_sell));
        reveal(OrderBook::queue_ok);
        lemma_queue_len_bound(self, lad[i], is_sell);
    }

    /// A book with empty ladders, queues and indices over well-formed arenas is
    /// well-formed.
    #[verifier::spinoff_prover]
    #[verifier::rlimit(100)]
    proof fn lemma_empty_wf(&self)
        requires
            self.bid_levels@ == Seq::<u32>::empty(),
            self.ask_levels@ == Seq::<u32>::empty(),
            self.queues@ == Map::<u32, Seq<u32>>::empty(),
            self.best_bid == NULL_IDX,
            self.best_ask == NULL_IDX,
            self.order_arena.wf(),
            self.order_arena.capacity == MAX_ARENA_ORDERS,
            self.level_arena.wf(),
            self.level_arena.nodes@.len() == MAX_PRICE_LEVELS,
            self.price_index.wf(),
            self.order_index.wf(),
            self.client_order_index.wf(),
            self.price_index@ == Map::<u64, u32>::empty(),
            self.order_index@ == Map::<u64, FastIndexEntry>::empty(),
        ensures
            self.wf(),
            self.side_state(false) == Seq::<LevelState>::empty(),
            self.side_state(true) == Seq::<LevelState>::empty(),
    {
        assert(self.ladder_ok(false)) by {
            reveal(OrderBook::ladder_ok);
        }
        assert(self.ladder_ok(true)) by {
            reveal(OrderBook::ladder_ok);
        }
        assert(self.levels_nonempty(None)) by {
            reveal(OrderBook::levels_nonempty);
        }
        assert(self.all_levels() =~= Seq::<u32>::empty());
        assert(self.cross_ok()) by {
            reveal(OrderBook::cross_ok);
        }
        assert(self.price_index_ok()) by {
            reveal(OrderBook::price_index_ok);
        }
        assert(self.order_index_ok()) by {
            reveal(OrderBook::order_index_ok);
        }
        reveal(OrderBook::wf_except);
        reveal(OrderBook::side_state);
        assert(self.side_state(false) =~= Seq::<LevelState>::empty());
        assert(self.side_state(true) =~= Seq::<LevelState>::empty());
    }

    /// Level `l` means the same in `a` and `b` when its queue, its price and the nodes
    /// of its queue agree.
    proof fn lemma_level_state_frame(a: &Self, b: &Self, l: u32)
        requires
            a.queues@[l] == b.queues@[l],
            a.lv(l).price == b.lv(l).price,
            forall|k: int| 0 <= k < a.queues@[l].len() ==> a.nd(#[trigger] a.queues@[l][k]) == b.nd(a.queues@[l][k]),
        ensures
            a.level_state(l) == b.level_state(l),
    {
        assert(a.level_state(l).queue =~= b.level_state(l).queue);
    }

    proof fn lemma_queue_ok_frame(a: &Self, b: &Self, l: u32, s: bool)
        requires
            a.queue_ok(l, s),
            a.queues@[l] == b.queues@[l],
            same_queue_fields(a.lv(l), b.lv(l)),
            forall|k: int| 0 <= k < a.queues@[l].len() ==> a.nd(#[trigger] a.queues@[l][k]) == b.nd(a.queues@[l][k]),
        ensures
            b.queue_ok(l, s),
            a.level_state(l) == b.level_state(l),
    {
        Self::lemma_level_state_frame(a, b, l);
        reveal(OrderBook::queue_ok);
    }

    /// Node `n` of level `all_levels()[x]`'s queue lies in no other level's queue.
    proof fn lemma_node_in_one_queue(&self, hole: Option<u32>, x: int, y: int, kx: int)
        requires
            self.wf_except(hole),
            0 <= x < self.all_levels().len(),
            0 <= y < self.all_levels().len(),
            x != y,
            0 <= kx < self.queues@[self.all_levels()[x]].len(),
        ensures
            !self.queues@[self.all_levels()[y]].contains(self.queues@[self.all_levels()[x]][kx]),
    {
        reveal(OrderBook::wf_except);
        reveal(OrderBook::cross_ok);
        let all = self.all_levels();
        if self.queues@[all[y]].contains(self.queues@[all[x]][kx]) {
            let ky = choose|ky: int| 0 <= ky < self.queues@[all[y]].len() && self.queues@[all[y]][ky] == self.queues@[all[x]][kx];
            assert(self.queues@[all[x]][kx] != self.queues@[all[y]][ky]);
        }
    }

    /// The ladder of side `s` stays well-formed when its levels keep their links and
    /// prices and each of its queues stays well-formed.
    proof fn lemma_ladder_keep(a: &Self, b: &Self, s: bool)
        requires
            a.ladder_ok(s),
            a.ladder(s) == b.ladder(s),
            a.best(s) == b.best(s),
            forall|i: int|
                0 <= i < a.ladder(s).len() ==> {
                    let l = #[trigger] a.ladder(s)[i];
                    &&& a.lv(l).active == b.lv(l).active
                    &&& a.lv(l).prev_level == b.lv(l).prev_level
                    &&& a.lv(l).next_level == b.lv(l).next_level
                    &&& a.lv(l).price == b.lv(l).price
                    &&& b.queues@.contains_key(l)
                    &&& b.queue_ok(l, s)
                },
        ensures
            b.ladder_ok(s),
    {
        reveal(OrderBook::ladder_ok);
        let lad = a.ladder(s);
        assert forall|i: int, j: int| 0 <= i < j < lad.len() implies better(
            b.lv(#[trigger] lad[i]).price,
            b.lv(#[trigger] lad[j]).price,
            s,
        ) by {
            assert(better(a.lv(lad[i]).price, a.lv(lad[j]).price, s));
        }
    }

    /// The abstract side is unchanged when every level on it means the same.
    proof fn lemma_side_state_same(a: &Self, b: &Self, s: bool)
        requires
            a.ladder(s) == b.ladder(s),
            forall|i: int| 0 <= i < a.ladder(s).len() ==> a.level_state(#[trigger] a.ladder(s)[i]) == b.level_state(
                a.ladder(s)[i],
            ),
        ensures
            a.side_state(s) == b.side_state(s),
    {
        reveal(OrderBook::side_state);
        assert(a.side_state(s) =~= b.side_state(s));
    }

    /// The abstract side changes at position `i0` only, when only that level's meaning changes.
    proof fn lemma_side_state_update(a: &Self, b: &Self, s: bool, i0: int)
        requires
            a.ladder(s) == b.ladder(s),
            0 <= i0 < a.ladder(s).len(),
            forall|i: int|
                0 <= i < a.ladder(s).len() && i != i0 ==> a.level_state(#[trigger] a.ladder(s)[i]) == b.level_state(
                    a.ladder(s)[i],
                ),
        ensures
            b.side_state(s) == a.side_state(s).update(i0, b.level_state(a.ladder(s)[i0])),
    {
        reveal(OrderBook::side_state);
        assert(b.side_state(s) =~= a.side_state(s).update(i0, b.level_state(a.ladder(s)[i0])));
    }

    /// When only level `l0` changes (its node, its queue and nodes in `cn`, none of which
    /// lies in another level's queue), every other level keeps its meaning and stays
    /// well-formed.
    #[verifier::spinoff_prover]
    #[verifier::rlimit(100)]
    proof fn lemma_other_levels(a: &Self, b: &Self, hole: Option<u32>, l0: u32, cn: Set<u32>)
        requires
            a.wf_except(hole),
            a.bid_levels == b.bid_levels,
            a.ask_levels == b.ask_levels,
            forall|l: u32| l != l0 && (l as int) < MAX_PRICE_LEVELS ==> #[trigger] b.lv(l) == a.lv(l),
            forall|l: u32| l != l0 ==> #[trigger] b.queues@[l] == a.queues@[l],
            forall|l: u32| l != l0 ==> (#[trigger] b.queues@.contains_key(l) == a.queues@.contains_key(l)),
            forall|n: u32| !cn.contains(n) && (n as int) < MAX_ARENA_ORDERS ==> #[trigger] b.nd(n) == a.nd(n),
            forall|n: u32, l: u32|
                #[trigger] cn.contains(n) && a.all_levels().contains(l) && l != l0 ==> !(#[trigger] a.queues@[l]).contains(n),
        ensures
            forall|s: bool, i: int|
                0 <= i < a.ladder(s).len() && #[trigger] a.ladder(s)[i] != l0 ==> b.queue_ok(a.ladder(s)[i], s)
                    && a.level_state(a.ladder(s)[i]) == b.level_state(a.ladder(s)[i]),
    {
        assert forall|s: bool, i: int|
            0 <= i < a.ladder(s).len() && #[trigger] a.ladder(s)[i] != l0 implies b.queue_ok(a.ladder(s)[i], s)
                && a.level_state(a.ladder(s)[i]) == b.level_state(a.ladder(s)[i]) by {
            let l = a.ladder(s)[i];
            reveal(OrderBook::wf_except);
            reveal(OrderBook::ladder_ok);
            assert(a.queue_ok(l, s));
            assert((l as int) < MAX_PRICE_LEVELS);
            assert(a.all_levels().contains(l)) by {
                if s {
                    assert(a.all_levels()[a.bid_levels@.len() + i] == l);
                } else {
                    assert(a.all_levels()[i] == l);
                }
            }
            let q = a.queues@[l];
            assert forall|k: int| 0 <= k < q.len() implies a.nd(#[trigger] q[k]) == b.nd(q[k]) by {
                reveal(OrderBook::queue_ok);
                assert((q[k] as int) < MAX_ARENA_ORDERS);
                assert(q.contains(q[k]));
            }
            Self::lemma_queue_ok_frame(a, b, l, s);
        }
    }

    /// Levels of a side are ordered best first.
    proof fn lemma_sorted(&self, hole: Option<u32>, s: bool, i: int, j: int)
        requires
            self.wf_except(hole),
            0 <= i < j < self.ladder(s).len(),
        ensures
            better(self.lv(self.ladder(s)[i]).price, self.lv(self.ladder(s)[j]).price, s),
    {
        reveal(OrderBook::wf_except);
        reveal(OrderBook::ladder_ok);
    }

    /// The sizes that well-formedness fixes.
    proof fn lemma_sizes(&self, hole: Option<u32>)
        requires
            self.wf_except(hole),
        ensures
            self.level_arena.nodes@.len() == MAX_PRICE_LEVELS,
            self.order_arena.nodes@.len() == MAX_ARENA_ORDERS,
            self.order_arena.free_list@.len() <= MAX_ARENA_ORDERS,
    {
        reveal(OrderBook::wf_except);
    }

    /// Well-formedness from its conjuncts.
    proof fn lemma_wf_intro(&self, hole: Option<u32>)
        requires
            self.order_arena.wf(),
            self.order_arena.capacity == MAX_ARENA_ORDERS,
            self.level_arena.wf(),
            self.level_arena.nodes@.len() == MAX_PRICE_LEVELS,
            self.price_index.wf(),
            self.order_index.wf(),
            self.client_order_index.wf(),
            self.ladder_ok(false),
            self.ladder_ok(true),
            self.levels_nonempty(hole),
            self.cross_ok(),
            self.price_index_ok(),
            self.order_index_ok(),
        ensures
            self.wf_except(hole),
    {
        reveal(OrderBook::wf_except);
    }

    /// What allocation from the two arenas needs.
    proof fn lemma_alloc_ready(&self, hole: Option<u32>)
        requires
            self.wf_except(hole),
        ensures
            self.order_arena.free_head == NULL_IDX || (self.order_arena.free_head as int) < self.order_arena.nodes@.len(),
            self.order_arena.active_count < usize::MAX,
            self.order_arena.wf(),
            self.level_arena.free_head == NULL_IDX || (self.level_arena.free_head as int) < self.level_arena.nodes@.len(),
            self.level_arena.wf(),
            self.price_index.wf(),
            self.order_index.wf(),
            self.client_order_index.wf(),
    {
        reveal(OrderBook::wf_except);
    }

    /// The conjuncts of well-formedness, one by one.
    proof fn lemma_wf_parts(&self, hole: Option<u32>)
        requires
            self.wf_except(hole),
        ensures
            self.order_arena.wf(),
            self.order_arena.capacity == MAX_ARENA_ORDERS,
            self.level_arena.wf(),
            self.level_arena.nodes@.len() == MAX_PRICE_LEVELS,
            self.price_index.wf(),
            self.order_index.wf(),
            self.client_order_index.wf(),
            self.ladder_ok(false),
            self.ladder_ok(true),
            self.levels_nonempty(hole),
            self.cross_ok(),
            self.price_index_ok(),
            self.order_index_ok(),
            self.all_levels().no_duplicates(),
    {
        reveal(OrderBook::wf_except);
        assert(self.all_levels().no_duplicates()) by {
            reveal(OrderBook::cross_ok);
        }
    }

    /// Levels on the ladders are pairwise distinct, and lie in `all_levels`.
    proof fn lemma_levels_distinct(&self, hole: Option<u32>)
        requires
            self.wf_except(hole),
        ensures
            forall|s1: bool, i: int, s2: bool, j: int|
                0 <= i < self.ladder(s1).len() && 0 <= j < self.ladder(s2).len() && (s1 != s2 || i != j)
                    ==> #[trigger] self.ladder(s1)[i] != #[trigger] self.ladder(s2)[j],
            forall|s: bool, i: int| 0 <= i < self.ladder(s).len() ==> self.all_levels().contains(#[trigger] self.ladder(s)[i]),
            forall|x: int| 0 <= x < self.all_levels().len() ==> ((#[trigger] self.all_levels()[x]) as int) < MAX_PRICE_LEVELS,
    {
        assert(self.all_levels().no_duplicates()) by {
            reveal(OrderBook::wf_except);
            reveal(OrderBook::cross_ok);
        }
        let all = self.all_levels();
        let nb = self.bid_levels@.len() as int;
        assert forall|s1: bool, i: int, s2: bool, j: int|
            0 <= i < self.ladder(s1).len() && 0 <= j < self.ladder(s2).len() && (s1 != s2 || i != j)
                implies #[trigger] self.ladder(s1)[i] != #[trigger] self.ladder(s2)[j] by {
            let x = if s1 { nb + i } else { i };
            let y = if s2 { nb + j } else { j };
            assert(x != y);
            assert(all[x] == self.ladder(s1)[i]);
            assert(all[y] == self.ladder(s2)[j]);
            assert(all[x] != all[y]);
        }
        assert forall|s: bool, i: int| 0 <= i < self.ladder(s).len() implies self.all_levels().contains(#[trigger] self.ladder(s)[i]) by {
            let x = if s { nb + i } else { i };
            assert(all[x] == self.ladder(s)[i]);
        }
        assert forall|x: int| 0 <= x < self.all_levels().len() implies ((#[trigger] self.all_levels()[x]) as int) < MAX_PRICE_LEVELS by {
            reveal(OrderBook::wf_except);
            reveal(OrderBook::ladder_ok);
            if x < nb {
                assert(all[x] == self.ladder(false)[x]);
            } else {
                assert(all[x] == self.ladder(true)[x - nb]);
            }
        }
    }

    /// Both ladders stay well-formed when only level `l0` (on side `s0`) changes as
    /// `lemma_other_levels` allows, keeps its links and price, and its queue is
    /// well-formed afterwards; every other level keeps its meaning.
    #[verifier::spinoff_prover]
    #[verifier::rlimit(100)]
    proof fn lemma_ladders_keep(a: &Self, b: &Self, hole: Option<u32>, s0: bool, i0: int, cn: Set<u32>)
        requires
            a.wf_except(hole),
            0 <= i0 < a.ladder(s0).len(),
            a.bid_levels == b.bid_levels,
            a.ask_levels == b.ask_levels,
            a.best_bid == b.best_bid,
            a.best_ask == b.best_ask,
            forall|l: u32| l != a.ladder(s0)[i0] && (l as int) < MAX_PRICE_LEVELS ==> #[trigger] b.lv(l) == a.lv(l),
            forall|l: u32| l != a.ladder(s0)[i0] ==> #[trigger] b.queues@[l] == a.queues@[l],
            forall|l: u32| #[trigger] b.queues@.contains_key(l) == a.queues@.contains_key(l),
            forall|n: u32| !cn.contains(n) && (n as int) < MAX_ARENA_ORDERS ==> #[trigger] b.nd(n) == a.nd(n),
            forall|n: u32, l: u32|
                #[trigger] cn.contains(n) && a.all_levels().contains(l) && l != a.ladder(s0)[i0] ==> !(#[trigger] a.queues@[l]).contains(n),
            b.lv(a.ladder(s0)[i0]).active == a.lv(a.ladder(s0)[i0]).active,
            b.lv(a.ladder(s0)[i0]).prev_level == a.lv(a.ladder(s0)[i0]).prev_level,
            b.lv(a.ladder(s0)[i0]).next_level == a.lv(a.ladder(s0)[i0]).next_level,
            b.lv(a.ladder(s0)[i0]).price == a.lv(a.ladder(s0)[i0]).price,
            b.queue_ok(a.ladder(s0)[i0], s0),
        ensures
            b.ladder_ok(false),
            b.ladder_ok(true),
            b.side_state(s0) == a.side_state(s0).update(i0, b.level_state(a.ladder(s0)[i0])),
            b.side_state(!s0) == a.side_state(!s0),
    {
        let l0 = a.ladder(s0)[i0];
        Self::lemma_other_levels(a, b, hole, l0, cn);
        a.lemma_levels_distinct(hole);
        let t = !s0;
        assert forall|s: bool, i: int| 0 <= i < a.ladder(s).len() implies {
            let l = #[trigger] a.ladder(s)[i];
            &&& a.lv(l).active == b.lv(l).active
            &&& a.lv(l).prev_level == b.lv(l).prev_level
            &&& a.lv(l).next_level == b.lv(l).next_level
            &&& a.lv(l).price == b.lv(l).price
            &&& b.queues@.contains_key(l)
            &&& b.queue_ok(l, s)
        } by {
            a.lemma_wf_parts(hole);
            reveal(OrderBook::ladder_ok);
            if s == s0 && i == i0 {
            } else {
                assert(a.ladder(s)[i] != a.ladder(s0)[i0]);
            }
        }
        a.lemma_wf_parts(hole);
        Self::lemma_ladder_keep(a, b, false);
        Self::lemma_ladder_keep(a, b, true);
        Self::lemma_side_state_update(a, b, s0, i0);
        Self::lemma_side_state_same(a, b, !s0);
    }

    /// The resting order at the head of the best level of side `s` after a partial
    /// fill of `tq`.
    pub closed spec fn head_after_partial(&self, s: bool, tq: u64) -> Resting {
        let r = self.resting(self.queues@[self.ladder(s)[0]][0]);
        Resting { order: with_qty(r.order, (r.order.qty - tq) as u64), ..r }
    }

    /// Fills `tq` lots, fewer than it holds, of the head order of the best level of side `s`.
    #[verifier::spinoff_prover]
    #[verifier::rlimit(100)]
    fn trade_partial(&mut self, s: bool, tq: u64)
        requires
            old(self).ladder(s).len() > 0,
            old(self).wf_except(Some(old(self).ladder(s)[0])),
            old(self).queues@[old(self).ladder(s)[0]].len() > 0,
            0 < tq < old(self).nd(old(self).queues@[old(self).ladder(s)[0]][0]).order.qty,
        ensures
            final(self).wf_except(Some(old(self).ladder(s)[0])),
            final(self).bid_levels == old(self).bid_levels,
            final(self).ask_levels == old(self).ask_levels,
            final(self).queues == old(self).queues,
            final(self).symbol == old(self).symbol,
            final(self).state() == with_side(
                old(self).state(),
                s,
                side_of(old(self).state(), s).update(
                    0,
                    LevelState {
                        queue: side_of(old(self).state(), s)[0].queue.update(0, old(self).head_after_partial(s, tq)),
                        ..side_of(old(self).state(), s)[0]
                    },
                ),
            ),
    {
        let ghost a = *self;
        let ghost hole = Some(a.ladder(s)[0]);
        let ghost l0 = a.ladder(s)[0];
        let ghost q = a.queues@[l0];
        proof {
            a.lemma_level_facts(hole, s, 0);
            a.lemma_wf_parts(hole);
            assert(a.queue_ok(l0, s)) by {
                reveal(OrderBook::ladder_ok);
            }
            reveal(OrderBook::queue_ok);
            assert((q[0] as int) < MAX_ARENA_ORDERS);
            lemma_queue_qty_first(a.level_state(l0).queue);
        }
        let l = if s { self.best_ask } else { self.best_bid };
        let h = self.level_arena.nodes[l as usize].head_order;
        let mut n = self.order_arena.nodes[h as usize];
        n.order.qty = n.order.qty - tq;
        self.order_arena.nodes.set(h as usize, n);
        let mut lvn = self.level_arena.nodes[l as usize];
        lvn.total_qty = lvn.total_qty - tq;
        self.level_arena.nodes.set(l as usize, lvn);
        proof {
            Self::lemma_trade_partial(&a, self, s, tq);
        }
    }

    #[verifier::spinoff_prover]
    #[verifier::rlimit(100)]
    proof fn lemma_trade_partial(a: &Self, b: &Self, s: bool, tq: u64)
        requires
            a.ladder(s).len() > 0,
            a.wf_except(Some(a.ladder(s)[0])),
            a.queues@[a.ladder(s)[0]].len() > 0,
            0 < tq < a.nd(a.queues@[a.ladder(s)[0]][0]).order.qty,
            b.order_arena.nodes@ == a.order_arena.nodes@.update(
                a.queues@[a.ladder(s)[0]][0] as int,
                OrderNode {
                    order: with_qty(a.nd(a.queues@[a.ladder(s)[0]][0]).order, (a.nd(a.queues@[a.ladder(s)[0]][0]).order.qty - tq) as u64),
                    ..a.nd(a.queues@[a.ladder(s)[0]][0])
                },
            ),
            b.level_arena.nodes@ == a.level_arena.nodes@.update(
                a.ladder(s)[0] as int,
                PriceLevelNode { total_qty: (a.lv(a.ladder(s)[0]).total_qty - tq) as u64, ..a.lv(a.ladder(s)[0]) },
            ),
            b.order_arena.free_head == a.order_arena.free_head,
            b.order_arena.active_count == a.order_arena.active_count,
            b.order_arena.capacity == a.order_arena.capacity,
            b.order_arena.free_list == a.order_arena.free_list,
            b.level_arena.free_head == a.level_arena.free_head,
            b.level_arena.free_list == a.level_arena.free_list,
            b.best_bid == a.best_bid,
            b.best_ask == a.best_ask,
            b.price_index == a.price_index,
            b.order_index == a.order_index,
            b.client_order_index == a.client_order_index,
            b.trade_id_counter == a.trade_id_counter,
            b.order_id_counter == a.order_id_counter,
            b.bid_levels == a.bid_levels,
            b.ask_levels == a.ask_levels,
            b.queues == a.queues,
        ensures
            b.wf_except(Some(a.ladder(s)[0])),
            b.state() == with_side(
                a.state(),
                s,
                side_of(a.state(), s).update(
                    0,
                    LevelState {
                        queue: side_of(a.state(), s)[0].queue.update(0, a.head_after_partial(s, tq)),
                        ..side_of(a.state(), s)[0]
                    },
                ),
            ),
    {
        let hole = Some(a.ladder(s)[0]);
        let l0 = a.ladder(s)[0];
        let q = a.queues@[l0];
        let h = q[0];
        a.lemma_level_facts(hole, s, 0);
        a.lemma_wf_parts(hole);
        assert(a.queue_ok(l0, s)) by {
            reveal(OrderBook::ladder_ok);
        }
        assert((h as int) < MAX_ARENA_ORDERS && q.no_duplicates()) by {
            reveal(OrderBook::queue_ok);
        }
        assert(forall|k: int| 0 <= k < q.len() ==> ((#[trigger] q[k]) as int) < MAX_ARENA_ORDERS) by {
            reveal(OrderBook::queue_ok);
        }
        lemma_queue_qty_first(a.level_state(l0).queue);
        a.lemma_levels_distinct(hole);
        assert forall|x: int| 0 <= x < a.all_levels().len() implies #[trigger] b.lv(a.all_levels()[x]).price == a.lv(a.all_levels()[x]).price by {}
            assert forall|j: int| 0 <= j < b.order_arena.nodes@.len() implies #[trigger] b.order_arena.nodes@[j].active
                == a.order_arena.nodes@[j].active && b.order_arena.nodes@[j].next == a.order_arena.nodes@[j].next by {}
            assert(b.order_arena.wf());
            assert forall|j: int| 0 <= j < b.level_arena.nodes@.len() implies #[trigger] b.level_arena.nodes@[j].active
                == a.level_arena.nodes@[j].active && b.level_arena.nodes@[j].next_free == a.level_arena.nodes@[j].next_free by {}
            assert(b.level_arena.wf());
            let r2 = a.head_after_partial(s, tq);
            assert(b.level_state(l0).queue =~= a.level_state(l0).queue.update(0, r2)) by {
                assert forall|k: int| 0 <= k < q.len() implies #[trigger] b.level_state(l0).queue[k] == a.level_state(l0).queue.update(0, r2)[k] by {
                    if k != 0 {
                        assert(q[k] != h);
                        assert(b.nd(q[k]) == a.nd(q[k]));
                    } else {
                        assert(b.resting(h) == r2);
                    }
                }
            }
            lemma_queue_qty_update_first(a.level_state(l0).queue, r2);
            assert(b.queue_ok(l0, s)) by {
                reveal(OrderBook::queue_ok);
                assert(a.level_state(l0).queue[0].order.qty == a.nd(h).order.qty);
                assert(b.lv(l0).total_qty == queue_qty(b.level_state(l0).queue));
                assert forall|k: int| 0 <= k < q.len() implies #[trigger] b.nd(q[k]) == (if k == 0 { b.nd(h) } else { a.nd(q[k]) }) by {
                    if k != 0 {
                        assert(q[k] != h);
                    }
                }
            }
            let cn = set![h];
            assert forall|n2: u32, l2: u32|
                #[trigger] cn.contains(n2) && a.all_levels().contains(l2) && l2 != l0 implies !(#[trigger] a.queues@[l2]).contains(n2) by {
                let x = choose|x: int| 0 <= x < a.all_levels().len() && a.all_levels()[x] == l2;
                let y: int = if s { a.bid_levels@.len() as int } else { 0 };
                assert(a.all_levels()[y] == l0);
                a.lemma_node_in_one_queue(hole, y, x, 0);
            }
            Self::lemma_ladders_keep(&a, &b, hole, s, 0, cn);
            assert(b.levels_nonempty(hole)) by {
                reveal(OrderBook::levels_nonempty);
            }
            assert(b.all_levels() == a.all_levels());
            assert(b.cross_ok()) by {
                reveal(OrderBook::cross_ok);
                if b.bid_levels@.len() > 0 && b.ask_levels@.len() > 0 {
                    assert(a.all_levels()[0] == a.bid_levels@[0]);
                    assert(a.all_levels()[a.bid_levels@.len() as int] == a.ask_levels@[0]);
                }
            }
            assert(b.price_index_ok()) by {
                reveal(OrderBook::price_index_ok);
                assert forall|p: u64| #[trigger] b.price_index@.contains_key(p) implies exists|x: int|
                    0 <= x < b.all_levels().len() && b.lv(#[trigger] b.all_levels()[x]).price == p by {
                    let x = choose|x: int| 0 <= x < a.all_levels().len() && a.lv(#[trigger] a.all_levels()[x]).price == p;
                    assert(b.lv(b.all_levels()[x]).price == p);
                }
            }
            assert(b.order_index_ok()) by {
                reveal(OrderBook::order_index_ok);
                assert forall|id: u64| #[trigger] b.order_index@.contains_key(id) implies {
                    let e = b.order_index@[id];
                    let nn = b.nd(e.node_idx);
                    &&& nn.order.id == id
                    &&& nn.order.price == e.price
                    &&& nn.order.user_id == e.user_id
                    &&& nn.order.client_order_id == e.client_order_id
                    &&& nn.order.side == e.side
                } by {
                    let e = a.order_index@[id];
                    if e.node_idx != h {
                        assert(b.nd(e.node_idx) == a.nd(e.node_idx));
                    }
                }
            }
            reveal(OrderBook::wf_except);
        assert(b.level_state(l0) == LevelState { queue: a.level_state(l0).queue.update(0, a.head_after_partial(s, tq)), ..a.level_state(l0) });
    }

    /// The queue of every level of `b` is disjoint from the others' when the levels of
    /// `b` are distinct levels of `a` and their queues only lost nodes.
    proof fn lemma_disjoint_sub(a: &Self, b: &Self)
        requires
            a.cross_ok(),
            b.all_levels().no_duplicates(),
            forall|x: int| 0 <= x < b.all_levels().len() ==> a.all_levels().contains(#[trigger] b.all_levels()[x]),
            forall|x: int, k: int|
                0 <= x < b.all_levels().len() && 0 <= k < b.queues@[b.all_levels()[x]].len() ==> a.queues@[b.all_levels()[x]].contains(
                    #[trigger] b.queues@[#[trigger] b.all_levels()[x]][k],
                ),
        ensures
            forall|x: int, y: int, kx: int, ky: int|
                0 <= x < b.all_levels().len() && 0 <= y < b.all_levels().len() && x != y && 0 <= kx < b.queues@[b.all_levels()[x]].len()
                    && 0 <= ky < b.queues@[b.all_levels()[y]].len() ==> #[trigger] b.queues@[b.all_levels()[x]][kx]
                    != #[trigger] b.queues@[b.all_levels()[y]][ky],
    {
        reveal(OrderBook::cross_ok);
        let all = a.all_levels();
        let ball = b.all_levels();
        assert forall|x: int, y: int, kx: int, ky: int|
            0 <= x < ball.len() && 0 <= y < ball.len() && x != y && 0 <= kx < b.queues@[ball[x]].len() && 0 <= ky
                < b.queues@[ball[y]].len() implies #[trigger] b.queues@[ball[x]][kx] != #[trigger] b.queues@[ball[y]][ky] by {
            let n = b.queues@[ball[x]][kx];
            assert(a.queues@[ball[x]].contains(n));
            assert(a.queues@[ball[y]].contains(b.queues@[ball[y]][ky]));
            assert(a.all_levels().contains(ball[x]));
            assert(a.all_levels().contains(ball[y]));
            if n == b.queues@[ball[y]][ky] {
                let x2 = choose|x2: int| 0 <= x2 < all.len() && all[x2] == ball[x];
                let y2 = choose|y2: int| 0 <= y2 < all.len() && all[y2] == ball[y];
                assert(ball[x] != ball[y]);
                let jx = choose|j: int| 0 <= j < a.queues@[all[x2]].len() && a.queues@[all[x2]][j] == n;
                let jy = choose|j: int| 0 <= j < a.queues@[all[y2]].len() && a.queues@[all[y2]][j] == n;
                assert(a.queues@[all[x2]][jx] != a.queues@[all[y2]][jy]);
            }
        }
    }

    /// Shrinking queues keeps them disjoint.
    proof fn lemma_cross_sub(a: &Self, b: &Self)
        requires
            a.cross_ok(),
            a.all_levels() == b.all_levels(),
            a.bid_levels@.len() > 0 && a.ask_levels@.len() > 0 ==> b.lv(a.bid_levels@[0]).price == a.lv(a.bid_levels@[0]).price
                && b.lv(a.ask_levels@[0]).price == a.lv(a.ask_levels@[0]).price,
            a.bid_levels == b.bid_levels,
            a.ask_levels == b.ask_levels,
            forall|x: int, k: int|
                0 <= x < a.all_levels().len() && 0 <= k < b.queues@[a.all_levels()[x]].len() ==> a.queues@[a.all_levels()[x]].contains(
                    #[trigger] b.queues@[#[trigger] a.all_levels()[x]][k],
                ),
        ensures
            b.cross_ok(),
    {
        assert(a.all_levels().no_duplicates()) by {
            reveal(OrderBook::cross_ok);
        }
        assert forall|x: int| 0 <= x < b.all_levels().len() implies a.all_levels().contains(#[trigger] b.all_levels()[x]) by {}
        Self::lemma_disjoint_sub(a, b);
        reveal(OrderBook::cross_ok);
    }

    /// The resting order at the head of the best level of side `s`.
    pub closed spec fn head_resting(&self, s: bool) -> Resting {
        self.resting(self.queues@[self.ladder(s)[0]][0])
    }

    /// The abstract book after the head order of the best level of side `s` is filled
    /// completely: it leaves the queue, its node returns to the free list and its
    /// index entries are removed.
    pub open spec fn after_full_fill(st: BookState, s: bool, r: Resting) -> BookState {
        let side = side_of(st, s);
        BookState {
            order_free: seq![r.node] + st.order_free,
            order_index: st.order_index.remove(r.order.id),
            client_index: st.client_index.remove((r.order.user_id, r.order.client_order_id)),
            ..with_side(st, s, side.update(0, LevelState { queue: side[0].queue.drop_first(), ..side[0] }))
        }
    }

    /// Fills the head order of the best level of side `s` completely (`tq` is its quantity).
    #[verifier::spinoff_prover]
    #[verifier::rlimit(100)]
    fn trade_full(&mut self, s: bool, tq: u64)
        requires
            old(self).ladder(s).len() > 0,
            old(self).wf_except(Some(old(self).ladder(s)[0])),
            old(self).queues@[old(self).ladder(s)[0]].len() > 0,
            tq == old(self).nd(old(self).queues@[old(self).ladder(s)[0]][0]).order.qty,
        ensures
            final(self).wf_except(Some(old(self).ladder(s)[0])),
            final(self).bid_levels == old(self).bid_levels,
            final(self).ask_levels == old(self).ask_levels,
            final(self).symbol == old(self).symbol,
            final(self).state() == Self::after_full_fill(old(self).state(), s, old(self).head_resting(s)),
    {
        let ghost a = *self;
        let ghost hole = Some(a.ladder(s)[0]);
        let ghost l0 = a.ladder(s)[0];
        let ghost q = a.queues@[l0];
        proof {
            a.lemma_level_facts(hole, s, 0);
            a.lemma_wf_parts(hole);
            assert(a.queue_ok(l0, s)) by {
                reveal(OrderBook::ladder_ok);
            }
            reveal(OrderBook::queue_ok);
            assert((q[0] as int) < MAX_ARENA_ORDERS);
            if q.len() > 1 {
                assert((q[1] as int) < MAX_ARENA_ORDERS);
            }
            lemma_queue_qty_first(a.level_state(l0).queue);
        }
        let l = if s { self.best_ask } else { self.best_bid };
        let h = self.level_arena.nodes[l as usize].head_order;
        let mut n = self.order_arena.nodes[h as usize];
        n.order.qty = n.order.qty - tq;
        self.order_arena.nodes.set(h as usize, n);
        let mut lvn = self.level_arena.nodes[l as usize];
        lvn.total_qty = lvn.total_qty - tq;
        let filled_id = n.order.id;
        let filled_user_id = n.order.user_id;
        let filled_client_id = n.order.client_order_id;
        lvn.pop_order(&mut self.order_arena);
        self.level_arena.nodes.set(l as usize, lvn);
        proof {
            lemma_arena_same_links(&a.order_arena, &self.order_arena);
        }
        self.order_arena.deallocate(h);
        self.order_index.remove(filled_id);
        self.client_order_index.remove(filled_user_id, filled_client_id);
        proof {
            self.queues@ = self.queues@.insert(l0, q.drop_first());
            Self::lemma_trade_full(&a, self, s, tq);
        }
    }

    #[verifier::spinoff_prover]
    #[verifier::rlimit(100)]
    proof fn lemma_trade_full(a: &Self, b: &Self, s: bool, tq: u64)
        requires
            a.ladder(s).len() > 0,
            a.wf_except(Some(a.ladder(s)[0])),
            a.queues@[a.ladder(s)[0]].len() > 0,
            tq == a.nd(a.queues@[a.ladder(s)[0]][0]).order.qty,
            ({
                let l0 = a.ladder(s)[0];
                let h = a.queues@[l0][0];
                let ah = a.nd(h);
                let nx = ah.next;
                let nodes1 = a.order_arena.nodes@.update(h as int, OrderNode { order: with_qty(ah.order, 0), ..ah });
                let nodes2 = if nx != NULL_IDX {
                    nodes1.update(nx as int, relink(nodes1[nx as int], NULL_IDX, nodes1[nx as int].next))
                } else {
                    nodes1
                };
                &&& b.order_arena.nodes@ == nodes2.update(
                    h as int,
                    OrderNode { active: false, next: a.order_arena.free_head, prev: NULL_IDX, ..nodes2[h as int] },
                )
                &&& b.order_arena.free_list@ == seq![h] + a.order_arena.free_list@
                &&& b.level_arena.nodes@ == a.level_arena.nodes@.update(
                    l0 as int,
                    PriceLevelNode {
                        head_order: nx,
                        tail_order: if nx != NULL_IDX {
                            a.lv(l0).tail_order
                        } else {
                            NULL_IDX
                        },
                        total_qty: sat_sub(a.lv(l0).total_qty - tq, 0) as u64,
                        order_count: sat_sub(a.lv(l0).order_count as int, 1) as u32,
                        ..a.lv(l0)
                    },
                )
                &&& b.order_index@ == a.order_index@.remove(ah.order.id)
                &&& b.client_order_index@ == a.client_order_index@.remove((ah.order.user_id, ah.order.client_order_id))
                &&& b.queues@ == a.queues@.insert(l0, a.queues@[l0].drop_first())
            }),
            b.order_arena.wf(),
            b.order_arena.capacity == a.order_arena.capacity,
            b.order_index.wf(),
            b.client_order_index.wf(),
            b.level_arena.free_head == a.level_arena.free_head,
            b.level_arena.free_list == a.level_arena.free_list,
            b.best_bid == a.best_bid,
            b.best_ask == a.best_ask,
            b.price_index == a.price_index,
            b.trade_id_counter == a.trade_id_counter,
            b.order_id_counter == a.order_id_counter,
            b.bid_levels == a.bid_levels,
            b.ask_levels == a.ask_levels,
        ensures
            b.wf_except(Some(a.ladder(s)[0])),
            b.state() == Self::after_full_fill(a.state(), s, a.head_resting(s)),
    {
        let hole = Some(a.ladder(s)[0]);
        let l0 = a.ladder(s)[0];
        let q = a.queues@[l0];
        let h = q[0];
        let nx = a.nd(h).next;
        a.lemma_level_facts(hole, s, 0);
        a.lemma_wf_parts(hole);
        a.lemma_levels_distinct(hole);
        assert(a.queue_ok(l0, s)) by {
            reveal(OrderBook::ladder_ok);
        }
        assert(q.no_duplicates() && forall|k: int| 0 <= k < q.len() ==> ((#[trigger] q[k]) as int) < MAX_ARENA_ORDERS
            && a.nd(q[k]).active && a.nd(q[k]).prev == (if k == 0 { NULL_IDX } else { q[k - 1] })
            && a.nd(q[k]).next == (if k + 1 < q.len() { q[k + 1] } else { NULL_IDX })) by {
            reveal(OrderBook::queue_ok);
        }
        lemma_queue_qty_first(a.level_state(l0).queue);
        let q2 = q.drop_first();
        // Every node other than `h` and its successor is untouched.
        assert forall|n: u32| n != h && n != nx && (n as int) < MAX_ARENA_ORDERS implies #[trigger] b.nd(n) == a.nd(n) by {}
        assert forall|k: int| 0 <= k < q2.len() implies #[trigger] b.nd(q2[k]) == (if k == 0 { relink(a.nd(q2[k]), NULL_IDX, a.nd(q2[k]).next) } else { a.nd(q2[k]) }) by {
            assert(q2[k] == q[k + 1]);
            assert(q[k + 1] != h);
            if k == 0 {
                assert(nx == q[1]);
            } else {
                assert(q[k + 1] != q[1]);
            }
        }
        // The new queue is well-formed.
        assert(b.level_state(l0).queue =~= a.level_state(l0).queue.drop_first()) by {
            assert forall|k: int| 0 <= k < q2.len() implies #[trigger] b.level_state(l0).queue[k] == a.level_state(l0).queue.drop_first()[k] by {
                assert(b.resting(q2[k]) == a.resting(q[k + 1]));
            }
        }
        assert(b.queue_ok(l0, s)) by {
            reveal(OrderBook::queue_ok);
            assert forall|k: int| 0 <= k < q2.len() implies {
                &&& ((#[trigger] q2[k]) as int) < MAX_ARENA_ORDERS
                &&& b.nd(q2[k]).active
                &&& b.nd(q2[k]).prev == (if k == 0 { NULL_IDX } else { q2[k - 1] })
                &&& b.nd(q2[k]).next == (if k + 1 < q2.len() { q2[k + 1] } else { NULL_IDX })
                &&& b.nd(q2[k]).order.price == b.lv(l0).price
                &&& (b.nd(q2[k]).order.side == 1) == s
                &&& b.nd(q2[k]).order.qty > 0
            } by {
                assert(q2[k] == q[k + 1]);
                assert(a.queue_ok(l0, s));
            }
            assert(q2.no_duplicates());
        }
        let cn = if nx != NULL_IDX { set![h, nx] } else { set![h] };
        let y0: int = if s { a.bid_levels@.len() as int } else { 0 };
        assert(a.all_levels()[y0] == l0);
        assert forall|n2: u32, l2: u32|
            #[trigger] cn.contains(n2) && a.all_levels().contains(l2) && l2 != l0 implies !(#[trigger] a.queues@[l2]).contains(n2) by {
            let x = choose|x: int| 0 <= x < a.all_levels().len() && a.all_levels()[x] == l2;
            if n2 == h {
                a.lemma_node_in_one_queue(hole, y0, x, 0);
            } else {
                a.lemma_node_in_one_queue(hole, y0, x, 1);
            }
        }
        assert forall|n: u32| !cn.contains(n) && (n as int) < MAX_ARENA_ORDERS implies #[trigger] b.nd(n) == a.nd(n) by {}
        Self::lemma_ladders_keep(a, b, hole, s, 0, cn);
        assert(b.levels_nonempty(hole)) by {
            reveal(OrderBook::levels_nonempty);
        }
        assert(b.all_levels() == a.all_levels());
        assert forall|x: int| 0 <= x < a.all_levels().len() implies #[trigger] b.lv(a.all_levels()[x]).price == a.lv(a.all_levels()[x]).price by {}
        assert forall|x: int, k: int|
            0 <= x < a.all_levels().len() && 0 <= k < b.queues@[a.all_levels()[x]].len() implies a.queues@[a.all_levels()[x]].contains(
                #[trigger] b.queues@[#[trigger] a.all_levels()[x]][k],
            ) by {
            if a.all_levels()[x] == l0 {
                assert(b.queues@[l0][k] == q[k + 1]);
            }
        }
        if a.bid_levels@.len() > 0 && a.ask_levels@.len() > 0 {
            assert(a.all_levels()[0] == a.bid_levels@[0]);
            assert(a.all_levels()[a.bid_levels@.len() as int] == a.ask_levels@[0]);
        }
        Self::lemma_cross_sub(a, b);
        assert(b.price_index_ok()) by {
            reveal(OrderBook::price_index_ok);
            assert forall|p: u64| #[trigger] b.price_index@.contains_key(p) implies exists|x: int|
                0 <= x < b.all_levels().len() && b.lv(#[trigger] b.all_levels()[x]).price == p by {
                let x = choose|x: int| 0 <= x < a.all_levels().len() && a.lv(#[trigger] a.all_levels()[x]).price == p;
                assert(b.lv(b.all_levels()[x]).price == p);
            }
        }
        assert(b.order_index_ok()) by {
            reveal(OrderBook::order_index_ok);
            assert forall|id: u64| #[trigger] b.order_index@.contains_key(id) implies {
                let e = b.order_index@[id];
                let nn = b.nd(e.node_idx);
                &&& e.order_id == id
                &&& e.occupied
                &&& (e.node_idx as int) < MAX_ARENA_ORDERS
                &&& b.price_index@.contains_key(e.price)
                &&& b.queues@.contains_key(b.price_index@[e.price])
                &&& b.queues@[b.price_index@[e.price]].contains(e.node_idx)
                &&& nn.order.id == id
                &&& nn.order.price == e.price
                &&& nn.order.user_id == e.user_id
                &&& nn.order.client_order_id == e.client_order_id
                &&& nn.order.side == e.side
            } by {
                let e = a.order_index@[id];
                assert(a.order_index@.contains_key(id));
                assert(e.node_idx != h);
                assert(b.nd(e.node_idx).order == a.nd(e.node_idx).order);
                let lp = a.price_index@[e.price];
                if lp == l0 {
                    let k = choose|k: int| 0 <= k < q.len() && q[k] == e.node_idx;
                    assert(k != 0);
                    assert(q2[k - 1] == e.node_idx);
                }
            }
        }
        reveal(OrderBook::wf_except);
        assert(b.level_state(l0) == LevelState { queue: a.level_state(l0).queue.drop_first(), ..a.level_state(l0) });
    }

    /// The abstract book after the best level of side `s` was matched as `qm` says.
    pub open spec fn after_queue_match(st: BookState, s: bool, qm: QueueMatch) -> BookState {
        let side = side_of(st, s);
        BookState {
            order_free: push_nodes(st.order_free, qm.filled),
            order_index: remove_ids(st.order_index, qm.filled),
            client_index: remove_clients(st.client_index, qm.filled),
            trade_ctr: (st.trade_ctr + qm.trades.len()) as u64,
            ..with_side(st, s, side.update(0, LevelState { queue: qm.queue, ..side[0] }))
        }
    }

    /// Matches `incoming` against the best level of side `s`, head first, until either
    /// is exhausted or the head belongs to the same user (self-trade prevention, which
    /// returns `true` and leaves that order resting).
#[verifier::rlimit(40)]
        fn match_level(&mut self, incoming: &mut Order, taker_client_id: u64, s: bool, trades: &mut Vec<Trade>) -> (stp: bool)
        requires
            old(self).ladder(s).len() > 0,
            old(self).wf_except(Some(old(self).ladder(s)[0])),
            trade_budget(old(self).state()) + 1 < u64::MAX,
        ensures
            ({
                let qm = match_queue(
                    side_of(old(self).state(), s)[0].queue,
                    *old(incoming),
                    taker_client_id,
                    old(self).state().trade_ctr as int,
                );
                &&& final(self).wf_except(Some(old(self).ladder(s)[0]))
                &&& *final(incoming) == qm.incoming
                &&& stp == qm.stp
                &&& final(trades)@ == old(trades)@ + qm.trades
                &&& final(self).state() == Self::after_queue_match(old(self).state(), s, qm)
            }),
            final(self).bid_levels == old(self).bid_levels,
            final(self).ask_levels == old(self).ask_levels,
            final(self).symbol == old(self).symbol,
            final(incoming).qty > 0 ==> trade_budget(final(self).state()) <= trade_budget(old(self).state()),
            final(self).state().trade_ctr == old(self).state().trade_ctr + match_queue(
                side_of(old(self).state(), s)[0].queue,
                *old(incoming),
                taker_client_id,
                old(self).state().trade_ctr as int,
            ).trades.len(),
            final(self).state().order_free.len() >= old(self).state().order_free.len(),
            final(incoming).qty <= old(incoming).qty,
            *final(incoming) == with_qty(*old(incoming), final(incoming).qty),
    {
        let ghost a = *self;
        let ghost l0 = a.ladder(s)[0];
        let ghost hole = Some(l0);
        let ghost inc0 = *incoming;
        let ghost trades0 = trades@;
        let ghost st0 = a.state();
        let ghost c = taker_client_id;
        let ghost qm0 = match_queue(side_of(st0, s)[0].queue, inc0, c, st0.trade_ctr as int);
        let ghost mut acc_t: Seq<Trade> = Seq::empty();
        let ghost mut acc_f: Seq<Resting> = Seq::empty();
        proof {
            a.lemma_level_facts(hole, s, 0);
            a.lemma_best(hole, s);
            let side = side_of(st0, s);
            assert(LevelState { queue: side[0].queue, ..side[0] } == side[0]);
            assert(side.update(0, LevelState { queue: side[0].queue, ..side[0] }) =~= side);
            assert(push_nodes(st0.order_free, acc_f) == st0.order_free);
            assert(remove_ids(st0.order_index, acc_f) == st0.order_index);
            assert(remove_clients(st0.client_index, acc_f) == st0.client_index);
            assert(trades0 + acc_t =~= trades0);
            assert(qm0.trades =~= acc_t + qm0.trades);
            assert(qm0.filled =~= acc_f + qm0.filled);
        }
        let l = if s { self.best_ask } else { self.best_bid };
        while incoming.qty > 0 && !self.level_arena.nodes[l as usize].is_empty()
            invariant
                self.wf_except(hole),
                a == *old(self),
                st0 == a.state(),
                inc0 == *old(incoming),
                trades0 == old(trades)@,
                qm0 == match_queue(side_of(st0, s)[0].queue, inc0, c, st0.trade_ctr as int),
                self.bid_levels == a.bid_levels,
                self.ask_levels == a.ask_levels,
                self.symbol == a.symbol,
                l == l0,
                a.ladder(s).len() > 0,
                l0 == a.ladder(s)[0],
                (l as int) < MAX_PRICE_LEVELS,
                self.level_arena.nodes@.len() == MAX_PRICE_LEVELS,
                hole == Some(l0),
                side_of(st0, s).len() > 0,
                c == taker_client_id,
                trade_budget(st0) + 1 < u64::MAX,
                self.state().trade_ctr == st0.trade_ctr + acc_t.len(),
                match_progress(qm0, side_of(self.state(), s)[0].queue, *incoming, c, self.state().trade_ctr as int, acc_t, acc_f),
                self.state() == Self::after_queue_match(
                    st0,
                    s,
                    QueueMatch { queue: side_of(self.state(), s)[0].queue, incoming: inc0, trades: acc_t, stp: false, filled: acc_f },
                ),
                trades@ == trades0 + acc_t,
                incoming.qty > 0 ==> trade_budget(self.state()) <= trade_budget(st0),
                self.state().order_free.len() >= st0.order_free.len(),
                *incoming == with_qty(inc0, incoming.qty),
                incoming.qty <= inc0.qty,
            decreases side_of(self.state(), s)[0].queue.len() + incoming.qty,
        {
            let ghost p = *self;
            let ghost q = side_of(p.state(), s)[0].queue;
            let ghost inc = *incoming;
            let ghost hq = p.queues@[l0];
            proof {
                p.lemma_level_facts(hole, s, 0);
                p.lemma_sizes(hole);
                assert(p.queue_ok(l0, s)) by {
                    reveal(OrderBook::wf_except);
                    reveal(OrderBook::ladder_ok);
                }
                assert(hq.len() > 0 ==> (hq[0] as int) < MAX_ARENA_ORDERS) by {
                    reveal(OrderBook::queue_ok);
                }
                assert(q == p.level_state(l0).queue);
            }
            let h = self.level_arena.nodes[l as usize].head_order;
            proof {
                assert(hq.len() > 0 && h == hq[0]) by {
                    reveal(OrderBook::queue_ok);
                }
                assert(q.len() > 0 && q[0] == p.resting(h));
            }
            let resting = self.order_arena.nodes[h as usize];
            if resting.order.user_id == incoming.user_id {
                proof {
                    assert(qm0.trades =~= acc_t);
                    assert(qm0.filled =~= acc_f);
                }
                return true;
            }
            let trade_qty = if incoming.qty < resting.order.qty { incoming.qty } else { resting.order.qty };
            let trade_price = resting.order.price;
            let (buyer_id, seller_id) = if incoming.side == Side::Buy.code() {
                (incoming.user_id, resting.order.user_id)
            } else {
                (resting.order.user_id, incoming.user_id)
            };
            let match_id = self.trade_id_counter;
            self.trade_id_counter = self.trade_id_counter + 1;
            proof {
                self.lemma_wf_frame(&p, hole);
            }
            let trade = Trade {
                match_id,
                maker_order_id: resting.order.id,
                taker_order_id: incoming.id,
                maker_client_order_id: resting.order.client_order_id,
                taker_client_order_id: incoming.client_order_id,
                maker_user_id: resting.order.user_id,
                taker_user_id: incoming.user_id,
                maker_client_id: resting.client_id,
                taker_client_id,
                buyer_id,
                seller_id,
                maker_side: resting.order.side,
                symbol_id: incoming.symbol_id,
                price: trade_price,
                qty: trade_qty,
            };
            proof {
                assert(trade == make_trade(q[0], inc, c, match_id, trade_qty));
            }
            trades.push(trade);
            incoming.qty = incoming.qty - trade_qty;
            if trade_qty == resting.order.qty {
                proof {
                    lemma_match_step_full(st0, s, qm0, q, inc, c, acc_t, acc_f);
                }
                self.trade_full(s, trade_qty);
                proof {
                    self.lemma_sizes(hole);
                    acc_t = acc_t.push(trade);
                    acc_f = acc_f.push(Resting { order: with_qty(q[0].order, 0), ..q[0] });
                }
            } else {
                proof {
                    lemma_match_step_partial(st0, s, qm0, q, inc, c, acc_t, acc_f);
                }
                self.trade_partial(s, trade_qty);
                proof {
                    self.lemma_sizes(hole);
                    acc_t = acc_t.push(trade);
                }
            }
        }
        proof {
            self.lemma_level_facts(hole, s, 0);
            assert(qm0.trades =~= acc_t);
            assert(qm0.filled =~= acc_f);
        }
        false
    }

    /// Takes level `level_idx` out of the ladder of side `is_sell`, linking its
    /// neighbours to each other.
    fn unlink_price_level(&mut self, level_idx: u32, is_sell: bool)
        requires
            (level_idx as int) < old(self).level_arena.nodes@.len(),
            old(self).lv(level_idx).prev_level == NULL_IDX || (old(self).lv(level_idx).prev_level as int) < old(
                self,
            ).level_arena.nodes@.len(),
            old(self).lv(level_idx).next_level == NULL_IDX || (old(self).lv(level_idx).next_level as int) < old(
                self,
            ).level_arena.nodes@.len(),
        ensures
            final(self).level_arena.nodes@ == levels_after_unlink(old(self).level_arena.nodes@, level_idx),
            final(self).level_arena.free_head == old(self).level_arena.free_head,
            final(self).level_arena.free_list == old(self).level_arena.free_list,
            final(self).best_ask == (if is_sell && old(self).lv(level_idx).prev_level == NULL_IDX {
                old(self).lv(level_idx).next_level
            } else {
                old(self).best_ask
            }),
            final(self).best_bid == (if !is_sell && old(self).lv(level_idx).prev_level == NULL_IDX {
                old(self).lv(level_idx).next_level
            } else {
                old(self).best_bid
            }),
            final(self).symbol == old(self).symbol,
            final(self).price_index == old(self).price_index,
            final(self).order_arena == old(self).order_arena,
            final(self).order_index == old(self).order_index,
            final(self).client_order_index == old(self).client_order_index,
            final(self).trade_id_counter == old(self).trade_id_counter,
            final(self).order_id_counter == old(self).order_id_counter,
            final(self).bid_levels == old(self).bid_levels,
            final(self).ask_levels == old(self).ask_levels,
            final(self).queues == old(self).queues,
    {
        let prev = self.level_arena.nodes[level_idx as usize].prev_level;
        let next = self.level_arena.nodes[level_idx as usize].next_level;
        if prev != NULL_IDX {
            let mut pn = self.level_arena.nodes[prev as usize];
            pn.next_level = next;
            self.level_arena.nodes.set(prev as usize, pn);
        } else {
            if is_sell {
                self.best_ask = next;
            } else {
                self.best_bid = next;
            }
        }
        if next != NULL_IDX {
            let mut xn = self.level_arena.nodes[next as usize];
            xn.prev_level = prev;
            self.level_arena.nodes.set(next as usize, xn);
        }
        let mut ln = self.level_arena.nodes[level_idx as usize];
        ln.prev_level = NULL_IDX;
        ln.next_level = NULL_IDX;
        self.level_arena.nodes.set(level_idx as usize, ln);
    }

    /// The abstract book after level `i` of side `s` (an empty one) is removed.
    pub open spec fn after_drop_level(st: BookState, s: bool, i: int) -> BookState {
        let side = side_of(st, s);
        BookState {
            level_free: seq![side[i].idx] + st.level_free,
            price_index: st.price_index.remove(side[i].price),
            ..with_side(st, s, side.remove(i))
        }
    }

    /// Removes the empty level `level_idx`, at position `i` of side `s`: unlinks it,
    /// drops its price from the price index and frees it.
    #[verifier::spinoff_prover]
    #[verifier::rlimit(100)]
    fn drop_level(&mut self, level_idx: u32, s: bool, Ghost(i): Ghost<int>)
        requires
            old(self).wf_except(Some(level_idx)),
            0 <= i < old(self).ladder(s).len(),
            old(self).ladder(s)[i] == level_idx,
            old(self).queues@[level_idx].len() == 0,
        ensures
            final(self).wf(),
            final(self).symbol == old(self).symbol,
            final(self).state() == Self::after_drop_level(old(self).state(), s, i),
    {
        let ghost a = *self;
        proof {
            a.lemma_level_facts(Some(level_idx), s, i);
            a.lemma_sizes(Some(level_idx));
            if i > 0 {
                a.lemma_level_facts(Some(level_idx), s, i - 1);
            }
            if i + 1 < a.ladder(s).len() {
                a.lemma_level_facts(Some(level_idx), s, i + 1);
            }
        }
        let price = self.level_arena.nodes[level_idx as usize].price;
        self.unlink_price_level(level_idx, s);
        proof {
            assert(a.level_arena.wf() && a.price_index.wf()) by {
                reveal(OrderBook::wf_except);
            }
            lemma_level_arena_same_links(&a.level_arena, &self.level_arena);
        }
        self.price_index.remove(price);
        self.level_arena.deallocate(level_idx);
        proof {
            if s {
                self.ask_levels@ = self.ask_levels@.remove(i);
            } else {
                self.bid_levels@ = self.bid_levels@.remove(i);
            }
            Self::lemma_drop_level(&a, self, s, i);
        }
    }

    /// `b` is `a` after `drop_level` removed level `i` of side `s`.
    spec fn drop_rel(a: &Self, b: &Self, s: bool, i: int) -> bool {
        &&& 0 <= i < a.ladder(s).len()
        &&& a.wf_except(Some(a.ladder(s)[i]))
        &&& a.queues@[a.ladder(s)[i]].len() == 0
        &&& ({
                let l = a.ladder(s)[i];
                let n3 = levels_after_unlink(a.level_arena.nodes@, l);
                &&& b.level_arena.nodes@ == n3.update(
                    l as int,
                    PriceLevelNode {
                        active: false,
                        head_order: NULL_IDX,
                        tail_order: NULL_IDX,
                        prev_level: NULL_IDX,
                        next_level: NULL_IDX,
                        total_qty: 0,
                        order_count: 0,
                        next_free: a.level_arena.free_head,
                        ..n3[l as int]
                    },
                )
                &&& b.level_arena.free_list@ == seq![l] + a.level_arena.free_list@
                &&& b.price_index@ == a.price_index@.remove(a.lv(l).price)
                &&& b.best_ask == (if s && a.lv(l).prev_level == NULL_IDX {
                    a.lv(l).next_level
                } else {
                    a.best_ask
                })
                &&& b.best_bid == (if !s && a.lv(l).prev_level == NULL_IDX {
                    a.lv(l).next_level
                } else {
                    a.best_bid
                })
            })
        &&& b.level_arena.wf()
        &&& b.price_index.wf()
        &&& b.order_arena == a.order_arena
        &&& b.order_index == a.order_index
        &&& b.client_order_index == a.client_order_index
        &&& b.trade_id_counter == a.trade_id_counter
        &&& b.order_id_counter == a.order_id_counter
        &&& b.queues == a.queues
        &&& b.ladder(s) == a.ladder(s).remove(i)
        &&& b.ladder(!s) == a.ladder(!s)
    }

    /// How the level nodes and queues change when a level is dropped.
    #[verifier::spinoff_prover]
    #[verifier::rlimit(100)]
    proof fn lemma_drop_facts(a: &Self, b: &Self, s: bool, i: int)
        requires
            Self::drop_rel(a, b, s, i),
        ensures
            ({
                let l = a.ladder(s)[i];
                let p = a.lv(l).prev_level;
                let x = a.lv(l).next_level;
                let lad = a.ladder(s);
                &&& p == (if i == 0 { NULL_IDX } else { lad[i - 1] })
                &&& x == (if i + 1 < lad.len() { lad[i + 1] } else { NULL_IDX })
                &&& forall|m: u32| (m as int) < MAX_PRICE_LEVELS && m != l && m != p && m != x ==> #[trigger] b.lv(m) == a.lv(m)
                &&& (p != NULL_IDX ==> b.lv(p) == PriceLevelNode { next_level: x, ..a.lv(p) })
                &&& (x != NULL_IDX ==> b.lv(x) == PriceLevelNode { prev_level: p, ..a.lv(x) })
                &&& forall|m: u32| (m as int) < MAX_PRICE_LEVELS && m != l ==> same_queue_fields(a.lv(m), #[trigger] b.lv(m))
                    && b.lv(m).active == a.lv(m).active
                &&& forall|ss: bool, j: int| 0 <= j < a.ladder(ss).len() && #[trigger] a.ladder(ss)[j] != l ==> b.queue_ok(
                    a.ladder(ss)[j],
                    ss,
                ) && a.level_state(a.ladder(ss)[j]) == b.level_state(a.ladder(ss)[j])
            }),
    {
        let l = a.ladder(s)[i];
        let hole = Some(l);
        let lad = a.ladder(s);
        let p = a.lv(l).prev_level;
        let x = a.lv(l).next_level;
        a.lemma_level_facts(hole, s, i);
        a.lemma_sizes(hole);
        a.lemma_levels_distinct(hole);
        if i > 0 {
            a.lemma_level_facts(hole, s, i - 1);
        }
        if i + 1 < lad.len() {
            a.lemma_level_facts(hole, s, i + 1);
        }
        assert forall|m: u32| (m as int) < MAX_PRICE_LEVELS && m != l && m != p && m != x implies #[trigger] b.lv(m) == a.lv(m) by {}
        assert(p != NULL_IDX ==> b.lv(p) == PriceLevelNode { next_level: x, ..a.lv(p) }) by {
            if p != NULL_IDX {
                assert(p != l && p != x);
            }
        }
        assert(x != NULL_IDX ==> b.lv(x) == PriceLevelNode { prev_level: p, ..a.lv(x) }) by {
            if x != NULL_IDX {
                assert(x != l);
            }
        }
        assert forall|m: u32| (m as int) < MAX_PRICE_LEVELS && m != l implies same_queue_fields(a.lv(m), #[trigger] b.lv(m))
            && b.lv(m).active == a.lv(m).active by {}
        assert forall|ss: bool, j: int| 0 <= j < a.ladder(ss).len() && #[trigger] a.ladder(ss)[j] != l implies b.queue_ok(
            a.ladder(ss)[j],
            ss,
        ) && a.level_state(a.ladder(ss)[j]) == b.level_state(a.ladder(ss)[j]) by {
            let m = a.ladder(ss)[j];
            assert(a.queue_ok(m, ss) && (m as int) < MAX_PRICE_LEVELS) by {
                reveal(OrderBook::wf_except);
                reveal(OrderBook::ladder_ok);
            }
            Self::lemma_queue_ok_frame(a, b, m, ss);
        }
    }

    /// The ladder of side `s` stays well-formed after one of its levels is dropped.
    #[verifier::spinoff_prover]
    #[verifier::rlimit(100)]
    proof fn lemma_drop_ladder_own(a: &Self, b: &Self, s: bool, i: int)
        requires
            Self::drop_rel(a, b, s, i),
        ensures
            b.ladder_ok(s),
    {
        let l = a.ladder(s)[i];
        let hole = Some(l);
        let lad = a.ladder(s);
        let lad2 = b.ladder(s);
        let t = !s;
        let p = a.lv(l).prev_level;
        let x = a.lv(l).next_level;
        Self::lemma_drop_facts(a, b, s, i);
        a.lemma_levels_distinct(hole);
        assert(a.ladder_ok(s)) by {
            reveal(OrderBook::wf_except);
        }
        assert(b.ladder_ok(s)) by {
            reveal(OrderBook::ladder_ok);
            assert forall|j: int| 0 <= j < lad2.len() implies #[trigger] lad2[j] == (if j < i { lad[j] } else { lad[j + 1] }) by {}
            assert forall|j: int| 0 <= j < lad2.len() implies {
                &&& ((#[trigger] lad2[j]) as int) < MAX_PRICE_LEVELS
                &&& b.lv(lad2[j]).active
                &&& b.queues@.contains_key(lad2[j])
                &&& b.lv(lad2[j]).prev_level == (if j == 0 { NULL_IDX } else { lad2[j - 1] })
                &&& b.lv(lad2[j]).next_level == (if j + 1 < lad2.len() { lad2[j + 1] } else { NULL_IDX })
                &&& b.queue_ok(lad2[j], s)
            } by {
                let jj = if j < i { j } else { j + 1 };
                assert(lad2[j] == lad[jj]);
                assert(lad[jj] != l);
                if jj > 0 {
                    assert(lad[jj - 1] != lad[jj]);
                }
                if jj + 1 < lad.len() {
                    assert(lad[jj + 1] != lad[jj]);
                }
                if j == i - 1 {
                    assert(lad2[j] == p);
                } else if j == i {
                    assert(lad2[j] == x);
                } else {
                    assert(lad2[j] != p && lad2[j] != x);
                }
            }
            assert forall|j1: int, j2: int| 0 <= j1 < j2 < lad2.len() implies better(
                b.lv(#[trigger] lad2[j1]).price,
                b.lv(#[trigger] lad2[j2]).price,
                s,
            ) by {
                let k1 = if j1 < i { j1 } else { j1 + 1 };
                let k2 = if j2 < i { j2 } else { j2 + 1 };
                assert(lad2[j1] == lad[k1] && lad2[j2] == lad[k2]);
                assert(better(a.lv(lad[k1]).price, a.lv(lad[k2]).price, s));
            }
        }
    }

    /// The other ladder stays well-formed, and every level non-empty, after a level is dropped.
    #[verifier::spinoff_prover]
    #[verifier::rlimit(100)]
    proof fn lemma_drop_ladder_other(a: &Self, b: &Self, s: bool, i: int)
        requires
            Self::drop_rel(a, b, s, i),
        ensures
            b.ladder_ok(!s),
            b.levels_nonempty(None),
    {
        let l = a.ladder(s)[i];
        let hole = Some(l);
        let lad = a.ladder(s);
        let lad2 = b.ladder(s);
        let t = !s;
        let p = a.lv(l).prev_level;
        let x = a.lv(l).next_level;
        Self::lemma_drop_facts(a, b, s, i);
        a.lemma_levels_distinct(hole);
        assert(a.ladder_ok(t) && a.levels_nonempty(hole)) by {
            reveal(OrderBook::wf_except);
        }
        assert(b.ladder_ok(t)) by {
            assert forall|j: int| 0 <= j < a.ladder(t).len() implies {
                let m = #[trigger] a.ladder(t)[j];
                &&& a.lv(m).active == b.lv(m).active
                &&& a.lv(m).prev_level == b.lv(m).prev_level
                &&& a.lv(m).next_level == b.lv(m).next_level
                &&& a.lv(m).price == b.lv(m).price
                &&& b.queues@.contains_key(m)
                &&& b.queue_ok(m, t)
            } by {
                reveal(OrderBook::ladder_ok);
                let m = a.ladder(t)[j];
                assert(m != l);
                if p != NULL_IDX {
                    assert(m != p);
                }
                if x != NULL_IDX {
                    assert(m != x);
                }
            }
            Self::lemma_ladder_keep(a, b, t);
        }
        assert(b.levels_nonempty(None)) by {
            reveal(OrderBook::levels_nonempty);
            assert forall|j: int| 0 <= j < lad2.len() implies b.queues@[#[trigger] lad2[j]].len() > 0 by {
                let jj = if j < i { j } else { j + 1 };
                assert(lad2[j] == lad[jj]);
                assert(lad[jj] != l);
                if s {
                    assert(a.ask_levels@[jj] == lad[jj]);
                } else {
                    assert(a.bid_levels@[jj] == lad[jj]);
                }
            }
        }
    }

    /// Queues stay disjoint and levels distinct after a level is dropped.
    #[verifier::spinoff_prover]
    #[verifier::rlimit(100)]
    proof fn lemma_drop_cross(a: &Self, b: &Self, s: bool, i: int)
        requires
            Self::drop_rel(a, b, s, i),
        ensures
            b.cross_ok(),
    {
        let l = a.ladder(s)[i];
        let hole = Some(l);
        Self::lemma_drop_facts(a, b, s, i);
        a.lemma_levels_distinct(hole);
        let nb = a.bid_levels@.len() as int;
        let cut = if s { nb + i } else { i };
        assert(b.all_levels() =~= a.all_levels().remove(cut));
        assert(a.all_levels()[cut] == l);
        assert(a.cross_ok()) by {
            reveal(OrderBook::wf_except);
        }
        assert(b.all_levels().no_duplicates()) by {
            let aa = a.all_levels();
            let bb = b.all_levels();
            assert forall|y1: int, y2: int| 0 <= y1 < bb.len() && 0 <= y2 < bb.len() && y1 != y2 implies bb[y1] != bb[y2] by {
                let z1 = if y1 < cut { y1 } else { y1 + 1 };
                let z2 = if y2 < cut { y2 } else { y2 + 1 };
                assert(bb[y1] == aa[z1] && bb[y2] == aa[z2]);
            }
        }
        assert forall|y: int| 0 <= y < b.all_levels().len() implies a.all_levels().contains(#[trigger] b.all_levels()[y]) && b.all_levels()[y] != l by {
            let z = if y < cut { y } else { y + 1 };
            assert(b.all_levels()[y] == a.all_levels()[z]);
        }
        Self::lemma_disjoint_sub(a, b);
        assert(b.cross_ok()) by {
            reveal(OrderBook::cross_ok);
            if b.bid_levels@.len() > 0 && b.ask_levels@.len() > 0 {
                assert(b.lv(b.bid_levels@[0]).price <= a.lv(a.bid_levels@[0]).price) by {
                    if !s && i == 0 {
                        assert(b.bid_levels@[0] == a.bid_levels@[1]);
                        a.lemma_sorted(hole, false, 0, 1);
                    } else {
                        assert(b.bid_levels@[0] == a.bid_levels@[0]);
                    }
                }
                assert(b.lv(b.ask_levels@[0]).price >= a.lv(a.ask_levels@[0]).price) by {
                    if s && i == 0 {
                        assert(b.ask_levels@[0] == a.ask_levels@[1]);
                        a.lemma_sorted(hole, true, 0, 1);
                    } else {
                        assert(b.ask_levels@[0] == a.ask_levels@[0]);
                    }
                }
            }
        }
    }

    /// The price index stays consistent after a level is dropped.
    #[verifier::spinoff_prover]
    #[verifier::rlimit(100)]
    proof fn lemma_drop_price_index(a: &Self, b: &Self, s: bool, i: int)
        requires
            Self::drop_rel(a, b, s, i),
        ensures
            b.price_index_ok(),
            a.price_index@[a.lv(a.ladder(s)[i]).price] == a.ladder(s)[i],
    {
        let l = a.ladder(s)[i];
        let hole = Some(l);
        Self::lemma_drop_facts(a, b, s, i);
        a.lemma_levels_distinct(hole);
        let nb = a.bid_levels@.len() as int;
        let cut = if s { nb + i } else { i };
        assert(b.all_levels() =~= a.all_levels().remove(cut));
        assert(a.all_levels()[cut] == l);
        assert forall|y: int| 0 <= y < b.all_levels().len() implies a.all_levels().contains(#[trigger] b.all_levels()[y]) && b.all_levels()[y] != l by {
            let z = if y < cut { y } else { y + 1 };
            assert(b.all_levels()[y] == a.all_levels()[z]);
        }
        assert(a.price_index_ok() && a.order_index_ok()) by {
            reveal(OrderBook::wf_except);
        }
        let pl = a.lv(l).price;
        assert(a.price_index@[pl] == l) by {
            reveal(OrderBook::price_index_ok);
            assert(a.all_levels()[cut] == l);
        }
        assert(b.price_index_ok()) by {
            reveal(OrderBook::price_index_ok);
            assert forall|y: int| 0 <= y < b.all_levels().len() implies b.price_index@.contains_key(b.lv(#[trigger] b.all_levels()[y]).price)
                && b.price_index@[b.lv(b.all_levels()[y]).price] == b.all_levels()[y] by {
                let z = if y < cut { y } else { y + 1 };
                let m = b.all_levels()[y];
                assert(m == a.all_levels()[z]);
                assert(a.price_index@[a.lv(m).price] == m);
                assert((m as int) < MAX_PRICE_LEVELS);
                assert(b.lv(m).price == a.lv(m).price);
            }
            assert forall|pp: u64| #[trigger] b.price_index@.contains_key(pp) implies exists|y: int|
                0 <= y < b.all_levels().len() && b.lv(#[trigger] b.all_levels()[y]).price == pp by {
                let z = choose|z: int| 0 <= z < a.all_levels().len() && a.lv(#[trigger] a.all_levels()[z]).price == pp;
                assert(z != cut);
                let y = if z < cut { z } else { z - 1 };
                assert(b.all_levels()[y] == a.all_levels()[z]);
                assert((a.all_levels()[z] as int) < MAX_PRICE_LEVELS);
                assert(b.lv(b.all_levels()[y]).price == pp);
            }
        }
    }

    /// The order index stays consistent after a level is dropped.
    #[verifier::spinoff_prover]
    #[verifier::rlimit(100)]
    proof fn lemma_drop_order_index(a: &Self, b: &Self, s: bool, i: int)
        requires
            Self::drop_rel(a, b, s, i),
            a.price_index@[a.lv(a.ladder(s)[i]).price] == a.ladder(s)[i],
        ensures
            b.order_index_ok(),
    {
        let l = a.ladder(s)[i];
        assert(a.order_index_ok()) by {
            reveal(OrderBook::wf_except);
        }
        assert(b.order_index_ok()) by {
            reveal(OrderBook::order_index_ok);
            assert forall|id: u64| #[trigger] b.order_index@.contains_key(id) implies {
                let e = b.order_index@[id];
                &&& b.price_index@.contains_key(e.price)
                &&& b.price_index@[e.price] == a.price_index@[e.price]
            } by {
                let e = a.order_index@[id];
                assert(a.order_index@.contains_key(id));
            }
        }
    }

    #[verifier::spinoff_prover]
    #[verifier::rlimit(100)]
    proof fn lemma_drop_level(a: &Self, b: &Self, s: bool, i: int)
        requires
            Self::drop_rel(a, b, s, i),
        ensures
            b.wf(),
            b.state() == Self::after_drop_level(a.state(), s, i),
    {
        let l = a.ladder(s)[i];
        let hole = Some(l);
        let lad = a.ladder(s);
        let lad2 = b.ladder(s);
        let t = !s;
        Self::lemma_drop_facts(a, b, s, i);
        Self::lemma_drop_ladder_own(a, b, s, i);
        Self::lemma_drop_ladder_other(a, b, s, i);
        Self::lemma_drop_cross(a, b, s, i);
        Self::lemma_drop_price_index(a, b, s, i);
        Self::lemma_drop_order_index(a, b, s, i);
        a.lemma_levels_distinct(hole);
        a.lemma_level_facts(hole, s, i);
        assert(b.wf()) by {
            reveal(OrderBook::wf_except);
        }
        assert(b.side_state(s) == a.side_state(s).remove(i)) by {
            reveal(OrderBook::side_state);
            assert forall|j: int| 0 <= j < lad2.len() implies #[trigger] b.side_state(s)[j] == a.side_state(s).remove(i)[j] by {
                let jj = if j < i { j } else { j + 1 };
                assert(lad2[j] == lad[jj]);
                assert(lad[jj] != l);
            }
            assert(b.side_state(s) =~= a.side_state(s).remove(i));
        }
        assert(b.side_state(t) == a.side_state(t)) by {
            assert forall|j: int| 0 <= j < a.ladder(t).len() implies a.level_state(#[trigger] a.ladder(t)[j]) == b.level_state(
                a.ladder(t)[j],
            ) by {
                assert(a.ladder(t)[j] != l);
            }
            Self::lemma_side_state_same(a, b, t);
        }
    }

    fn set_best(&mut self, is_sell: bool, v: u32)
        ensures
            final(self).best_ask == (if is_sell { v } else { old(self).best_ask }),
            final(self).best_bid == (if is_sell { old(self).best_bid } else { v }),
            final(self).symbol == old(self).symbol,
            final(self).price_index == old(self).price_index,
            final(self).level_arena == old(self).level_arena,
            final(self).order_arena == old(self).order_arena,
            final(self).order_index == old(self).order_index,
            final(self).client_order_index == old(self).client_order_index,
            final(self).trade_id_counter == old(self).trade_id_counter,
            final(self).order_id_counter == old(self).order_id_counter,
            final(self).bid_levels == old(self).bid_levels,
            final(self).ask_levels == old(self).ask_levels,
            final(self).queues == old(self).queues,
    {
        if is_sell {
            self.best_ask = v;
        } else {
            self.best_bid = v;
        }
    }

    fn set_level_links(&mut self, l: u32, prev: u32, next: u32)
        requires
            (l as int) < old(self).level_arena.nodes@.len(),
        ensures
            final(self).level_arena.nodes@ == old(self).level_arena.nodes@.update(
                l as int,
                PriceLevelNode { prev_level: prev, next_level: next, ..old(self).lv(l) },
            ),
            final(self).level_arena.free_head == old(self).level_arena.free_head,
            final(self).level_arena.free_list == old(self).level_arena.free_list,
            final(self).best_ask == old(self).best_ask,
            final(self).best_bid == old(self).best_bid,
            final(self).symbol == old(self).symbol,
            final(self).price_index == old(self).price_index,
            final(self).order_arena == old(self).order_arena,
            final(self).order_index == old(self).order_index,
            final(self).client_order_index == old(self).client_order_index,
            final(self).trade_id_counter == old(self).trade_id_counter,
            final(self).order_id_counter == old(self).order_id_counter,
            final(self).bid_levels == old(self).bid_levels,
            final(self).ask_levels == old(self).ask_levels,
            final(self).queues == old(self).queues,
    {
        let mut n = self.level_arena.nodes[l as usize];
        n.prev_level = prev;
        n.next_level = next;
        self.level_arena.nodes.set(l as usize, n);
    }

    /// Links the new, empty level `level_idx` into the ladder of side `is_sell` at its
    /// price's place.
    #[verifier::spinoff_prover]
    #[verifier::rlimit(100)]
    fn link_price_level(&mut self, level_idx: u32, is_sell: bool)
        requires
            old(self).ladder_ok(is_sell),
            (level_idx as int) < MAX_PRICE_LEVELS,
            old(self).level_arena.nodes@.len() == MAX_PRICE_LEVELS,
            old(self).lv(level_idx).active,
            old(self).lv(level_idx).head_order == NULL_IDX,
            old(self).lv(level_idx).tail_order == NULL_IDX,
            old(self).lv(level_idx).total_qty == 0,
            old(self).lv(level_idx).order_count == 0,
            !old(self).ladder(is_sell).contains(level_idx),
            forall|j: int| 0 <= j < old(self).ladder(is_sell).len() ==> old(self).lv(#[trigger] old(self).ladder(is_sell)[j]).price
                != old(self).lv(level_idx).price,
        ensures
            ({
                let lad = old(self).ladder(is_sell);
                let pos = sorted_pos(old(self).side_state(is_sell), old(self).lv(level_idx).price, is_sell);
                &&& 0 <= pos <= lad.len()
                &&& final(self).ladder(is_sell) == lad.insert(pos, level_idx)
                &&& final(self).ladder_ok(is_sell)
                &&& forall|m: u32|
                    (m as int) < MAX_PRICE_LEVELS && m != level_idx && (pos == 0 || m != lad[pos - 1]) && (pos == lad.len()
                        || m != lad[pos]) ==> #[trigger] final(self).lv(m) == old(self).lv(m)
            }),
            forall|m: u32|
                (m as int) < MAX_PRICE_LEVELS ==> same_queue_fields(old(self).lv(m), #[trigger] final(self).lv(m))
                    && final(self).lv(m).active == old(self).lv(m).active && final(self).lv(m).next_free == old(self).lv(m).next_free,
            final(self).level_arena.nodes@.len() == MAX_PRICE_LEVELS,
            final(self).ladder(!is_sell) == old(self).ladder(!is_sell),
            final(self).best(!is_sell) == old(self).best(!is_sell),
            final(self).queues@ == old(self).queues@.insert(level_idx, Seq::empty()),
            final(self).level_arena.free_head == old(self).level_arena.free_head,
            final(self).level_arena.free_list == old(self).level_arena.free_list,
            final(self).symbol == old(self).symbol,
            final(self).price_index == old(self).price_index,
            final(self).order_arena == old(self).order_arena,
            final(self).order_index == old(self).order_index,
            final(self).client_order_index == old(self).client_order_index,
            final(self).trade_id_counter == old(self).trade_id_counter,
            final(self).order_id_counter == old(self).order_id_counter,
    {
        let ghost a = *self;
        let ghost lad = a.ladder(is_sell);
        let ghost side = a.side_state(is_sell);
        let price = self.level_arena.nodes[level_idx as usize].price;
        proof {
            reveal(OrderBook::ladder_ok);
            assert(side.len() == lad.len() && forall|j: int| 0 <= j < lad.len() ==> #[trigger] side[j].price == a.lv(lad[j]).price) by {
                reveal(OrderBook::side_state);
            }
            assert(forall|j: int| 0 <= j < lad.len() ==> ((#[trigger] lad[j]) as int) < MAX_PRICE_LEVELS && a.lv(lad[j]).next_level == (if j + 1 < lad.len() { lad[j + 1] } else { NULL_IDX }));
        }
        let best = if is_sell { self.best_ask } else { self.best_bid };
        let ghost mut pos: int = 0;
        if best == NULL_IDX {
            self.set_best(is_sell, level_idx);
            self.set_level_links(level_idx, NULL_IDX, NULL_IDX);
            proof {
                lemma_sorted_pos(side, price, is_sell, 0);
            }
        } else if is_better(price, self.level_arena.nodes[best as usize].price, is_sell) {
            let old_head = best;
            self.set_level_links(level_idx, NULL_IDX, old_head);
            let oh_next = self.level_arena.nodes[old_head as usize].next_level;
            self.set_level_links(old_head, level_idx, oh_next);
            self.set_best(is_sell, level_idx);
            proof {
                lemma_sorted_pos(side, price, is_sell, 0);
            }
        } else {
            let mut curr = best;
            let ghost mut k: int = 0;
            while self.level_arena.nodes[curr as usize].next_level != NULL_IDX && is_better(
                self.level_arena.nodes[self.level_arena.nodes[curr as usize].next_level as usize].price,
                price,
                is_sell,
            )
                invariant
                    *self == a,
                    0 <= k < lad.len(),
                    curr == lad[k],
                    price == a.lv(level_idx).price,
                    a.ladder_ok(is_sell),
                    a.level_arena.nodes@.len() == MAX_PRICE_LEVELS,
                    lad == a.ladder(is_sell),
                    forall|j: int| 0 <= j <= k ==> better(#[trigger] a.lv(lad[j]).price, price, is_sell),
                    forall|j: int| 0 <= j < lad.len() ==> ((#[trigger] lad[j]) as int) < MAX_PRICE_LEVELS && a.lv(lad[j]).next_level == (if j + 1 < lad.len() { lad[j + 1] } else { NULL_IDX }),
                decreases lad.len() - k,
            {
                proof {
                    reveal(OrderBook::ladder_ok);
                }
                curr = self.level_arena.nodes[curr as usize].next_level;
                proof {
                    k = k + 1;
                }
            }
            proof {
                reveal(OrderBook::ladder_ok);
                pos = k + 1;
            }
            let next = self.level_arena.nodes[curr as usize].next_level;
            let c_prev = self.level_arena.nodes[curr as usize].prev_level;
            self.set_level_links(curr, c_prev, level_idx);
            self.set_level_links(level_idx, curr, next);
            if next != NULL_IDX {
                let n_next = self.level_arena.nodes[next as usize].next_level;
                self.set_level_links(next, level_idx, n_next);
            }
            proof {
                assert forall|j: int| 0 <= j < pos implies better(#[trigger] side[j].price, price, is_sell) by {}
                if pos < lad.len() {
                    assert(!better(a.lv(lad[pos]).price, price, is_sell));
                    assert(a.lv(lad[pos]).price != price);
                }
                lemma_sorted_pos(side, price, is_sell, pos);
            }
        }
        proof {
            let lad2 = lad.insert(pos, level_idx);
            if is_sell {
                self.ask_levels@ = lad2;
            } else {
                self.bid_levels@ = lad2;
            }
            self.queues@ = self.queues@.insert(level_idx, Seq::empty());
            Self::lemma_link(&a, self, is_sell, level_idx, pos);
        }
    }

    #[verifier::spinoff_prover]
    #[verifier::rlimit(100)]
    proof fn lemma_link(a: &Self, b: &Self, s: bool, l: u32, pos: int)
        requires
            a.ladder_ok(s),
            (l as int) < MAX_PRICE_LEVELS,
            a.level_arena.nodes@.len() == MAX_PRICE_LEVELS,
            b.level_arena.nodes@.len() == MAX_PRICE_LEVELS,
            a.lv(l).active,
            a.lv(l).head_order == NULL_IDX,
            a.lv(l).tail_order == NULL_IDX,
            a.lv(l).total_qty == 0,
            a.lv(l).order_count == 0,
            !a.ladder(s).contains(l),
            0 <= pos <= a.ladder(s).len(),
            forall|j: int| 0 <= j < pos ==> better(#[trigger] a.lv(a.ladder(s)[j]).price, a.lv(l).price, s),
            pos < a.ladder(s).len() ==> better(a.lv(l).price, a.lv(a.ladder(s)[pos]).price, s),
            ({
                let lad = a.ladder(s);
                &&& b.lv(l) == PriceLevelNode {
                    prev_level: if pos == 0 { NULL_IDX } else { lad[pos - 1] },
                    next_level: if pos == lad.len() { NULL_IDX } else { lad[pos] },
                    ..a.lv(l)
                }
                &&& (pos > 0 ==> b.lv(lad[pos - 1]) == PriceLevelNode { next_level: l, ..a.lv(lad[pos - 1]) })
                &&& (pos < lad.len() ==> b.lv(lad[pos]) == PriceLevelNode { prev_level: l, ..a.lv(lad[pos]) })
                &&& forall|m: u32|
                    (m as int) < MAX_PRICE_LEVELS && m != l && (pos == 0 || m != lad[pos - 1]) && (pos == lad.len() || m
                        != lad[pos]) ==> #[trigger] b.lv(m) == a.lv(m)
                &&& b.best(s) == (if pos == 0 { l } else { a.best(s) })
                &&& b.ladder(s) == lad.insert(pos, l)
            }),
            b.queues@ == a.queues@.insert(l, Seq::empty()),
            b.order_arena == a.order_arena,
        ensures
            b.ladder_ok(s),
            forall|m: u32|
                (m as int) < MAX_PRICE_LEVELS ==> same_queue_fields(a.lv(m), #[trigger] b.lv(m)) && b.lv(m).active
                    == a.lv(m).active && b.lv(m).next_free == a.lv(m).next_free,
    {
        let lad = a.ladder(s);
        let lad2 = b.ladder(s);
        reveal(OrderBook::ladder_ok);
        assert forall|m: u32| (m as int) < MAX_PRICE_LEVELS implies same_queue_fields(a.lv(m), #[trigger] b.lv(m)) && b.lv(m).active
            == a.lv(m).active && b.lv(m).next_free == a.lv(m).next_free by {
            if m == l {
            } else if pos > 0 && m == lad[pos - 1] {
            } else if pos < lad.len() && m == lad[pos] {
            }
        }
        assert forall|j: int| 0 <= j < lad.len() implies #[trigger] lad[j] != l by {
            if lad[j] == l {
                assert(lad.contains(l));
            }
        }
        assert forall|j: int| 0 <= j < lad2.len() implies #[trigger] lad2[j] == (if j < pos { lad[j] } else if j == pos { l } else { lad[j - 1] }) by {}
        assert forall|j: int| 0 <= j < lad2.len() implies b.queue_ok(#[trigger] lad2[j], s) by {
            if j == pos {
                reveal(OrderBook::queue_ok);
                assert(b.queues@[l] =~= Seq::<u32>::empty());
                assert(b.level_state(l).queue =~= Seq::<Resting>::empty());
            } else {
                let jj = if j < pos { j } else { j - 1 };
                assert(lad2[j] == lad[jj]);
                assert(a.queue_ok(lad[jj], s));
                assert(lad[jj] != l);
                Self::lemma_queue_ok_frame(a, b, lad[jj], s);
            }
        }
        assert forall|j: int| 0 <= j < lad2.len() implies {
            &&& ((#[trigger] lad2[j]) as int) < MAX_PRICE_LEVELS
            &&& b.lv(lad2[j]).active
            &&& b.queues@.contains_key(lad2[j])
            &&& b.lv(lad2[j]).prev_level == (if j == 0 { NULL_IDX } else { lad2[j - 1] })
            &&& b.lv(lad2[j]).next_level == (if j + 1 < lad2.len() { lad2[j + 1] } else { NULL_IDX })
        } by {
            if j == pos {
            } else {
                let jj = if j < pos { j } else { j - 1 };
                assert(lad2[j] == lad[jj]);
                if jj > 0 {
                    assert(lad[jj - 1] != lad[jj]);
                }
                if jj + 1 < lad.len() {
                    assert(lad[jj + 1] != lad[jj]);
                }
                if pos > 0 && jj != pos - 1 {
                    assert(lad[jj] != lad[pos - 1]);
                }
                if pos < lad.len() && jj != pos {
                    assert(lad[jj] != lad[pos]);
                }
            }
        }
        assert forall|j1: int, j2: int| 0 <= j1 < j2 < lad2.len() implies better(
            b.lv(#[trigger] lad2[j1]).price,
            b.lv(#[trigger] lad2[j2]).price,
            s,
        ) by {
            if j1 == pos {
                let k2 = j2 - 1;
                assert(lad2[j2] == lad[k2]);
                if k2 > pos {
                    assert(better(a.lv(lad[pos]).price, a.lv(lad[k2]).price, s));
                }
            } else if j2 == pos {
                assert(lad2[j1] == lad[j1]);
            } else {
                let k1 = if j1 < pos { j1 } else { j1 - 1 };
                let k2 = if j2 < pos { j2 } else { j2 - 1 };
                assert(lad2[j1] == lad[k1] && lad2[j2] == lad[k2]);
                assert(better(a.lv(lad[k1]).price, a.lv(lad[k2]).price, s));
            }
        }
    }

    /// Nodes in the queues of ladder levels are active.
    proof fn lemma_queued_active(&self, hole: Option<u32>, s: bool, i: int, k: int)
        requires
            self.wf_except(hole),
            0 <= i < self.ladder(s).len(),
            0 <= k < self.queues@[self.ladder(s)[i]].len(),
        ensures
            self.nd(self.queues@[self.ladder(s)[i]][k]).active,
            (self.queues@[self.ladder(s)[i]][k] as int) < MAX_ARENA_ORDERS,
    {
        reveal(OrderBook::wf_except);
        reveal(OrderBook::ladder_ok);
        assert(self.queue_ok(self.ladder(s)[i], s));
        reveal(OrderBook::queue_ok);
    }

    /// Changing only inactive order nodes keeps the book well-formed and its meaning.
    #[verifier::spinoff_prover]
    #[verifier::rlimit(100)]
    proof fn lemma_order_nodes_frame(a: &Self, b: &Self, hole: Option<u32>, cn: Set<u32>)
        requires
            a.wf_except(hole),
            b.order_arena.wf(),
            b.order_arena.capacity == MAX_ARENA_ORDERS,
            forall|n: u32| !cn.contains(n) && (n as int) < MAX_ARENA_ORDERS ==> #[trigger] b.nd(n) == a.nd(n),
            forall|n: u32| #[trigger] cn.contains(n) ==> !a.nd(n).active,
            b.level_arena == a.level_arena,
            b.price_index == a.price_index,
            b.order_index == a.order_index,
            b.client_order_index == a.client_order_index,
            b.best_bid == a.best_bid,
            b.best_ask == a.best_ask,
            b.bid_levels == a.bid_levels,
            b.ask_levels == a.ask_levels,
            b.queues == a.queues,
        ensures
            b.wf_except(hole),
            b.side_state(false) == a.side_state(false),
            b.side_state(true) == a.side_state(true),
    {
        assert forall|ss: bool, i: int| 0 <= i < a.ladder(ss).len() implies b.queue_ok(#[trigger] a.ladder(ss)[i], ss)
            && a.level_state(a.ladder(ss)[i]) == b.level_state(a.ladder(ss)[i]) by {
            let l = a.ladder(ss)[i];
            assert(a.queue_ok(l, ss)) by {
                reveal(OrderBook::wf_except);
                reveal(OrderBook::ladder_ok);
            }
            assert forall|k: int| 0 <= k < a.queues@[l].len() implies a.nd(#[trigger] a.queues@[l][k]) == b.nd(a.queues@[l][k]) by {
                a.lemma_queued_active(hole, ss, i, k);
            }
            Self::lemma_queue_ok_frame(a, b, l, ss);
        }
        assert forall|ss: bool, i: int| 0 <= i < a.ladder(ss).len() implies {
            let l = #[trigger] a.ladder(ss)[i];
            &&& a.lv(l).active == b.lv(l).active
            &&& a.lv(l).prev_level == b.lv(l).prev_level
            &&& a.lv(l).next_level == b.lv(l).next_level
            &&& a.lv(l).price == b.lv(l).price
            &&& b.queues@.contains_key(l)
            &&& b.queue_ok(l, ss)
        } by {
            reveal(OrderBook::wf_except);
            reveal(OrderBook::ladder_ok);
        }
        assert(a.ladder_ok(false) && a.ladder_ok(true)) by {
            reveal(OrderBook::wf_except);
        }
        Self::lemma_ladder_keep(a, b, false);
        Self::lemma_ladder_keep(a, b, true);
        Self::lemma_side_state_same(a, b, false);
        Self::lemma_side_state_same(a, b, true);
        assert(b.levels_nonempty(hole) == a.levels_nonempty(hole)) by {
            reveal(OrderBook::levels_nonempty);
        }
        assert(b.cross_ok() == a.cross_ok()) by {
            reveal(OrderBook::cross_ok);
        }
        assert(b.price_index_ok() == a.price_index_ok()) by {
            reveal(OrderBook::price_index_ok);
            assert(a.all_levels() == b.all_levels());
            assert forall|l: u32| #[trigger] a.lv(l) == b.lv(l) by {}
            if a.price_index_ok() {
                assert forall|p: u64| #[trigger] b.price_index@.contains_key(p) implies exists|x: int|
                    0 <= x < b.all_levels().len() && b.lv(#[trigger] b.all_levels()[x]).price == p by {
                    let x = choose|x: int| 0 <= x < a.all_levels().len() && a.lv(#[trigger] a.all_levels()[x]).price == p;
                    assert(b.lv(b.all_levels()[x]).price == p);
                }
            }
        }
        assert(b.order_index_ok()) by {
            reveal(OrderBook::order_index_ok);
            assert(a.order_index_ok()) by {
                reveal(OrderBook::wf_except);
            }
            assert forall|id: u64| #[trigger] b.order_index@.contains_key(id) implies b.nd(b.order_index@[id].node_idx) == a.nd(
                a.order_index@[id].node_idx,
            ) by {
                let e = a.order_index@[id];
                assert(a.order_index@.contains_key(id));
                let l = a.price_index@[e.price];
                assert(a.queues@[l].contains(e.node_idx));
                let k = choose|k: int| 0 <= k < a.queues@[l].len() && a.queues@[l][k] == e.node_idx;
                // `l` is a ladder level, so its queue holds active nodes only.
                assert(a.price_index_ok()) by {
                    reveal(OrderBook::wf_except);
                }
                reveal(OrderBook::price_index_ok);
                assert(exists|x: int| 0 <= x < a.all_levels().len() && a.lv(#[trigger] a.all_levels()[x]).price == e.price);
                let x = choose|x: int| 0 <= x < a.all_levels().len() && a.lv(#[trigger] a.all_levels()[x]).price == e.price;
                assert(a.all_levels()[x] == l);
                let nb = a.bid_levels@.len() as int;
                if x < nb {
                    assert(a.ladder(false)[x] == l);
                    a.lemma_queued_active(hole, false, x, k);
                } else {
                    assert(a.ladder(true)[x - nb] == l);
                    a.lemma_queued_active(hole, true, x - nb, k);
                }
                if cn.contains(e.node_idx) {
                    assert(!a.nd(e.node_idx).active);
                }
            }
        }
        reveal(OrderBook::wf_except);
    }

    /// Ladder levels are active.
    proof fn lemma_ladder_active(&self, hole: Option<u32>, s: bool, i: int)
        requires
            self.wf_except(hole),
            0 <= i < self.ladder(s).len(),
        ensures
            self.lv(self.ladder(s)[i]).active,
            (self.ladder(s)[i] as int) < MAX_PRICE_LEVELS,
    {
        reveal(OrderBook::wf_except);
        reveal(OrderBook::ladder_ok);
    }

    /// Changing only inactive level nodes keeps the book well-formed and its meaning.
    #[verifier::spinoff_prover]
    #[verifier::rlimit(100)]
    proof fn lemma_level_nodes_frame(a: &Self, b: &Self, hole: Option<u32>, cl: Set<u32>)
        requires
            a.wf_except(hole),
            b.level_arena.wf(),
            b.level_arena.nodes@.len() == MAX_PRICE_LEVELS,
            forall|l: u32| !cl.contains(l) && (l as int) < MAX_PRICE_LEVELS ==> #[trigger] b.lv(l) == a.lv(l),
            forall|l: u32| #[trigger] cl.contains(l) ==> !a.lv(l).active,
            b.order_arena == a.order_arena,
            b.price_index == a.price_index,
            b.order_index == a.order_index,
            b.client_order_index == a.client_order_index,
            b.best_bid == a.best_bid,
            b.best_ask == a.best_ask,
            b.bid_levels == a.bid_levels,
            b.ask_levels == a.ask_levels,
            b.queues == a.queues,
        ensures
            b.wf_except(hole),
            b.side_state(false) == a.side_state(false),
            b.side_state(true) == a.side_state(true),
    {
        assert forall|ss: bool, i: int| 0 <= i < a.ladder(ss).len() implies #[trigger] b.lv(a.ladder(ss)[i]) == a.lv(a.ladder(ss)[i]) by {
            a.lemma_ladder_active(hole, ss, i);
        }
        assert forall|ss: bool, i: int| 0 <= i < a.ladder(ss).len() implies b.queue_ok(#[trigger] a.ladder(ss)[i], ss)
            && a.level_state(a.ladder(ss)[i]) == b.level_state(a.ladder(ss)[i]) by {
            let l = a.ladder(ss)[i];
            assert(a.queue_ok(l, ss)) by {
                reveal(OrderBook::wf_except);
                reveal(OrderBook::ladder_ok);
            }
            assert(b.lv(l) == a.lv(l));
            Self::lemma_queue_ok_frame(a, b, l, ss);
        }
        assert forall|ss: bool, i: int| 0 <= i < a.ladder(ss).len() implies {
            let l = #[trigger] a.ladder(ss)[i];
            &&& a.lv(l).active == b.lv(l).active
            &&& a.lv(l).prev_level == b.lv(l).prev_level
            &&& a.lv(l).next_level == b.lv(l).next_level
            &&& a.lv(l).price == b.lv(l).price
            &&& b.queues@.contains_key(l)
            &&& b.queue_ok(l, ss)
        } by {
            reveal(OrderBook::wf_except);
            reveal(OrderBook::ladder_ok);
            assert(b.lv(a.ladder(ss)[i]) == a.lv(a.ladder(ss)[i]));
        }
        assert(a.ladder_ok(false) && a.ladder_ok(true)) by {
            reveal(OrderBook::wf_except);
        }
        Self::lemma_ladder_keep(a, b, false);
        Self::lemma_ladder_keep(a, b, true);
        Self::lemma_side_state_same(a, b, false);
        Self::lemma_side_state_same(a, b, true);
        a.lemma_levels_distinct(hole);
        let nb = a.bid_levels@.len() as int;
        assert forall|x: int| 0 <= x < a.all_levels().len() implies #[trigger] b.lv(a.all_levels()[x]) == a.lv(a.all_levels()[x]) by {
            if x < nb {
                assert(a.all_levels()[x] == a.ladder(false)[x]);
            } else {
                assert(a.all_levels()[x] == a.ladder(true)[x - nb]);
            }
        }
        assert(b.levels_nonempty(hole) == a.levels_nonempty(hole)) by {
            reveal(OrderBook::levels_nonempty);
        }
        assert(b.cross_ok() == a.cross_ok()) by {
            reveal(OrderBook::cross_ok);
            if a.bid_levels@.len() > 0 && a.ask_levels@.len() > 0 {
                assert(a.all_levels()[0] == a.bid_levels@[0]);
                assert(a.all_levels()[nb] == a.ask_levels@[0]);
            }
        }
        assert(b.price_index_ok()) by {
            reveal(OrderBook::price_index_ok);
            assert(a.price_index_ok()) by {
                reveal(OrderBook::wf_except);
            }
            assert(a.all_levels() == b.all_levels());
            assert forall|p: u64| #[trigger] b.price_index@.contains_key(p) implies exists|x: int|
                0 <= x < b.all_levels().len() && b.lv(#[trigger] b.all_levels()[x]).price == p by {
                let x = choose|x: int| 0 <= x < a.all_levels().len() && a.lv(#[trigger] a.all_levels()[x]).price == p;
                assert(b.lv(b.all_levels()[x]).price == p);
            }
        }
        assert(b.order_index_ok() == a.order_index_ok()) by {
            reveal(OrderBook::order_index_ok);
        }
        reveal(OrderBook::wf_except);
    }

    /// `b` is `a` after a new empty level `l` was linked at position `pos` of side `s`
    /// and its price entered the price index.
    #[verifier::opaque]
    spec fn link_rel(a: &Self, b: &Self, s: bool, l: u32, pos: int) -> bool {
        &&& a.wf()
        &&& !a.all_levels().contains(l)
        &&& (l as int) < MAX_PRICE_LEVELS
        &&& !a.price_index@.contains_key(a.lv(l).price)
        &&& (a.ladder(!s).len() > 0 ==> better(a.lv(a.ladder(!s)[0]).price, a.lv(l).price, s))
        &&& 0 <= pos <= a.ladder(s).len()
        &&& b.ladder(s) == a.ladder(s).insert(pos, l)
        &&& b.ladder_ok(s)
        &&& (forall|m: u32|
            (m as int) < MAX_PRICE_LEVELS && m != l && (pos == 0 || m != a.ladder(s)[pos - 1]) && (pos == a.ladder(
                s,
            ).len() || m != a.ladder(s)[pos]) ==> #[trigger] b.lv(m) == a.lv(m))
        &&& (forall|m: u32|
            (m as int) < MAX_PRICE_LEVELS ==> same_queue_fields(a.lv(m), #[trigger] b.lv(m)) && b.lv(m).active
                == a.lv(m).active && b.lv(m).next_free == a.lv(m).next_free)
        &&& b.level_arena.nodes@.len() == MAX_PRICE_LEVELS
        &&& b.ladder(!s) == a.ladder(!s)
        &&& b.best(!s) == a.best(!s)
        &&& b.queues@ == a.queues@.insert(l, Seq::empty())
        &&& b.level_arena.free_head == a.level_arena.free_head
        &&& b.level_arena.free_list == a.level_arena.free_list
        &&& b.price_index@ == a.price_index@.insert(a.lv(l).price, l)
        &&& b.price_index.wf()
        &&& b.order_arena == a.order_arena
        &&& b.order_index == a.order_index
        &&& b.client_order_index == a.client_order_index
    }

    #[verifier::spinoff_prover]
    #[verifier::rlimit(100)]
    proof fn lemma_link_other_side(a: &Self, b: &Self, s: bool, l: u32, pos: int)
        requires
            Self::link_rel(a, b, s, l, pos),
        ensures
            b.ladder_ok(!s),
            b.side_state(!s) == a.side_state(!s),
    {
        reveal(OrderBook::link_rel);
        let t = !s;
        let lad = a.ladder(s);
        let lad2 = b.ladder(s);
        let price = a.lv(l).price;
        a.lemma_levels_distinct(None);
        assert forall|j: int| 0 <= j < lad.len() implies #[trigger] lad[j] != l by {}
        assert forall|j: int| 0 <= j < a.ladder(t).len() implies #[trigger] a.ladder(t)[j] != l by {}
        assert(a.ladder_ok(t)) by {
            reveal(OrderBook::wf_except);
        }
        // The other side is untouched.
        assert forall|j: int| 0 <= j < a.ladder(t).len() implies {
            let m = #[trigger] a.ladder(t)[j];
            &&& a.lv(m).active == b.lv(m).active
            &&& a.lv(m).prev_level == b.lv(m).prev_level
            &&& a.lv(m).next_level == b.lv(m).next_level
            &&& a.lv(m).price == b.lv(m).price
            &&& b.queues@.contains_key(m)
            &&& b.queue_ok(m, t)
            &&& a.level_state(m) == b.level_state(m)
        } by {
            let m = a.ladder(t)[j];
            a.lemma_ladder_active(None, t, j);
            if pos > 0 {
                assert(m != lad[pos - 1]);
            }
            if pos < lad.len() {
                assert(m != lad[pos]);
            }
            assert(a.queue_ok(m, t)) by {
                reveal(OrderBook::ladder_ok);
            }
            assert(b.queues@[m] == a.queues@[m]);
            Self::lemma_queue_ok_frame(a, b, m, t);
            reveal(OrderBook::ladder_ok);
        }
        Self::lemma_ladder_keep(a, b, t);
        Self::lemma_side_state_same(a, b, t);
    }

    #[verifier::spinoff_prover]
    #[verifier::rlimit(100)]
    proof fn lemma_link_own_side(a: &Self, b: &Self, s: bool, l: u32, pos: int)
        requires
            Self::link_rel(a, b, s, l, pos),
        ensures
            b.side_state(s) == a.side_state(s).insert(pos, LevelState { idx: l, price: a.lv(l).price, queue: Seq::empty() }),
            b.levels_nonempty(Some(l)),
    {
        reveal(OrderBook::link_rel);
        let t = !s;
        let lad = a.ladder(s);
        let lad2 = b.ladder(s);
        let price = a.lv(l).price;
        a.lemma_levels_distinct(None);
        assert forall|j: int| 0 <= j < lad.len() implies #[trigger] lad[j] != l by {}
        assert forall|j: int| 0 <= j < a.ladder(t).len() implies #[trigger] a.ladder(t)[j] != l by {}
        assert(a.levels_nonempty(None)) by {
            reveal(OrderBook::wf_except);
        }
        // This side: the old levels keep their meaning, the new one is empty.
        assert forall|j: int| 0 <= j < lad.len() implies a.level_state(#[trigger] lad[j]) == b.level_state(lad[j]) by {
            a.lemma_ladder_active(None, s, j);
            assert(b.queues@[lad[j]] == a.queues@[lad[j]]);
            Self::lemma_level_state_frame(a, b, lad[j]);
        }
        assert(b.level_state(l) == LevelState { idx: l, price, queue: Seq::empty() }) by {
            assert(b.level_state(l).queue =~= Seq::<Resting>::empty());
        }
        assert(b.side_state(s) == a.side_state(s).insert(pos, LevelState { idx: l, price, queue: Seq::empty() })) by {
            reveal(OrderBook::side_state);
            assert forall|j: int| 0 <= j < lad2.len() implies #[trigger] b.side_state(s)[j] == a.side_state(s).insert(
                pos,
                LevelState { idx: l, price, queue: Seq::empty() },
            )[j] by {
                if j < pos {
                    assert(lad2[j] == lad[j]);
                } else if j > pos {
                    assert(lad2[j] == lad[j - 1]);
                }
            }
            assert(b.side_state(s) =~= a.side_state(s).insert(pos, LevelState { idx: l, price, queue: Seq::empty() }));
        }
        // Every level but the new one is non-empty.
        assert(b.levels_nonempty(Some(l))) by {
            reveal(OrderBook::levels_nonempty);
            assert forall|j: int| 0 <= j < lad2.len() && Some(l) != Some(lad2[j]) implies b.queues@[#[trigger] lad2[j]].len() > 0 by {
                let jj = if j < pos { j } else { j - 1 };
                assert(lad2[j] == lad[jj]);
                if s {
                    assert(a.ask_levels@[jj] == lad[jj]);
                } else {
                    assert(a.bid_levels@[jj] == lad[jj]);
                }
            }
        }
    }

    #[verifier::spinoff_prover]
    #[verifier::rlimit(100)]
    proof fn lemma_link_cross(a: &Self, b: &Self, s: bool, l: u32, pos: int)
        requires
            Self::link_rel(a, b, s, l, pos),
        ensures
            b.cross_ok(),
    {
        reveal(OrderBook::link_rel);
        let t = !s;
        let lad = a.ladder(s);
        let lad2 = b.ladder(s);
        let price = a.lv(l).price;
        a.lemma_levels_distinct(None);
        assert forall|j: int| 0 <= j < lad.len() implies #[trigger] lad[j] != l by {}
        assert forall|j: int| 0 <= j < a.ladder(t).len() implies #[trigger] a.ladder(t)[j] != l by {}
        assert(a.cross_ok()) by {
            reveal(OrderBook::wf_except);
        }
        // All levels gain exactly `l`.
        let nb = a.bid_levels@.len() as int;
        let cut = if s { nb + pos } else { pos };
        assert(b.all_levels() =~= a.all_levels().insert(cut, l));
        assert forall|y: int| 0 <= y < b.all_levels().len() && y != cut implies #[trigger] b.all_levels()[y] == a.all_levels()[if y < cut { y } else { y - 1 }] by {}
        assert forall|y: int| 0 <= y < b.all_levels().len() && y != cut implies #[trigger] b.lv(b.all_levels()[y]) == a.lv(b.all_levels()[y]) || same_queue_fields(a.lv(b.all_levels()[y]), b.lv(b.all_levels()[y])) by {}
        assert(b.cross_ok()) by {
            reveal(OrderBook::cross_ok);
            let aa = a.all_levels();
            let bb = b.all_levels();
            assert forall|y1: int, y2: int| 0 <= y1 < bb.len() && 0 <= y2 < bb.len() && y1 != y2 implies bb[y1] != bb[y2] by {
                if y1 != cut && y2 != cut {
                    let z1 = if y1 < cut { y1 } else { y1 - 1 };
                    let z2 = if y2 < cut { y2 } else { y2 - 1 };
                    assert(bb[y1] == aa[z1] && bb[y2] == aa[z2]);
                } else if y1 == cut {
                    let z2 = if y2 < cut { y2 } else { y2 - 1 };
                    assert(bb[y2] == aa[z2]);
                    assert(aa.contains(aa[z2]));
                } else {
                    let z1 = if y1 < cut { y1 } else { y1 - 1 };
                    assert(bb[y1] == aa[z1]);
                    assert(aa.contains(aa[z1]));
                }
            }
            assert forall|x: int, y: int, kx: int, ky: int|
                0 <= x < bb.len() && 0 <= y < bb.len() && x != y && 0 <= kx < b.queues@[bb[x]].len() && 0 <= ky
                    < b.queues@[bb[y]].len() implies #[trigger] b.queues@[bb[x]][kx] != #[trigger] b.queues@[bb[y]][ky] by {
                assert(b.queues@[l].len() == 0);
                assert(x != cut && y != cut);
                let zx = if x < cut { x } else { x - 1 };
                let zy = if y < cut { y } else { y - 1 };
                assert(bb[x] == aa[zx] && bb[y] == aa[zy]);
                assert(aa[zx] != l && aa[zy] != l) by {
                    assert(aa.contains(aa[zx]) && aa.contains(aa[zy]));
                }
                assert(b.queues@[bb[x]] == a.queues@[aa[zx]]);
                assert(b.queues@[bb[y]] == a.queues@[aa[zy]]);
                assert(a.queues@[aa[zx]][kx] != a.queues@[aa[zy]][ky]);
            }
            if b.bid_levels@.len() > 0 && b.ask_levels@.len() > 0 {
                if pos == 0 {
                    if s {
                        assert(b.ask_levels@[0] == l);
                        assert(b.bid_levels@[0] == a.bid_levels@[0]);
                        a.lemma_ladder_active(None, false, 0);
                    } else {
                        assert(b.bid_levels@[0] == l);
                        assert(b.ask_levels@[0] == a.ask_levels@[0]);
                        a.lemma_ladder_active(None, true, 0);
                    }
                } else {
                    assert(b.bid_levels@[0] == a.bid_levels@[0]);
                    assert(b.ask_levels@[0] == a.ask_levels@[0]);
                    a.lemma_ladder_active(None, false, 0);
                    a.lemma_ladder_active(None, true, 0);
                }
            }
        }
    }

    #[verifier::spinoff_prover]
    #[verifier::rlimit(100)]
    proof fn lemma_link_indices(a: &Self, b: &Self, s: bool, l: u32, pos: int)
        requires
            Self::link_rel(a, b, s, l, pos),
        ensures
            b.price_index_ok(),
            b.order_index_ok(),
    {
        reveal(OrderBook::link_rel);
        let t = !s;
        let lad = a.ladder(s);
        let lad2 = b.ladder(s);
        let price = a.lv(l).price;
        a.lemma_levels_distinct(None);
        assert forall|j: int| 0 <= j < lad.len() implies #[trigger] lad[j] != l by {}
        assert forall|j: int| 0 <= j < a.ladder(t).len() implies #[trigger] a.ladder(t)[j] != l by {}
        assert(a.price_index_ok() && a.order_index_ok()) by {
            reveal(OrderBook::wf_except);
        }
        // All levels gain exactly `l`.
        let nb = a.bid_levels@.len() as int;
        let cut = if s { nb + pos } else { pos };
        assert(b.all_levels() =~= a.all_levels().insert(cut, l));
        assert forall|y: int| 0 <= y < b.all_levels().len() && y != cut implies #[trigger] b.all_levels()[y] == a.all_levels()[if y < cut { y } else { y - 1 }] by {}
        assert forall|y: int| 0 <= y < b.all_levels().len() && y != cut implies #[trigger] b.lv(b.all_levels()[y]) == a.lv(b.all_levels()[y]) || same_queue_fields(a.lv(b.all_levels()[y]), b.lv(b.all_levels()[y])) by {}
        assert(b.price_index_ok()) by {
            reveal(OrderBook::price_index_ok);
            let aa = a.all_levels();
            let bb = b.all_levels();
            assert forall|y: int| 0 <= y < bb.len() implies b.price_index@.contains_key(b.lv(#[trigger] bb[y]).price)
                && b.price_index@[b.lv(bb[y]).price] == bb[y] by {
                if y != cut {
                    let z = if y < cut { y } else { y - 1 };
                    assert(bb[y] == aa[z]);
                    assert((aa[z] as int) < MAX_PRICE_LEVELS);
                    assert(a.price_index@[a.lv(aa[z]).price] == aa[z]);
                }
            }
            assert forall|pp: u64| #[trigger] b.price_index@.contains_key(pp) implies exists|y: int|
                0 <= y < bb.len() && b.lv(#[trigger] bb[y]).price == pp by {
                if pp == price {
                    assert(bb[cut] == l);
                } else {
                    let z = choose|z: int| 0 <= z < aa.len() && a.lv(#[trigger] aa[z]).price == pp;
                    let y = if z < cut { z } else { z + 1 };
                    assert(bb[y] == aa[z]);
                    assert((aa[z] as int) < MAX_PRICE_LEVELS);
                    assert(b.lv(bb[y]).price == pp);
                }
            }
        }
        assert(b.order_index_ok()) by {
            reveal(OrderBook::order_index_ok);
            assert forall|id: u64| #[trigger] b.order_index@.contains_key(id) implies {
                let e = b.order_index@[id];
                &&& b.price_index@.contains_key(e.price)
                &&& b.price_index@[e.price] == a.price_index@[e.price]
                &&& b.queues@[b.price_index@[e.price]] == a.queues@[a.price_index@[e.price]]
                &&& b.queues@.contains_key(b.price_index@[e.price])
            } by {
                let e = a.order_index@[id];
                assert(a.order_index@.contains_key(id));
                assert(e.price != price);
                let lp = a.price_index@[e.price];
                reveal(OrderBook::price_index_ok);
                let z = choose|z: int| 0 <= z < a.all_levels().len() && a.lv(#[trigger] a.all_levels()[z]).price == e.price;
                assert(a.all_levels()[z] == lp);
                assert(a.all_levels().contains(lp));
                assert(lp != l);
            }
        }
    }

    /// Linking a new, empty level at a fresh price that does not cross the other side
    /// leaves the book well-formed but for that empty level.
    #[verifier::spinoff_prover]
    #[verifier::rlimit(100)]
    proof fn lemma_link_wf(a: &Self, b: &Self, s: bool, l: u32, pos: int)
        requires
            Self::link_rel(a, b, s, l, pos),
        ensures
            b.wf_except(Some(l)),
            b.side_state(s) == a.side_state(s).insert(pos, LevelState { idx: l, price: a.lv(l).price, queue: Seq::empty() }),
            b.side_state(!s) == a.side_state(!s),
    {
        Self::lemma_link_other_side(a, b, s, l, pos);
        Self::lemma_link_own_side(a, b, s, l, pos);
        Self::lemma_link_cross(a, b, s, l, pos);
        Self::lemma_link_indices(a, b, s, l, pos);
        assert(b.level_arena.wf() && b.order_arena.wf() && b.order_index.wf() && b.client_order_index.wf()
            && b.order_arena.capacity == MAX_ARENA_ORDERS && b.price_index.wf() && b.level_arena.nodes@.len() == MAX_PRICE_LEVELS
            && b.ladder_ok(s)) by {
            reveal(OrderBook::link_rel);
            assert(a.level_arena.wf() && a.order_arena.wf() && a.order_index.wf() && a.client_order_index.wf()
                && a.order_arena.capacity == MAX_ARENA_ORDERS && a.level_arena.nodes@.len() == MAX_PRICE_LEVELS) by {
                reveal(OrderBook::wf_except);
            }
            assert forall|j: int| 0 <= j < a.level_arena.nodes@.len() implies (#[trigger] b.level_arena.nodes@[j]).active
                == a.level_arena.nodes@[j].active && b.level_arena.nodes@[j].next_free == a.level_arena.nodes@[j].next_free by {
                let m = j as u32;
                assert(m as int == j);
                assert((m as int) < MAX_PRICE_LEVELS);
                assert(b.lv(m).active == a.lv(m).active);
            }
            lemma_level_arena_same_links(&a.level_arena, &b.level_arena);
        }
        b.lemma_wf_intro(Some(l));
    }

    /// `b` is `a` after the allocated, unqueued node `node` was pushed onto level `i` of side `s`.
    #[verifier::opaque]
    spec fn push_rel(a: &Self, b: &Self, s: bool, i: int, node: u32) -> bool {
        let l = a.ladder(s)[i];
        let tail = a.lv(l).tail_order;
        &&& 0 <= i < a.ladder(s).len()
        &&& (node as int) < MAX_ARENA_ORDERS
        &&& a.nd(node).active
        &&& forall|ss: bool, j: int| 0 <= j < a.ladder(ss).len() ==> !a.queues@[#[trigger] a.ladder(ss)[j]].contains(node)
        &&& a.nd(node).order.price == a.lv(l).price
        &&& (a.nd(node).order.side == 1) == s
        &&& a.nd(node).order.qty > 0
        &&& b.order_arena.nodes@ == nodes_after_push(a.order_arena.nodes@, tail, node)
        &&& b.order_arena.free_head == a.order_arena.free_head
        &&& b.order_arena.active_count == a.order_arena.active_count
        &&& b.order_arena.capacity == a.order_arena.capacity
        &&& b.order_arena.free_list == a.order_arena.free_list
        &&& b.level_arena.nodes@ == a.level_arena.nodes@.update(
            l as int,
            PriceLevelNode {
                head_order: if tail == NULL_IDX {
                    node
                } else {
                    a.lv(l).head_order
                },
                tail_order: node,
                total_qty: (a.lv(l).total_qty + a.nd(node).order.qty) as u64,
                order_count: (a.lv(l).order_count + 1) as u32,
                ..a.lv(l)
            },
        )
        &&& a.lv(l).total_qty + a.nd(node).order.qty <= u64::MAX
        &&& b.level_arena.free_head == a.level_arena.free_head
        &&& b.level_arena.free_list == a.level_arena.free_list
        &&& b.queues@ == a.queues@.insert(l, a.queues@[l].push(node))
        &&& b.best_bid == a.best_bid
        &&& b.best_ask == a.best_ask
        &&& b.bid_levels == a.bid_levels
        &&& b.ask_levels == a.ask_levels
        &&& b.price_index == a.price_index
        &&& b.order_index == a.order_index
        &&& b.client_order_index == a.client_order_index
        &&& b.trade_id_counter == a.trade_id_counter
        &&& b.order_id_counter == a.order_id_counter
    }

    /// Facts about the pushed level and its queue.
    #[verifier::spinoff_prover]
    #[verifier::rlimit(100)]
    proof fn lemma_push_level(a: &Self, b: &Self, hole: Option<u32>, s: bool, i: int, node: u32)
        requires
            a.wf_except(hole),
            hole == None::<u32> || hole == Some(a.ladder(s)[i]),
            Self::push_rel(a, b, s, i, node),
        ensures
            ({
                let l = a.ladder(s)[i];
                let q = a.queues@[l];
                &&& b.queue_ok(l, s)
                &&& b.level_state(l) == LevelState { queue: a.level_state(l).queue.push(b.resting(node)), ..a.level_state(l) }
                &&& b.resting(node) == a.resting(node)
                &&& !q.contains(node)
                &&& forall|n: u32| n != node && (q.len() == 0 || n != q.last()) && (n as int) < MAX_ARENA_ORDERS ==> #[trigger] b.nd(n) == a.nd(n)
                &&& q.len() > 0 ==> b.nd(q.last()).order == a.nd(q.last()).order
            }),
    {
        reveal(OrderBook::push_rel);
        let l = a.ladder(s)[i];
        let q = a.queues@[l];
        let q2 = q.push(node);
        let tail = a.lv(l).tail_order;
        a.lemma_level_facts(hole, s, i);
        a.lemma_sizes(hole);
        assert(a.queue_ok(l, s)) by {
            reveal(OrderBook::wf_except);
            reveal(OrderBook::ladder_ok);
        }
        assert(!q.contains(node)) by {
            assert(a.ladder(s)[i] == l);
        }
        assert(q.no_duplicates() && forall|k: int| 0 <= k < q.len() ==> ((#[trigger] q[k]) as int) < MAX_ARENA_ORDERS
            && a.nd(q[k]).prev == (if k == 0 { NULL_IDX } else { q[k - 1] })
            && a.nd(q[k]).next == (if k + 1 < q.len() { q[k + 1] } else { NULL_IDX })) by {
            reveal(OrderBook::queue_ok);
        }
        assert(tail == (if q.len() == 0 { NULL_IDX } else { q.last() })) by {
            reveal(OrderBook::queue_ok);
        }
        assert(q.len() > 0 ==> q.last() != node) by {
            if q.len() > 0 {
                assert(q.contains(q.last()));
            }
        }
        assert forall|n: u32| n != node && (q.len() == 0 || n != q.last()) && (n as int) < MAX_ARENA_ORDERS implies #[trigger] b.nd(n) == a.nd(n) by {}
        assert(b.resting(node) == a.resting(node));
        assert forall|k: int| 0 <= k < q2.len() implies #[trigger] b.nd(q2[k]) == (if k == q.len() {
            relink(a.nd(node), tail, NULL_IDX)
        } else if k + 1 == q.len() {
            relink(a.nd(q[k]), a.nd(q[k]).prev, node)
        } else {
            a.nd(q[k])
        }) by {
            if k < q.len() {
                assert(q2[k] == q[k]);
                assert(q[k] != node) by {
                    assert(q.contains(q[k]));
                }
                if k + 1 < q.len() {
                    assert(q[k] != q.last());
                }
            }
        }
        assert(b.level_state(l).queue =~= a.level_state(l).queue.push(b.resting(node))) by {
            assert forall|k: int| 0 <= k < q2.len() implies #[trigger] b.level_state(l).queue[k] == a.level_state(l).queue.push(b.resting(node))[k] by {
                if k < q.len() {
                    assert(q2[k] == q[k]);
                }
            }
        }
        lemma_queue_qty_push(a.level_state(l).queue, b.resting(node));
        assert(b.queue_ok(l, s)) by {
            reveal(OrderBook::queue_ok);
            assert(q2.no_duplicates()) by {
                assert forall|k1: int, k2: int| 0 <= k1 < q2.len() && 0 <= k2 < q2.len() && k1 != k2 implies q2[k1] != q2[k2] by {
                    if k1 < q.len() && k2 < q.len() {
                    } else if k1 == q.len() {
                        assert(q.contains(q[k2]));
                    } else {
                        assert(q.contains(q[k1]));
                    }
                }
            }
            assert(a.queue_ok(l, s));
        }
    }

    /// Pushing an allocated, unqueued order onto a level makes the book well-formed.
    #[verifier::spinoff_prover]
    #[verifier::rlimit(100)]
    proof fn lemma_push_wf(a: &Self, b: &Self, hole: Option<u32>, s: bool, i: int, node: u32)
        requires
            a.wf_except(hole),
            hole == None::<u32> || hole == Some(a.ladder(s)[i]),
            Self::push_rel(a, b, s, i, node),
        ensures
            b.wf(),
            b.side_state(s) == a.side_state(s).update(
                i,
                LevelState { queue: a.side_state(s)[i].queue.push(a.resting(node)), ..a.side_state(s)[i] },
            ),
            b.side_state(!s) == a.side_state(!s),
    {
        Self::lemma_push_level(a, b, hole, s, i, node);
        reveal(OrderBook::push_rel);
        let l = a.ladder(s)[i];
        let q = a.queues@[l];
        let tail = a.lv(l).tail_order;
        a.lemma_level_facts(hole, s, i);
        a.lemma_sizes(hole);
        a.lemma_levels_distinct(hole);
        let y0: int = if s { a.bid_levels@.len() as int } else { 0 };
        assert(a.all_levels()[y0 + i] == l);
        let cn = if q.len() > 0 { set![node, q.last()] } else { set![node] };
        assert forall|n2: u32, l2: u32|
            #[trigger] cn.contains(n2) && a.all_levels().contains(l2) && l2 != l implies !(#[trigger] a.queues@[l2]).contains(n2) by {
            let x = choose|x: int| 0 <= x < a.all_levels().len() && a.all_levels()[x] == l2;
            let nb = a.bid_levels@.len() as int;
            if n2 == node {
                if x < nb {
                    assert(a.ladder(false)[x] == l2);
                } else {
                    assert(a.ladder(true)[x - nb] == l2);
                }
            } else {
                a.lemma_node_in_one_queue(hole, y0 + i, x, q.len() - 1);
            }
        }
        assert forall|n: u32| !cn.contains(n) && (n as int) < MAX_ARENA_ORDERS implies #[trigger] b.nd(n) == a.nd(n) by {}
        Self::lemma_ladders_keep(a, b, hole, s, i, cn);
        // Every level is non-empty now.
        assert(b.levels_nonempty(None)) by {
            reveal(OrderBook::levels_nonempty);
            assert(a.levels_nonempty(hole)) by {
                reveal(OrderBook::wf_except);
            }
        }
        // The queues stay disjoint: the new node was in none.
        let all = a.all_levels();
        assert(b.all_levels() == all);
        assert forall|x: int| 0 <= x < all.len() implies #[trigger] b.lv(all[x]).price == a.lv(all[x]).price by {}
        assert(b.cross_ok()) by {
            reveal(OrderBook::cross_ok);
            assert(a.cross_ok()) by {
                reveal(OrderBook::wf_except);
            }
            let x0 = y0 + i;
            assert forall|x: int, y: int, kx: int, ky: int|
                0 <= x < all.len() && 0 <= y < all.len() && x != y && 0 <= kx < b.queues@[all[x]].len() && 0 <= ky
                    < b.queues@[all[y]].len() implies #[trigger] b.queues@[all[x]][kx] != #[trigger] b.queues@[all[y]][ky] by {
                if x == x0 {
                    assert(all[y] != l);
                    if kx == q.len() {
                        assert(b.queues@[all[x]][kx] == node);
                        assert(!a.queues@[all[y]].contains(node)) by {
                            assert(cn.contains(node));
                        }
                        assert(a.queues@[all[y]].contains(b.queues@[all[y]][ky]));
                    } else {
                        assert(b.queues@[all[x]][kx] == a.queues@[all[x]][kx]);
                    }
                } else if y == x0 {
                    assert(all[x] != l);
                    if ky == q.len() {
                        assert(b.queues@[all[y]][ky] == node);
                        assert(!a.queues@[all[x]].contains(node)) by {
                            assert(cn.contains(node));
                        }
                        assert(a.queues@[all[x]].contains(b.queues@[all[x]][kx]));
                    } else {
                        assert(b.queues@[all[y]][ky] == a.queues@[all[y]][ky]);
                    }
                } else {
                    assert(all[x] != l && all[y] != l);
                }
            }
            if a.bid_levels@.len() > 0 && a.ask_levels@.len() > 0 {
                assert(all[0] == a.bid_levels@[0]);
                assert(all[a.bid_levels@.len() as int] == a.ask_levels@[0]);
            }
        }
        assert(b.price_index_ok()) by {
            reveal(OrderBook::price_index_ok);
            assert(a.price_index_ok()) by {
                reveal(OrderBook::wf_except);
            }
            assert forall|p: u64| #[trigger] b.price_index@.contains_key(p) implies exists|x: int|
                0 <= x < b.all_levels().len() && b.lv(#[trigger] b.all_levels()[x]).price == p by {
                let x = choose|x: int| 0 <= x < all.len() && a.lv(#[trigger] all[x]).price == p;
                assert(b.lv(b.all_levels()[x]).price == p);
            }
        }
        assert(b.order_index_ok()) by {
            reveal(OrderBook::order_index_ok);
            assert(a.order_index_ok() && a.price_index_ok()) by {
                reveal(OrderBook::wf_except);
            }
            assert forall|id: u64| #[trigger] b.order_index@.contains_key(id) implies {
                let e = b.order_index@[id];
                &&& b.nd(e.node_idx).order == a.nd(e.node_idx).order
                &&& b.queues@[b.price_index@[e.price]].contains(e.node_idx)
            } by {
                let e = a.order_index@[id];
                assert(a.order_index@.contains_key(id));
                let lp = a.price_index@[e.price];
                assert(a.queues@[lp].contains(e.node_idx));
                reveal(OrderBook::price_index_ok);
                let z = choose|z: int| 0 <= z < all.len() && a.lv(#[trigger] all[z]).price == e.price;
                assert(all[z] == lp);
                let nb = a.bid_levels@.len() as int;
                if z < nb {
                    assert(a.ladder(false)[z] == lp);
                } else {
                    assert(a.ladder(true)[z - nb] == lp);
                }
                assert(e.node_idx != node);
                if lp == l {
                    let k = choose|k: int| 0 <= k < q.len() && q[k] == e.node_idx;
                    assert(b.queues@[l][k] == e.node_idx);
                }
            }
        }
        assert(a.order_arena.wf() && a.level_arena.wf() && a.price_index.wf() && a.order_index.wf() && a.client_order_index.wf()
            && a.order_arena.capacity == MAX_ARENA_ORDERS) by {
            reveal(OrderBook::wf_except);
        }
        if q.len() > 0 {
            a.lemma_queued_active(hole, s, i, q.len() - 1);
            assert(tail == q.last()) by {
                a.lemma_level_facts(hole, s, i);
            }
        }
        assert(b.order_arena.nodes@.len() == a.order_arena.nodes@.len());
        assert forall|j: int| 0 <= j < a.order_arena.nodes@.len() implies (#[trigger] b.order_arena.nodes@[j]).active
            == a.order_arena.nodes@[j].active && (a.order_arena.nodes@[j].active || b.order_arena.nodes@[j].next
            == a.order_arena.nodes@[j].next) by {
            let n = j as u32;
            assert(n as int == j);
            if n != node && (q.len() == 0 || n != q.last()) {
                assert(b.nd(n) == a.nd(n));
            }
        }
        lemma_arena_same_links(&a.order_arena, &b.order_arena);
        assert forall|j: int| 0 <= j < a.level_arena.nodes@.len() implies (#[trigger] b.level_arena.nodes@[j]).active
            == a.level_arena.nodes@[j].active && b.level_arena.nodes@[j].next_free == a.level_arena.nodes@[j].next_free by {}
        lemma_level_arena_same_links(&a.level_arena, &b.level_arena);
        b.lemma_wf_intro(None);
    }

    /// Replacing only the two indices keeps everything but the order index's consistency.
    #[verifier::spinoff_prover]
    #[verifier::rlimit(100)]
    proof fn lemma_index_frame(a: &Self, b: &Self, hole: Option<u32>)
        requires
            a.wf_except(hole),
            b.order_index.wf(),
            b.client_order_index.wf(),
            b.order_index_ok(),
            b.best_bid == a.best_bid,
            b.best_ask == a.best_ask,
            b.price_index == a.price_index,
            b.level_arena == a.level_arena,
            b.order_arena == a.order_arena,
            b.bid_levels == a.bid_levels,
            b.ask_levels == a.ask_levels,
            b.queues == a.queues,
        ensures
            b.wf_except(hole),
            b.side_state(false) == a.side_state(false),
            b.side_state(true) == a.side_state(true),
    {
        assert forall|l: u32| #[trigger] a.level_state(l) == b.level_state(l) by {
            assert(a.queues@[l].map_values(|n: u32| a.resting(n)) =~= b.queues@[l].map_values(|n: u32| b.resting(n)));
        }
        assert(a.side_state(false) =~= b.side_state(false)) by {
            reveal(OrderBook::side_state);
        }
        assert(a.side_state(true) =~= b.side_state(true)) by {
            reveal(OrderBook::side_state);
        }
        assert forall|l: u32, s: bool| #[trigger] a.queue_ok(l, s) == b.queue_ok(l, s) by {
            reveal(OrderBook::queue_ok);
        }
        assert(a.ladder_ok(false) == b.ladder_ok(false)) by {
            reveal(OrderBook::ladder_ok);
        }
        assert(a.ladder_ok(true) == b.ladder_ok(true)) by {
            reveal(OrderBook::ladder_ok);
        }
        assert(a.levels_nonempty(hole) == b.levels_nonempty(hole)) by {
            reveal(OrderBook::levels_nonempty);
        }
        assert(a.cross_ok() == b.cross_ok()) by {
            reveal(OrderBook::cross_ok);
        }
        assert(b.price_index_ok()) by {
            reveal(OrderBook::price_index_ok);
            assert(a.price_index_ok()) by {
                reveal(OrderBook::wf_except);
            }
            assert(a.all_levels() == b.all_levels());
            assert forall|l: u32| #[trigger] a.lv(l) == b.lv(l) by {}
            assert forall|p: u64| #[trigger] b.price_index@.contains_key(p) implies exists|x: int|
                0 <= x < b.all_levels().len() && b.lv(#[trigger] b.all_levels()[x]).price == p by {
                let x = choose|x: int| 0 <= x < a.all_levels().len() && a.lv(#[trigger] a.all_levels()[x]).price == p;
                assert(b.lv(b.all_levels()[x]).price == p);
            }
        }
        assert(a.order_arena.wf() && a.level_arena.wf() && a.price_index.wf() && a.order_arena.capacity == MAX_ARENA_ORDERS
            && a.level_arena.nodes@.len() == MAX_PRICE_LEVELS && a.ladder_ok(false) && a.ladder_ok(true)
            && a.levels_nonempty(hole) && a.cross_ok()) by {
            reveal(OrderBook::wf_except);
        }
        b.lemma_wf_intro(hole);
    }

    /// Entering a queued order in the order index keeps the book well-formed.
    #[verifier::spinoff_prover]
    #[verifier::rlimit(100)]
    proof fn lemma_index_insert(a: &Self, b: &Self, s: bool, i: int, node: u32)
        requires
            a.wf(),
            0 <= i < a.ladder(s).len(),
            a.queues@[a.ladder(s)[i]].contains(node),
            ({
                let o = a.nd(node).order;
                &&& b.order_index@ == a.order_index@.insert(
                    o.id,
                    FastIndexEntry {
                        order_id: o.id,
                        client_order_id: o.client_order_id,
                        user_id: o.user_id,
                        price: o.price,
                        node_idx: node,
                        side: o.side,
                        occupied: true,
                    },
                )
                &&& a.lv(a.ladder(s)[i]).price == o.price
            }),
            b.order_index.wf(),
            b.client_order_index.wf(),
            b.best_bid == a.best_bid,
            b.best_ask == a.best_ask,
            b.price_index == a.price_index,
            b.level_arena == a.level_arena,
            b.order_arena == a.order_arena,
            b.bid_levels == a.bid_levels,
            b.ask_levels == a.ask_levels,
            b.queues == a.queues,
        ensures
            b.wf(),
            b.side_state(false) == a.side_state(false),
            b.side_state(true) == a.side_state(true),
    {
        let l = a.ladder(s)[i];
        let k = choose|k: int| 0 <= k < a.queues@[l].len() && a.queues@[l][k] == node;
        a.lemma_queued_active(None, s, i, k);
        a.lemma_levels_distinct(None);
        a.lemma_level_facts(None, s, i);
        assert(a.price_index@.contains_key(a.lv(l).price) && a.price_index@[a.lv(l).price] == l) by {
            reveal(OrderBook::wf_except);
            reveal(OrderBook::price_index_ok);
            let nb = a.bid_levels@.len() as int;
            let x = if s { nb + i } else { i };
            assert(a.all_levels()[x] == l);
        }
        assert(b.order_index_ok()) by {
            reveal(OrderBook::order_index_ok);
            assert(a.order_index_ok()) by {
                reveal(OrderBook::wf_except);
            }
        }
        Self::lemma_index_frame(a, b, None);
    }

    /// Under `no_cross`, a level at `price` can only be on side `is_sell`.
    #[verifier::spinoff_prover]
    #[verifier::rlimit(100)]
    proof fn lemma_price_level_side(&self, price: u64, is_sell: bool) -> (i: int)
        requires
            self.wf(),
            no_cross(self.state(), price, is_sell),
            self.price_index@.contains_key(price),
        ensures
            0 <= i < self.ladder(is_sell).len(),
            self.ladder(is_sell)[i] == self.price_index@[price],
            self.lv(self.ladder(is_sell)[i]).price == price,
    {
        let t = !is_sell;
        self.lemma_levels_distinct(None);
        assert(self.price_index_ok()) by {
            reveal(OrderBook::wf_except);
        }
        reveal(OrderBook::price_index_ok);
        let all = self.all_levels();
        let x = choose|x: int| 0 <= x < all.len() && self.lv(#[trigger] all[x]).price == price;
        assert(self.price_index@[self.lv(all[x]).price] == all[x]);
        let nb = self.bid_levels@.len() as int;
        let (ss, j) = if x < nb { (false, x) } else { (true, x - nb) };
        assert(self.ladder(ss)[j] == all[x]);
        if ss == t {
            self.lemma_best(None, t);
            self.lemma_level_facts(None, t, 0);
            if j > 0 {
                self.lemma_sorted(None, t, 0, j);
            }
            assert(false);
        }
        j
    }

    /// Opens a level at the fresh `price` on side `is_sell`: allocates it, enters its
    /// price in the price index and links it at its place in the ladder.
    #[verifier::spinoff_prover]
    #[verifier::rlimit(100)]
    fn open_level(&mut self, price: u64, is_sell: bool) -> (r: Result<u32, RejectReason>)
        requires
            old(self).wf(),
            !old(self).price_index@.contains_key(price),
            no_cross(old(self).state(), price, is_sell),
        ensures
            final(self).symbol == old(self).symbol,
            final(self).order_arena == old(self).order_arena,
            ({
                let st = old(self).state();
                let side = side_of(st, is_sell);
                match r {
                    Err(e) => {
                        &&& e == RejectReason::EngineFull
                        &&& final(self).wf()
                        &&& if st.level_free.len() == 0 {
                            final(self).state() == st
                        } else {
                            &&& st.price_index.len() >= FAST_PRICE_LIMIT
                            &&& final(self).state() == BookState { level_free: st.level_free.drop_first(), ..st }
                        }
                    },
                    Ok(l) => {
                        let pos = sorted_pos(side, price, is_sell);
                        &&& st.level_free.len() > 0
                        &&& l == st.level_free[0]
                        &&& st.price_index.len() < FAST_PRICE_LIMIT
                        &&& final(self).wf_except(Some(l))
                        &&& 0 <= pos < final(self).ladder(is_sell).len()
                        &&& final(self).ladder(is_sell)[pos] == l
                        &&& final(self).lv(l).price == price
                        &&& final(self).queues@ == old(self).queues@.insert(l, Seq::empty())
                        &&& final(self).bid_levels@.len() + final(self).ask_levels@.len() == old(self).bid_levels@.len() + old(self).ask_levels@.len() + 1
                        &&& forall|ss: bool, j: int| 0 <= j < final(self).ladder(ss).len() && #[trigger] final(self).ladder(ss)[j] != l
                            ==> old(self).all_levels().contains(final(self).ladder(ss)[j])
                        &&& final(self).state() == BookState {
                            level_free: st.level_free.drop_first(),
                            price_index: st.price_index.insert(price, l),
                            ..with_side(st, is_sell, side.insert(pos, LevelState { idx: l, price, queue: Seq::empty() }))
                        }
                    },
                }
            }),
    {
        let ghost a1 = *self;
        let ghost mut i: int = 0;
        proof {
            a1.lemma_wf_parts(None);
        }
        let new_idx = match self.level_arena.allocate(price) {
            Ok(i) => i,
            Err(e) => {
                proof {
                    assert(*self == a1);
                }
                return Err(e);
            },
        };
        let ghost a2 = *self;
        proof {
            assert(a1.level_arena.free_list@[0] == new_idx);
            assert(!a1.lv(new_idx).active) by {
                assert(a1.level_arena.free_list@.contains(new_idx));
            }
            assert forall|m: u32| !set![new_idx].contains(m) && (m as int) < MAX_PRICE_LEVELS implies #[trigger] a2.lv(m) == a1.lv(m) by {}
            Self::lemma_level_nodes_frame(&a1, &a2, None, set![new_idx]);
            assert(!a1.all_levels().contains(new_idx)) by {
                a1.lemma_levels_distinct(None);
                if a1.all_levels().contains(new_idx) {
                    let x = choose|x: int| 0 <= x < a1.all_levels().len() && a1.all_levels()[x] == new_idx;
                    let nb = a1.bid_levels@.len() as int;
                    if x < nb {
                        a1.lemma_ladder_active(None, false, x);
                    } else {
                        a1.lemma_ladder_active(None, true, x - nb);
                    }
                }
            }
        }
        match self.price_index.insert(price, new_idx) {
            Ok(()) => {},
            Err(e) => {
                proof {
                    assert(*self == a2);
                }
                return Err(e);
            },
        }
        proof {
            a2.lemma_wf_parts(None);
            a2.lemma_levels_distinct(None);
            assert forall|j: int| 0 <= j < a2.ladder(is_sell).len() implies a2.lv(#[trigger] a2.ladder(is_sell)[j]).price != price by {
                assert(a2.price_index_ok());
                reveal(OrderBook::price_index_ok);
                let nb = a2.bid_levels@.len() as int;
                let x = if is_sell { nb + j } else { j };
                assert(a2.all_levels()[x] == a2.ladder(is_sell)[j]);
            }
            assert(!a2.ladder(is_sell).contains(new_idx)) by {
                if a2.ladder(is_sell).contains(new_idx) {
                    let j = choose|j: int| 0 <= j < a2.ladder(is_sell).len() && a2.ladder(is_sell)[j] == new_idx;
                    a2.lemma_ladder_active(None, is_sell, j);
                }
            }
        }
        let ghost pre_link = *self;
        proof {
            Self::lemma_ladders_indep(&a2, &pre_link);
            a2.lemma_wf_parts(None);
        }
        self.link_price_level(new_idx, is_sell);
        proof {
            let lad = a2.ladder(is_sell);
            i = sorted_pos(pre_link.side_state(is_sell), price, is_sell);
            assert(pre_link.side_state(is_sell) == a2.side_state(is_sell));
            a2.lemma_best(None, !is_sell);
            if a2.ladder(!is_sell).len() > 0 {
                a2.lemma_level_facts(None, !is_sell, 0);
            }
            assert(Self::link_rel(&a2, self, is_sell, new_idx, i)) by {
                reveal(OrderBook::link_rel);
            }
            Self::lemma_link_wf(&a2, self, is_sell, new_idx, i);
        }
        proof {
            a1.lemma_best(None, is_sell);
            assert(self.ladder(is_sell)[i] == new_idx);
        }
        Ok(new_idx)
    }

    /// Appends the allocated order in `node` to the queue of level `level_idx`
    /// (position `i` of side `is_sell`) and enters it in both indices.
    #[verifier::spinoff_prover]
    #[verifier::rlimit(100)]
    fn enqueue(&mut self, node: u32, level_idx: u32, is_sell: bool, Ghost(i): Ghost<int>, Ghost(hole): Ghost<Option<u32>>) -> (r: Result<(), RejectReason>)
        requires
            old(self).wf_except(hole),
            hole == None::<u32> || hole == Some(level_idx),
            0 <= i < old(self).ladder(is_sell).len(),
            old(self).ladder(is_sell)[i] == level_idx,
            (node as int) < MAX_ARENA_ORDERS,
            old(self).nd(node).active,
            forall|ss: bool, j: int| 0 <= j < old(self).ladder(ss).len() ==> !old(self).queues@[#[trigger] old(self).ladder(ss)[j]].contains(node),
            old(self).nd(node).order.price == old(self).lv(level_idx).price,
            (old(self).nd(node).order.side == 1) == is_sell,
            old(self).nd(node).order.qty > 0,
            old(self).lv(level_idx).total_qty + old(self).nd(node).order.qty <= u64::MAX,
        ensures
            final(self).wf(),
            final(self).symbol == old(self).symbol,
            ({
                let st = old(self).state();
                let side = side_of(st, is_sell);
                let s4 = with_side(
                    st,
                    is_sell,
                    side.update(i, LevelState { queue: side[i].queue.push(old(self).resting(node)), ..side[i] }),
                );
                let (st2, res) = index_rested(s4, old(self).nd(node).order, node, 0);
                &&& final(self).state() == st2
                &&& r is Ok <==> res is Ok
                &&& r is Err ==> res == Err::<ReportState, RejectReason>(r->Err_0)
            }),
    {
        let ghost a3 = *self;
        proof {
            a3.lemma_level_facts(hole, is_sell, i);
            a3.lemma_sizes(hole);
            let q = a3.queues@[level_idx];
            if q.len() > 0 {
                a3.lemma_queued_active(hole, is_sell, i, q.len() - 1);
            }
        }
        let order = self.order_arena.nodes[node as usize].order;
        let mut lvn = self.level_arena.nodes[level_idx as usize];
        lvn.push_order(node, &mut self.order_arena);
        self.level_arena.nodes.set(level_idx as usize, lvn);
        proof {
            self.queues@ = self.queues@.insert(level_idx, self.queues@[level_idx].push(node));
            assert(Self::push_rel(&a3, self, is_sell, i, node)) by {
                reveal(OrderBook::push_rel);
            }
            Self::lemma_push_wf(&a3, self, hole, is_sell, i, node);
        }
        let ghost a4 = *self;
        proof {
            assert(a4.order_index.wf() && a4.client_order_index.wf()) by {
                reveal(OrderBook::wf_except);
            }
        }
        match self.order_index.insert(order.id, order.client_order_id, order.user_id, order.price, node, order.side) {
            Ok(()) => {},
            Err(e) => {
                return Err(e);
            },
        }
        proof {
            assert(a4.queues@[a4.ladder(is_sell)[i]].contains(node)) by {
                assert(a4.queues@[level_idx].last() == node);
            }
            Self::lemma_index_insert(&a4, self, is_sell, i, node);
        }
        let ghost a5 = *self;
        let _ = self.client_order_index.insert(order.user_id, order.client_order_id, order.id);
        proof {
            assert(a5.order_index_ok()) by {
                reveal(OrderBook::wf_except);
            }
            assert(self.order_index_ok()) by {
                reveal(OrderBook::order_index_ok);
            }
            Self::lemma_index_frame(&a5, self, None);
        }
        Ok(())
    }

    /// Places the allocated order in `node` on side `is_sell`: at the level of its price,
    /// opened when new, then in both indices.
    #[verifier::spinoff_prover]
    #[verifier::rlimit(100)]
    fn place_order(&mut self, node_idx: u32, is_sell: bool) -> (r: Result<(), RejectReason>)
        requires
            old(self).wf(),
            (node_idx as int) < MAX_ARENA_ORDERS,
            old(self).nd(node_idx).active,
            forall|ss: bool, j: int| 0 <= j < old(self).ladder(ss).len() ==> !old(self).queues@[#[trigger] old(self).ladder(ss)[j]].contains(node_idx),
            old(self).nd(node_idx).order.qty > 0,
            (old(self).nd(node_idx).order.side == 1) == is_sell,
            no_cross(old(self).state(), old(self).nd(node_idx).order.price, is_sell),
            rest_fits(old(self).state(), old(self).nd(node_idx).order.price, old(self).nd(node_idx).order.qty, is_sell),
        ensures
            final(self).wf(),
            final(self).symbol == old(self).symbol,
            ({
                let (st2, res) = spec_place(old(self).state(), old(self).resting(node_idx), is_sell, 0);
                &&& final(self).state() == st2
                &&& r is Ok <==> res is Ok
                &&& r is Err ==> res == Err::<ReportState, RejectReason>(r->Err_0)
            }),
    {
        let ghost a1 = *self;
        let ghost order = a1.nd(node_idx).order;
        let ghost client_id = a1.nd(node_idx).client_id;
        proof {
            a1.lemma_alloc_ready(None);
            a1.lemma_sizes(None);
        }
        let price = self.order_arena.nodes[node_idx as usize].order.price;
        let ghost mut i: int = 0;
        let ghost mut hole: Option<u32> = None;
        let level_idx = match self.price_index.lookup(price) {
            Some(existing_idx) => {
                proof {
                    i = a1.lemma_existing_level(price, order.qty, is_sell);
                }
                existing_idx
            },
            None => {
                match self.open_level(price, is_sell) {
                    Ok(l) => {
                        proof {
                            i = sorted_pos(side_of(a1.state(), is_sell), price, is_sell);
                            hole = Some(l);
                        }
                        l
                    },
                    Err(e) => {
                        return Err(e);
                    },
                }
            },
        };
        let ghost a3 = *self;
        proof {
            a3.lemma_level_facts(hole, is_sell, i);
            if hole is Some {
                Self::lemma_new_level_unqueued(&a1, &a3, level_idx, node_idx);
            }
        }
        let r = self.enqueue(node_idx, level_idx, is_sell, Ghost(i), Ghost(hole));
        proof {
            let own = side_of(a1.state(), is_sell);
            let rr = Resting { node: node_idx, order, client_id };
            if hole is Some {
                crate::book_spec::lemma_sorted_pos_bound(own, price, is_sell);
                assert(seq![rr] =~= Seq::<Resting>::empty().push(rr));
                let own2 = own.insert(i, LevelState { idx: level_idx, price, queue: Seq::empty() });
                assert(own2.update(i, LevelState { queue: own2[i].queue.push(rr), ..own2[i] }) =~= own.insert(
                    i,
                    LevelState { idx: level_idx, price, queue: seq![rr] },
                ));
            }
        }
        r
    }

    /// Rests the unfilled remainder `order` of a limit order on its own side
    /// (`is_sell`): a node for it, its price level (opened when new), its queue, and
    /// both indices.
    #[verifier::spinoff_prover]
    #[verifier::rlimit(100)]
    fn rest_order(&mut self, order: Order, client_id: u64, is_sell: bool) -> (r: Result<(), RejectReason>)
        requires
            old(self).wf(),
            order.qty > 0,
            (order.side == 1) == is_sell,
            no_cross(old(self).state(), order.price, is_sell),
            rest_fits(old(self).state(), order.price, order.qty, is_sell),
        ensures
            final(self).wf(),
            final(self).symbol == old(self).symbol,
            ({
                let (st2, res) = spec_rest(old(self).state(), order, client_id, is_sell, 0);
                &&& final(self).state() == st2
                &&& r is Ok <==> res is Ok
                &&& r is Err ==> res == Err::<ReportState, RejectReason>(r->Err_0)
            }),
    {
        let ghost a0 = *self;
        proof {
            a0.lemma_alloc_ready(None);
        }
        let node_idx = match self.order_arena.allocate(order, client_id) {
            Ok(i) => i,
            Err(e) => {
                return Err(e);
            },
        };
        proof {
            Self::lemma_alloc_node(&a0, self, node_idx, order, client_id);
            assert(side_of(self.state(), is_sell) == side_of(a0.state(), is_sell));
            assert(side_of(self.state(), !is_sell) == side_of(a0.state(), !is_sell));
            assert(self.nd(node_idx).order == order);
        }
        self.place_order(node_idx, is_sell)
    }

    /// The ladders and their meaning do not depend on the indices.
    proof fn lemma_ladders_indep(a: &Self, b: &Self)
        requires
            a.best_bid == b.best_bid,
            a.best_ask == b.best_ask,
            a.level_arena == b.level_arena,
            a.order_arena == b.order_arena,
            a.bid_levels == b.bid_levels,
            a.ask_levels == b.ask_levels,
            a.queues == b.queues,
        ensures
            a.ladder_ok(false) == b.ladder_ok(false),
            a.ladder_ok(true) == b.ladder_ok(true),
            a.side_state(false) == b.side_state(false),
            a.side_state(true) == b.side_state(true),
    {
        assert forall|l: u32| #[trigger] a.level_state(l) == b.level_state(l) by {
            assert(a.queues@[l].map_values(|n: u32| a.resting(n)) =~= b.queues@[l].map_values(|n: u32| b.resting(n)));
        }
        assert(a.side_state(false) =~= b.side_state(false)) by {
            reveal(OrderBook::side_state);
        }
        assert(a.side_state(true) =~= b.side_state(true)) by {
            reveal(OrderBook::side_state);
        }
        assert forall|l: u32, s: bool| #[trigger] a.queue_ok(l, s) == b.queue_ok(l, s) by {
            reveal(OrderBook::queue_ok);
        }
        assert(a.ladder_ok(false) == b.ladder_ok(false)) by {
            reveal(OrderBook::ladder_ok);
        }
        assert(a.ladder_ok(true) == b.ladder_ok(true)) by {
            reveal(OrderBook::ladder_ok);
        }
    }

    /// Where a rested order joins an existing level: its position, as `level_pos` finds it.
    #[verifier::spinoff_prover]
    #[verifier::rlimit(100)]
    proof fn lemma_existing_level(&self, price: u64, qty: u64, is_sell: bool) -> (i: int)
        requires
            self.wf(),
            no_cross(self.state(), price, is_sell),
            rest_fits(self.state(), price, qty, is_sell),
            self.price_index@.contains_key(price),
        ensures
            self.lv(self.ladder(is_sell)[i]).total_qty + qty <= u64::MAX,
            0 <= i < self.ladder(is_sell).len(),
            self.ladder(is_sell)[i] == self.price_index@[price],
            self.lv(self.ladder(is_sell)[i]).price == price,
            level_pos(side_of(self.state(), is_sell), self.price_index@[price]) == i,
            side_of(self.state(), is_sell)[i].price == price,
    {
        let i = self.lemma_price_level_side(price, is_sell);
        let l = self.price_index@[price];
        self.lemma_best(None, is_sell);
        self.lemma_level_facts(None, is_sell, i);
        self.lemma_levels_distinct(None);
        let own = side_of(self.state(), is_sell);
        assert forall|j: int| 0 <= j < i implies (#[trigger] own[j]).idx != l by {
            self.lemma_level_facts(None, is_sell, j);
        }
        lemma_level_pos(own, l, i);
        assert(own[i].price == price);
        i
    }

    /// A node in no queue of `a` is in no queue of `b` when `b` only added the empty level `l`.
    proof fn lemma_new_level_unqueued(a: &Self, b: &Self, l: u32, node: u32)
        requires
            forall|ss: bool, j: int| 0 <= j < a.ladder(ss).len() ==> !a.queues@[#[trigger] a.ladder(ss)[j]].contains(node),
            b.queues@ == a.queues@.insert(l, Seq::empty()),
            forall|ss: bool, j: int| 0 <= j < b.ladder(ss).len() && #[trigger] b.ladder(ss)[j] != l ==> a.all_levels().contains(
                b.ladder(ss)[j],
            ),
        ensures
            forall|ss: bool, j: int| 0 <= j < b.ladder(ss).len() ==> !b.queues@[#[trigger] b.ladder(ss)[j]].contains(node),
    {
        assert forall|ss: bool, j: int| 0 <= j < b.ladder(ss).len() implies !b.queues@[#[trigger] b.ladder(ss)[j]].contains(node) by {
            let m = b.ladder(ss)[j];
            if m != l {
                assert(a.all_levels().contains(m));
                let x = choose|x: int| 0 <= x < a.all_levels().len() && a.all_levels()[x] == m;
                let nb = a.bid_levels@.len() as int;
                if x < nb {
                    assert(a.ladder(false)[x] == m);
                } else {
                    assert(a.ladder(true)[x - nb] == m);
                }
            }
        }
    }

    /// Allocating an order node keeps the book well-formed; the new node lies in no queue.
    #[verifier::spinoff_prover]
    #[verifier::rlimit(100)]
    proof fn lemma_alloc_node(a0: &Self, a1: &Self, node: u32, order: Order, client_id: u64)
        requires
            a0.wf(),
            a0.order_arena.free_list@.len() > 0,
            node == a0.order_arena.free_list@[0],
            a1.order_arena.nodes@ == a0.order_arena.nodes@.update(
                node as int,
                (OrderNode { order, prev: NULL_IDX, next: NULL_IDX, client_id, active: true }),
            ),
            a1.order_arena.free_list@ == a0.order_arena.free_list@.drop_first(),
            a1.order_arena.wf(),
            a1.order_arena.capacity == a0.order_arena.capacity,
            a1.level_arena == a0.level_arena,
            a1.price_index == a0.price_index,
            a1.order_index == a0.order_index,
            a1.client_order_index == a0.client_order_index,
            a1.best_bid == a0.best_bid,
            a1.best_ask == a0.best_ask,
            a1.bid_levels == a0.bid_levels,
            a1.ask_levels == a0.ask_levels,
            a1.queues == a0.queues,
            a1.trade_id_counter == a0.trade_id_counter,
            a1.order_id_counter == a0.order_id_counter,
        ensures
            a1.wf(),
            a1.state() == (BookState { order_free: a0.state().order_free.drop_first(), ..a0.state() }),
            a1.resting(node) == (Resting { node, order, client_id }),
            (node as int) < MAX_ARENA_ORDERS,
            a1.nd(node).active,
            forall|ss: bool, j: int| 0 <= j < a1.ladder(ss).len() ==> !a1.queues@[#[trigger] a1.ladder(ss)[j]].contains(node),
    {
        a0.lemma_wf_parts(None);
        assert(a0.order_arena.free_list@.contains(node));
        assert(!a0.nd(node).active);
        assert forall|n: u32| !set![node].contains(n) && (n as int) < MAX_ARENA_ORDERS implies #[trigger] a1.nd(n) == a0.nd(n) by {}
        Self::lemma_order_nodes_frame(a0, a1, None, set![node]);
        assert forall|ss: bool, j: int| 0 <= j < a1.ladder(ss).len() implies !a1.queues@[#[trigger] a1.ladder(ss)[j]].contains(node) by {
            if a0.queues@[a0.ladder(ss)[j]].contains(node) {
                let k = choose|k: int| 0 <= k < a0.queues@[a0.ladder(ss)[j]].len() && a0.queues@[a0.ladder(ss)[j]][k] == node;
                a0.lemma_queued_active(None, ss, j, k);
            }
        }
    }

    /// `b` is `a` after the order in node `queues[l][k]` left the queue of level `l`
    /// (position `i` of side `s`), its node was freed and its index entries removed.
    #[verifier::opaque]
    spec fn unqueue_rel(a: &Self, b: &Self, s: bool, i: int, k: int) -> bool {
        let l = a.ladder(s)[i];
        let q = a.queues@[l];
        let node = q[k];
        let an = a.nd(node);
        let p = an.prev;
        let x = an.next;
        let n1 = nodes_after_unlink(a.order_arena.nodes@, p, x);
        &&& 0 <= i < a.ladder(s).len()
        &&& 0 <= k < q.len()
        &&& b.order_arena.nodes@ == n1.update(
            node as int,
            OrderNode { active: false, next: a.order_arena.free_head, prev: NULL_IDX, ..n1[node as int] },
        )
        &&& b.order_arena.free_list@ == seq![node] + a.order_arena.free_list@
        &&& b.order_arena.wf()
        &&& b.order_arena.capacity == a.order_arena.capacity
        &&& b.level_arena.nodes@ == a.level_arena.nodes@.update(
            l as int,
            PriceLevelNode {
                head_order: if p != NULL_IDX {
                    a.lv(l).head_order
                } else {
                    x
                },
                tail_order: if x != NULL_IDX {
                    a.lv(l).tail_order
                } else {
                    p
                },
                total_qty: sat_sub(a.lv(l).total_qty as int, an.order.qty as int) as u64,
                order_count: sat_sub(a.lv(l).order_count as int, 1) as u32,
                ..a.lv(l)
            },
        )
        &&& b.level_arena.free_head == a.level_arena.free_head
        &&& b.level_arena.free_list == a.level_arena.free_list
        &&& b.order_index@ == a.order_index@.remove(an.order.id)
        &&& b.client_order_index@ == a.client_order_index@.remove((an.order.user_id, an.order.client_order_id))
        &&& b.order_index.wf()
        &&& b.client_order_index.wf()
        &&& b.queues@ == a.queues@.insert(l, q.remove(k))
        &&& b.best_bid == a.best_bid
        &&& b.best_ask == a.best_ask
        &&& b.price_index == a.price_index
        &&& b.trade_id_counter == a.trade_id_counter
        &&& b.order_id_counter == a.order_id_counter
        &&& b.bid_levels == a.bid_levels
        &&& b.ask_levels == a.ask_levels
    }

    /// How the nodes change when an order leaves the queue of level `l`.
    #[verifier::spinoff_prover]
    #[verifier::rlimit(100)]
    proof fn lemma_unqueue_nodes(a: &Self, b: &Self, s: bool, i: int, k: int)
        requires
            a.wf(),
            Self::unqueue_rel(a, b, s, i, k),
        ensures
            ({
                let l = a.ladder(s)[i];
                let q = a.queues@[l];
                let node = q[k];
                let p = a.nd(node).prev;
                let x = a.nd(node).next;
                let q2 = q.remove(k);
                &&& p == (if k == 0 { NULL_IDX } else { q[k - 1] })
                &&& x == (if k + 1 < q.len() { q[k + 1] } else { NULL_IDX })
                &&& forall|n: u32| n != node && n != p && n != x && (n as int) < MAX_ARENA_ORDERS ==> #[trigger] b.nd(n) == a.nd(n)
                &&& forall|n: u32| (n == p || n == x) && n != NULL_IDX ==> #[trigger] b.nd(n).order == a.nd(n).order
                &&& (node as int) < MAX_ARENA_ORDERS
                &&& a.nd(node).active
                &&& a.queue_ok(l, s)
                &&& q.no_duplicates()
                &&& forall|j: int| 0 <= j < q2.len() ==> #[trigger] b.nd(q2[j]) == (if j + 1 == k {
                    relink(a.nd(q2[j]), a.nd(q2[j]).prev, x)
                } else if j == k {
                    relink(a.nd(q2[j]), p, a.nd(q2[j]).next)
                } else {
                    a.nd(q2[j])
                })
            }),
    {
        reveal(OrderBook::unqueue_rel);
        let l = a.ladder(s)[i];
        let q = a.queues@[l];
        let node = q[k];
        let p = a.nd(node).prev;
        let x = a.nd(node).next;
        let q2 = q.remove(k);
        a.lemma_level_facts(None, s, i);
        a.lemma_sizes(None);
        assert(a.queue_ok(l, s)) by {
            reveal(OrderBook::wf_except);
            reveal(OrderBook::ladder_ok);
        }
        assert(q.no_duplicates() && forall|j: int| 0 <= j < q.len() ==> ((#[trigger] q[j]) as int) < MAX_ARENA_ORDERS
            && a.nd(q[j]).active && a.nd(q[j]).prev == (if j == 0 { NULL_IDX } else { q[j - 1] })
            && a.nd(q[j]).next == (if j + 1 < q.len() { q[j + 1] } else { NULL_IDX })) by {
            reveal(OrderBook::queue_ok);
        }
        if k > 0 {
            assert(q[k - 1] != node);
        }
        if k + 1 < q.len() {
            assert(q[k + 1] != node);
            if k > 0 {
                assert(q[k + 1] != q[k - 1]);
            }
        }
        assert forall|n: u32| n != node && n != p && n != x && (n as int) < MAX_ARENA_ORDERS implies #[trigger] b.nd(n) == a.nd(n) by {}
        assert forall|j: int| 0 <= j < q2.len() implies #[trigger] b.nd(q2[j]) == (if j + 1 == k {
            relink(a.nd(q2[j]), a.nd(q2[j]).prev, x)
        } else if j == k {
            relink(a.nd(q2[j]), p, a.nd(q2[j]).next)
        } else {
            a.nd(q2[j])
        }) by {
            let jj = if j < k { j } else { j + 1 };
            assert(q2[j] == q[jj]);
            assert(q[jj] != node);
            if jj != k - 1 && k > 0 {
                assert(q[jj] != q[k - 1]);
            }
            if jj != k + 1 && k + 1 < q.len() {
                assert(q[jj] != q[k + 1]);
            }
        }
    }

    /// How the queue of level `l` changes when an order leaves it.
    #[verifier::spinoff_prover]
    #[verifier::rlimit(100)]
    proof fn lemma_unqueue_level(a: &Self, b: &Self, s: bool, i: int, k: int)
        requires
            a.wf(),
            Self::unqueue_rel(a, b, s, i, k),
        ensures
            ({
                let l = a.ladder(s)[i];
                let q = a.queues@[l];
                let node = q[k];
                let p = a.nd(node).prev;
                let x = a.nd(node).next;
                &&& b.queue_ok(l, s)
                &&& b.level_state(l) == LevelState { queue: a.level_state(l).queue.remove(k), ..a.level_state(l) }
                &&& p == (if k == 0 { NULL_IDX } else { q[k - 1] })
                &&& x == (if k + 1 < q.len() { q[k + 1] } else { NULL_IDX })
                &&& forall|n: u32| n != node && n != p && n != x && (n as int) < MAX_ARENA_ORDERS ==> #[trigger] b.nd(n) == a.nd(n)
                &&& forall|n: u32| (n == p || n == x) && n != NULL_IDX ==> #[trigger] b.nd(n).order == a.nd(n).order
                &&& (node as int) < MAX_ARENA_ORDERS
                &&& a.nd(node).active
            }),
    {
        Self::lemma_unqueue_nodes(a, b, s, i, k);
        reveal(OrderBook::unqueue_rel);
        let l = a.ladder(s)[i];
        let q = a.queues@[l];
        let node = q[k];
        let p = a.nd(node).prev;
        let x = a.nd(node).next;
        let q2 = q.remove(k);
        a.lemma_level_facts(None, s, i);
        lemma_queue_qty_remove(a.level_state(l).queue, k);
        crate::book_spec::lemma_queue_qty_nonneg(a.level_state(l).queue.remove(k));
        assert(a.level_state(l).queue[k].order.qty == a.nd(node).order.qty);
        assert(b.level_state(l).queue =~= a.level_state(l).queue.remove(k)) by {
            assert forall|j: int| 0 <= j < q2.len() implies #[trigger] b.level_state(l).queue[j] == a.level_state(l).queue.remove(k)[j] by {
                let jj = if j < k { j } else { j + 1 };
                assert(q2[j] == q[jj]);
            }
        }
        assert(b.queue_ok(l, s)) by {
            reveal(OrderBook::queue_ok);
            assert forall|j: int| 0 <= j < q2.len() implies {
                &&& ((#[trigger] q2[j]) as int) < MAX_ARENA_ORDERS
                &&& b.nd(q2[j]).active
                &&& b.nd(q2[j]).prev == (if j == 0 { NULL_IDX } else { q2[j - 1] })
                &&& b.nd(q2[j]).next == (if j + 1 < q2.len() { q2[j + 1] } else { NULL_IDX })
                &&& b.nd(q2[j]).order.price == b.lv(l).price
                &&& (b.nd(q2[j]).order.side == 1) == s
                &&& b.nd(q2[j]).order.qty > 0
            } by {
                let jj = if j < k { j } else { j + 1 };
                assert(q2[j] == q[jj]);
                if j > 0 {
                    let jp = if j - 1 < k { j - 1 } else { j };
                    assert(q2[j - 1] == q[jp]);
                }
                if j + 1 < q2.len() {
                    let jn = if j + 1 < k { j + 1 } else { j + 2 };
                    assert(q2[j + 1] == q[jn]);
                }
            }
            assert(q2.no_duplicates()) by {
                assert forall|j1: int, j2: int| 0 <= j1 < q2.len() && 0 <= j2 < q2.len() && j1 != j2 implies q2[j1] != q2[j2] by {
                    let z1 = if j1 < k { j1 } else { j1 + 1 };
                    let z2 = if j2 < k { j2 } else { j2 + 1 };
                    assert(q2[j1] == q[z1] && q2[j2] == q[z2]);
                }
            }
            assert(b.lv(l).head_order == (if q2.len() == 0 { NULL_IDX } else { q2[0] }));
            assert(b.lv(l).tail_order == (if q2.len() == 0 { NULL_IDX } else { q2.last() }));
        }
    }

    #[verifier::spinoff_prover]
    #[verifier::rlimit(100)]
    proof fn lemma_unqueue_wf(a: &Self, b: &Self, s: bool, i: int, k: int)
        requires
            a.wf(),
            Self::unqueue_rel(a, b, s, i, k),
        ensures
            b.wf_except(Some(a.ladder(s)[i])),
            b.side_state(s) == a.side_state(s).update(
                i,
                LevelState { queue: a.side_state(s)[i].queue.remove(k), ..a.side_state(s)[i] },
            ),
            b.side_state(!s) == a.side_state(!s),
    {
        Self::lemma_unqueue_level(a, b, s, i, k);
        reveal(OrderBook::unqueue_rel);
        let l = a.ladder(s)[i];
        let hole = Some(l);
        let q = a.queues@[l];
        let node = q[k];
        let p = a.nd(node).prev;
        let x = a.nd(node).next;
        a.lemma_level_facts(None, s, i);
        a.lemma_levels_distinct(None);
        let y0: int = if s { a.bid_levels@.len() as int } else { 0 };
        assert(a.all_levels()[y0 + i] == l);
        let cn = set![node, p, x];
        assert forall|n2: u32, l2: u32|
            #[trigger] cn.contains(n2) && a.all_levels().contains(l2) && l2 != l implies !(#[trigger] a.queues@[l2]).contains(n2) by {
            let xx = choose|xx: int| 0 <= xx < a.all_levels().len() && a.all_levels()[xx] == l2;
            if n2 == node {
                a.lemma_node_in_one_queue(None, y0 + i, xx, k);
            } else if n2 == p {
                if k > 0 {
                    a.lemma_node_in_one_queue(None, y0 + i, xx, k - 1);
                } else {
                    // `p` is the null index, which no queue holds.
                    if a.queues@[l2].contains(n2) {
                        let kk = choose|kk: int| 0 <= kk < a.queues@[l2].len() && a.queues@[l2][kk] == n2;
                        let nb = a.bid_levels@.len() as int;
                        if xx < nb {
                            assert(a.ladder(false)[xx] == l2);
                            a.lemma_queued_active(None, false, xx, kk);
                        } else {
                            assert(a.ladder(true)[xx - nb] == l2);
                            a.lemma_queued_active(None, true, xx - nb, kk);
                        }
                    }
                }
            } else {
                if k + 1 < q.len() {
                    a.lemma_node_in_one_queue(None, y0 + i, xx, k + 1);
                } else {
                    if a.queues@[l2].contains(n2) {
                        let kk = choose|kk: int| 0 <= kk < a.queues@[l2].len() && a.queues@[l2][kk] == n2;
                        let nb = a.bid_levels@.len() as int;
                        if xx < nb {
                            assert(a.ladder(false)[xx] == l2);
                            a.lemma_queued_active(None, false, xx, kk);
                        } else {
                            assert(a.ladder(true)[xx - nb] == l2);
                            a.lemma_queued_active(None, true, xx - nb, kk);
                        }
                    }
                }
            }
        }
        assert forall|n: u32| !cn.contains(n) && (n as int) < MAX_ARENA_ORDERS implies #[trigger] b.nd(n) == a.nd(n) by {}
        Self::lemma_ladders_keep(a, b, None, s, i, cn);
        assert(b.levels_nonempty(hole)) by {
            reveal(OrderBook::levels_nonempty);
            assert(a.levels_nonempty(None)) by {
                reveal(OrderBook::wf_except);
            }
        }
        let all = a.all_levels();
        assert(b.all_levels() == all);
        assert forall|xx: int| 0 <= xx < all.len() implies #[trigger] b.lv(all[xx]).price == a.lv(all[xx]).price by {}
        assert forall|xx: int, kk: int|
            0 <= xx < all.len() && 0 <= kk < b.queues@[all[xx]].len() implies a.queues@[all[xx]].contains(
                #[trigger] b.queues@[#[trigger] all[xx]][kk],
            ) by {
            if all[xx] == l {
                let z = if kk < k { kk } else { kk + 1 };
                assert(b.queues@[l][kk] == q[z]);
            }
        }
        if a.bid_levels@.len() > 0 && a.ask_levels@.len() > 0 {
            assert(all[0] == a.bid_levels@[0]);
            assert(all[a.bid_levels@.len() as int] == a.ask_levels@[0]);
        }
        assert(a.cross_ok()) by {
            reveal(OrderBook::wf_except);
        }
        Self::lemma_cross_sub(a, b);
        assert(b.price_index_ok()) by {
            reveal(OrderBook::price_index_ok);
            assert(a.price_index_ok()) by {
                reveal(OrderBook::wf_except);
            }
            assert forall|pp: u64| #[trigger] b.price_index@.contains_key(pp) implies exists|xx: int|
                0 <= xx < b.all_levels().len() && b.lv(#[trigger] b.all_levels()[xx]).price == pp by {
                let xx = choose|xx: int| 0 <= xx < all.len() && a.lv(#[trigger] all[xx]).price == pp;
                assert(b.lv(b.all_levels()[xx]).price == pp);
            }
        }
        assert(b.order_index_ok()) by {
            reveal(OrderBook::order_index_ok);
            assert(a.order_index_ok()) by {
                reveal(OrderBook::wf_except);
            }
            assert forall|id: u64| #[trigger] b.order_index@.contains_key(id) implies {
                let e = b.order_index@[id];
                &&& b.nd(e.node_idx).order == a.nd(e.node_idx).order
                &&& b.queues@[b.price_index@[e.price]].contains(e.node_idx)
            } by {
                let e = a.order_index@[id];
                assert(a.order_index@.contains_key(id));
                assert(e.node_idx != node);
                let lp = a.price_index@[e.price];
                if lp == l {
                    let kk = choose|kk: int| 0 <= kk < q.len() && q[kk] == e.node_idx;
                    assert(kk != k);
                    let z = if kk < k { kk } else { kk - 1 };
                    assert(b.queues@[l][z] == e.node_idx);
                }
            }
        }
        assert(a.level_arena.wf() && a.price_index.wf() && a.level_arena.nodes@.len() == MAX_PRICE_LEVELS
            && a.order_arena.capacity == MAX_ARENA_ORDERS) by {
            reveal(OrderBook::wf_except);
        }
        assert forall|j: int| 0 <= j < a.level_arena.nodes@.len() implies (#[trigger] b.level_arena.nodes@[j]).active
            == a.level_arena.nodes@[j].active && b.level_arena.nodes@[j].next_free == a.level_arena.nodes@[j].next_free by {}
        lemma_level_arena_same_links(&a.level_arena, &b.level_arena);
        b.lemma_wf_intro(hole);
    }

    /// Takes the order in `node`, the `k`-th of level `level_idx` (position `i` of side
    /// `s`), out of its queue, frees its node and removes its index entries.
    #[verifier::spinoff_prover]
    #[verifier::rlimit(100)]
    fn unqueue(&mut self, node: u32, level_idx: u32, s: bool, Ghost(i): Ghost<int>, Ghost(k): Ghost<int>)
        requires
            old(self).wf(),
            0 <= i < old(self).ladder(s).len(),
            old(self).ladder(s)[i] == level_idx,
            0 <= k < old(self).queues@[level_idx].len(),
            old(self).queues@[level_idx][k] == node,
        ensures
            final(self).wf_except(Some(level_idx)),
            final(self).ladder(s) == old(self).ladder(s),
            final(self).ladder(!s) == old(self).ladder(!s),
            final(self).symbol == old(self).symbol,
            final(self).queues@[level_idx].len() == old(self).queues@[level_idx].len() - 1,
            ({
                let st = old(self).state();
                let side = side_of(st, s);
                let o = old(self).nd(node).order;
                final(self).state() == BookState {
                    order_free: seq![node] + st.order_free,
                    order_index: st.order_index.remove(o.id),
                    client_index: st.client_index.remove((o.user_id, o.client_order_id)),
                    ..with_side(st, s, side.update(i, LevelState { queue: side[i].queue.remove(k), ..side[i] }))
                }
            }),
    {
        let ghost a = *self;
        proof {
            a.lemma_level_facts(None, s, i);
            a.lemma_sizes(None);
            a.lemma_wf_parts(None);
            a.lemma_queued_active(None, s, i, k);
            let q = a.queues@[level_idx];
            if k > 0 {
                a.lemma_queued_active(None, s, i, k - 1);
            }
            if k + 1 < q.len() {
                a.lemma_queued_active(None, s, i, k + 1);
            }
            assert(a.queue_ok(level_idx, s)) by {
                reveal(OrderBook::ladder_ok);
            }
            assert(a.nd(node).prev == (if k == 0 { NULL_IDX } else { q[k - 1] }) && a.nd(node).next == (if k + 1
                < q.len() {
                q[k + 1]
            } else {
                NULL_IDX
            })) by {
                reveal(OrderBook::queue_ok);
            }
        }
        let ord = self.order_arena.nodes[node as usize].order;
        let mut lvn = self.level_arena.nodes[level_idx as usize];
        lvn.unlink_order(node, &mut self.order_arena);
        self.level_arena.nodes.set(level_idx as usize, lvn);
        proof {
            lemma_arena_same_links(&a.order_arena, &self.order_arena);
        }
        self.order_arena.deallocate(node);
        self.order_index.remove(ord.id);
        self.client_order_index.remove(ord.user_id, ord.client_order_id);
        proof {
            self.queues@ = self.queues@.insert(level_idx, a.queues@[level_idx].remove(k));
            assert(Self::unqueue_rel(&a, self, s, i, k)) by {
                reveal(OrderBook::unqueue_rel);
            }
            Self::lemma_unqueue_wf(&a, self, s, i, k);
        }
    }

    /// A level that is not empty fills the hole.
    proof fn lemma_fill_hole(&self, l: u32)
        requires
            self.wf_except(Some(l)),
            self.queues@[l].len() > 0,
        ensures
            self.wf(),
    {
        assert(self.levels_nonempty(None)) by {
            reveal(OrderBook::wf_except);
            reveal(OrderBook::levels_nonempty);
        }
        self.lemma_wf_parts(Some(l));
        self.lemma_wf_intro(None);
    }

    /// Where the order under index entry `id` rests: position `i` of the level on its
    /// side and position `k` in that level's queue.
    #[verifier::spinoff_prover]
    #[verifier::rlimit(100)]
    proof fn lemma_entry_location(&self, id: u64) -> (r: (int, int))
        requires
            self.wf(),
            self.order_index@.contains_key(id),
        ensures
            ({
                let e = self.order_index@[id];
                let s = e.side == 1;
                let (i, k) = r;
                let l = self.price_index@[e.price];
                &&& self.price_index@.contains_key(e.price)
                &&& 0 <= i < self.ladder(s).len()
                &&& self.ladder(s)[i] == l
                &&& 0 <= k < self.queues@[l].len()
                &&& self.queues@[l][k] == e.node_idx
                &&& (e.node_idx as int) < MAX_ARENA_ORDERS
                &&& self.nd(e.node_idx).active
                &&& self.nd(e.node_idx).order.id == id
                &&& e.order_id == id
                &&& self.nd(e.node_idx).order.user_id == e.user_id
                &&& self.nd(e.node_idx).order.client_order_id == e.client_order_id
                &&& self.lv(l).price == e.price
                &&& level_pos(side_of(self.state(), s), l) == i
                &&& node_pos(side_of(self.state(), s)[i].queue, e.node_idx) == k
                &&& side_of(self.state(), s)[i].queue[k].order == self.nd(e.node_idx).order
            }),
    {
        let e = self.order_index@[id];
        assert(self.order_index_ok() && self.price_index_ok()) by {
            reveal(OrderBook::wf_except);
        }
        assert(self.price_index@.contains_key(e.price) && self.queues@[self.price_index@[e.price]].contains(e.node_idx)
            && self.nd(e.node_idx).order.id == id && e.order_id == id && (e.node_idx as int) < MAX_ARENA_ORDERS
            && self.nd(e.node_idx).order.side == e.side && self.nd(e.node_idx).order.user_id == e.user_id
            && self.nd(e.node_idx).order.client_order_id == e.client_order_id && self.nd(e.node_idx).order.price == e.price) by {
            reveal(OrderBook::order_index_ok);
        }
        let l = self.price_index@[e.price];
        let all = self.all_levels();
        assert(exists|x: int| 0 <= x < all.len() && self.lv(#[trigger] all[x]).price == e.price) by {
            reveal(OrderBook::price_index_ok);
        }
        let x = choose|x: int| 0 <= x < all.len() && self.lv(#[trigger] all[x]).price == e.price;
        assert(self.price_index@[self.lv(all[x]).price] == all[x]) by {
            reveal(OrderBook::price_index_ok);
        }
        assert(all[x] == l);
        let nb = self.bid_levels@.len() as int;
        let (s2, i) = if x < nb { (false, x) } else { (true, x - nb) };
        assert(self.ladder(s2)[i] == l);
        let k = choose|k: int| 0 <= k < self.queues@[l].len() && self.queues@[l][k] == e.node_idx;
        self.lemma_queued_active(None, s2, i, k);
        assert(self.queue_ok(l, s2)) by {
            reveal(OrderBook::wf_except);
            reveal(OrderBook::ladder_ok);
        }
        assert((self.nd(e.node_idx).order.side == 1) == s2 && self.queues@[l].no_duplicates()) by {
            reveal(OrderBook::queue_ok);
        }
        let s = e.side == 1;
        assert(s == s2);
        self.lemma_best(None, s);
        self.lemma_level_facts(None, s, i);
        self.lemma_levels_distinct(None);
        let own = side_of(self.state(), s);
        assert forall|j: int| 0 <= j < i implies (#[trigger] own[j]).idx != l by {
            self.lemma_level_facts(None, s, j);
        }
        lemma_level_pos(own, l, i);
        let q = own[i].queue;
        assert forall|j: int| 0 <= j < k implies (#[trigger] q[j]).node != e.node_idx by {
            assert(self.queues@[l][j] != self.queues@[l][k]);
        }
        lemma_node_pos(q, e.node_idx, k);
        (i, k)
    }

    /// Cancels order `order_id` (an exchange id, or else the user's client order id) on
    /// behalf of `requesting_user_id`, who must own it; returns the order as it rested.
    #[verifier::spinoff_prover]
    #[verifier::rlimit(100)]
    pub fn cancel_order(&mut self, requesting_user_id: u64, order_id: u64) -> (r: Result<Order, RejectReason>)
        requires
            old(self).wf(),
        ensures
            final(self).wf(),
            final(self).spec_symbol() == old(self).spec_symbol(),
            (final(self).state(), r) == spec_cancel(old(self).state(), requesting_user_id, order_id),
    {
        let ghost a = *self;
        proof {
            assert(self.order_index.wf() && self.client_order_index.wf() && self.price_index.wf()) by {
                reveal(OrderBook::wf_except);
            }
        }
        let entry = if let Some(e) = self.order_index.lookup(order_id) {
            e
        } else if let Some(exchange_id) = self.client_order_index.lookup(requesting_user_id, order_id) {
            match self.order_index.lookup(exchange_id) {
                Some(e) => e,
                None => {
                    return Err(RejectReason::OrderNotFound);
                },
            }
        } else {
            return Err(RejectReason::OrderNotFound);
        };
        if entry.user_id != requesting_user_id {
            return Err(RejectReason::Unauthorized);
        }
        let ghost id = entry.order_id;
        let ghost loc = (0int, 0int);
        proof {
            assert(a.order_index@.contains_key(entry.order_id) && a.order_index@[entry.order_id] == entry) by {
                assert(a.order_index_ok()) by {
                    reveal(OrderBook::wf_except);
                }
                reveal(OrderBook::order_index_ok);
            }
            loc = a.lemma_entry_location(entry.order_id);
            a.lemma_sizes(None);
        }
        let node = self.order_arena.nodes[entry.node_idx as usize];
        if !node.active || node.order.id != entry.order_id {
            self.order_index.remove(entry.order_id);
            self.client_order_index.remove(entry.user_id, entry.client_order_id);
            return Err(RejectReason::OrderNotFound);
        }
        let cancelled_order = node.order;
        let is_sell = entry.side == Side::Sell.code();
        let level_idx = match self.price_index.lookup(entry.price) {
            Some(l) => l,
            None => {
                self.order_arena.deallocate(entry.node_idx);
                self.order_index.remove(entry.order_id);
                self.client_order_index.remove(entry.user_id, entry.client_order_id);
                return Ok(cancelled_order);
            },
        };
        let ghost i = loc.0;
        let ghost k = loc.1;
        let ghost st = a.state();
        let ghost own = side_of(st, is_sell);
        proof {
            a.lemma_best(None, is_sell);
            assert(cancel_target(st, requesting_user_id, order_id) == Some(entry));
            assert(level_pos(own, level_idx) == i);
            assert(node_pos(own[i].queue, entry.node_idx) == k);
            assert(own[i].queue[k].order == cancelled_order);
            assert(own[i].idx == level_idx && own[i].price == entry.price) by {
                a.lemma_level_facts(None, is_sell, i);
            }
        }
        self.unqueue(entry.node_idx, level_idx, is_sell, Ghost(i), Ghost(k));
        let ghost b = *self;
        proof {
            b.lemma_level_facts(Some(level_idx), is_sell, i);
            b.lemma_sizes(Some(level_idx));
            assert(side_of(b.state(), is_sell)[i].queue.len() == b.queues@[level_idx].len());
        }
        if self.level_arena.nodes[level_idx as usize].is_empty() {
            self.drop_level(level_idx, is_sell, Ghost(i));
            proof {
                let side_u = own.update(i, LevelState { queue: own[i].queue.remove(k), ..own[i] });
                assert(side_u.remove(i) =~= own.remove(i));
                assert(own[i].queue.remove(k).len() == 0);
                assert((self.state(), Ok::<Order, RejectReason>(cancelled_order)) == spec_cancel(st, requesting_user_id, order_id));
            }
        } else {
            proof {
                b.lemma_fill_hole(level_idx);
                assert(own[i].queue.remove(k).len() > 0);
                assert((self.state(), Ok::<Order, RejectReason>(cancelled_order)) == spec_cancel(st, requesting_user_id, order_id));
            }
        }
        Ok(cancelled_order)
    }

    /// Every well-formed book is well-formed with a hole.
    proof fn lemma_hole_weaken(&self, l: u32)
        requires
            self.wf(),
        ensures
            self.wf_except(Some(l)),
    {
        assert(self.levels_nonempty(Some(l))) by {
            reveal(OrderBook::wf_except);
            reveal(OrderBook::levels_nonempty);
        }
        self.lemma_wf_parts(None);
        self.lemma_wf_intro(Some(l));
    }

    /// The best level index of side `s`.
    fn best_of(&self, s: bool) -> (r: u32)
        ensures
            r == self.best(s),
    {
        if s {
            self.best_ask
        } else {
            self.best_bid
        }
    }

    /// Processes one order: a cancel request, or a new order that is stamped with an id,
    /// matched against the opposite side best price first and oldest first at each price
    /// (stopping at its limit, at the slippage bound of a market order, or at an order
    /// of the same user), and, when it is a limit order, rested with what is left.
    /// Trades are appended to `trades`.
    #[verifier::spinoff_prover]
    #[verifier::rlimit(100)]
    pub fn process(&mut self, order: Order, client_id: u64, trades: &mut Vec<Trade>) -> (r: Result<ExecutionReport, RejectReason>)
        requires
            old(self).wf(),
            process_ok(old(self).state(), order),
        ensures
            final(self).wf(),
            final(self).spec_symbol() == old(self).spec_symbol(),
            final(self).state() == spec_process(old(self).state(), order, client_id).state,
            final(trades)@ == old(trades)@ + spec_process(old(self).state(), order, client_id).trades,
            report_view(r) == spec_process(old(self).state(), order, client_id).result,
    {
        let ghost st = self.state();
        let ghost order0 = order;
        let mut order = order;
        let order_type = order.kind();
        if order_type == OrderType::Cancel {
            let target_id = if order.id != 0 { order.id } else { order.client_order_id };
            let cancelled = match self.cancel_order(order.user_id, target_id) {
                Ok(o) => o,
                Err(e) => {
                    return Err(e);
                },
            };
            proof {
                assert(trades@ =~= old(trades)@ + Seq::<Trade>::empty());
            }
            return Ok(ExecutionReport { executed_qty: 0, remaining_qty: cancelled.qty, stp_triggered: false });
        }
        let ghost pre = *self;
        if order.id == 0 {
            order.id = self.order_id_counter;
            self.order_id_counter = self.order_id_counter + 1;
        } else {
            self.order_id_counter = if self.order_id_counter >= order.id + 1 {
                self.order_id_counter
            } else {
                order.id + 1
            };
        }
        proof {
            self.lemma_wf_frame(&pre, None);
        }
        let is_sell = order.side == Side::Sell.code();
        let opp = !is_sell;
        let requested_qty = order.qty;
        let mut stp_triggered = false;
        let ghost o1 = order;
        let ghost s0 = self.state();
        let ghost c = client_id;
        let ghost kind = order_type;
        let ghost trades0 = trades@;
        let ghost sm0 = match_side(side_of(s0, opp), o1, kind, is_sell, c, s0.trade_ctr as int);
        let ghost mut acc_t: Seq<Trade> = Seq::empty();
        let ghost mut acc_f: Seq<Resting> = Seq::empty();
        let ghost mut acc_r: Seq<LevelState> = Seq::empty();
        proof {
            assert(s0 == BookState { order_ctr: stamp(order, st.order_ctr).1, ..st });
            assert(o1 == stamp(order0, st.order_ctr).0);
            assert(push_nodes(s0.order_free, acc_f) == s0.order_free);
            assert(push_levels(s0.level_free, acc_r) == s0.level_free);
            assert(remove_ids(s0.order_index, acc_f) == s0.order_index);
            assert(remove_clients(s0.client_index, acc_f) == s0.client_index);
            assert(remove_prices(s0.price_index, acc_r) == s0.price_index);
            assert(with_side(s0, opp, side_of(s0, opp)) == s0);
            assert(sm0.trades =~= acc_t + sm0.trades);
            assert(sm0.filled =~= acc_f + sm0.filled);
            assert(sm0.removed =~= acc_r + sm0.removed);
            assert(trades0 + acc_t =~= trades0);
            self.lemma_best(None, opp);
        }
        loop
            invariant_except_break
                side_progress(sm0, side_of(self.state(), opp), order, kind, is_sell, c, self.state().trade_ctr as int, acc_t, acc_f, acc_r),
                !stp_triggered,
            invariant
                self.wf(),
                self.symbol == old(self).symbol,
                s0.trade_ctr == st.trade_ctr,
                s0.order_free == st.order_free,
                trade_budget(st) + 1 < u64::MAX,
                order == with_qty(o1, order.qty),
                order.qty <= o1.qty,
                opp == !is_sell,
                kind == order_type,
                c == client_id,
                sm0 == match_side(side_of(s0, opp), o1, kind, is_sell, c, s0.trade_ctr as int),
                self.state() == side_mid(s0, side_of(self.state(), opp), o1, acc_t, acc_f, acc_r, is_sell),
                self.state().trade_ctr == s0.trade_ctr + acc_t.len(),
                trades@ == trades0 + acc_t,
                order.qty > 0 ==> trade_budget(self.state()) <= trade_budget(s0),
                self.best(opp) == NULL_IDX <==> side_of(self.state(), opp).len() == 0,
            ensures
                sm0 == (SideMatch {
                    levels: side_of(self.state(), opp),
                    incoming: order,
                    trades: acc_t,
                    stp: stp_triggered,
                    filled: acc_f,
                    removed: acc_r,
                }),
                !stp_triggered ==> (order.qty == 0 || side_of(self.state(), opp).len() == 0 || stops_at(
                    side_of(self.state(), opp)[0].price,
                    order,
                    kind,
                    is_sell,
                )),
            decreases side_of(self.state(), opp).len() + order.qty,
        {
            if !(order.qty > 0 && self.best_of(opp) != NULL_IDX) {
                proof {
                    lemma_side_done(sm0, side_of(self.state(), opp), order, kind, is_sell, c, self.state().trade_ctr as int, acc_t, acc_f, acc_r);
                }
                break;
            }
            let ghost p = *self;
            let ghost lvls = side_of(p.state(), opp);
            let ghost inc = order;
            let best_idx = self.best_of(opp);
            proof {
                p.lemma_best(None, opp);
                p.lemma_level_facts(None, opp, 0);
                assert(lvls.len() > 0);
            }
            let best_price = self.level_arena.nodes[best_idx as usize].price;
            let beyond = if is_sell { best_price < order.price } else { best_price > order.price };
            if order_type == OrderType::Limit && beyond {
                proof {
                    assert(stops_at(lvls[0].price, inc, kind, is_sell));
                    lemma_side_done(sm0, lvls, order, kind, is_sell, c, self.state().trade_ctr as int, acc_t, acc_f, acc_r);
                }
                break;
            }
            if order_type == OrderType::Market && order.price > 0 && beyond {
                proof {
                    assert(stops_at(lvls[0].price, inc, kind, is_sell));
                    lemma_side_done(sm0, lvls, order, kind, is_sell, c, self.state().trade_ctr as int, acc_t, acc_f, acc_r);
                }
                break;
            }
            proof {
                assert(!stops_at(lvls[0].price, inc, kind, is_sell));
                p.lemma_hole_weaken(best_idx);
            }
            let stp = self.match_level(&mut order, client_id, opp, trades);
            let ghost qm = match_queue(lvls[0].queue, inc, c, p.state().trade_ctr as int);
            let ghost b = *self;
            proof {
                b.lemma_level_facts(Some(best_idx), opp, 0);
                b.lemma_sizes(Some(best_idx));
                lemma_match_queue_end(lvls[0].queue, inc, c, p.state().trade_ctr as int);
            }
            if self.level_arena.nodes[best_idx as usize].is_empty() {
                self.drop_level(best_idx, opp, Ghost(0));
                proof {
                    lemma_side_step_drop(s0, sm0, lvls, inc, o1, kind, is_sell, c, acc_t, acc_f, acc_r);
                    acc_t = acc_t + qm.trades;
                    acc_f = acc_f + qm.filled;
                    acc_r = acc_r.push(lvls[0]);
                }
            } else {
                proof {
                    b.lemma_fill_hole(best_idx);
                    lemma_side_step_keep(s0, sm0, lvls, inc, o1, kind, is_sell, c, acc_t, acc_f, acc_r);
                    acc_t = acc_t + qm.trades;
                    acc_f = acc_f + qm.filled;
                }
            }
            proof {
                self.lemma_best(None, opp);
            }
            if stp {
                stp_triggered = true;
                break;
            }
        }
        let executed_qty = requested_qty.saturating_sub(order.qty);
        proof {
            self.lemma_best(None, opp);
            let sm = sm0;
            assert(self.state() == after_match(s0, sm, is_sell));
            assert(side_of(self.state(), is_sell) == side_of(st, is_sell));
            assert(executed_qty == (o1.qty - sm.incoming.qty) as u64);
            assert(spec_process(st, order0, client_id).trades == acc_t);
            lemma_rest_executed(self.state(), order, client_id, is_sell, executed_qty);
            if order_type == OrderType::Limit {
                assert forall|j: int| 0 <= j < side_of(self.state(), is_sell).len() && (#[trigger] side_of(self.state(), is_sell)[j]).price
                    == order.price implies queue_qty(side_of(self.state(), is_sell)[j].queue) + order.qty <= u64::MAX by {
                    assert(side_of(st, is_sell)[j].price == order0.price);
                }
            }
        }
        if stp_triggered {
            return Ok(ExecutionReport { executed_qty, remaining_qty: order.qty, stp_triggered: true });
        }
        if order_type == OrderType::Market {
            return Ok(ExecutionReport { executed_qty, remaining_qty: order.qty, stp_triggered: false });
        }
        if order.qty > 0 && order_type == OrderType::Limit {
            match self.rest_order(order, client_id, is_sell) {
                Ok(()) => {},
                Err(e) => {
                    return Err(e);
                },
            }
        }
        Ok(ExecutionReport { executed_qty, remaining_qty: order.qty, stp_triggered: false })
    }

    pub closed spec fn spec_symbol(&self) -> Symbol {
        self.symbol
    }

    pub closed spec fn spec_trade_ctr(&self) -> u64 {
        self.trade_id_counter
    }

    #[verifier::rlimit(60)]
    pub fn new(symbol: Symbol) -> (r: Self)
        ensures
            r.wf(),
            r.spec_symbol() == symbol,
            r.state() == empty_book_state(),
            r.order_index.wf() && r.order_index@ == Map::<u64, FastIndexEntry>::empty(),
            r.client_order_index.wf() && r.client_order_index@ == Map::<(u64, u64), u64>::empty(),
            r.order_arena.wf() && r.order_arena.active_count == 0,
            r.order_arena.capacity == MAX_ARENA_ORDERS,
    {
        let r = OrderBook {
            symbol,
            best_bid: NULL_IDX,
            best_ask: NULL_IDX,
            price_index: FastPriceIndex::new(),
            level_arena: PriceLevelArena::new(MAX_PRICE_LEVELS),
            order_arena: OrderArena::new(MAX_ARENA_ORDERS),
            order_index: FastOrderIndex::new(),
            client_order_index: FastClientIndex::new(),
            trade_id_counter: 1,
            order_id_counter: 1,
            bid_levels: Ghost(Seq::empty()),
            ask_levels: Ghost(Seq::empty()),
            queues: Ghost(Map::empty()),
        };
        proof {
            r.lemma_empty_wf();
        }
        r
    }

    /// Hands out the next exchange order id.
    pub fn next_order_id(&mut self) -> (r: u64)
        requires
            old(self).wf(),
            old(self).state().order_ctr < u64::MAX,
        ensures
            final(self).wf(),
            r == old(self).state().order_ctr,
            final(self).state() == (BookState { order_ctr: (r + 1) as u64, ..old(self).state() }),
            final(self).spec_symbol() == old(self).spec_symbol(),
    {
        let id = self.order_id_counter;
        self.order_id_counter = self.order_id_counter + 1;
        proof {
            self.lemma_wf_frame(old(self), None);
        }
        id
    }

    /// Best bid and best ask as (price, total quantity).
    pub fn get_bbo(&self) -> (r: (Option<(u64, u64)>, Option<(u64, u64)>))
        requires
            self.wf(),
        ensures
            r.0 == (if self.state().bids.len() == 0 {
                None::<(u64, u64)>
            } else {
                Some((self.state().bids[0].price, queue_qty(self.state().bids[0].queue) as u64))
            }),
            r.1 == (if self.state().asks.len() == 0 {
                None::<(u64, u64)>
            } else {
                Some((self.state().asks[0].price, queue_qty(self.state().asks[0].queue) as u64))
            }),
    {
        proof {
            self.lemma_best(None, false);
            self.lemma_best(None, true);
            if self.bid_levels@.len() > 0 {
                self.lemma_level_facts(None, false, 0);
            }
            if self.ask_levels@.len() > 0 {
                self.lemma_level_facts(None, true, 0);
            }
        }
        let best_bid = if self.best_bid != NULL_IDX {
            let node = &self.level_arena.nodes[self.best_bid as usize];
            Some((node.price, node.total_qty))
        } else {
            None
        };
        let best_ask = if self.best_ask != NULL_IDX {
            let node = &self.level_arena.nodes[self.best_ask as usize];
            Some((node.price, node.total_qty))
        } else {
            None
        };
        (best_bid, best_ask)
    }

    /// Walks one side from its best level, collecting at most `max_levels` levels.
    fn depth_side(&self, is_sell: bool, max_levels: usize) -> (r: Vec<MarketDepthLevel>)
        requires
            self.wf(),
        ensures
            r@.len() == if side_of(self.state(), is_sell).len() < max_levels {
                side_of(self.state(), is_sell).len() as int
            } else {
                max_levels as int
            },
            forall|i: int|
                0 <= i < r@.len() ==> #[trigger] r@[i] == depth_entry(side_of(self.state(), is_sell)[i]),
    {
        let mut out: Vec<MarketDepthLevel> = Vec::with_capacity(max_levels);
        let mut curr = if is_sell { self.best_ask } else { self.best_bid };
        let ghost lad = self.ladder(is_sell);
        let ghost side = side_of(self.state(), is_sell);
        proof {
            assert(side == self.side_state(is_sell));
            self.lemma_best(None, is_sell);
            if lad.len() > 0 {
                self.lemma_level_facts(None, is_sell, 0);
            }
        }
        while curr != NULL_IDX && out.len() < max_levels
            invariant
                self.wf(),
                lad == self.ladder(is_sell),
                side == self.side_state(is_sell),
                out@.len() <= lad.len(),
                out@.len() <= max_levels,
                curr == (if out@.len() < lad.len() {
                    lad[out@.len() as int]
                } else {
                    NULL_IDX
                }),
                out@.len() < lad.len() ==> curr != NULL_IDX,
                side.len() == lad.len(),
                forall|i: int| 0 <= i < out@.len() ==> #[trigger] out@[i] == depth_entry(side[i]),
            decreases lad.len() - out@.len(),
        {
            let ghost k = out@.len() as int;
            proof {
                self.lemma_level_facts(None, is_sell, k);
            }
            let node = &self.level_arena.nodes[curr as usize];
            out.push(MarketDepthLevel { price: node.price, total_qty: node.total_qty, order_count: node.order_count });
            curr = node.next_level;
            proof {
                if k + 1 < lad.len() {
                    self.lemma_level_facts(None, is_sell, k + 1);
                }
            }
        }
        out
    }

    /// The first `max_levels` levels of each side, best first.
    pub fn get_depth(&self, max_levels: usize) -> (r: (Vec<MarketDepthLevel>, Vec<MarketDepthLevel>))
        requires
            self.wf(),
        ensures
            r.0@.len() == if self.state().bids.len() < max_levels {
                self.state().bids.len() as int
            } else {
                max_levels as int
            },
            forall|i: int| 0 <= i < r.0@.len() ==> #[trigger] r.0@[i] == depth_entry(self.state().bids[i]),
            r.1@.len() == if self.state().asks.len() < max_levels {
                self.state().asks.len() as int
            } else {
                max_levels as int
            },
            forall|i: int| 0 <= i < r.1@.len() ==> #[trigger] r.1@[i] == depth_entry(self.state().asks[i]),
    {
        let bids = self.depth_side(false, max_levels);
        let asks = self.depth_side(true, max_levels);
        (bids, asks)
    }
}

/// An order arena stays well-formed when only the orders and `prev` links of its nodes change.
proof fn lemma_arena_same_links(x: &OrderArena, y: &OrderArena)
    requires
        x.wf(),
        y.free_head == x.free_head,
        y.active_count == x.active_count,
        y.capacity == x.capacity,
        y.free_list == x.free_list,
        y.nodes@.len() == x.nodes@.len(),
        forall|j: int|
            0 <= j < x.nodes@.len() ==> (#[trigger] y.nodes@[j]).active == x.nodes@[j].active && (x.nodes@[j].active
                || y.nodes@[j].next == x.nodes@[j].next),
    ensures
        y.wf(),
{
    assert forall|i: int| 0 <= i < y.free_list@.len() implies y.nodes@[#[trigger] y.free_list@[i] as int].next == x.nodes@[x.free_list@[i] as int].next by {
        let j = y.free_list@[i] as int;
        assert(x.free_list@.contains(y.free_list@[i]));
        assert(!x.nodes@[j].active);
    }
}

/// The invariant of the matching loop of `match_level`: the match of the whole queue
/// is the trades and fills so far followed by the match of what is left.
pub open spec fn match_progress(
    qm0: QueueMatch,
    q: Seq<Resting>,
    inc: Order,
    c: u64,
    tid: int,
    acc_t: Seq<Trade>,
    acc_f: Seq<Resting>,
) -> bool {
    let cur = match_queue(q, inc, c, tid);
    &&& qm0.queue == cur.queue
    &&& qm0.incoming == cur.incoming
    &&& qm0.stp == cur.stp
    &&& qm0.trades == acc_t + cur.trades
    &&& qm0.filled == acc_f + cur.filled
}

/// One step of the matching loop that fills the head order completely.
proof fn lemma_match_step_full(
    st0: BookState,
    s: bool,
    qm0: QueueMatch,
    q: Seq<Resting>,
    inc: Order,
    c: u64,
    acc_t: Seq<Trade>,
    acc_f: Seq<Resting>,
)
    requires
        side_of(st0, s).len() > 0,
        match_progress(qm0, q, inc, c, st0.trade_ctr + acc_t.len(), acc_t, acc_f),
        q.len() > 0,
        inc.qty > 0,
        q[0].order.user_id != inc.user_id,
        q[0].order.qty <= inc.qty,
        st0.trade_ctr + acc_t.len() + 1 <= u64::MAX,
    ensures
        ({
            let mid = OrderBook::after_queue_match(st0, s, QueueMatch { queue: q, incoming: inc, trades: acc_t, stp: false, filled: acc_f });
            let tq = q[0].order.qty;
            let t = make_trade(q[0], inc, c, (st0.trade_ctr + acc_t.len()) as u64, tq);
            let r2 = Resting { order: with_qty(q[0].order, 0), ..q[0] };
            let inc2 = with_qty(inc, (inc.qty - tq) as u64);
            &&& match_progress(qm0, q.drop_first(), inc2, c, st0.trade_ctr + acc_t.len() + 1, acc_t.push(t), acc_f.push(r2))
            &&& OrderBook::after_full_fill(BookState { trade_ctr: (mid.trade_ctr + 1) as u64, ..mid }, s, q[0])
                == OrderBook::after_queue_match(
                st0,
                s,
                QueueMatch { queue: q.drop_first(), incoming: inc, trades: acc_t.push(t), stp: false, filled: acc_f.push(r2) },
            )
        }),
{
    let tid = st0.trade_ctr + acc_t.len();
    let tq = q[0].order.qty;
    let t = make_trade(q[0], inc, c, tid as u64, tq);
    let r2 = Resting { order: with_qty(q[0].order, 0), ..q[0] };
    let inc2 = with_qty(inc, (inc.qty - tq) as u64);
    let rest = match_queue(q.drop_first(), inc2, c, tid + 1);
    assert(min_u64(inc.qty, q[0].order.qty) == tq);
    assert(match_queue(q, inc, c, tid).trades == seq![t] + rest.trades);
    assert(acc_t + (seq![t] + rest.trades) =~= acc_t.push(t) + rest.trades);
    assert(acc_f + (seq![r2] + rest.filled) =~= acc_f.push(r2) + rest.filled);
    assert(acc_f.push(r2).drop_last() =~= acc_f);
    let side = side_of(st0, s);
    assert(side.update(0, LevelState { queue: q, ..side[0] }).update(0, LevelState { queue: q.drop_first(), ..side[0] })
        =~= side.update(0, LevelState { queue: q.drop_first(), ..side[0] }));
}

/// One step of the matching loop that fills the incoming order completely against a
/// larger head order.
proof fn lemma_match_step_partial(
    st0: BookState,
    s: bool,
    qm0: QueueMatch,
    q: Seq<Resting>,
    inc: Order,
    c: u64,
    acc_t: Seq<Trade>,
    acc_f: Seq<Resting>,
)
    requires
        side_of(st0, s).len() > 0,
        match_progress(qm0, q, inc, c, st0.trade_ctr + acc_t.len(), acc_t, acc_f),
        q.len() > 0,
        inc.qty > 0,
        q[0].order.user_id != inc.user_id,
        q[0].order.qty > inc.qty,
        st0.trade_ctr + acc_t.len() + 1 <= u64::MAX,
    ensures
        ({
            let mid = OrderBook::after_queue_match(st0, s, QueueMatch { queue: q, incoming: inc, trades: acc_t, stp: false, filled: acc_f });
            let tq = inc.qty;
            let t = make_trade(q[0], inc, c, (st0.trade_ctr + acc_t.len()) as u64, tq);
            let r2 = Resting { order: with_qty(q[0].order, (q[0].order.qty - tq) as u64), ..q[0] };
            let inc2 = with_qty(inc, 0);
            let side2 = side_of(mid, s);
            &&& match_progress(qm0, q.update(0, r2), inc2, c, st0.trade_ctr + acc_t.len() + 1, acc_t.push(t), acc_f)
            &&& with_side(
                BookState { trade_ctr: (mid.trade_ctr + 1) as u64, ..mid },
                s,
                side2.update(0, LevelState { queue: side2[0].queue.update(0, r2), ..side2[0] }),
            ) == OrderBook::after_queue_match(
                st0,
                s,
                QueueMatch { queue: q.update(0, r2), incoming: inc, trades: acc_t.push(t), stp: false, filled: acc_f },
            )
        }),
{
    let tid = st0.trade_ctr + acc_t.len();
    let tq = inc.qty;
    let t = make_trade(q[0], inc, c, tid as u64, tq);
    let r2 = Resting { order: with_qty(q[0].order, (q[0].order.qty - tq) as u64), ..q[0] };
    assert(min_u64(inc.qty, q[0].order.qty) == tq);
    let inc2 = with_qty(inc, 0);
    assert(match_queue(q.update(0, r2), inc2, c, tid + 1).trades.len() == 0);
    assert(acc_t + seq![t] =~= acc_t.push(t) + Seq::<Trade>::empty());
    assert(acc_f + Seq::<Resting>::empty() =~= acc_f);
    let side = side_of(st0, s);
    assert(side.update(0, LevelState { queue: q, ..side[0] }).update(0, LevelState { queue: q.update(0, r2), ..side[0] })
        =~= side.update(0, LevelState { queue: q.update(0, r2), ..side[0] }));
}

/// The invariant of the matching loop of `process`: the match of the whole opposite side
/// is the trades, fills and emptied levels so far followed by the match of what is left.
pub open spec fn side_progress(
    sm0: SideMatch,
    levels: Seq<LevelState>,
    inc: Order,
    kind: OrderType,
    is_sell: bool,
    c: u64,
    tid: int,
    acc_t: Seq<Trade>,
    acc_f: Seq<Resting>,
    acc_r: Seq<LevelState>,
) -> bool {
    let cur = match_side(levels, inc, kind, is_sell, c, tid);
    &&& sm0.levels == cur.levels
    &&& sm0.incoming == cur.incoming
    &&& sm0.stp == cur.stp
    &&& sm0.trades == acc_t + cur.trades
    &&& sm0.filled == acc_f + cur.filled
    &&& sm0.removed == acc_r + cur.removed
}

/// The book part way through matching: what is left of the opposite side, and the
/// trades, fills and emptied levels so far.
pub open spec fn side_mid(
    s0: BookState,
    levels: Seq<LevelState>,
    inc: Order,
    acc_t: Seq<Trade>,
    acc_f: Seq<Resting>,
    acc_r: Seq<LevelState>,
    is_sell: bool,
) -> BookState {
    after_match(s0, SideMatch { levels, incoming: inc, trades: acc_t, stp: false, filled: acc_f, removed: acc_r }, is_sell)
}

/// A queue match that stops with the queue non-empty and without self-trade prevention
/// has used up the incoming order; self-trade prevention leaves the queue non-empty.
proof fn lemma_match_queue_end(q: Seq<Resting>, inc: Order, c: u64, tid: int)
    ensures
        match_queue(q, inc, c, tid).queue.len() > 0 && !match_queue(q, inc, c, tid).stp ==> match_queue(q, inc, c, tid).incoming.qty == 0,
        match_queue(q, inc, c, tid).stp ==> match_queue(q, inc, c, tid).queue.len() > 0,
        match_queue(q, inc, c, tid).incoming.qty <= inc.qty,
        match_queue(q, inc, c, tid).trades.len() <= q.len() + 1,
        inc.qty > 0 && q.len() > 0 && !match_queue(q, inc, c, tid).stp ==> match_queue(q, inc, c, tid).trades.len() > 0
            || match_queue(q, inc, c, tid).queue.len() > 0,
    decreases q.len(),
{
    if inc.qty == 0 || q.len() == 0 {
    } else if q[0].order.user_id == inc.user_id {
    } else {
        let r = q[0];
        let tq = min_u64(inc.qty, r.order.qty);
        let inc2 = with_qty(inc, (inc.qty - tq) as u64);
        lemma_match_queue_end(q.drop_first(), inc2, c, tid + 1);
    }
}

/// One step of the matching loop that empties the best level.
proof fn lemma_side_step_drop(
    s0: BookState,
    sm0: SideMatch,
    levels: Seq<LevelState>,
    inc: Order,
    o1: Order,
    kind: OrderType,
    is_sell: bool,
    c: u64,
    acc_t: Seq<Trade>,
    acc_f: Seq<Resting>,
    acc_r: Seq<LevelState>,
)
    requires
        side_progress(sm0, levels, inc, kind, is_sell, c, s0.trade_ctr + acc_t.len(), acc_t, acc_f, acc_r),
        levels.len() > 0,
        inc.qty > 0,
        !stops_at(levels[0].price, inc, kind, is_sell),
        match_queue(levels[0].queue, inc, c, s0.trade_ctr + acc_t.len()).queue.len() == 0,
        s0.trade_ctr + acc_t.len() + match_queue(levels[0].queue, inc, c, s0.trade_ctr + acc_t.len()).trades.len() <= u64::MAX,
    ensures
        ({
            let tid = s0.trade_ctr + acc_t.len();
            let qm = match_queue(levels[0].queue, inc, c, tid);
            let opp = !is_sell;
            let p = side_mid(s0, levels, o1, acc_t, acc_f, acc_r, is_sell);
            &&& !qm.stp
            &&& side_progress(
                sm0,
                levels.drop_first(),
                qm.incoming,
                kind,
                is_sell,
                c,
                tid + qm.trades.len(),
                acc_t + qm.trades,
                acc_f + qm.filled,
                acc_r.push(levels[0]),
            )
            &&& OrderBook::after_drop_level(OrderBook::after_queue_match(p, opp, qm), opp, 0) == side_mid(
                s0,
                levels.drop_first(),
                o1,
                acc_t + qm.trades,
                acc_f + qm.filled,
                acc_r.push(levels[0]),
                is_sell,
            )
        }),
{
    let tid = s0.trade_ctr + acc_t.len();
    let qm = match_queue(levels[0].queue, inc, c, tid);
    lemma_match_queue_end(levels[0].queue, inc, c, tid);
    let rest = match_side(levels.drop_first(), qm.incoming, kind, is_sell, c, tid + qm.trades.len());
    assert(acc_t + (qm.trades + rest.trades) =~= (acc_t + qm.trades) + rest.trades);
    assert(acc_f + (qm.filled + rest.filled) =~= (acc_f + qm.filled) + rest.filled);
    assert(acc_r + (seq![levels[0]] + rest.removed) =~= acc_r.push(levels[0]) + rest.removed);
    let opp = !is_sell;
    let p = side_mid(s0, levels, o1, acc_t, acc_f, acc_r, is_sell);
    lemma_push_nodes_add(s0.order_free, acc_f, qm.filled);
    lemma_remove_ids_add(s0.order_index, acc_f, qm.filled);
    lemma_remove_clients_add(s0.client_index, acc_f, qm.filled);
    assert(acc_r.push(levels[0]).drop_last() =~= acc_r);
    let lv2 = levels.update(0, LevelState { queue: qm.queue, ..levels[0] });
    assert(lv2.remove(0) =~= levels.drop_first());
}

/// The step of the matching loop that leaves the best level non-empty, which ends matching.
proof fn lemma_side_step_keep(
    s0: BookState,
    sm0: SideMatch,
    levels: Seq<LevelState>,
    inc: Order,
    o1: Order,
    kind: OrderType,
    is_sell: bool,
    c: u64,
    acc_t: Seq<Trade>,
    acc_f: Seq<Resting>,
    acc_r: Seq<LevelState>,
)
    requires
        side_progress(sm0, levels, inc, kind, is_sell, c, s0.trade_ctr + acc_t.len(), acc_t, acc_f, acc_r),
        levels.len() > 0,
        inc.qty > 0,
        !stops_at(levels[0].price, inc, kind, is_sell),
        match_queue(levels[0].queue, inc, c, s0.trade_ctr + acc_t.len()).queue.len() > 0,
        s0.trade_ctr + acc_t.len() + match_queue(levels[0].queue, inc, c, s0.trade_ctr + acc_t.len()).trades.len() <= u64::MAX,
    ensures
        ({
            let tid = s0.trade_ctr + acc_t.len();
            let qm = match_queue(levels[0].queue, inc, c, tid);
            let opp = !is_sell;
            let p = side_mid(s0, levels, o1, acc_t, acc_f, acc_r, is_sell);
            let lv2 = levels.update(0, LevelState { queue: qm.queue, ..levels[0] });
            &&& sm0.levels == lv2
            &&& sm0.incoming == qm.incoming
            &&& sm0.stp == qm.stp
            &&& sm0.trades == acc_t + qm.trades
            &&& sm0.filled == acc_f + qm.filled
            &&& sm0.removed == acc_r
            &&& !qm.stp ==> qm.incoming.qty == 0
            &&& OrderBook::after_queue_match(p, opp, qm) == side_mid(s0, lv2, o1, acc_t + qm.trades, acc_f + qm.filled, acc_r, is_sell)
        }),
{
    let tid = s0.trade_ctr + acc_t.len();
    let qm = match_queue(levels[0].queue, inc, c, tid);
    lemma_match_queue_end(levels[0].queue, inc, c, tid);
    assert(acc_r + Seq::<LevelState>::empty() =~= acc_r);
    lemma_push_nodes_add(s0.order_free, acc_f, qm.filled);
    lemma_remove_ids_add(s0.order_index, acc_f, qm.filled);
    lemma_remove_clients_add(s0.client_index, acc_f, qm.filled);
}

/// Matching is over when the incoming order is used up, the opposite side is empty or
/// its best level stops the order.
proof fn lemma_side_done(
    sm0: SideMatch,
    levels: Seq<LevelState>,
    inc: Order,
    kind: OrderType,
    is_sell: bool,
    c: u64,
    tid: int,
    acc_t: Seq<Trade>,
    acc_f: Seq<Resting>,
    acc_r: Seq<LevelState>,
)
    requires
        side_progress(sm0, levels, inc, kind, is_sell, c, tid, acc_t, acc_f, acc_r),
        inc.qty == 0 || levels.len() == 0 || stops_at(levels[0].price, inc, kind, is_sell),
    ensures
        sm0 == (SideMatch { levels, incoming: inc, trades: acc_t, stp: false, filled: acc_f, removed: acc_r }),
{
    assert(acc_t + Seq::<Trade>::empty() =~= acc_t);
    assert(acc_f + Seq::<Resting>::empty() =~= acc_f);
    assert(acc_r + Seq::<LevelState>::empty() =~= acc_r);
}

/// The depth line of a level: its price, total quantity and number of orders.
pub open spec fn depth_entry(l: LevelState) -> MarketDepthLevel {
    MarketDepthLevel { price: l.price, total_qty: queue_qty(l.queue) as u64, order_count: l.queue.len() as u32 }
}

/// A queue holds at most one order per arena node.
proof fn lemma_queue_len_bound(b: &OrderBook, l: u32, is_sell: bool)
    requires
        b.queue_ok(l, is_sell),
    ensures
        b.queues@[l].len() <= MAX_ARENA_ORDERS,
{
    reveal(OrderBook::queue_ok);
    let q = b.queues@[l];
    assert forall|i: int| 0 <= i < q.len() implies ((#[trigger] q[i]) as int) < MAX_ARENA_ORDERS by {}
    crate::arena::lemma_distinct_bounded(q, MAX_ARENA_ORDERS as int);
}

} // verus!

verus! {

/// The matching engine over all symbols: one book per symbol (BTC/USD, ETH/USD,
/// SOL/USD) and one exchange order id counter shared by all of them.
pub struct MultiAssetEngine {
    btc: OrderBook,
    eth: OrderBook,
    sol: OrderBook,
    global_order_id_counter: u64,
}

impl MultiAssetEngine {
    /// The book of symbol index `i` (0, 1 or 2).
    pub closed spec fn book(&self, i: int) -> OrderBook {
        if i == 0 {
            self.btc
        } else if i == 1 {
            self.eth
        } else {
            self.sol
        }
    }

    pub closed spec fn counter(&self) -> u64 {
        self.global_order_id_counter
    }

    pub closed spec fn wf(&self) -> bool {
        &&& self.btc.wf()
        &&& self.eth.wf()
        &&& self.sol.wf()
        &&& self.btc.spec_symbol() == Symbol::Btc
        &&& self.eth.spec_symbol() == Symbol::Eth
        &&& self.sol.spec_symbol() == Symbol::Sol
    }

    /// Three empty books; ids start at 1.
    pub fn new() -> (r: Self)
        ensures
            r.wf(),
            r.counter() == 1,
            forall|i: int| 0 <= i < 3 ==> #[trigger] r.book(i).state() == empty_book_state(),
            forall|i: int| 0 <= i < 3 ==> #[trigger] r.book(i).spec_symbol() == symbol_at(i),
    {
        MultiAssetEngine {
            btc: OrderBook::new(Symbol::Btc),
            eth: OrderBook::new(Symbol::Eth),
            sol: OrderBook::new(Symbol::Sol),
            global_order_id_counter: 1,
        }
    }

    /// Hands out the next exchange order id.
    pub fn next_order_id(&mut self) -> (r: u64)
        requires
            old(self).counter() < u64::MAX,
        ensures
            r == old(self).counter(),
            final(self).counter() == r + 1,
            forall|i: int| #[trigger] final(self).book(i) == old(self).book(i),
            final(self).wf() == old(self).wf(),
    {
        let id = self.global_order_id_counter;
        self.global_order_id_counter = self.global_order_id_counter + 1;
        id
    }

    fn book_mut(&mut self, sym_idx: usize) -> (r: &mut OrderBook)
        requires
            sym_idx < 3,
        ensures
            *r == old(self).book(sym_idx as int),
            final(self).counter() == old(self).counter(),
            final(self).book(sym_idx as int) == *final(r),
            forall|i: int| 0 <= i < 3 && i != sym_idx ==> #[trigger] final(self).book(i) == old(self).book(i),
    {
        if sym_idx == 0 {
            &mut self.btc
        } else if sym_idx == 1 {
            &mut self.eth
        } else {
            &mut self.sol
        }
    }

    /// Routes `order` to the book of its symbol after stamping it with the engine-wide
    /// order id counter (a zero id takes the counter; a non-zero id raises it).
    pub fn process(&mut self, order: Order, client_id: u64, trades: &mut Vec<Trade>) -> (r: Result<ExecutionReport, RejectReason>)
        requires
            old(self).wf(),
            order.symbol_id < 3 && order.id == 0 ==> old(self).counter() < u64::MAX,
            order.symbol_id < 3 && order.id != 0 ==> order.id < u64::MAX,
            order.symbol_id < 3 ==> process_ok(
                old(self).book(order.symbol_id as int).state(),
                stamp(order, old(self).counter()).0,
            ),
        ensures
            final(self).wf(),
            order.symbol_id >= 3 ==> r == Err::<ExecutionReport, RejectReason>(RejectReason::InvalidOrder) && *final(self)
                == *old(self) && final(trades)@ == old(trades)@,
            order.symbol_id < 3 ==> {
                let o1 = stamp(order, old(self).counter()).0;
                let out = spec_process(old(self).book(order.symbol_id as int).state(), o1, client_id);
                &&& final(self).counter() == stamp(order, old(self).counter()).1
                &&& final(self).book(order.symbol_id as int).state() == out.state
                &&& forall|i: int| 0 <= i < 3 && i != order.symbol_id ==> #[trigger] final(self).book(i) == old(self).book(i)
                &&& final(trades)@ == old(trades)@ + out.trades
                &&& report_view(r) == out.result
            },
    {
        let mut order = order;
        let sym_idx = order.symbol_id as usize;
        if sym_idx >= 3 {
            return Err(RejectReason::InvalidOrder);
        }
        if order.id == 0 {
            order.id = self.global_order_id_counter;
            self.global_order_id_counter = self.global_order_id_counter + 1;
        } else {
            self.global_order_id_counter = if self.global_order_id_counter >= order.id + 1 {
                self.global_order_id_counter
            } else {
                order.id + 1
            };
        }
        let book = self.book_mut(sym_idx);
        let r = book.process(order, client_id, trades);
        proof {
            assert(self.book(0).wf() && self.book(1).wf() && self.book(2).wf());
        }
        r
    }


    /// Replays one journaled order against the engine and the accounts: a deposit is
    /// credited; a cancel that succeeds returns its margin; any other order locks its
    /// funds and, when that succeeds, is processed, its trades settled, the remainder of
    /// an order stopped by self-trade prevention unlocked and the unused budget of a
    /// market order refunded.
    #[verifier::spinoff_prover]
    #[verifier::rlimit(100)]
    pub fn replay_order(&mut self, order: Order, trades: &mut Vec<Trade>, risk: &mut RiskEngine) -> (r: Result<(), RejectReason>)
        requires
            old(self).wf(),
            replay_ok(*old(self), old(risk)@, order),
        ensures
            final(self).wf(),
            final(self).counter() == (if replay_locks(old(risk)@, order) {
                stamp(order, old(self).counter()).1
            } else {
                old(self).counter()
            }),
            forall|i: int| 0 <= i < 3 && i != order.symbol_id ==> #[trigger] final(self).book(i) == old(self).book(i),
            ({
                let kind = order.spec_kind();
                let m = old(risk)@;
                if kind == OrderType::Deposit {
                    &&& r is Ok
                    &&& final(risk)@ == spec_deposit(m, order.user_id, order.price, order.symbol_id, order.qty)
                    &&& *final(self) == *old(self)
                } else if order.symbol_id >= 3 {
                    &&& r == Err::<(), RejectReason>(RejectReason::InvalidOrder)
                    &&& final(risk)@ == m
                    &&& *final(self) == *old(self)
                } else if kind == OrderType::Cancel {
                    let (st2, c) = spec_cancel(old(self).book(order.symbol_id as int).state(), order.user_id, order.id);
                    &&& r is Ok
                    &&& final(self).book(order.symbol_id as int).state() == st2
                    &&& final(risk)@ == match c {
                        Ok(o) => spec_unlock(m, o.user_id, o.symbol_id, side_or_buy(o), o.price, o.qty),
                        Err(_) => m,
                    }
                } else {
                    &&& r is Ok
                    &&& match spec_lock(m, order) {
                        Err(_) => final(risk)@ == m && *final(self) == *old(self),
                        Ok(m1) => {
                            let out = spec_process(
                                old(self).book(order.symbol_id as int).state(),
                                stamp(order, old(self).counter()).0,
                                0,
                            );
                            &&& final(self).book(order.symbol_id as int).state() == out.state
                            &&& final(trades)@ == out.trades
                            &&& final(risk)@ == match out.result {
                                Ok(rep) => after_process_risk(m1, order, out.trades, rep),
                                Err(_) => m1,
                            }
                        },
                    }
                }
            }),
    {
        let order_type = order.kind();
        if order_type == OrderType::Deposit {
            risk.deposit(order.user_id, order.price, order.symbol_id, order.qty);
            return Ok(());
        }
        let sym_idx = order.symbol_id as usize;
        if sym_idx >= 3 {
            return Err(RejectReason::InvalidOrder);
        }
        if order_type == OrderType::Cancel {
            match self.cancel_order(order.symbol_id, order.user_id, order.id) {
                Ok(cancelled) => {
                    risk.unlock_cancelled_order_margin(&cancelled, cancelled.qty);
                },
                Err(_) => {},
            }
        } else {
            if risk.lock_order_funds(&order).is_ok() {
                trades.clear();
                match self.process(order, 0, trades) {
                    Ok(report) => {
                        let ghost m1 = risk@;
                        let ghost ts = trades@;
                        let mut total_executed_qty = 0u64;
                        let mut total_executed_cost = 0u64;
                        let mut i: usize = 0;
                        while i < trades.len()
                            invariant
                                i <= trades.len(),
                                ts == trades@,
                                risk@ == settle_all(m1, ts.take(i as int), order.price),
                                total_executed_qty == trades_qty(ts.take(i as int)),
                                total_executed_cost == trades_cost(ts.take(i as int)),
                                settle_all_fits(m1, ts, order.price),
                            decreases trades.len() - i,
                        {
                            proof {
                                assert(ts.take(i as int + 1).drop_last() =~= ts.take(i as int));
                                lemma_trades_totals_prefix(ts, i as int + 1);
                            }
                            let trade = &trades[i];
                            risk.settle_trade(trade, order.price);
                            total_executed_qty = total_executed_qty + trade.qty;
                            total_executed_cost = total_executed_cost + saturating_mul_u64(trade.price, trade.qty);
                            i = i + 1;
                        }
                        proof {
                            assert(ts.take(ts.len() as int) =~= ts);
                        }
                        if report.stp_triggered && report.remaining_qty > 0 {
                            risk.unlock_cancelled_order_margin(&order, report.remaining_qty);
                        }
                        if order_type == OrderType::Market && !report.stp_triggered {
                            let side = match order.get_side() {
                                Some(s) => s,
                                None => Side::Buy,
                            };
                            risk.refund_market_order_remainder(
                                order.user_id,
                                order.symbol_id,
                                side,
                                order.price,
                                order.qty,
                                total_executed_qty,
                                total_executed_cost,
                            );
                        }
                    },
                    Err(_) => {},
                }
            }
        }
        Ok(())
    }

    /// Cancels order `order_id` of `user_id` in the book of `symbol_id`.
    pub fn cancel_order(&mut self, symbol_id: u16, user_id: u64, order_id: u64) -> (r: Result<Order, RejectReason>)
        requires
            old(self).wf(),
        ensures
            final(self).wf(),
            final(self).counter() == old(self).counter(),
            symbol_id >= 3 ==> r == Err::<Order, RejectReason>(RejectReason::InvalidOrder) && *final(self) == *old(self),
            symbol_id < 3 ==> {
                &&& (final(self).book(symbol_id as int).state(), r) == spec_cancel(
                    old(self).book(symbol_id as int).state(),
                    user_id,
                    order_id,
                )
                &&& forall|i: int| 0 <= i < 3 && i != symbol_id ==> #[trigger] final(self).book(i) == old(self).book(i)
            },
    {
        let sym_idx = symbol_id as usize;
        if sym_idx >= 3 {
            return Err(RejectReason::InvalidOrder);
        }
        let book = self.book_mut(sym_idx);
        let r = book.cancel_order(user_id, order_id);
        proof {
            assert(self.book(0).wf() && self.book(1).wf() && self.book(2).wf());
        }
        r
    }

    /// The book of `symbol_id`, if it names one.
    pub fn get_book(&self, symbol_id: u16) -> (r: Option<&OrderBook>)
        ensures
            match r {
                Some(b) => symbol_id < 3 && *b == self.book(symbol_id as int) && (self.wf() ==> b.wf()
                    && b.spec_symbol() == symbol_at(symbol_id as int)),
                None => symbol_id >= 3,
            },
    {
        let sym_idx = symbol_id as usize;
        if sym_idx == 0 {
            Some(&self.btc)
        } else if sym_idx == 1 {
            Some(&self.eth)
        } else if sym_idx == 2 {
            Some(&self.sol)
        } else {
            None
        }
    }

    /// The book of `symbol_id` for modification, if it names one.
    pub fn get_book_mut(&mut self, symbol_id: u16) -> (r: Option<&mut OrderBook>)
        ensures
            final(self).counter() == old(self).counter(),
            match r {
                Some(b) => symbol_id < 3 && *b == old(self).book(symbol_id as int) && final(self).book(symbol_id as int)
                    == *final(b) && forall|i: int| 0 <= i < 3 && i != symbol_id ==> #[trigger] final(self).book(i) == old(self).book(i),
                None => symbol_id >= 3 && *final(self) == *old(self),
            },
    {
        let sym_idx = symbol_id as usize;
        if sym_idx < 3 {
            Some(self.book_mut(sym_idx))
        } else {
            None
        }
    }
}

impl Default for MultiAssetEngine {
    fn default() -> (r: Self)
        ensures
            r.wf(),
            r.counter() == 1,
            forall|i: int| 0 <= i < 3 ==> #[trigger] r.book(i).state() == empty_book_state(),
    {
        MultiAssetEngine::new()
    }
}

/// What replaying `order` needs: every balance and counter it raises stays within `u64`.
/// The symbol served by book `i` of the engine.
pub open spec fn symbol_at(i: int) -> Symbol {
    if i == 0 {
        Symbol::Btc
    } else if i == 1 {
        Symbol::Eth
    } else {
        Symbol::Sol
    }
}

/// Replaying `order` reaches its book with funds locked: a limit or market order of a
/// known symbol whose lock succeeds (only then is the order id counter advanced).
pub open spec fn replay_locks(m: Map<u64, Account>, order: Order) -> bool {
    &&& order.spec_kind() != OrderType::Deposit
    &&& order.spec_kind() != OrderType::Cancel
    &&& order.symbol_id < 3
    &&& spec_lock(m, order) is Ok
}

pub open spec fn replay_ok(e: MultiAssetEngine, m: Map<u64, Account>, order: Order) -> bool {
    let kind = order.spec_kind();
    let sym = order.symbol_id as int;
    if kind == OrderType::Deposit {
        deposit_fits(m, order.user_id, order.price, order.symbol_id, order.qty)
    } else if order.symbol_id >= 3 {
        true
    } else if kind == OrderType::Cancel {
        match spec_cancel(e.book(sym).state(), order.user_id, order.id).1 {
            Ok(o) => unlock_fits(m, o.user_id, o.symbol_id, side_or_buy(o), o.price, o.qty),
            Err(_) => true,
        }
    } else {
        &&& lock_fits(m, order)
        &&& match spec_lock(m, order) {
            Err(_) => true,
            Ok(m1) => {
                let o1 = stamp(order, e.counter()).0;
                let out = spec_process(e.book(sym).state(), o1, 0);
                &&& (order.id == 0 ==> e.counter() < u64::MAX)
                &&& (order.id != 0 ==> order.id < u64::MAX)
                &&& process_ok(e.book(sym).state(), o1)
                &&& match out.result {
                    Ok(rep) => after_process_fits(m1, order, out.trades, rep),
                    Err(_) => true,
                }
            },
        }
    }
}

/// `t` fills user `u`'s aggressive buy at a limit of at most `p`, against another user.
pub open spec fn taker_buy_fill(t: Trade, u: u64, p: u64) -> bool {
    &&& t.buyer_id == u
    &&& t.maker_user_id != u
    &&& t.seller_id != u
    &&& t.symbol_id < 3
    &&& t.price <= p
}

proof fn lemma_settle_taker_buys(m: Map<u64, Account>, ts: Seq<Trade>, u: u64, p: u64)
    requires
        m.contains_key(u),
        forall|i: int| 0 <= i < ts.len() ==> taker_buy_fill(#[trigger] ts[i], u, p),
        p * trades_qty(ts) <= u64::MAX,
        m[u].usd_locked >= p * trades_qty(ts),
        m[u].usd_available + p * trades_qty(ts) <= u64::MAX,
    ensures
        trades_qty(ts) >= 0,
        trades_cost(ts) == trades_value(ts),
        settle_all(m, ts, p).contains_key(u),
        settle_all(m, ts, p)[u].usd_locked == m[u].usd_locked - p * trades_qty(ts),
        settle_all(m, ts, p)[u].usd_available == m[u].usd_available + p * trades_qty(ts) - trades_cost(ts),
    decreases ts.len(),
{
    if ts.len() > 0 {
        let init = ts.drop_last();
        let t = ts.last();
        let e = t.qty as int;
        assert(taker_buy_fill(ts[ts.len() - 1], u, p));
        assert forall|i: int| 0 <= i < init.len() implies taker_buy_fill(#[trigger] init[i], u, p) by {
            assert(init[i] == ts[i]);
        }
        lemma_trades_qty_nonneg(init);
        let f = trades_qty(init);
        assert(p * (f + e) == p * f + p * e) by (nonlinear_arith);
        assert(p * e >= 0 && p * f >= 0) by (nonlinear_arith)
            requires
                e >= 0,
                f >= 0,
        ;
        assert(t.price * e <= p * e && t.price * e >= 0) by (nonlinear_arith)
            requires
                t.price <= p,
                e >= 0,
        ;
        lemma_settle_taker_buys(m, init, u, p);
        lemma_trades_qty_nonneg(init);
        assert(sat_mul(t.price, t.qty) == t.price * e);
        assert(sat_mul(p, t.qty) == p * e);
        let mi = settle_all(m, init, p);
        assert(settle_all(m, ts, p) == spec_settle(mi, t, p));
        let mb = settle_buyer(mi, t, p);
        assert(mb[u].usd_locked == mi[u].usd_locked - p * e);
        assert(mb[u].usd_available == mi[u].usd_available + p * e - t.price * e);
        assert(settle_seller(mb, t)[u] == mb[u]);
    }
}

/// Total `price * qty` of `ts`, without saturation.
pub open spec fn trades_value(ts: Seq<Trade>) -> int
    decreases ts.len(),
{
    if ts.len() == 0 {
        0
    } else {
        trades_value(ts.drop_last()) + ts.last().price * ts.last().qty
    }
}

/// Trade totals are never negative.
pub proof fn lemma_trades_qty_nonneg(ts: Seq<Trade>)
    ensures
        trades_qty(ts) >= 0,
        trades_cost(ts) >= 0,
    decreases ts.len(),
{
    if ts.len() > 0 {
        lemma_trades_qty_nonneg(ts.drop_last());
    }
}

/// A market buy spends exactly the cost of its fills: with its budget `price * qty`
/// locked, the accounts after its processing (fills settled and, with no self-trade
/// stop, the unused budget refunded) hold the buyer's locked USD where it was before
/// the lock and its available USD lower by the fills' cost alone, for fills against
/// other users at no more than its price and for no more than its quantity.
pub proof fn lemma_market_buy_spends_fill_cost(m: Map<u64, Account>, o: Order, ts: Seq<Trade>, rep: ReportState)
    requires
        o.spec_kind() == OrderType::Market,
        o.side == 0,
        !rep.stp_triggered,
        spec_lock(m, o) is Ok,
        lock_fits(m, o),
        trades_qty(ts) <= o.qty,
        forall|i: int| 0 <= i < ts.len() ==> taker_buy_fill(#[trigger] ts[i], o.user_id, o.price),
    ensures
        ({
            let u = o.user_id;
            let m3 = after_process_risk(spec_lock(m, o)->Ok_0, o, ts, rep);
            &&& m3[u].usd_locked == m[u].usd_locked
            &&& m3[u].usd_available == m[u].usd_available - trades_cost(ts)
            &&& trades_cost(ts) == trades_value(ts)
        }),
{
    let u = o.user_id;
    let p = o.price;
    let q = o.qty as int;
    lemma_trades_qty_nonneg(ts);
    let f = trades_qty(ts);
    let m1 = spec_lock(m, o)->Ok_0;
    assert(p * f <= p * q && p * f >= 0) by (nonlinear_arith)
        requires
            0 <= f <= q,
    ;
    assert(p * q - p * f == p * (q - f)) by (nonlinear_arith);
    assert(m1[u].usd_locked == m[u].usd_locked + p * q);
    assert(m1[u].usd_available == m[u].usd_available - p * q);
    lemma_settle_taker_buys(m1, ts, u, p);
    assert(side_or_buy(o) == Side::Buy);
    assert(sat_mul(p, o.qty) == p * q);
    assert(sat_mul(p, f as u64) == p * f);
}

/// Totals over a prefix grow by the next trade.
pub proof fn lemma_trades_totals_prefix(ts: Seq<Trade>, k: int)
    requires
        0 < k <= ts.len(),
    ensures
        trades_qty(ts.take(k)) == trades_qty(ts.take(k - 1)) + ts[k - 1].qty,
        trades_cost(ts.take(k)) == trades_cost(ts.take(k - 1)) + sat_mul(ts[k - 1].price, ts[k - 1].qty),
        trades_qty(ts.take(k)) <= trades_qty(ts),
        trades_cost(ts.take(k)) <= trades_cost(ts),
{
    assert(ts.take(k).drop_last() =~= ts.take(k - 1));
    lemma_trades_totals_mono(ts, k);
}

proof fn lemma_trades_totals_mono(ts: Seq<Trade>, k: int)
    requires
        0 <= k <= ts.len(),
    ensures
        trades_qty(ts.take(k)) <= trades_qty(ts),
        trades_cost(ts.take(k)) <= trades_cost(ts),
    decreases ts.len(),
{
    if k == ts.len() {
        assert(ts.take(k) =~= ts);
    } else {
        lemma_trades_totals_mono(ts.drop_last(), k);
        assert(ts.drop_last().take(k) =~= ts.take(k));
    }
}

/// The state of a new book: nothing resting, every node and level free in index order,
/// empty indices, both counters at 1.
pub open spec fn empty_book_state() -> BookState {
    BookState {
        bids: Seq::empty(),
        asks: Seq::empty(),
        order_free: Seq::new(MAX_ARENA_ORDERS as nat, |i: int| i as u32),
        level_free: Seq::new(MAX_PRICE_LEVELS as nat, |i: int| i as u32),
        order_index: Map::empty(),
        client_index: Map::empty(),
        price_index: Map::empty(),
        trade_ctr: 1,
        order_ctr: 1,
    }
}

} // verus!
