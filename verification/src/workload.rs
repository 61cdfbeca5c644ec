//! Deterministic synthetic order flow for benchmarking the engine.
use vstd::prelude::*;
use std::ops::Range;
use crate::book::{process_ok, settle_all, settle_all_fits, MultiAssetEngine};
use crate::book_spec::{spec_cancel, spec_process, stamp, BookState, ReportState};
use crate::risk::{lock_fits, side_or_buy, spec_lock, spec_unlock, unlock_fits, Account, RiskEngine};
use crate::types::{Order, OrderType, Side, Symbol, Trade};
use crate::market_maker::{base_price, sat_add_u64, sat_sub_u64, side_of_draw, symbol_of};

verus! {

/// One xorshift64 step (shifts 13, 7, 17).
pub open spec fn xorshift(x: u64) -> u64 {
    let a = x ^ (x << 13u64);
    let b = a ^ (a >> 7u64);
    b ^ (b << 17u64)
}

/// Xorshift pseudo-random generator; its state is never 0.
pub struct FastRng(pub u64);

impl FastRng {
    /// A generator seeded with `seed`, or with a fixed non-zero constant for seed 0.
    pub fn new(seed: u64) -> (r: Self)
        ensures
            r.0 == (if seed == 0 {
                0xdeadbeefcafebabe
            } else {
                seed
            }),
    {
        Self(
            if seed == 0 {
                0xdeadbeefcafebabe
            } else {
                seed
            },
        )
    }

    pub fn next_u64(&mut self) -> (r: u64)
        ensures
            r == xorshift(old(self).0),
            final(self).0 == r,
    {
        let mut x = self.0;
        x ^= x << 13u64;
        x ^= x >> 7u64;
        x ^= x << 17u64;
        self.0 = x;
        x
    }

    /// A value of `range` taken from the next output modulo the range's length.
    pub fn gen_range(&mut self, range: Range<usize>) -> (r: usize)
        requires
            range.start < range.end,
        ensures
            final(self).0 == xorshift(old(self).0),
            r == range.start + (xorshift(old(self).0) as usize) % ((range.end - range.start) as usize),
            range.start <= r < range.end,
    {
        let span = range.end - range.start;
        let x = self.next_u64() as usize;
        range.start + x % span
    }

    /// A value of `range` taken from the next output modulo the range's length.
    pub fn gen_range_u64(&mut self, range: Range<u64>) -> (r: u64)
        requires
            range.start < range.end,
        ensures
            final(self).0 == xorshift(old(self).0),
            r == range.start + xorshift(old(self).0) % ((range.end - range.start) as u64),
            range.start <= r < range.end,
    {
        let span = range.end - range.start;
        range.start + (self.next_u64() % span)
    }

    /// The lowest bit of the next output.
    pub fn gen_bool(&mut self) -> (r: bool)
        ensures
            final(self).0 == xorshift(old(self).0),
            r == (xorshift(old(self).0) & 1 == 1),
    {
        (self.next_u64() & 1) == 1
    }
}

/// A resting quote of the stream: a limit order with a valid symbol and side, a
/// quantity in `1..10` and a user in `1..=3`.
pub open spec fn is_quote(o: Order) -> bool {
    &&& o.order_type == OrderType::Limit.spec_code()
    &&& o.symbol_id < 3
    &&& o.side <= 1
    &&& 1 <= o.qty < 10
    &&& 1 <= o.user_id <= 3
}

/// `o` cancels the quote `q`: same id, same user, same symbol.
pub open spec fn cancels(o: Order, q: Order) -> bool {
    &&& o.order_type == OrderType::Cancel.spec_code()
    &&& o.id == q.id
    &&& o.user_id == q.user_id
    &&& o.symbol_id == q.symbol_id
}

/// Every order of `s` is a quote or cancels a quote placed earlier in `s`, and quote
/// ids strictly increase.
pub open spec fn well_formed_stream(s: Seq<Order>) -> bool {
    &&& forall|i: int|
        0 <= i < s.len() ==> is_quote(#[trigger] s[i]) || exists|j: int|
            0 <= j < i && is_quote(s[j]) && cancels(s[i], s[j])
    &&& forall|i: int, j: int|
        0 <= i < j < s.len() && is_quote(#[trigger] s[i]) && is_quote(#[trigger] s[j]) ==> s[i].id
            < s[j].id
}

/// `s` holds the quote that an active-quote entry `(id, symbol, user)` stands for.
pub open spec fn quote_recorded(s: Seq<Order>, e: (u64, Symbol, u64)) -> bool {
    exists|j: int|
        0 <= j < s.len() && is_quote(s[j]) && s[j].id == e.0 && s[j].user_id == e.2 && s[j].symbol_id
            == e.1.spec_code()
}

proof fn lemma_recorded_push(s: Seq<Order>, x: Order, aq: Seq<(u64, Symbol, u64)>)
    requires
        forall|a: int| 0 <= a < aq.len() ==> quote_recorded(s, #[trigger] aq[a]),
    ensures
        forall|a: int| 0 <= a < aq.len() ==> quote_recorded(s.push(x), #[trigger] aq[a]),
{
    assert forall|a: int| 0 <= a < aq.len() implies quote_recorded(s.push(x), #[trigger] aq[a]) by {
        let e = aq[a];
        let j = choose|j: int|
            0 <= j < s.len() && is_quote(s[j]) && s[j].id == e.0 && s[j].user_id == e.2 && s[j].symbol_id
                == e.1.spec_code();
        assert(s.push(x)[j] == s[j]);
    }
}

/// The generator between two orders of the stream: the random state, the next order
/// id, the maker quotes still active (id, symbol, user) and the orders so far.
pub struct StreamState {
    pub rng: u64,
    pub next_id: u64,
    pub active: Seq<(u64, Symbol, u64)>,
    pub orders: Seq<Order>,
}

/// The cancel request for the active quote `e`.
pub open spec fn cancel_of(e: (u64, Symbol, u64)) -> Order {
    Order {
        id: e.0,
        price: 0,
        qty: 0,
        user_id: e.2,
        client_order_id: e.0,
        side: 0,
        order_type: OrderType::Cancel.spec_code(),
        symbol_id: e.1.spec_code(),
        magic: crate::types::ORDER_MAGIC,
        _padding: [0u8, 0u8],
    }
}

/// One order of the stream. Draws, in this order: the symbol (`% 3`), the action
/// (`% 100`), then
/// - action < 60: a maker quote; the user (1 on an odd draw, else 2), the side (buy on
///   an odd draw), the distance from the base price (`5 + % 95`; below it for a buy,
///   above it for a sell) and the quantity (`1 + % 9`); the quote becomes active;
/// - action < 80 with a quote active: the active quote to cancel (`% count`), which
///   leaves the list, the last entry taking its place;
/// - action < 95 otherwise: a crossing order of user 3; the side, then the quantity
///   (`1 + % 4`), at base + 200 (buy) or base - 200 (sell);
/// - else: a buy of user 1 for 2 at base + 50, with no further draw.
pub open spec fn stream_step(s: StreamState) -> StreamState {
    let x1 = xorshift(s.rng);
    let sym_idx = (x1 as usize) % 3usize;
    let symbol = symbol_of(sym_idx as int);
    let base = base_price(sym_idx as int);
    let x2 = xorshift(x1);
    let action = (x2 as usize) % 100usize;
    if action < 60 {
        let x3 = xorshift(x2);
        let user: u64 = if x3 & 1 == 1 {
            1
        } else {
            2
        };
        let x4 = xorshift(x3);
        let buy = x4 & 1 == 1;
        let x5 = xorshift(x4);
        let spread = (5 + x5 % 95) as u64;
        let price = if buy {
            sat_sub_u64(base, spread)
        } else {
            sat_add_u64(base, spread)
        };
        let x6 = xorshift(x5);
        let qty = (1 + x6 % 9) as u64;
        StreamState {
            rng: x6,
            next_id: (s.next_id + 1) as u64,
            active: s.active.push((s.next_id, symbol, user)),
            orders: s.orders.push(Order::spec_limit(s.next_id, user, symbol, side_of_draw(buy), price, qty, s.next_id)),
        }
    } else if action < 80 && s.active.len() > 0 {
        let x3 = xorshift(x2);
        let i = (x3 as usize) % (s.active.len() as usize);
        StreamState {
            rng: x3,
            next_id: s.next_id,
            active: s.active.update(i as int, s.active.last()).drop_last(),
            orders: s.orders.push(cancel_of(s.active[i as int])),
        }
    } else if action < 95 {
        let x3 = xorshift(x2);
        let buy = x3 & 1 == 1;
        let x4 = xorshift(x3);
        let qty = (1 + x4 % 4) as u64;
        let price = if buy {
            (base + 200) as u64
        } else {
            sat_sub_u64(base, 200)
        };
        StreamState {
            rng: x4,
            next_id: (s.next_id + 1) as u64,
            active: s.active,
            orders: s.orders.push(Order::spec_limit(s.next_id, 3, symbol, side_of_draw(buy), price, qty, s.next_id)),
        }
    } else {
        StreamState {
            rng: x2,
            next_id: (s.next_id + 1) as u64,
            active: s.active,
            orders: s.orders.push(Order::spec_limit(s.next_id, 1, symbol, Side::Buy, (base + 50) as u64, 2, s.next_id)),
        }
    }
}

/// The generator after `n` orders, from seed 42, order id 1 and nothing active.
pub open spec fn stream_state(n: nat) -> StreamState
    decreases n,
{
    if n == 0 {
        StreamState { rng: 42, next_id: 1, active: Seq::empty(), orders: Seq::empty() }
    } else {
        stream_step(stream_state((n - 1) as nat))
    }
}

/// A stream of `count` orders over the three symbols: 60% maker quotes by users 1 and
/// 2 near the base price, up to 20% cancellations of still-active maker quotes, 15%
/// crossing orders by user 3, the rest buy orders of user 1 that may meet its own
/// quotes.
pub fn generate_order_stream(count: usize) -> (r: Vec<Order>)
    requires
        count < u64::MAX,
    ensures
        r@ == stream_state(count as nat).orders,
        r@.len() == count,
        well_formed_stream(r@),
{
    let mut rng = FastRng::new(42);
    let mut orders: Vec<Order> = Vec::with_capacity(count);
    let mut active_quotes: Vec<(u64, Symbol, u64)> = Vec::with_capacity(count / 2);
    let symbols = [Symbol::Btc, Symbol::Eth, Symbol::Sol];
    let base_prices = [6_500_000u64, 350_000u64, 15_000u64];
    let mut next_order_id: u64 = 1;
    let mut n: usize = 0;
    while n < count
        invariant
            n <= count,
            count < u64::MAX,
            orders@.len() == n,
            1 <= next_order_id <= n + 1,
            well_formed_stream(orders@),
            rng.0 == stream_state(n as nat).rng,
            next_order_id == stream_state(n as nat).next_id,
            active_quotes@ == stream_state(n as nat).active,
            orders@ == stream_state(n as nat).orders,
            forall|i: int| 0 <= i < orders@.len() && is_quote(#[trigger] orders@[i]) ==> orders@[i].id < next_order_id,
            forall|a: int|
                0 <= a < active_quotes@.len() ==> quote_recorded(orders@, #[trigger] active_quotes@[a]),
            symbols@ == seq![Symbol::Btc, Symbol::Eth, Symbol::Sol],
            base_prices@ == seq![6_500_000u64, 350_000u64, 15_000u64],
        decreases count - n,
    {
        let ghost before = orders@;
        let ghost st = stream_state(n as nat);
        let sym_idx = rng.gen_range(0..3);
        let symbol = symbols[sym_idx];
        let base = base_prices[sym_idx];
        let action = rng.gen_range(0..100);
        if action < 60 {
            let user_id: u64 = if rng.gen_bool() {
                1
            } else {
                2
            };
            let side = if rng.gen_bool() {
                Side::Buy
            } else {
                Side::Sell
            };
            let spread_offset = rng.gen_range_u64(5..100);
            let price = if matches!(side, Side::Buy) {
                base.saturating_sub(spread_offset)
            } else {
                base.saturating_add(spread_offset)
            };
            let qty = rng.gen_range_u64(1..10);
            let ord = Order::new_limit(next_order_id, user_id, symbol, side, price, qty);
            let ghost aq = active_quotes@;
            active_quotes.push((next_order_id, symbol, user_id));
            next_order_id = next_order_id + 1;
            orders.push(ord);
            proof {
                lemma_recorded_push(before, ord, aq);
                assert(orders@ == before.push(ord));
                assert forall|a: int| 0 <= a < active_quotes@.len() implies quote_recorded(
                    orders@,
                    #[trigger] active_quotes@[a],
                ) by {
                    if a < aq.len() {
                        assert(active_quotes@[a] == aq[a]);
                    } else {
                        assert(orders@[before.len() as int] == ord);
                    }
                }
            }
        } else if action < 80 && active_quotes.len() > 0 {
            let idx = rng.gen_range(0..active_quotes.len());
            assert(active_quotes@.len() == st.active.len());
            let ghost aq = active_quotes@;
            let (target_id, target_symbol, user_id) = active_quotes.swap_remove(idx);
            let ord = Order::new_cancel(target_id, user_id, target_symbol);
            proof {
                assert(aq[idx as int] == (target_id, target_symbol, user_id));
                let j = choose|j: int|
                    0 <= j < before.len() && is_quote(before[j]) && before[j].id == aq[idx as int].0
                        && before[j].user_id == aq[idx as int].2
                        && before[j].symbol_id == aq[idx as int].1.spec_code();
                assert(cancels(ord, before[j]));
                assert forall|a: int| 0 <= a < active_quotes@.len() implies quote_recorded(
                    before,
                    #[trigger] active_quotes@[a],
                ) by {
                    if a == idx {
                        assert(active_quotes@[a] == aq[aq.len() - 1]);
                    } else {
                        assert(active_quotes@[a] == aq[a]);
                    }
                }
                lemma_recorded_push(before, ord, active_quotes@);
            }
            orders.push(ord);
        } else if action < 95 {
            let user_id: u64 = 3;
            let side = if rng.gen_bool() {
                Side::Buy
            } else {
                Side::Sell
            };
            let qty = rng.gen_range_u64(1..5);
            let price = if matches!(side, Side::Buy) {
                base + 200
            } else {
                base.saturating_sub(200)
            };
            let ord = Order::new_limit(next_order_id, user_id, symbol, side, price, qty);
            next_order_id = next_order_id + 1;
            orders.push(ord);
            proof {
                lemma_recorded_push(before, ord, active_quotes@);
            }
        } else {
            let user_id: u64 = 1;
            let side = Side::Buy;
            let price = base + 50;
            let qty: u64 = 2;
            let ord = Order::new_limit(next_order_id, user_id, symbol, side, price, qty);
            next_order_id = next_order_id + 1;
            orders.push(ord);
            proof {
                lemma_recorded_push(before, ord, active_quotes@);
            }
        }
        proof {
            let nx = stream_step(st);
            assert(stream_state((n + 1) as nat) == nx);
            assert(rng.0 == nx.rng);
            assert(next_order_id == nx.next_id);
            assert(active_quotes@ =~= nx.active);
            assert(orders@ =~= nx.orders);
            let s = orders@;
            assert(s.drop_last() =~= before);
            assert forall|i: int| 0 <= i < s.len() implies is_quote(#[trigger] s[i]) || exists|j: int|
                0 <= j < i && is_quote(s[j]) && cancels(s[i], s[j]) by {
                if i < before.len() {
                    assert(s[i] == before[i]);
                    if !is_quote(before[i]) {
                        let j = choose|j: int| 0 <= j < i && is_quote(before[j]) && cancels(before[i], before[j]);
                        assert(s[j] == before[j]);
                    }
                }
            }
        }
        n = n + 1;
    }
    orders
}

/// The account every benchmark user starts with.
pub open spec fn funded_account(u: u64) -> Account {
    Account {
        user_id: u,
        usd_available: 100_000_000_000,
        usd_locked: 0,
        asset_available: [1_000_000, 1_000_000, 10_000_000],
        asset_locked: [0, 0, 0],
    }
}

/// Funds users 1 to 10 with USD and each asset; the accounts of other users are
/// left as they were.
#[verifier::spinoff_prover]
pub fn prefund(risk: &mut RiskEngine)
    requires
        forall|u: u64| 1 <= u <= 10 ==> !(#[trigger] old(risk)@.contains_key(u)),
    ensures
        forall|u: u64| 1 <= u <= 10 ==> #[trigger] final(risk)@.contains_key(u) && final(risk)@[u] == funded_account(u),
        forall|u: u64| !(1 <= u <= 10) ==> (#[trigger] final(risk)@.contains_key(u) == old(risk)@.contains_key(u)
            && (old(risk)@.contains_key(u) ==> final(risk)@[u] == old(risk)@[u])),
{
    let ghost m0 = risk@;
    let mut uid: u64 = 1;
    while uid <= 10
        invariant
            1 <= uid <= 11,
            forall|u: u64| uid <= u <= 10 ==> !(#[trigger] risk@.contains_key(u)),
            forall|u: u64| 1 <= u < uid ==> #[trigger] risk@.contains_key(u) && risk@[u] == funded_account(u),
            forall|u: u64| !(1 <= u <= 10) ==> (#[trigger] risk@.contains_key(u) == m0.contains_key(u)
                && (m0.contains_key(u) ==> risk@[u] == m0[u])),
        decreases 11 - uid,
    {
        risk.deposit(uid, 100_000_000_000, 0, 1_000_000);
        risk.deposit(uid, 0, 1, 1_000_000);
        risk.deposit(uid, 0, 2, 10_000_000);
        proof {
            broadcast use vstd::array::group_array_axioms;

            assert(risk@[uid].asset_available =~= [1_000_000u64, 1_000_000u64, 10_000_000u64]);
            assert(risk@[uid].asset_locked =~= [0u64, 0u64, 0u64]);
        }
        uid = uid + 1;
    }
}


/// What one benchmark step did: a cancel that succeeded, an order the engine accepted,
/// the trades it made, and whether self-trade prevention stopped it.
#[derive(Debug, Clone, Copy, PartialEq, Eq)]
pub struct BenchTally {
    pub cancelled: bool,
    pub processed: bool,
    pub trades: u64,
    pub stp: bool,
}

/// The accounts after the benchmark settled an accepted order: its trades settled at
/// the order's price as taker limit, and the remainder of an order stopped by
/// self-trade prevention unlocked.
pub open spec fn bench_settled(m1: Map<u64, Account>, o: Order, ts: Seq<Trade>, rep: ReportState) -> Map<u64, Account> {
    let m2 = settle_all(m1, ts, o.price);
    if rep.stp_triggered && rep.remaining_qty > 0 {
        spec_unlock(m2, o.user_id, o.symbol_id, side_or_buy(o), o.price, rep.remaining_qty)
    } else {
        m2
    }
}

/// The balances a benchmark step moves stay within `u64`, and ids within range.
pub open spec fn bench_step_ok(e: MultiAssetEngine, m: Map<u64, Account>, o: Order) -> bool {
    let sym = o.symbol_id as int;
    let st = e.book(sym).state();
    if o.spec_kind() == OrderType::Cancel {
        o.symbol_id < 3 ==> match spec_cancel(st, o.user_id, o.id).1 {
            Ok(x) => unlock_fits(m, x.user_id, x.symbol_id, side_or_buy(x), x.price, x.qty),
            Err(_) => true,
        }
    } else {
        &&& lock_fits(m, o)
        &&& match spec_lock(m, o) {
            Err(_) => true,
            Ok(m1) => {
                let out = spec_process(st, stamp(o, e.counter()).0, 0);
                let m2 = settle_all(m1, out.trades, o.price);
                &&& (o.id == 0 ==> e.counter() < u64::MAX)
                &&& (o.id != 0 ==> o.id < u64::MAX)
                &&& process_ok(st, stamp(o, e.counter()).0)
                &&& match out.result {
                    Ok(rep) => {
                        &&& settle_all_fits(m1, out.trades, o.price)
                        &&& out.trades.len() <= u64::MAX
                        &&& (rep.stp_triggered && rep.remaining_qty > 0 ==> unlock_fits(
                            m2,
                            o.user_id,
                            o.symbol_id,
                            side_or_buy(o),
                            o.price,
                            rep.remaining_qty,
                        ))
                    },
                    Err(_) => true,
                }
            },
        }
    }
}

/// Settles `trades` in order, each against the taker limit `price`.
fn settle_in_order(risk: &mut RiskEngine, trades: &Vec<Trade>, price: u64)
    requires
        settle_all_fits(old(risk)@, trades@, price),
    ensures
        final(risk)@ == settle_all(old(risk)@, trades@, price),
{
    let ghost m1 = risk@;
    let ghost ts = trades@;
    let mut i: usize = 0;
    while i < trades.len()
        invariant
            i <= trades.len(),
            ts == trades@,
            risk@ == settle_all(m1, ts.take(i as int), price),
            settle_all_fits(m1, ts, price),
        decreases trades.len() - i,
    {
        proof {
            assert(ts.take(i as int + 1).drop_last() =~= ts.take(i as int));
        }
        risk.settle_trade(&trades[i], price);
        i = i + 1;
    }
    proof {
        assert(ts.take(ts.len() as int) =~= ts);
    }
}

/// One order of the benchmark: a cancel goes to the engine and, when it succeeds,
/// unlocks the cancelled order's funds; any other order locks its funds, goes to the
/// engine when the lock succeeds, and, when the engine accepts it, has its trades
/// settled and, if self-trade prevention stopped it, its remainder unlocked. A refused
/// lock or order changes nothing more.
#[verifier::spinoff_prover]
#[verifier::rlimit(100)]
pub fn bench_step(engine: &mut MultiAssetEngine, risk: &mut RiskEngine, order: &Order, scratch: &mut Vec<Trade>) -> (r: BenchTally)
    requires
        old(engine).wf(),
        bench_step_ok(*old(engine), old(risk)@, *order),
    ensures
        final(engine).wf(),
        ({
            let sym = order.symbol_id as int;
            let st = old(engine).book(sym).state();
            let m = old(risk)@;
            if order.spec_kind() == OrderType::Cancel {
                &&& final(engine).counter() == old(engine).counter()
                &&& order.symbol_id >= 3 ==> *final(engine) == *old(engine) && final(risk)@ == m && !r.cancelled
                &&& order.symbol_id < 3 ==> {
                    let (st2, c) = spec_cancel(st, order.user_id, order.id);
                    &&& final(engine).book(sym).state() == st2
                    &&& forall|i: int| 0 <= i < 3 && i != sym ==> #[trigger] final(engine).book(i) == old(engine).book(i)
                    &&& r.cancelled == c is Ok
                    &&& final(risk)@ == match c {
                        Ok(x) => spec_unlock(m, x.user_id, x.symbol_id, side_or_buy(x), x.price, x.qty),
                        Err(_) => m,
                    }
                }
                &&& !r.processed && r.trades == 0 && !r.stp
            } else {
                &&& !r.cancelled
                &&& match spec_lock(m, *order) {
                    Err(_) => {
                        &&& *final(engine) == *old(engine)
                        &&& final(risk)@ == m
                        &&& !r.processed && r.trades == 0 && !r.stp
                    },
                    Ok(m1) => {
                        let (o1, ctr1) = stamp(*order, old(engine).counter());
                        let out = spec_process(st, o1, 0);
                        &&& final(engine).counter() == ctr1
                        &&& final(engine).book(sym).state() == out.state
                        &&& forall|i: int| 0 <= i < 3 && i != sym ==> #[trigger] final(engine).book(i) == old(engine).book(i)
                        &&& final(scratch)@ == out.trades
                        &&& r.processed == out.result is Ok
                        &&& match out.result {
                            Ok(rep) => {
                                &&& final(risk)@ == bench_settled(m1, *order, out.trades, rep)
                                &&& r.trades == out.trades.len()
                                &&& r.stp == rep.stp_triggered
                            },
                            Err(_) => final(risk)@ == m1 && r.trades == 0 && !r.stp,
                        }
                    },
                }
            }
        }),
{
    let mut tally = BenchTally { cancelled: false, processed: false, trades: 0, stp: false };
    if order.kind() == OrderType::Cancel {
        if let Ok(cancelled) = engine.cancel_order(order.symbol_id, order.user_id, order.id) {
            risk.unlock_cancelled_order_margin(&cancelled, cancelled.qty);
            tally.cancelled = true;
        }
        return tally;
    }
    if risk.lock_order_funds(order).is_err() {
        return tally;
    }
    let ghost m1 = risk@;
    scratch.clear();
    match engine.process(*order, 0, scratch) {
        Ok(report) => {
            tally.processed = true;
            settle_in_order(risk, scratch, order.price);
            tally.trades = scratch.len() as u64;
            if report.stp_triggered {
                tally.stp = true;
                if report.remaining_qty > 0 {
                    risk.unlock_cancelled_order_margin(order, report.remaining_qty);
                }
            }
        },
        Err(_) => {},
    }
    tally
}
} // verus!
