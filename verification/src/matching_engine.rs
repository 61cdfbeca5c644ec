//! A price-time priority matching engine over ordered maps of price levels.
use vstd::prelude::*;
use vstd::std_specs::iter::IteratorSpec;
use vstd::std_specs::cmp::OrdSpec;
use vstd::laws_cmp::obeys_cmp;
use std::collections::BTreeMap;
use vstd::std_specs::btree::{increasing_seq, spec_keys_iter};
use crate::api::{Order, Trade};

verus! {

broadcast use {vstd::std_specs::btree::group_btree_axioms, vstd::laws_cmp::group_laws_cmp};

/// Largest key of a price map, if it has one.
pub fn max_key(m: &BTreeMap<u64, Vec<Order>>) -> (r: Option<u64>)
    ensures
        r is None <==> m@.dom().is_empty(),
        r matches Some(k) ==> m@.contains_key(k) && forall|k2: u64| #[trigger] m@.contains_key(k2) ==> k2 <= k,
{
    let mut best: Option<u64> = None;
    for k in it: m.keys()
        invariant
            it.seq() == spec_keys_iter(m).remaining(),
            best is None <==> it.index() == 0,
            best matches Some(b) ==> exists|j: int| 0 <= j < it.index() && *it.seq()[j] == b,
            best matches Some(b) ==> forall|j: int| 0 <= j < it.index() ==> *it.seq()[j] <= b,
    {
        match best {
            None => {
                best = Some(*k);
            },
            Some(b) => {
                if *k > b {
                    best = Some(*k);
                }
            },
        }
    }
    proof {
        let s = spec_keys_iter(m).remaining();
        if best is Some {
            let j = choose|j: int| 0 <= j < s.len() && *s[j] == best->0;
            assert(s.unref()[j] == *s[j]);
            assert(s.unref().contains(*s[j]));
            assert(s.unref().to_set().contains(*s[j]));
        }
        assert forall|k2: u64| #[trigger] m@.contains_key(k2) implies k2 <= best->0 by {
            assert(s.unref().to_set().contains(k2));
            let j = choose|j: int| 0 <= j < s.len() && s.unref()[j] == k2;
            assert(*s[j] == k2);
        }
    }
    best
}

/// Smallest key of a price map, if it has one.
pub fn min_key(m: &BTreeMap<u64, Vec<Order>>) -> (r: Option<u64>)
    ensures
        r is None <==> m@.dom().is_empty(),
        r matches Some(k) ==> m@.contains_key(k) && forall|k2: u64| #[trigger] m@.contains_key(k2) ==> k2 >= k,
{
    let mut best: Option<u64> = None;
    for k in it: m.keys()
        invariant
            it.seq() == spec_keys_iter(m).remaining(),
            best is None <==> it.index() == 0,
            best matches Some(b) ==> exists|j: int| 0 <= j < it.index() && *it.seq()[j] == b,
            best matches Some(b) ==> forall|j: int| 0 <= j < it.index() ==> *it.seq()[j] >= b,
    {
        match best {
            None => {
                best = Some(*k);
            },
            Some(b) => {
                if *k < b {
                    best = Some(*k);
                }
            },
        }
    }
    proof {
        let s = spec_keys_iter(m).remaining();
        if best is Some {
            let j = choose|j: int| 0 <= j < s.len() && *s[j] == best->0;
            assert(s.unref()[j] == *s[j]);
            assert(s.unref().contains(*s[j]));
            assert(s.unref().to_set().contains(*s[j]));
        }
        assert forall|k2: u64| #[trigger] m@.contains_key(k2) implies k2 >= best->0 by {
            assert(s.unref().to_set().contains(k2));
            let j = choose|j: int| 0 <= j < s.len() && s.unref()[j] == k2;
            assert(*s[j] == k2);
        }
    }
    best
}


/// The price levels of one side of the book, each a queue of resting orders.
pub open spec fn levels_view(m: Map<u64, Vec<Order>>) -> Map<u64, Seq<Order>> {
    m.map_values(|v: Vec<Order>| v@)
}

/// `k` is the highest price of `m`.
pub open spec fn is_max_key(m: Map<u64, Seq<Order>>, k: u64) -> bool {
    m.contains_key(k) && forall|k2: u64| #[trigger] m.contains_key(k2) ==> k2 <= k
}

/// `k` is the lowest price of `m`.
pub open spec fn is_min_key(m: Map<u64, Seq<Order>>, k: u64) -> bool {
    m.contains_key(k) && forall|k2: u64| #[trigger] m.contains_key(k2) ==> k2 >= k
}

/// The trade between an incoming order and a resting one for `qty` lots at the
/// resting order's price; an incoming side of 0 buys.
pub open spec fn trade_between(incoming: Order, resting: Order, qty: u64) -> Trade {
    Trade {
        buyer_id: if incoming.side == 0 {
            incoming.user_id
        } else {
            resting.user_id
        },
        seller_id: if incoming.side == 0 {
            resting.user_id
        } else {
            incoming.user_id
        },
        price: resting.price,
        qty,
    }
}

/// Matching an incoming order against one price level, oldest order first: each
/// step trades the smaller of the two quantities and drops a resting order once it
/// is filled. Gives the incoming order as left, the level as left and the trades.
pub open spec fn queue_match(inc: Order, q: Seq<Order>) -> (Order, Seq<Order>, Seq<Trade>)
    decreases q.len() + inc.qty,
{
    if inc.qty == 0 || q.len() == 0 {
        (inc, q, Seq::empty())
    } else {
        let r = q[0];
        let t = if inc.qty < r.qty {
            inc.qty
        } else {
            r.qty
        };
        let inc2 = Order { qty: (inc.qty - t) as u64, ..inc };
        let r2 = Order { qty: (r.qty - t) as u64, ..r };
        let q2 = if r2.qty == 0 {
            q.drop_first()
        } else {
            q.update(0, r2)
        };
        let rest = queue_match(inc2, q2);
        (rest.0, rest.1, seq![trade_between(inc, r, t)] + rest.2)
    }
}

pub proof fn lemma_queue_match_progress(inc: Order, q: Seq<Order>)
    ensures
        queue_match(inc, q).0.qty <= inc.qty,
        inc.qty > 0 ==> queue_match(inc, q).0.qty == 0 || queue_match(inc, q).1.len() == 0,
        queue_match(inc, q).0 == (Order { qty: queue_match(inc, q).0.qty, ..inc }),
    decreases q.len() + inc.qty,
{
    if inc.qty == 0 || q.len() == 0 {
    } else {
        let r = q[0];
        let t = if inc.qty < r.qty {
            inc.qty
        } else {
            r.qty
        };
        let inc2 = Order { qty: (inc.qty - t) as u64, ..inc };
        let r2 = Order { qty: (r.qty - t) as u64, ..r };
        let q2 = if r2.qty == 0 {
            q.drop_first()
        } else {
            q.update(0, r2)
        };
        lemma_queue_match_progress(inc2, q2);
    }
}

/// A sell order walking down the bid levels from the highest while the level price
/// is at least its limit.
pub open spec fn match_bids(inc: Order, bids: Map<u64, Seq<Order>>) -> (Order, Map<u64, Seq<Order>>, Seq<Trade>)
    decreases inc.qty, bids.dom().len(),
    when bids.dom().finite()
{
    if inc.qty == 0 || !(exists|k: u64| is_max_key(bids, k)) {
        (inc, bids, Seq::empty())
    } else {
        let p = choose|k: u64| is_max_key(bids, k);
        if p < inc.price {
            (inc, bids, Seq::empty())
        } else {
            let lm = queue_match(inc, bids[p]);
            let b2 = if lm.1.len() == 0 {
                bids.remove(p)
            } else {
                bids.insert(p, lm.1)
            };
            proof {
                lemma_queue_match_progress(inc, bids[p]);
            }
            let rest = match_bids(lm.0, b2);
            (rest.0, rest.1, lm.2 + rest.2)
        }
    }
}

/// A buy order walking up the ask levels from the lowest while the level price is
/// at most its limit.
pub open spec fn match_asks(inc: Order, asks: Map<u64, Seq<Order>>) -> (Order, Map<u64, Seq<Order>>, Seq<Trade>)
    decreases inc.qty, asks.dom().len(),
    when asks.dom().finite()
{
    if inc.qty == 0 || !(exists|k: u64| is_min_key(asks, k)) {
        (inc, asks, Seq::empty())
    } else {
        let p = choose|k: u64| is_min_key(asks, k);
        if p > inc.price {
            (inc, asks, Seq::empty())
        } else {
            let lm = queue_match(inc, asks[p]);
            let a2 = if lm.1.len() == 0 {
                asks.remove(p)
            } else {
                asks.insert(p, lm.1)
            };
            proof {
                lemma_queue_match_progress(inc, asks[p]);
            }
            let rest = match_asks(lm.0, a2);
            (rest.0, rest.1, lm.2 + rest.2)
        }
    }
}

/// `m` with order `o` appended to the queue of its price.
pub open spec fn rest_order(m: Map<u64, Seq<Order>>, o: Order) -> Map<u64, Seq<Order>> {
    m.insert(
        o.price,
        if m.contains_key(o.price) {
            m[o.price].push(o)
        } else {
            seq![o]
        },
    )
}

/// Bid levels, ask levels and trades after processing `o`: a sell (side 1) matches
/// the bids and rests what is left on the asks; any other side matches the asks and
/// rests on the bids.
pub open spec fn engine_step(bids: Map<u64, Seq<Order>>, asks: Map<u64, Seq<Order>>, o: Order) -> (
    Map<u64, Seq<Order>>,
    Map<u64, Seq<Order>>,
    Seq<Trade>,
) {
    if o.side == 1 {
        let m = match_bids(o, bids);
        (m.1, if m.0.qty > 0 {
            rest_order(asks, m.0)
        } else {
            asks
        }, m.2)
    } else {
        let m = match_asks(o, asks);
        (if m.0.qty > 0 {
            rest_order(bids, m.0)
        } else {
            bids
        }, m.1, m.2)
    }
}

/// Total quantity of a sequence of trades.
pub open spec fn trades_qty(ts: Seq<Trade>) -> int
    decreases ts.len(),
{
    if ts.len() == 0 {
        0
    } else {
        ts[0].qty + trades_qty(ts.drop_first())
    }
}

pub proof fn lemma_trades_qty_add(a: Seq<Trade>, b: Seq<Trade>)
    ensures
        trades_qty(a + b) == trades_qty(a) + trades_qty(b),
    decreases a.len(),
{
    if a.len() == 0 {
        assert(a + b =~= b);
    } else {
        assert((a + b).drop_first() =~= a.drop_first() + b);
        lemma_trades_qty_add(a.drop_first(), b);
    }
}

/// Every order queued at a price level carries that price.
pub open spec fn levels_priced(m: Map<u64, Seq<Order>>) -> bool {
    forall|p: u64, i: int| #![trigger m[p][i]] m.contains_key(p) && 0 <= i < m[p].len() ==> m[p][i].price == p
}

/// Matching against one level conserves quantity: what is left of the incoming
/// order plus what traded is what came in; each trade is at the price of an order
/// of the level.
pub proof fn lemma_queue_match_conserves(inc: Order, q: Seq<Order>)
    ensures
        queue_match(inc, q).0.qty + trades_qty(queue_match(inc, q).2) == inc.qty,
        forall|j: int| 0 <= j < queue_match(inc, q).2.len() ==> exists|i: int|
            0 <= i < q.len() && #[trigger] queue_match(inc, q).2[j].price == q[i].price,
        forall|i: int| 0 <= i < queue_match(inc, q).1.len() ==> exists|i2: int|
            0 <= i2 < q.len() && #[trigger] queue_match(inc, q).1[i].price == q[i2].price,
    decreases q.len() + inc.qty,
{
    if inc.qty == 0 || q.len() == 0 {
    } else {
        let r = q[0];
        let t = if inc.qty < r.qty {
            inc.qty
        } else {
            r.qty
        };
        let inc2 = Order { qty: (inc.qty - t) as u64, ..inc };
        let r2 = Order { qty: (r.qty - t) as u64, ..r };
        let q2 = if r2.qty == 0 {
            q.drop_first()
        } else {
            q.update(0, r2)
        };
        lemma_queue_match_conserves(inc2, q2);
        let rest = queue_match(inc2, q2);
        let tr = trade_between(inc, r, t);
        assert((seq![tr] + rest.2).drop_first() =~= rest.2);
        let all = seq![tr] + rest.2;
        assert forall|j: int| 0 <= j < all.len() implies exists|i: int|
            0 <= i < q.len() && #[trigger] all[j].price == q[i].price by {
            if j == 0 {
                assert(all[0].price == q[0].price);
            } else {
                assert(all[j] == rest.2[j - 1]);
                let i2 = choose|i: int| 0 <= i < q2.len() && rest.2[j - 1].price == q2[i].price;
                if r2.qty == 0 {
                    assert(q2[i2] == q[i2 + 1]);
                } else if i2 == 0 {
                    assert(q2[0].price == q[0].price);
                } else {
                    assert(q2[i2] == q[i2]);
                }
            }
        }
        assert forall|i: int| 0 <= i < rest.1.len() implies exists|i2: int|
            0 <= i2 < q.len() && #[trigger] rest.1[i].price == q[i2].price by {
            let i3 = choose|i2: int| 0 <= i2 < q2.len() && rest.1[i].price == q2[i2].price;
            if r2.qty == 0 {
                assert(q2[i3] == q[i3 + 1]);
            } else if i3 == 0 {
                assert(q2[0].price == q[0].price);
            } else {
                assert(q2[i3] == q[i3]);
            }
        }
    }
}

/// A sell order walking the bids conserves quantity, and on priced levels every
/// trade is at a price no lower than its limit.
pub proof fn lemma_match_bids_conserves(inc: Order, bids: Map<u64, Seq<Order>>)
    requires
        bids.dom().finite(),
    ensures
        match_bids(inc, bids).0.qty + trades_qty(match_bids(inc, bids).2) == inc.qty,
        levels_priced(bids) ==> levels_priced(match_bids(inc, bids).1) && forall|j: int|
            0 <= j < match_bids(inc, bids).2.len() ==> #[trigger] match_bids(inc, bids).2[j].price
                >= inc.price,
    decreases inc.qty, bids.dom().len(),
{
    if inc.qty == 0 || !(exists|k: u64| is_max_key(bids, k)) {
    } else {
        let p = choose|k: u64| is_max_key(bids, k);
        if p < inc.price {
        } else {
            let lm = queue_match(inc, bids[p]);
            let b2 = if lm.1.len() == 0 {
                bids.remove(p)
            } else {
                bids.insert(p, lm.1)
            };
            lemma_queue_match_progress(inc, bids[p]);
            lemma_queue_match_conserves(inc, bids[p]);
            lemma_match_bids_conserves(lm.0, b2);
            let rest = match_bids(lm.0, b2);
            lemma_trades_qty_add(lm.2, rest.2);
            if levels_priced(bids) {
                assert(levels_priced(b2)) by {
                    assert forall|p2: u64, i: int| b2.contains_key(p2) && 0 <= i < b2[p2].len() implies #[trigger] b2[p2][i].price == p2 by {
                        if p2 == p {
                            let i2 = choose|i2: int| 0 <= i2 < bids[p].len() && lm.1[i].price == bids[p][i2].price;
                            assert(bids[p][i2].price == p);
                        }
                    }
                }
                let all = lm.2 + rest.2;
                assert forall|j: int| 0 <= j < all.len() implies #[trigger] all[j].price >= inc.price by {
                    if j < lm.2.len() {
                        let i2 = choose|i: int| 0 <= i < bids[p].len() && lm.2[j].price == bids[p][i].price;
                        assert(bids[p][i2].price == p);
                    } else {
                        assert(all[j] == rest.2[j - lm.2.len()]);
                    }
                }
            }
        }
    }
}

/// A buy order walking the asks conserves quantity, and on priced levels every trade
/// is at a price no higher than its limit.
pub proof fn lemma_match_asks_conserves(inc: Order, asks: Map<u64, Seq<Order>>)
    requires
        asks.dom().finite(),
    ensures
        match_asks(inc, asks).0.qty + trades_qty(match_asks(inc, asks).2) == inc.qty,
        levels_priced(asks) ==> levels_priced(match_asks(inc, asks).1) && forall|j: int|
            0 <= j < match_asks(inc, asks).2.len() ==> #[trigger] match_asks(inc, asks).2[j].price
                <= inc.price,
    decreases inc.qty, asks.dom().len(),
{
    if inc.qty == 0 || !(exists|k: u64| is_min_key(asks, k)) {
    } else {
        let p = choose|k: u64| is_min_key(asks, k);
        if p > inc.price {
        } else {
            let lm = queue_match(inc, asks[p]);
            let a2 = if lm.1.len() == 0 {
                asks.remove(p)
            } else {
                asks.insert(p, lm.1)
            };
            lemma_queue_match_progress(inc, asks[p]);
            lemma_queue_match_conserves(inc, asks[p]);
            lemma_match_asks_conserves(lm.0, a2);
            let rest = match_asks(lm.0, a2);
            lemma_trades_qty_add(lm.2, rest.2);
            if levels_priced(asks) {
                assert(levels_priced(a2)) by {
                    assert forall|p2: u64, i: int| a2.contains_key(p2) && 0 <= i < a2[p2].len() implies #[trigger] a2[p2][i].price == p2 by {
                        if p2 == p {
                            let i2 = choose|i2: int| 0 <= i2 < asks[p].len() && lm.1[i].price == asks[p][i2].price;
                            assert(asks[p][i2].price == p);
                        }
                    }
                }
                let all = lm.2 + rest.2;
                assert forall|j: int| 0 <= j < all.len() implies #[trigger] all[j].price <= inc.price by {
                    if j < lm.2.len() {
                        let i2 = choose|i: int| 0 <= i < asks[p].len() && lm.2[j].price == asks[p][i].price;
                        assert(asks[p][i2].price == p);
                    } else {
                        assert(all[j] == rest.2[j - lm.2.len()]);
                    }
                }
            }
        }
    }
}

proof fn lemma_match_bids_priority(inc: Order, bids: Map<u64, Seq<Order>>)
    requires
        bids.dom().finite(),
        levels_priced(bids),
    ensures
        ({
            let r = match_bids(inc, bids);
            &&& forall|j: int| 0 <= j < r.2.len() ==> bids.contains_key(#[trigger] r.2[j].price)
            &&& forall|k: u64| #[trigger] r.1.contains_key(k) ==> bids.contains_key(k)
            &&& forall|j: int, k: u64| 0 <= j < r.2.len() && #[trigger] r.1.contains_key(k) ==> #[trigger] r.2[j].price >= k
            &&& forall|i: int, j: int| 0 <= i < j < r.2.len() ==> #[trigger] r.2[i].price >= #[trigger] r.2[j].price
        }),
    decreases inc.qty, bids.dom().len(),
{
    if inc.qty == 0 || !(exists|k: u64| is_max_key(bids, k)) {
    } else {
        let p = choose|k: u64| is_max_key(bids, k);
        if p < inc.price {
        } else {
            let lm = queue_match(inc, bids[p]);
            let b2 = if lm.1.len() == 0 {
                bids.remove(p)
            } else {
                bids.insert(p, lm.1)
            };
            lemma_queue_match_progress(inc, bids[p]);
            lemma_queue_match_conserves(inc, bids[p]);
            assert(levels_priced(b2)) by {
                assert forall|p2: u64, i: int| b2.contains_key(p2) && 0 <= i < b2[p2].len() implies #[trigger] b2[p2][i].price == p2 by {
                    if p2 == p {
                        let i2 = choose|i2: int| 0 <= i2 < bids[p].len() && lm.1[i].price == bids[p][i2].price;
                        assert(bids[p][i2].price == p);
                    }
                }
            }
            assert forall|j: int| 0 <= j < lm.2.len() implies #[trigger] lm.2[j].price == p by {
                let i2 = choose|i: int| 0 <= i < bids[p].len() && lm.2[j].price == bids[p][i].price;
                assert(bids[p][i2].price == p);
            }
            lemma_match_bids_priority(lm.0, b2);
            let rest = match_bids(lm.0, b2);
            let all = lm.2 + rest.2;
            assert forall|j: int| 0 <= j < rest.2.len() implies #[trigger] rest.2[j].price <= p by {
                assert(b2.contains_key(rest.2[j].price));
                assert(bids.contains_key(rest.2[j].price));
            }
            assert forall|j: int| 0 <= j < all.len() implies #[trigger] all[j] == (if j < lm.2.len() {
                lm.2[j]
            } else {
                rest.2[j - lm.2.len()]
            }) by {}
            assert forall|k: u64| #[trigger] rest.1.contains_key(k) implies bids.contains_key(k) && k <= p by {
                assert(b2.contains_key(k));
            }
        }
    }
}

proof fn lemma_match_asks_priority(inc: Order, asks: Map<u64, Seq<Order>>)
    requires
        asks.dom().finite(),
        levels_priced(asks),
    ensures
        ({
            let r = match_asks(inc, asks);
            &&& forall|j: int| 0 <= j < r.2.len() ==> asks.contains_key(#[trigger] r.2[j].price)
            &&& forall|k: u64| #[trigger] r.1.contains_key(k) ==> asks.contains_key(k)
            &&& forall|j: int, k: u64| 0 <= j < r.2.len() && #[trigger] r.1.contains_key(k) ==> #[trigger] r.2[j].price <= k
            &&& forall|i: int, j: int| 0 <= i < j < r.2.len() ==> #[trigger] r.2[i].price <= #[trigger] r.2[j].price
        }),
    decreases inc.qty, asks.dom().len(),
{
    if inc.qty == 0 || !(exists|k: u64| is_min_key(asks, k)) {
    } else {
        let p = choose|k: u64| is_min_key(asks, k);
        if p > inc.price {
        } else {
            let lm = queue_match(inc, asks[p]);
            let b2 = if lm.1.len() == 0 {
                asks.remove(p)
            } else {
                asks.insert(p, lm.1)
            };
            lemma_queue_match_progress(inc, asks[p]);
            lemma_queue_match_conserves(inc, asks[p]);
            assert(levels_priced(b2)) by {
                assert forall|p2: u64, i: int| b2.contains_key(p2) && 0 <= i < b2[p2].len() implies #[trigger] b2[p2][i].price == p2 by {
                    if p2 == p {
                        let i2 = choose|i2: int| 0 <= i2 < asks[p].len() && lm.1[i].price == asks[p][i2].price;
                        assert(asks[p][i2].price == p);
                    }
                }
            }
            assert forall|j: int| 0 <= j < lm.2.len() implies #[trigger] lm.2[j].price == p by {
                let i2 = choose|i: int| 0 <= i < asks[p].len() && lm.2[j].price == asks[p][i].price;
                assert(asks[p][i2].price == p);
            }
            lemma_match_asks_priority(lm.0, b2);
            let rest = match_asks(lm.0, b2);
            let all = lm.2 + rest.2;
            assert forall|j: int| 0 <= j < rest.2.len() implies #[trigger] rest.2[j].price >= p by {
                assert(b2.contains_key(rest.2[j].price));
                assert(asks.contains_key(rest.2[j].price));
            }
            assert forall|j: int| 0 <= j < all.len() implies #[trigger] all[j] == (if j < lm.2.len() {
                lm.2[j]
            } else {
                rest.2[j - lm.2.len()]
            }) by {}
            assert forall|k: u64| #[trigger] rest.1.contains_key(k) implies asks.contains_key(k) && k >= p by {
                assert(b2.contains_key(k));
            }
        }
    }
}

/// Processing an order conserves quantity (what traded plus what rests is what came
/// in, and only an unfilled remainder rests), keeps every level holding orders of its
/// own price, and trades a sell at no less and a buy at no more than its limit.
pub proof fn lemma_engine_step_laws(bids: Map<u64, Seq<Order>>, asks: Map<u64, Seq<Order>>, o: Order)
    requires
        bids.dom().finite(),
        asks.dom().finite(),
        levels_priced(bids),
        levels_priced(asks),
    ensures
        ({
            let s = engine_step(bids, asks, o);
            &&& levels_priced(s.0)
            &&& levels_priced(s.1)
            &&& trades_qty(s.2) <= o.qty
            &&& o.side == 1 ==> forall|j: int| 0 <= j < s.2.len() ==> #[trigger] s.2[j].price >= o.price
            &&& o.side != 1 ==> forall|j: int| 0 <= j < s.2.len() ==> #[trigger] s.2[j].price <= o.price
            &&& o.side == 1 ==> s.1 == (if trades_qty(s.2) < o.qty {
                rest_order(asks, Order { qty: (o.qty - trades_qty(s.2)) as u64, ..o })
            } else {
                asks
            })
            &&& o.side != 1 ==> s.0 == (if trades_qty(s.2) < o.qty {
                rest_order(bids, Order { qty: (o.qty - trades_qty(s.2)) as u64, ..o })
            } else {
                bids
            })
        }),
{
    if o.side == 1 {
        lemma_match_bids_conserves(o, bids);
        lemma_match_bids_shape(o, bids);
        let m = match_bids(o, bids);
        if m.0.qty > 0 {
            let r = rest_order(asks, m.0);
            assert forall|p: u64, i: int| r.contains_key(p) && 0 <= i < r[p].len() implies #[trigger] r[p][i].price == p by {
                if p == m.0.price && asks.contains_key(p) && i < asks[p].len() {
                    assert(r[p][i] == asks[p][i]);
                }
            }
        }
    } else {
        lemma_match_asks_conserves(o, asks);
        lemma_match_asks_shape(o, asks);
        let m = match_asks(o, asks);
        if m.0.qty > 0 {
            let r = rest_order(bids, m.0);
            assert forall|p: u64, i: int| r.contains_key(p) && 0 <= i < r[p].len() implies #[trigger] r[p][i].price == p by {
                if p == m.0.price && bids.contains_key(p) && i < bids[p].len() {
                    assert(r[p][i] == bids[p][i]);
                }
            }
        }
    }
}

proof fn lemma_match_bids_shape(inc: Order, bids: Map<u64, Seq<Order>>)
    requires
        bids.dom().finite(),
    ensures
        match_bids(inc, bids).0 == (Order { qty: match_bids(inc, bids).0.qty, ..inc }),
    decreases inc.qty, bids.dom().len(),
{
    if inc.qty == 0 || !(exists|k: u64| is_max_key(bids, k)) {
    } else {
        let p = choose|k: u64| is_max_key(bids, k);
        if p >= inc.price {
            let lm = queue_match(inc, bids[p]);
            let b2 = if lm.1.len() == 0 {
                bids.remove(p)
            } else {
                bids.insert(p, lm.1)
            };
            lemma_queue_match_progress(inc, bids[p]);
            lemma_match_bids_shape(lm.0, b2);
        }
    }
}

proof fn lemma_match_asks_shape(inc: Order, asks: Map<u64, Seq<Order>>)
    requires
        asks.dom().finite(),
    ensures
        match_asks(inc, asks).0 == (Order { qty: match_asks(inc, asks).0.qty, ..inc }),
    decreases inc.qty, asks.dom().len(),
{
    if inc.qty == 0 || !(exists|k: u64| is_min_key(asks, k)) {
    } else {
        let p = choose|k: u64| is_min_key(asks, k);
        if p <= inc.price {
            let lm = queue_match(inc, asks[p]);
            let a2 = if lm.1.len() == 0 {
                asks.remove(p)
            } else {
                asks.insert(p, lm.1)
            };
            lemma_queue_match_progress(inc, asks[p]);
            lemma_match_asks_shape(lm.0, a2);
        }
    }
}

pub struct MatchingEngine {
    pub bids: BTreeMap<u64, Vec<Order>>,
    pub asks: BTreeMap<u64, Vec<Order>>,
}

impl MatchingEngine {
    pub fn new() -> (r: Self)
        ensures
            r.bids@ == Map::<u64, Vec<Order>>::empty(),
            r.asks@ == Map::<u64, Vec<Order>>::empty(),
    {
        Self { bids: BTreeMap::new(), asks: BTreeMap::new() }
    }

    /// Matches `order` against the opposite side, oldest order first within the best
    /// price, and rests what is left at its limit price.
    pub fn process(&mut self, order: Order) -> (r: Vec<Trade>)
        ensures
            ({
                let s = engine_step(levels_view(old(self).bids@), levels_view(old(self).asks@), order);
                &&& levels_view(final(self).bids@) == s.0
                &&& levels_view(final(self).asks@) == s.1
                &&& r@ == s.2
            }),
    {
        let mut order = order;
        let mut trades: Vec<Trade> = Vec::new();
        let ghost bids0 = levels_view(self.bids@);
        let ghost asks0 = levels_view(self.asks@);
        if order.side == 1 {
            let ghost target = match_bids(order, bids0);
            while order.qty > 0
                invariant_except_break
                    self.bids@.dom().finite(),
                    levels_view(self.bids@).dom() == self.bids@.dom(),
                    match_bids(order, levels_view(self.bids@)).0 == target.0,
                    match_bids(order, levels_view(self.bids@)).1 == target.1,
                    trades@ + match_bids(order, levels_view(self.bids@)).2 == target.2,
                    levels_view(self.asks@) == asks0,
                    order.side == 1,
                ensures
                    order == target.0,
                    levels_view(self.bids@) == target.1,
                    trades@ == target.2,
                    self.bids@.dom().finite(),
                    levels_view(self.asks@) == asks0,
                    order.side == 1,
                decreases order.qty, self.bids@.dom().len(),
            {
                let best = max_key(&self.bids);
                match best {
                    None => {
                        proof {
                            let lv = levels_view(self.bids@);
                            assert(!(exists|k: u64| is_max_key(lv, k)));
                            assert(trades@ + Seq::<Trade>::empty() == trades@);
                        }
                        break;
                    },
                    Some(p) => {
                        let ghost lv = levels_view(self.bids@);
                        proof {
                            assert(is_max_key(lv, p));
                            let c = choose|k: u64| is_max_key(lv, k);
                            assert(c <= p && p <= c);
                        }
                        if p < order.price {
                            assert(trades@ + Seq::<Trade>::empty() == trades@);
                            break;
                        }
                        let ghost old_bids = self.bids@;
                        let removed = self.bids.remove(&p);
                        let mut queue = match removed {
                            Some(q) => q,
                            None => {
                                proof {
                                    assert(false);
                                }
                                Vec::new()
                            },
                        };
                        assert(queue@ == lv[p]);
                        let ghost tr_before = trades@;
                        let ghost inc_before = order;
                        Self::match_against_queue(&mut order, &mut queue, &mut trades);
                        proof {
                            lemma_queue_match_progress(inc_before, lv[p]);
                        }
                        if queue.len() > 0 {
                            self.bids.insert(p, queue);
                        }
                        proof {
                            let lm = queue_match(inc_before, lv[p]);
                            let b2 = if lm.1.len() == 0 {
                                lv.remove(p)
                            } else {
                                lv.insert(p, lm.1)
                            };
                            assert(levels_view(self.bids@) =~= b2);
                            assert(tr_before + (lm.2 + match_bids(order, b2).2) =~= trades@ + match_bids(order, b2).2);
                        }
                    },
                }
            }
            if order.qty > 0 {
                let ghost old_asks = self.asks@;
                let removed = self.asks.remove(&order.price);
                match removed {
                    Some(mut q) => {
                        q.push(order);
                        self.asks.insert(order.price, q);
                    },
                    None => {
                        let mut q: Vec<Order> = Vec::new();
                        q.push(order);
                        self.asks.insert(order.price, q);
                    },
                }
                assert(levels_view(self.asks@) =~= rest_order(asks0, order));
            }
        } else {
            let ghost target = match_asks(order, asks0);
            while order.qty > 0
                invariant_except_break
                    self.asks@.dom().finite(),
                    levels_view(self.asks@).dom() == self.asks@.dom(),
                    match_asks(order, levels_view(self.asks@)).0 == target.0,
                    match_asks(order, levels_view(self.asks@)).1 == target.1,
                    trades@ + match_asks(order, levels_view(self.asks@)).2 == target.2,
                    levels_view(self.bids@) == bids0,
                    order.side != 1,
                ensures
                    order == target.0,
                    levels_view(self.asks@) == target.1,
                    trades@ == target.2,
                    self.asks@.dom().finite(),
                    levels_view(self.bids@) == bids0,
                    order.side != 1,
                decreases order.qty, self.asks@.dom().len(),
            {
                let best = min_key(&self.asks);
                match best {
                    None => {
                        proof {
                            let lv = levels_view(self.asks@);
                            assert(!(exists|k: u64| is_min_key(lv, k)));
                            assert(trades@ + Seq::<Trade>::empty() == trades@);
                        }
                        break;
                    },
                    Some(p) => {
                        let ghost lv = levels_view(self.asks@);
                        proof {
                            assert(is_min_key(lv, p));
                            let c = choose|k: u64| is_min_key(lv, k);
                            assert(c <= p && p <= c);
                        }
                        if p > order.price {
                            assert(trades@ + Seq::<Trade>::empty() == trades@);
                            break;
                        }
                        let removed = self.asks.remove(&p);
                        let mut queue = match removed {
                            Some(q) => q,
                            None => {
                                proof {
                                    assert(false);
                                }
                                Vec::new()
                            },
                        };
                        assert(queue@ == lv[p]);
                        let ghost tr_before = trades@;
                        let ghost inc_before = order;
                        Self::match_against_queue(&mut order, &mut queue, &mut trades);
                        proof {
                            lemma_queue_match_progress(inc_before, lv[p]);
                        }
                        if queue.len() > 0 {
                            self.asks.insert(p, queue);
                        }
                        proof {
                            let lm = queue_match(inc_before, lv[p]);
                            let a2 = if lm.1.len() == 0 {
                                lv.remove(p)
                            } else {
                                lv.insert(p, lm.1)
                            };
                            assert(levels_view(self.asks@) =~= a2);
                            assert(tr_before + (lm.2 + match_asks(order, a2).2) =~= trades@ + match_asks(order, a2).2);
                        }
                    },
                }
            }
            if order.qty > 0 {
                let removed = self.bids.remove(&order.price);
                match removed {
                    Some(mut q) => {
                        q.push(order);
                        self.bids.insert(order.price, q);
                    },
                    None => {
                        let mut q: Vec<Order> = Vec::new();
                        q.push(order);
                        self.bids.insert(order.price, q);
                    },
                }
                assert(levels_view(self.bids@) =~= rest_order(bids0, order));
            }
        }
        trades
    }

    /// Matches `incoming` against the queue of one price level, oldest first.
    fn match_against_queue(incoming: &mut Order, queue: &mut Vec<Order>, trades: &mut Vec<Trade>)
        ensures
            *final(incoming) == queue_match(*old(incoming), old(queue)@).0,
            final(queue)@ == queue_match(*old(incoming), old(queue)@).1,
            final(trades)@ == old(trades)@ + queue_match(*old(incoming), old(queue)@).2,
    {
        let ghost target = queue_match(*incoming, queue@);
        let ghost t0 = trades@;
        while incoming.qty > 0 && queue.len() > 0
            invariant
                queue_match(*incoming, queue@).0 == target.0,
                queue_match(*incoming, queue@).1 == target.1,
                trades@ + queue_match(*incoming, queue@).2 == t0 + target.2,
            decreases queue@.len() + incoming.qty,
        {
            let ghost inc_before = *incoming;
            let ghost q_before = queue@;
            let ghost tr_before = trades@;
            let resting = queue[0];
            let trade_qty = if incoming.qty < resting.qty {
                incoming.qty
            } else {
                resting.qty
            };
            let buyer_id = if incoming.side == 0 {
                incoming.user_id
            } else {
                resting.user_id
            };
            let seller_id = if incoming.side == 0 {
                resting.user_id
            } else {
                incoming.user_id
            };
            trades.push(Trade { buyer_id, seller_id, price: resting.price, qty: trade_qty });
            incoming.qty = incoming.qty - trade_qty;
            let mut r2 = resting;
            r2.qty = resting.qty - trade_qty;
            if r2.qty == 0 {
                queue.remove(0);
            } else {
                queue.set(0, r2);
            }
            proof {
                let q2 = if r2.qty == 0 {
                    q_before.drop_first()
                } else {
                    q_before.update(0, r2)
                };
                assert(queue@ =~= q2);
                let tr = trade_between(inc_before, resting, trade_qty);
                assert(trades@ == tr_before.push(tr));
                assert(tr_before + (seq![tr] + queue_match(*incoming, q2).2) =~= trades@ + queue_match(
                    *incoming,
                    q2,
                ).2);
            }
        }
        assert(trades@ + Seq::<Trade>::empty() == trades@);
    }
}


/// Price priority: a sell trades with the highest bids first and a buy with the lowest
/// asks first. Every trade of a sell is at a price no lower than any bid level left in
/// the book, and its trades come in non-increasing price order; every trade of a buy is
/// at a price no higher than any ask level left, in non-decreasing price order.
pub proof fn lemma_engine_price_priority(bids: Map<u64, Seq<Order>>, asks: Map<u64, Seq<Order>>, o: Order)
    requires
        bids.dom().finite(),
        asks.dom().finite(),
        levels_priced(bids),
        levels_priced(asks),
    ensures
        ({
            let s = engine_step(bids, asks, o);
            &&& o.side == 1 ==> {
                &&& forall|j: int, k: u64| 0 <= j < s.2.len() && #[trigger] s.0.contains_key(k) ==> #[trigger] s.2[j].price >= k
                &&& forall|i: int, j: int| 0 <= i < j < s.2.len() ==> #[trigger] s.2[i].price >= #[trigger] s.2[j].price
            }
            &&& o.side != 1 ==> {
                &&& forall|j: int, k: u64| 0 <= j < s.2.len() && #[trigger] s.1.contains_key(k) ==> #[trigger] s.2[j].price <= k
                &&& forall|i: int, j: int| 0 <= i < j < s.2.len() ==> #[trigger] s.2[i].price <= #[trigger] s.2[j].price
            }
        }),
{
    if o.side == 1 {
        lemma_match_bids_priority(o, bids);
    } else {
        lemma_match_asks_priority(o, asks);
    }
}

/// The user on the resting side of a trade of `inc`.
pub open spec fn resting_user(inc: Order, t: Trade) -> u64 {
    if inc.side == 0 {
        t.seller_id
    } else {
        t.buyer_id
    }
}

/// Time priority within a level: an incoming order meets the level's orders oldest
/// first. The `j`-th trade is against the `j`-th oldest order, at its price and with its
/// user on the resting side; every trade but the last fills its resting order
/// completely; there are no more trades than orders.
pub proof fn lemma_queue_match_fifo(inc: Order, q: Seq<Order>)
    ensures
        ({
            let ts = queue_match(inc, q).2;
            &&& ts.len() <= q.len()
            &&& forall|j: int| 0 <= j < ts.len() ==> {
                &&& #[trigger] resting_user(inc, ts[j]) == q[j].user_id
                &&& ts[j].price == q[j].price
            }
            &&& forall|j: int| 0 <= j < ts.len() - 1 ==> #[trigger] ts[j].qty == q[j].qty
        }),
    decreases q.len() + inc.qty,
{
    if inc.qty == 0 || q.len() == 0 {
    } else {
        let r = q[0];
        let t = if inc.qty < r.qty {
            inc.qty
        } else {
            r.qty
        };
        let inc2 = Order { qty: (inc.qty - t) as u64, ..inc };
        let r2 = Order { qty: (r.qty - t) as u64, ..r };
        let q2 = if r2.qty == 0 {
            q.drop_first()
        } else {
            q.update(0, r2)
        };
        lemma_queue_match_fifo(inc2, q2);
        let rest = queue_match(inc2, q2);
        let tr = trade_between(inc, r, t);
        let ts = seq![tr] + rest.2;
        if r2.qty == 0 {
            assert forall|j: int| 0 <= j < ts.len() implies #[trigger] resting_user(inc, ts[j]) == q[j].user_id
                && ts[j].price == q[j].price by {
                if j > 0 {
                    assert(ts[j] == rest.2[j - 1]);
                    assert(q2[j - 1] == q[j]);
                    assert(resting_user(inc2, rest.2[j - 1]) == resting_user(inc, rest.2[j - 1]));
                }
            }
            assert forall|j: int| 0 <= j < ts.len() - 1 implies #[trigger] ts[j].qty == q[j].qty by {
                if j > 0 {
                    assert(ts[j] == rest.2[j - 1]);
                    assert(q2[j - 1] == q[j]);
                }
            }
        } else {
            assert(inc2.qty == 0);
            assert(rest.2.len() == 0);
            assert(ts =~= seq![tr]);
        }
    }
}
} // verus!
