//! Pre-allocated arenas for resting orders and price levels, and the intrusive
//! doubly-linked FIFO queue of orders that hangs off each price level.
//!
//! Free slots form a singly linked free list; `free_list` records it as a sequence.
use vstd::prelude::*;
use vstd::set_lib::{lemma_int_range, lemma_len_subset, set_int_range};
use crate::index::NULL_IDX;
use crate::types::{Order, RejectReason};

verus! {

/// Nodes in the order arena of a book.
pub const MAX_ARENA_ORDERS: usize = 131_072;

/// Nodes in the price level arena of a book.
pub const MAX_PRICE_LEVELS: usize = 4_096;

pub open spec fn sat_sub(a: int, b: int) -> int {
    if a >= b {
        a - b
    } else {
        0
    }
}

/// A duplicate-free sequence of indices below `cap` has at most `cap` elements.
pub proof fn lemma_distinct_bounded(s: Seq<u32>, cap: int)
    requires
        s.no_duplicates(),
        forall|i: int| 0 <= i < s.len() ==> ((#[trigger] s[i]) as int) < cap,
        0 <= cap,
    ensures
        s.len() <= cap,
{
    let t = s.map_values(|x: u32| x as int);
    assert(t.no_duplicates()) by {
        assert forall|i: int, j: int| 0 <= i < t.len() && 0 <= j < t.len() && i != j implies t[i] != t[j] by {
            assert(s[i] != s[j]);
        }
    }
    t.unique_seq_to_set();
    lemma_int_range(0, cap);
    assert(t.to_set().subset_of(set_int_range(0, cap))) by {
        assert forall|x: int| t.to_set().contains(x) implies set_int_range(0, cap).contains(x) by {
            let i = choose|i: int| 0 <= i < t.len() && t[i] == x;
            assert(s[i] < cap);
        }
    }
    lemma_len_subset(t.to_set(), set_int_range(0, cap));
}

#[derive(Debug, Clone, Copy)]
pub struct OrderNode {
    pub order: Order,
    pub prev: u32,
    pub next: u32,
    pub client_id: u64,
    pub active: bool,
}

impl Default for OrderNode {
    fn default() -> (r: Self)
        ensures
            r == (OrderNode {
                order: r.order,
                prev: NULL_IDX,
                next: NULL_IDX,
                client_id: 0,
                active: false,
            }),
            r.order == (Order {
                id: 0,
                price: 0,
                qty: 0,
                user_id: 0,
                client_order_id: 0,
                side: 0,
                order_type: 0,
                symbol_id: 0,
                magic: crate::types::ORDER_MAGIC,
                _padding: [0u8, 0u8],
            }),
    {
        OrderNode { order: Order::default(), prev: NULL_IDX, next: NULL_IDX, client_id: 0, active: false }
    }
}

/// `fl` is the free list of `nodes` starting at `head`: linked through `next`, without
/// repetition, and exactly the inactive nodes.
pub open spec fn order_free_list_ok(nodes: Seq<OrderNode>, head: u32, fl: Seq<u32>) -> bool {
    &&& head == (if fl.len() == 0 {
        NULL_IDX
    } else {
        fl[0]
    })
    &&& fl.no_duplicates()
    &&& forall|i: int| 0 <= i < fl.len() ==> ((#[trigger] fl[i]) as int) < nodes.len()
    &&& forall|i: int|
        0 <= i < fl.len() ==> nodes[#[trigger] fl[i] as int].next == (if i + 1 < fl.len() {
            fl[i + 1]
        } else {
            NULL_IDX
        })
    &&& forall|j: int| 0 <= j < nodes.len() ==> (#[trigger] nodes[j].active <==> fl.contains(j as u32) == false)
}

/// What `allocate` does to a well-formed arena, seen through its free list: it hands
/// out the head of the list, which leaves it, or refuses with `EngineFull` when the
/// list is empty, changing nothing.
pub open spec fn allocation_step(a0: OrderArena, a1: OrderArena, r: Result<u32, RejectReason>) -> bool {
    &&& a1.wf()
    &&& a1.capacity == a0.capacity
    &&& if a0.free_list@.len() == 0 {
        &&& r == Err::<u32, RejectReason>(RejectReason::EngineFull)
        &&& a1.free_list@ == a0.free_list@
        &&& a1.active_count == a0.active_count
    } else {
        &&& r == Ok::<u32, RejectReason>(a0.free_list@[0])
        &&& a1.free_list@ == a0.free_list@.drop_first()
        &&& a1.active_count == a0.active_count + 1
    }
}

/// The free list of a fresh arena of `cap` nodes after `k` allocations.
pub open spec fn fresh_free_list(cap: nat, k: nat) -> Seq<u32> {
    if k >= cap {
        Seq::empty()
    } else {
        Seq::new((cap - k) as nat, |i: int| (i + k) as u32)
    }
}

proof fn lemma_fresh_prefix(arenas: Seq<OrderArena>, rs: Seq<Result<u32, RejectReason>>, k: int)
    requires
        arenas.len() == rs.len() + 1,
        arenas[0].free_list@ == Seq::new(arenas[0].capacity as nat, |i: int| i as u32),
        forall|j: int| 0 <= j < rs.len() ==> allocation_step(#[trigger] arenas[j], arenas[j + 1], rs[j]),
        0 <= k <= rs.len(),
    ensures
        arenas[k].capacity == arenas[0].capacity,
        arenas[k].free_list@ == fresh_free_list(arenas[0].capacity as nat, k as nat),
    decreases k,
{
    let cap = arenas[0].capacity as nat;
    if k == 0 {
        assert(arenas[0].free_list@ =~= fresh_free_list(cap, 0));
    } else {
        lemma_fresh_prefix(arenas, rs, k - 1);
        assert(allocation_step(arenas[k - 1], arenas[k], rs[k - 1]));
        if k - 1 < cap {
            assert(arenas[k].free_list@ =~= fresh_free_list(cap, k as nat));
        }
    }
}

/// A fresh arena of `capacity` nodes hands out, over successive allocations, the
/// indices 0, 1, 2, ... in turn, so each index of `0..capacity` once, and refuses every
/// allocation after the `capacity`-th with `EngineFull`.
pub proof fn lemma_fresh_arena_allocations(arenas: Seq<OrderArena>, rs: Seq<Result<u32, RejectReason>>)
    requires
        arenas.len() == rs.len() + 1,
        arenas[0].free_list@ == Seq::new(arenas[0].capacity as nat, |i: int| i as u32),
        forall|j: int| 0 <= j < rs.len() ==> allocation_step(#[trigger] arenas[j], arenas[j + 1], rs[j]),
    ensures
        forall|j: int|
            0 <= j < rs.len() ==> #[trigger] rs[j] == (if j < arenas[0].capacity {
                Ok::<u32, RejectReason>(j as u32)
            } else {
                Err::<u32, RejectReason>(RejectReason::EngineFull)
            }),
{
    assert forall|j: int| 0 <= j < rs.len() implies #[trigger] rs[j] == (if j < arenas[0].capacity {
        Ok::<u32, RejectReason>(j as u32)
    } else {
        Err::<u32, RejectReason>(RejectReason::EngineFull)
    }) by {
        lemma_fresh_prefix(arenas, rs, j);
        assert(allocation_step(arenas[j], arenas[j + 1], rs[j]));
    }
}

/// Fixed-capacity, pre-allocated order arena.
pub struct OrderArena {
    pub nodes: Vec<OrderNode>,
    pub free_head: u32,
    pub active_count: usize,
    pub capacity: usize,
    pub free_list: Ghost<Seq<u32>>,
}

impl OrderArena {
    pub open spec fn wf(&self) -> bool {
        &&& self.nodes@.len() == self.capacity
        &&& 1 <= self.capacity < NULL_IDX
        &&& order_free_list_ok(self.nodes@, self.free_head, self.free_list@)
        &&& self.active_count + self.free_list@.len() == self.capacity
    }

    /// An arena whose `capacity` nodes are all free, chained in index order.
    pub fn new(capacity: usize) -> (r: Self)
        requires
            capacity < NULL_IDX,
        ensures
            r.nodes@.len() == capacity,
            r.capacity == capacity,
            r.free_head == 0,
            r.active_count == 0,
            forall|i: int| 0 <= i < capacity ==> !(#[trigger] r.nodes@[i]).active,
            capacity >= 1 ==> r.wf(),
            r.free_list@ == Seq::new(capacity as nat, |i: int| i as u32),
    {
        let mut nodes: Vec<OrderNode> = Vec::with_capacity(capacity);
        let mut i: usize = 0;
        while i < capacity
            invariant
                i <= capacity < NULL_IDX,
                nodes@.len() == i,
                forall|j: int|
                    0 <= j < i ==> (#[trigger] nodes@[j]).prev == NULL_IDX && !nodes@[j].active
                        && nodes@[j].client_id == 0 && nodes@[j].next == (if j + 1 < capacity {
                        (j + 1) as u32
                    } else {
                        NULL_IDX
                    }),
            decreases capacity - i,
        {
            let next = if i + 1 < capacity { (i + 1) as u32 } else { NULL_IDX };
            nodes.push(OrderNode { order: Order::default(), prev: NULL_IDX, next, client_id: 0, active: false });
            i = i + 1;
        }
        let ghost fl = Seq::new(capacity as nat, |i: int| i as u32);
        let r = OrderArena { nodes, free_head: 0, active_count: 0, capacity, free_list: Ghost(fl) };
        proof {
            if capacity >= 1 {
                assert forall|j: int| 0 <= j < capacity implies (#[trigger] r.nodes@[j].active <==> fl.contains(
                    j as u32,
                ) == false) by {
                    assert(fl[j] == j as u32);
                }
            }
        }
        r
    }

    /// Takes the first free node for `order`.
    pub fn allocate(&mut self, order: Order, client_id: u64) -> (r: Result<u32, RejectReason>)
        requires
            old(self).free_head == NULL_IDX || old(self).free_head < old(self).nodes@.len(),
            old(self).active_count < usize::MAX,
        ensures
            old(self).free_head == NULL_IDX ==> r == Err::<u32, RejectReason>(RejectReason::EngineFull)
                && *final(self) == *old(self),
            old(self).free_head != NULL_IDX ==> {
                let idx = old(self).free_head;
                &&& r == Ok::<u32, RejectReason>(idx)
                &&& final(self).nodes@ == old(self).nodes@.update(
                    idx as int,
                    OrderNode { order, prev: NULL_IDX, next: NULL_IDX, client_id, active: true },
                )
                &&& final(self).free_head == old(self).nodes@[idx as int].next
                &&& final(self).active_count == old(self).active_count + 1
                &&& final(self).capacity == old(self).capacity
                &&& final(self).free_list@ == old(self).free_list@.drop_first()
            },
            old(self).wf() ==> final(self).wf(),
            old(self).wf() ==> (r is Err <==> old(self).free_list@.len() == 0),
            old(self).wf() ==> allocation_step(*old(self), *final(self), r),
    {
        if self.free_head == NULL_IDX {
            return Err(RejectReason::EngineFull);
        }
        let idx = self.free_head;
        self.free_head = self.nodes[idx as usize].next;
        self.nodes.set(idx as usize, OrderNode { order, prev: NULL_IDX, next: NULL_IDX, client_id, active: true });
        self.active_count = self.active_count + 1;
        proof {
            self.free_list@ = self.free_list@.drop_first();
            if old(self).wf() {
                let fl0 = old(self).free_list@;
                let fl = self.free_list@;
                assert(fl0[0] == idx);
                assert forall|i: int| 0 <= i < fl.len() implies ((#[trigger] fl[i]) as int) < self.nodes@.len() by {
                    assert(fl[i] == fl0[i + 1]);
                }
                assert forall|i: int| 0 <= i < fl.len() implies self.nodes@[#[trigger] fl[i] as int].next == (if i + 1 < fl.len() {
                    fl[i + 1]
                } else {
                    NULL_IDX
                }) by {
                    assert(fl[i] == fl0[i + 1]);
                    assert(fl0[i + 1] != fl0[0]);
                }
                assert forall|j: int| 0 <= j < self.nodes@.len() implies (#[trigger] self.nodes@[j].active
                    <==> fl.contains(j as u32) == false) by {
                    if j == idx as int {
                        if fl.contains(j as u32) {
                            let k = choose|k: int| 0 <= k < fl.len() && fl[k] == j as u32;
                            assert(fl0[k + 1] == fl0[0]);
                        }
                    } else {
                        assert(old(self).nodes@[j].active <==> fl0.contains(j as u32) == false);
                        if fl0.contains(j as u32) {
                            let k = choose|k: int| 0 <= k < fl0.len() && fl0[k] == j as u32;
                            assert(k != 0);
                            assert(fl[k - 1] == j as u32);
                        }
                        if fl.contains(j as u32) {
                            let k = choose|k: int| 0 <= k < fl.len() && fl[k] == j as u32;
                            assert(fl0[k + 1] == j as u32);
                        }
                    }
                }
                assert(self.free_head == (if fl.len() == 0 { NULL_IDX } else { fl[0] }));
            }
        }
        Ok(idx)
    }

    /// Returns node `idx` to the front of the free list (out-of-range indices are ignored).
    pub fn deallocate(&mut self, idx: u32)
        ensures
            (idx == NULL_IDX || idx as int >= old(self).nodes@.len()) ==> *final(self) == *old(self),
            !(idx == NULL_IDX || idx as int >= old(self).nodes@.len()) ==> {
                &&& final(self).nodes@ == old(self).nodes@.update(
                    idx as int,
                    OrderNode {
                        active: false,
                        next: old(self).free_head,
                        prev: NULL_IDX,
                        ..old(self).nodes@[idx as int]
                    },
                )
                &&& final(self).free_head == idx
                &&& final(self).active_count == sat_sub(old(self).active_count as int, 1)
                &&& final(self).capacity == old(self).capacity
                &&& final(self).free_list@ == seq![idx].add(old(self).free_list@)
            },
            old(self).wf() && idx < old(self).nodes@.len() && old(self).nodes@[idx as int].active ==> final(self).wf(),
    {
        if idx == NULL_IDX || idx as usize >= self.nodes.len() {
            return;
        }
        let mut n = self.nodes[idx as usize];
        n.active = false;
        n.next = self.free_head;
        n.prev = NULL_IDX;
        self.nodes.set(idx as usize, n);
        self.free_head = idx;
        self.active_count = self.active_count.saturating_sub(1);
        proof {
            let fl0 = self.free_list@;
            self.free_list@ = seq![idx].add(fl0);
            if old(self).wf() && old(self).nodes@[idx as int].active {
                let fl = self.free_list@;
                assert(!fl0.contains(idx));
                assert(fl.no_duplicates()) by {
                    assert forall|i: int, j: int| 0 <= i < fl.len() && 0 <= j < fl.len() && i != j implies fl[i] != fl[j] by {
                        if i == 0 {
                            assert(fl[j] == fl0[j - 1]);
                        } else if j == 0 {
                            assert(fl[i] == fl0[i - 1]);
                        } else {
                            assert(fl[i] == fl0[i - 1] && fl[j] == fl0[j - 1]);
                        }
                    }
                }
                assert forall|i: int| 0 <= i < fl.len() implies ((#[trigger] fl[i]) as int) < self.nodes@.len() by {
                    if i > 0 {
                        assert(fl[i] == fl0[i - 1]);
                    }
                }
                lemma_distinct_bounded(fl, self.capacity as int);
                assert forall|i: int| 0 <= i < fl.len() implies self.nodes@[#[trigger] fl[i] as int].next == (if i + 1 < fl.len() {
                    fl[i + 1]
                } else {
                    NULL_IDX
                }) by {
                    if i > 0 {
                        assert(fl[i] == fl0[i - 1]);
                        assert(fl0[i - 1] != idx);
                    }
                }
                assert forall|j: int| 0 <= j < self.nodes@.len() implies (#[trigger] self.nodes@[j].active
                    <==> fl.contains(j as u32) == false) by {
                    if j != idx as int {
                        assert(old(self).nodes@[j].active <==> fl0.contains(j as u32) == false);
                        if fl0.contains(j as u32) {
                            let k = choose|k: int| 0 <= k < fl0.len() && fl0[k] == j as u32;
                            assert(fl[k + 1] == j as u32);
                        }
                        if fl.contains(j as u32) {
                            let k = choose|k: int| 0 <= k < fl.len() && fl[k] == j as u32;
                            assert(k != 0);
                            assert(fl0[k - 1] == j as u32);
                        }
                    } else {
                        assert(fl[0] == idx);
                    }
                }
            }
        }
    }
}

#[derive(Debug, Clone, Copy)]
pub struct PriceLevelNode {
    pub price: u64,
    pub head_order: u32,
    pub tail_order: u32,
    /// The next better price level (or `NULL_IDX`).
    pub prev_level: u32,
    /// The next worse price level (or `NULL_IDX`).
    pub next_level: u32,
    pub total_qty: u64,
    pub order_count: u32,
    pub next_free: u32,
    pub active: bool,
}

impl Default for PriceLevelNode {
    fn default() -> (r: Self)
        ensures
            r == (PriceLevelNode {
                price: 0,
                head_order: NULL_IDX,
                tail_order: NULL_IDX,
                prev_level: NULL_IDX,
                next_level: NULL_IDX,
                total_qty: 0,
                order_count: 0,
                next_free: NULL_IDX,
                active: false,
            }),
    {
        PriceLevelNode {
            price: 0,
            head_order: NULL_IDX,
            tail_order: NULL_IDX,
            prev_level: NULL_IDX,
            next_level: NULL_IDX,
            total_qty: 0,
            order_count: 0,
            next_free: NULL_IDX,
            active: false,
        }
    }
}

/// The node with its links replaced.
pub open spec fn relink(n: OrderNode, prev: u32, next: u32) -> OrderNode {
    OrderNode { prev, next, ..n }
}

/// `nodes` after `push_order(node_idx)` on a level whose tail is `tail`.
pub open spec fn nodes_after_push(nodes: Seq<OrderNode>, tail: u32, node_idx: u32) -> Seq<OrderNode> {
    let n1 = nodes.update(node_idx as int, relink(nodes[node_idx as int], tail, NULL_IDX));
    if tail != NULL_IDX {
        n1.update(tail as int, relink(n1[tail as int], n1[tail as int].prev, node_idx))
    } else {
        n1
    }
}

/// A level after `push_order` of node `node_idx` holding `qty`.
pub open spec fn level_after_push(lv: PriceLevelNode, qty: u64, node_idx: u32) -> PriceLevelNode {
    PriceLevelNode {
        head_order: if lv.tail_order == NULL_IDX {
            node_idx
        } else {
            lv.head_order
        },
        tail_order: node_idx,
        total_qty: (lv.total_qty + qty) as u64,
        order_count: (lv.order_count + 1) as u32,
        ..lv
    }
}

/// `nodes` after `pop_order` takes the head `h`: its successor becomes the new head.
pub open spec fn nodes_after_pop(nodes: Seq<OrderNode>, h: u32) -> Seq<OrderNode> {
    let nx = nodes[h as int].next;
    if nx != NULL_IDX {
        nodes.update(nx as int, relink(nodes[nx as int], NULL_IDX, nodes[nx as int].next))
    } else {
        nodes
    }
}

/// A level after `pop_order` takes its head, over the arena nodes before the pop.
pub open spec fn level_after_pop(lv: PriceLevelNode, nodes: Seq<OrderNode>) -> PriceLevelNode {
    let nx = nodes[lv.head_order as int].next;
    PriceLevelNode {
        head_order: nx,
        tail_order: if nx != NULL_IDX {
            lv.tail_order
        } else {
            NULL_IDX
        },
        total_qty: sat_sub(lv.total_qty as int, nodes[lv.head_order as int].order.qty as int) as u64,
        order_count: sat_sub(lv.order_count as int, 1) as u32,
        ..lv
    }
}

/// `q` is the queue of level `lv` over `nodes`, head to tail: the level's head, tail
/// and count, linked both ways through the nodes, without repetition.
pub open spec fn level_queue(lv: PriceLevelNode, nodes: Seq<OrderNode>, q: Seq<u32>) -> bool {
    &&& lv.head_order == (if q.len() == 0 {
        NULL_IDX
    } else {
        q[0]
    })
    &&& lv.tail_order == (if q.len() == 0 {
        NULL_IDX
    } else {
        q.last()
    })
    &&& lv.order_count == q.len()
    &&& q.no_duplicates()
    &&& forall|i: int| 0 <= i < q.len() ==> ((#[trigger] q[i]) as int) < nodes.len()
    &&& forall|i: int|
        0 <= i < q.len() ==> nodes[#[trigger] q[i] as int].next == (if i + 1 < q.len() {
            q[i + 1]
        } else {
            NULL_IDX
        })
    &&& forall|i: int|
        0 <= i < q.len() ==> nodes[#[trigger] q[i] as int].prev == (if i > 0 {
            q[i - 1]
        } else {
            NULL_IDX
        })
}

/// A level's queue is first in, first out: pushing a node not yet queued appends it at
/// the tail, popping a non-empty queue returns its head and leaves the rest in order,
/// and an empty queue has no head to pop. So nodes come off in the order they went on.
pub proof fn lemma_level_fifo(lv: PriceLevelNode, nodes: Seq<OrderNode>, q: Seq<u32>, n: u32)
    requires
        level_queue(lv, nodes, q),
        nodes.len() < NULL_IDX,
    ensures
        (n as int) < nodes.len() && !q.contains(n) && lv.order_count < u32::MAX ==> level_queue(
            level_after_push(lv, nodes[n as int].order.qty, n),
            nodes_after_push(nodes, lv.tail_order, n),
            q.push(n),
        ),
        (q.len() == 0) == (lv.head_order == NULL_IDX),
        q.len() > 0 ==> level_queue(level_after_pop(lv, nodes), nodes_after_pop(nodes, lv.head_order), q.drop_first()),
{
    if (n as int) < nodes.len() && !q.contains(n) && lv.order_count < u32::MAX {
        let q2 = q.push(n);
        let t = lv.tail_order;
        let n2 = nodes_after_push(nodes, t, n);
        let lv2 = level_after_push(lv, nodes[n as int].order.qty, n);
        assert forall|i: int| 0 <= i < q.len() implies #[trigger] n2[q[i] as int] == (if i + 1 == q.len() {
            relink(nodes[q[i] as int], nodes[q[i] as int].prev, n)
        } else {
            nodes[q[i] as int]
        }) by {
            assert(q[i] != n);
            if i + 1 < q.len() {
                assert(q[i] != q[q.len() - 1]);
            }
        }
        if q.len() > 0 {
            assert(t != n);
            assert(t == q[q.len() - 1]);
        }
        assert forall|i: int| 0 <= i < q2.len() implies ((#[trigger] q2[i]) as int) < n2.len() by {
            if i < q.len() {
                assert(q2[i] == q[i]);
            }
        }
        assert forall|i: int| 0 <= i < q2.len() implies n2[#[trigger] q2[i] as int].next == (if i + 1 < q2.len() {
            q2[i + 1]
        } else {
            NULL_IDX
        }) && n2[q2[i] as int].prev == (if i > 0 {
            q2[i - 1]
        } else {
            NULL_IDX
        }) by {
            if i < q.len() {
                assert(q2[i] == q[i]);
                assert(n2[q[i] as int] == (if i + 1 == q.len() {
                    relink(nodes[q[i] as int], nodes[q[i] as int].prev, n)
                } else {
                    nodes[q[i] as int]
                }));
                if i > 0 {
                    assert(q2[i - 1] == q[i - 1]);
                }
                if i + 1 < q.len() {
                    assert(q2[i + 1] == q[i + 1]);
                }
            }
        }
        assert(q2.no_duplicates()) by {
            assert forall|i: int, j: int| 0 <= i < q2.len() && 0 <= j < q2.len() && i != j implies q2[i] != q2[j] by {
                if i < q.len() && j < q.len() {
                    assert(q2[i] == q[i] && q2[j] == q[j]);
                } else if i < q.len() {
                    assert(q2[i] == q[i]);
                    assert(q.contains(q[i]));
                } else if j < q.len() {
                    assert(q2[j] == q[j]);
                    assert(q.contains(q[j]));
                }
            }
        }
        assert(level_queue(lv2, n2, q2));
    }
    if q.len() > 0 {
        let h = q[0];
        let q2 = q.drop_first();
        let n2 = nodes_after_pop(nodes, h);
        let nx = nodes[h as int].next;
        assert forall|i: int| 0 <= i < q2.len() implies #[trigger] n2[q2[i] as int] == (if i == 0 {
            relink(nodes[q2[i] as int], NULL_IDX, nodes[q2[i] as int].next)
        } else {
            nodes[q2[i] as int]
        }) by {
            assert(q2[i] == q[i + 1]);
            assert(nx == q[1]);
            if i > 0 {
                assert(q[i + 1] != q[1]);
            }
        }
        assert forall|i: int| 0 <= i < q2.len() implies n2[#[trigger] q2[i] as int].next == (if i + 1 < q2.len() {
            q2[i + 1]
        } else {
            NULL_IDX
        }) && n2[q2[i] as int].prev == (if i > 0 {
            q2[i - 1]
        } else {
            NULL_IDX
        }) && (q2[i] as int) < n2.len() by {
            assert(q2[i] == q[i + 1]);
            assert(n2[q2[i] as int] == (if i == 0 {
                relink(nodes[q2[i] as int], NULL_IDX, nodes[q2[i] as int].next)
            } else {
                nodes[q2[i] as int]
            }));
            if i > 0 {
                assert(q2[i - 1] == q[i]);
            }
            if i + 1 < q2.len() {
                assert(q2[i + 1] == q[i + 2]);
            }
        }
        assert(q2.no_duplicates()) by {
            assert forall|i: int, j: int| 0 <= i < q2.len() && 0 <= j < q2.len() && i != j implies q2[i] != q2[j] by {
                assert(q2[i] == q[i + 1] && q2[j] == q[j + 1]);
            }
        }
        if q.len() == 1 {
            assert(nx == NULL_IDX);
        } else {
            assert(nx == q[1]);
            assert(q2.last() == q.last());
        }
        assert(level_queue(level_after_pop(lv, nodes), n2, q2));
    }
}

/// `nodes` after unlinking a node whose neighbours are `prev` and `next`.
pub open spec fn nodes_after_unlink(nodes: Seq<OrderNode>, prev: u32, next: u32) -> Seq<OrderNode> {
    let n1 = if prev != NULL_IDX {
        nodes.update(prev as int, relink(nodes[prev as int], nodes[prev as int].prev, next))
    } else {
        nodes
    };
    if next != NULL_IDX {
        n1.update(next as int, relink(n1[next as int], prev, n1[next as int].next))
    } else {
        n1
    }
}

impl PriceLevelNode {
    pub fn is_empty(&self) -> (r: bool)
        ensures
            r == (self.head_order == NULL_IDX),
    {
        self.head_order == NULL_IDX
    }

    /// Appends node `node_idx` at the tail of this level's queue.
    pub fn push_order(&mut self, node_idx: u32, arena: &mut OrderArena)
        requires
            (node_idx as int) < old(arena).nodes@.len(),
            old(self).tail_order == NULL_IDX || (old(self).tail_order as int) < old(arena).nodes@.len(),
            old(self).total_qty + old(arena).nodes@[node_idx as int].order.qty <= u64::MAX,
            old(self).order_count < u32::MAX,
        ensures
            final(arena).nodes@ == nodes_after_push(old(arena).nodes@, old(self).tail_order, node_idx),
            final(arena).free_head == old(arena).free_head,
            final(arena).active_count == old(arena).active_count,
            final(arena).capacity == old(arena).capacity,
            final(arena).free_list == old(arena).free_list,
            *final(self) == level_after_push(*old(self), old(arena).nodes@[node_idx as int].order.qty, node_idx),
    {
        let mut n = arena.nodes[node_idx as usize];
        n.prev = self.tail_order;
        n.next = NULL_IDX;
        arena.nodes.set(node_idx as usize, n);
        if self.tail_order != NULL_IDX {
            let mut t = arena.nodes[self.tail_order as usize];
            t.next = node_idx;
            arena.nodes.set(self.tail_order as usize, t);
        } else {
            self.head_order = node_idx;
        }
        self.tail_order = node_idx;
        self.total_qty = self.total_qty + n.order.qty;
        self.order_count = self.order_count + 1;
    }

    /// Detaches the head of this level's queue and returns its index.
    pub fn pop_order(&mut self, arena: &mut OrderArena) -> (r: Option<u32>)
        requires
            old(self).head_order == NULL_IDX || ((old(self).head_order as int) < old(arena).nodes@.len() && (
            old(arena).nodes@[old(self).head_order as int].next == NULL_IDX
                || (old(arena).nodes@[old(self).head_order as int].next as int) < old(arena).nodes@.len())),
        ensures
            old(self).head_order == NULL_IDX ==> r == None::<u32> && *final(self) == *old(self) && *final(arena) == *old(arena),
            old(self).head_order != NULL_IDX ==> {
                &&& r == Some(old(self).head_order)
                &&& final(arena).nodes@ == nodes_after_pop(old(arena).nodes@, old(self).head_order)
                &&& final(arena).free_head == old(arena).free_head
                &&& final(arena).active_count == old(arena).active_count
                &&& final(arena).capacity == old(arena).capacity
                &&& final(arena).free_list == old(arena).free_list
                &&& *final(self) == level_after_pop(*old(self), old(arena).nodes@)
            },
    {
        if self.head_order == NULL_IDX {
            return None;
        }
        let head_idx = self.head_order;
        let next_idx = arena.nodes[head_idx as usize].next;
        self.head_order = next_idx;
        if next_idx != NULL_IDX {
            let mut n = arena.nodes[next_idx as usize];
            n.prev = NULL_IDX;
            arena.nodes.set(next_idx as usize, n);
        } else {
            self.tail_order = NULL_IDX;
        }
        self.total_qty = self.total_qty.saturating_sub(arena.nodes[head_idx as usize].order.qty);
        self.order_count = self.order_count.saturating_sub(1);
        Some(head_idx)
    }

    /// Unlinks node `node_idx` from this level's queue.
    pub fn unlink_order(&mut self, node_idx: u32, arena: &mut OrderArena)
        requires
            (node_idx as int) < old(arena).nodes@.len(),
            old(arena).nodes@[node_idx as int].prev == NULL_IDX || (old(arena).nodes@[node_idx as int].prev as int)
                < old(arena).nodes@.len(),
            old(arena).nodes@[node_idx as int].next == NULL_IDX || (old(arena).nodes@[node_idx as int].next as int)
                < old(arena).nodes@.len(),
        ensures
            ({
                let p = old(arena).nodes@[node_idx as int].prev;
                let x = old(arena).nodes@[node_idx as int].next;
                &&& final(arena).nodes@ == nodes_after_unlink(old(arena).nodes@, p, x)
                &&& *final(self) == (PriceLevelNode {
                    head_order: if p != NULL_IDX {
                        old(self).head_order
                    } else {
                        x
                    },
                    tail_order: if x != NULL_IDX {
                        old(self).tail_order
                    } else {
                        p
                    },
                    total_qty: sat_sub(old(self).total_qty as int, old(arena).nodes@[node_idx as int].order.qty as int) as u64,
                    order_count: sat_sub(old(self).order_count as int, 1) as u32,
                    ..*old(self)
                })
            }),
            final(arena).free_head == old(arena).free_head,
            final(arena).active_count == old(arena).active_count,
            final(arena).capacity == old(arena).capacity,
            final(arena).free_list == old(arena).free_list,
    {
        let prev = arena.nodes[node_idx as usize].prev;
        let next = arena.nodes[node_idx as usize].next;
        let qty = arena.nodes[node_idx as usize].order.qty;
        if prev != NULL_IDX {
            let mut p = arena.nodes[prev as usize];
            p.next = next;
            arena.nodes.set(prev as usize, p);
        } else {
            self.head_order = next;
        }
        if next != NULL_IDX {
            let mut x = arena.nodes[next as usize];
            x.prev = prev;
            arena.nodes.set(next as usize, x);
        } else {
            self.tail_order = prev;
        }
        self.total_qty = self.total_qty.saturating_sub(qty);
        self.order_count = self.order_count.saturating_sub(1);
    }
}

/// `fl` is the free list of `nodes` starting at `head`: linked through `next_free`,
/// without repetition, and exactly the inactive levels.
pub open spec fn level_free_list_ok(nodes: Seq<PriceLevelNode>, head: u32, fl: Seq<u32>) -> bool {
    &&& head == (if fl.len() == 0 {
        NULL_IDX
    } else {
        fl[0]
    })
    &&& fl.no_duplicates()
    &&& forall|i: int| 0 <= i < fl.len() ==> ((#[trigger] fl[i]) as int) < nodes.len()
    &&& forall|i: int|
        0 <= i < fl.len() ==> nodes[#[trigger] fl[i] as int].next_free == (if i + 1 < fl.len() {
            fl[i + 1]
        } else {
            NULL_IDX
        })
    &&& forall|j: int| 0 <= j < nodes.len() ==> (#[trigger] nodes[j].active <==> fl.contains(j as u32) == false)
}

/// A freshly allocated, empty level at `price`.
pub open spec fn fresh_level(price: u64) -> PriceLevelNode {
    PriceLevelNode {
        price,
        head_order: NULL_IDX,
        tail_order: NULL_IDX,
        prev_level: NULL_IDX,
        next_level: NULL_IDX,
        total_qty: 0,
        order_count: 0,
        next_free: NULL_IDX,
        active: true,
    }
}

/// Pre-allocated arena of price levels.
pub struct PriceLevelArena {
    pub nodes: Vec<PriceLevelNode>,
    pub free_head: u32,
    pub free_list: Ghost<Seq<u32>>,
}

impl PriceLevelArena {
    pub open spec fn wf(&self) -> bool {
        &&& 1 <= self.nodes@.len() < NULL_IDX
        &&& level_free_list_ok(self.nodes@, self.free_head, self.free_list@)
    }

    /// An arena whose `capacity` levels are all free, chained in index order.
    pub fn new(capacity: usize) -> (r: Self)
        requires
            capacity < NULL_IDX,
        ensures
            r.nodes@.len() == capacity,
            r.free_head == 0,
            forall|i: int| 0 <= i < capacity ==> !(#[trigger] r.nodes@[i]).active,
            capacity >= 1 ==> r.wf(),
            r.free_list@ == Seq::new(capacity as nat, |i: int| i as u32),
    {
        let mut nodes: Vec<PriceLevelNode> = Vec::with_capacity(capacity);
        let mut i: usize = 0;
        while i < capacity
            invariant
                i <= capacity < NULL_IDX,
                nodes@.len() == i,
                forall|j: int|
                    0 <= j < i ==> !(#[trigger] nodes@[j]).active && nodes@[j].next_free == (if j + 1
                        < capacity {
                        (j + 1) as u32
                    } else {
                        NULL_IDX
                    }),
            decreases capacity - i,
        {
            let next_free = if i + 1 < capacity { (i + 1) as u32 } else { NULL_IDX };
            nodes.push(PriceLevelNode {
                price: 0,
                head_order: NULL_IDX,
                tail_order: NULL_IDX,
                prev_level: NULL_IDX,
                next_level: NULL_IDX,
                total_qty: 0,
                order_count: 0,
                next_free,
                active: false,
            });
            i = i + 1;
        }
        let ghost fl = Seq::new(capacity as nat, |i: int| i as u32);
        let r = PriceLevelArena { nodes, free_head: 0, free_list: Ghost(fl) };
        proof {
            if capacity >= 1 {
                assert forall|j: int| 0 <= j < capacity implies (#[trigger] r.nodes@[j].active <==> fl.contains(
                    j as u32,
                ) == false) by {
                    assert(fl[j] == j as u32);
                }
            }
        }
        r
    }

    /// Takes the first free level and initialises it at `price`.
    pub fn allocate(&mut self, price: u64) -> (r: Result<u32, RejectReason>)
        requires
            old(self).free_head == NULL_IDX || old(self).free_head < old(self).nodes@.len(),
        ensures
            old(self).free_head == NULL_IDX ==> r == Err::<u32, RejectReason>(RejectReason::EngineFull)
                && *final(self) == *old(self),
            old(self).free_head != NULL_IDX ==> {
                let idx = old(self).free_head;
                &&& r == Ok::<u32, RejectReason>(idx)
                &&& final(self).nodes@ == old(self).nodes@.update(idx as int, fresh_level(price))
                &&& final(self).free_head == old(self).nodes@[idx as int].next_free
                &&& final(self).free_list@ == old(self).free_list@.drop_first()
            },
            old(self).wf() ==> final(self).wf(),
            old(self).wf() ==> (r is Err <==> old(self).free_list@.len() == 0),
    {
        if self.free_head == NULL_IDX {
            return Err(RejectReason::EngineFull);
        }
        let idx = self.free_head;
        self.free_head = self.nodes[idx as usize].next_free;
        self.nodes.set(
            idx as usize,
            PriceLevelNode {
                price,
                head_order: NULL_IDX,
                tail_order: NULL_IDX,
                prev_level: NULL_IDX,
                next_level: NULL_IDX,
                total_qty: 0,
                order_count: 0,
                next_free: NULL_IDX,
                active: true,
            },
        );
        proof {
            self.free_list@ = self.free_list@.drop_first();
            if old(self).wf() {
                let fl0 = old(self).free_list@;
                let fl = self.free_list@;
                assert(fl0[0] == idx);
                assert forall|i: int| 0 <= i < fl.len() implies ((#[trigger] fl[i]) as int) < self.nodes@.len() by {
                    assert(fl[i] == fl0[i + 1]);
                }
                assert forall|i: int| 0 <= i < fl.len() implies self.nodes@[#[trigger] fl[i] as int].next_free == (if i + 1 < fl.len() {
                    fl[i + 1]
                } else {
                    NULL_IDX
                }) by {
                    assert(fl[i] == fl0[i + 1]);
                    assert(fl0[i + 1] != fl0[0]);
                }
                assert forall|j: int| 0 <= j < self.nodes@.len() implies (#[trigger] self.nodes@[j].active
                    <==> fl.contains(j as u32) == false) by {
                    if j == idx as int {
                        if fl.contains(j as u32) {
                            let k = choose|k: int| 0 <= k < fl.len() && fl[k] == j as u32;
                            assert(fl0[k + 1] == fl0[0]);
                        }
                    } else {
                        assert(old(self).nodes@[j].active <==> fl0.contains(j as u32) == false);
                        if fl0.contains(j as u32) {
                            let k = choose|k: int| 0 <= k < fl0.len() && fl0[k] == j as u32;
                            assert(k != 0);
                            assert(fl[k - 1] == j as u32);
                        }
                        if fl.contains(j as u32) {
                            let k = choose|k: int| 0 <= k < fl.len() && fl[k] == j as u32;
                            assert(fl0[k + 1] == j as u32);
                        }
                    }
                }
            }
        }
        Ok(idx)
    }

    /// Resets level `idx` and returns it to the front of the free list (out-of-range
    /// indices are ignored).
    pub fn deallocate(&mut self, idx: u32)
        ensures
            (idx == NULL_IDX || idx as int >= old(self).nodes@.len()) ==> *final(self) == *old(self),
            !(idx == NULL_IDX || idx as int >= old(self).nodes@.len()) ==> {
                &&& final(self).nodes@ == old(self).nodes@.update(
                    idx as int,
                    PriceLevelNode {
                        active: false,
                        head_order: NULL_IDX,
                        tail_order: NULL_IDX,
                        prev_level: NULL_IDX,
                        next_level: NULL_IDX,
                        total_qty: 0,
                        order_count: 0,
                        next_free: old(self).free_head,
                        ..old(self).nodes@[idx as int]
                    },
                )
                &&& final(self).free_head == idx
                &&& final(self).free_list@ == seq![idx].add(old(self).free_list@)
            },
            old(self).wf() && idx < old(self).nodes@.len() && old(self).nodes@[idx as int].active ==> final(self).wf(),
    {
        if idx == NULL_IDX || idx as usize >= self.nodes.len() {
            return;
        }
        let mut n = self.nodes[idx as usize];
        n.active = false;
        n.head_order = NULL_IDX;
        n.tail_order = NULL_IDX;
        n.prev_level = NULL_IDX;
        n.next_level = NULL_IDX;
        n.total_qty = 0;
        n.order_count = 0;
        n.next_free = self.free_head;
        self.nodes.set(idx as usize, n);
        self.free_head = idx;
        proof {
            let fl0 = self.free_list@;
            self.free_list@ = seq![idx].add(fl0);
            if old(self).wf() && old(self).nodes@[idx as int].active {
                let fl = self.free_list@;
                assert(!fl0.contains(idx));
                assert(fl.no_duplicates()) by {
                    assert forall|i: int, j: int| 0 <= i < fl.len() && 0 <= j < fl.len() && i != j implies fl[i] != fl[j] by {
                        if i == 0 {
                            assert(fl[j] == fl0[j - 1]);
                        } else if j == 0 {
                            assert(fl[i] == fl0[i - 1]);
                        } else {
                            assert(fl[i] == fl0[i - 1] && fl[j] == fl0[j - 1]);
                        }
                    }
                }
                assert forall|i: int| 0 <= i < fl.len() implies ((#[trigger] fl[i]) as int) < self.nodes@.len() by {
                    if i > 0 {
                        assert(fl[i] == fl0[i - 1]);
                    }
                }
                assert forall|i: int| 0 <= i < fl.len() implies self.nodes@[#[trigger] fl[i] as int].next_free == (if i + 1 < fl.len() {
                    fl[i + 1]
                } else {
                    NULL_IDX
                }) by {
                    if i > 0 {
                        assert(fl[i] == fl0[i - 1]);
                        assert(fl0[i - 1] != idx);
                    }
                }
                assert forall|j: int| 0 <= j < self.nodes@.len() implies (#[trigger] self.nodes@[j].active
                    <==> fl.contains(j as u32) == false) by {
                    if j != idx as int {
                        assert(old(self).nodes@[j].active <==> fl0.contains(j as u32) == false);
                        if fl0.contains(j as u32) {
                            let k = choose|k: int| 0 <= k < fl0.len() && fl0[k] == j as u32;
                            assert(fl[k + 1] == j as u32);
                        }
                        if fl.contains(j as u32) {
                            let k = choose|k: int| 0 <= k < fl.len() && fl[k] == j as u32;
                            assert(k != 0);
                            assert(fl0[k - 1] == j as u32);
                        }
                    } else {
                        assert(fl[0] == idx);
                    }
                }
            }
        }
    }
}

} // verus!
