//! Fixed-capacity FIFO queue of orders over a circular buffer.
use vstd::prelude::*;
use crate::types::Order;

verus! {

/// Position of the `i`-th element of a circular buffer of `n` slots whose first
/// element sits at `head`.
pub open spec fn ring_slot(n: int, head: int, i: int) -> int {
    if head + i < n {
        head + i
    } else {
        head + i - n
    }
}

pub struct OrderRingBuffer<const N: usize> {
    buf: Vec<Option<Order>>,
    head: usize,
    tail: usize,
    len: usize,
}

impl<const N: usize> View for OrderRingBuffer<N> {
    type V = Seq<Order>;

    /// The queued orders, oldest first.
    closed spec fn view(&self) -> Seq<Order> {
        Seq::new(self.len as nat, |i: int| self.buf@[ring_slot(N as int, self.head as int, i)]->0)
    }
}

impl<const N: usize> OrderRingBuffer<N> {
    /// The slots hold exactly the queued orders, from `head` on, wrapping around.
    pub closed spec fn wf(&self) -> bool {
        &&& self.buf@.len() == N
        &&& self.len <= N
        &&& N > 0 ==> self.head < N && self.tail < N
        &&& N == 0 ==> self.head == 0 && self.tail == 0
        &&& N > 0 ==> self.tail == ring_slot(N as int, self.head as int, self.len as int)
        &&& forall|i: int|
            0 <= i < self.len ==> (#[trigger] self.buf@[ring_slot(N as int, self.head as int, i)]) is Some
    }

    pub fn new() -> (r: Self)
        ensures
            r.wf(),
            r@ == Seq::<Order>::empty(),
    {
        let mut buf: Vec<Option<Order>> = Vec::new();
        let mut i: usize = 0;
        while i < N
            invariant
                i <= N,
                buf@.len() == i,
            decreases N - i,
        {
            buf.push(None);
            i = i + 1;
        }
        let r = OrderRingBuffer { buf, head: 0, tail: 0, len: 0 };
        assert(r@ =~= Seq::<Order>::empty());
        r
    }

    /// Appends `order` at the back; refused (`false`, nothing changed) when all `N`
    /// slots are taken.
    pub fn push_back(&mut self, order: Order) -> (r: bool)
        requires
            old(self).wf(),
        ensures
            final(self).wf(),
            r == (old(self)@.len() < N),
            r ==> final(self)@ == old(self)@.push(order),
            !r ==> final(self)@ == old(self)@,
    {
        if self.len == N {
            return false;
        }
        let ghost old_view = self@;
        let ghost h = self.head as int;
        let t = self.tail;
        self.buf.set(t, Some(order));
        self.tail = if t + 1 == N {
            0
        } else {
            t + 1
        };
        self.len = self.len + 1;
        assert forall|i: int| 0 <= i < self.len implies (#[trigger] self.buf@[ring_slot(
            N as int,
            h,
            i,
        )]) is Some by {
            if i < self.len - 1 {
                assert(ring_slot(N as int, h, i) != t);
            }
        }
        assert(self@ =~= old_view.push(order)) by {
            assert forall|i: int| 0 <= i < self@.len() implies self@[i] == old_view.push(order)[i] by {
                if i < old_view.len() {
                    assert(ring_slot(N as int, h, i) != t);
                }
            }
        }
        true
    }

    /// Removes and returns the oldest order; `None` when the queue is empty.
    pub fn pop_front(&mut self) -> (r: Option<Order>)
        requires
            old(self).wf(),
        ensures
            final(self).wf(),
            old(self)@.len() == 0 ==> r is None && final(self)@ == old(self)@,
            old(self)@.len() > 0 ==> r == Some(old(self)@[0]) && final(self)@ == old(self)@.drop_first(),
    {
        if self.len == 0 {
            return None;
        }
        let ghost old_view = self@;
        let ghost old_buf = self.buf@;
        let h = self.head;
        assert(old_buf[ring_slot(N as int, h as int, 0)] is Some);
        let order = self.buf[h];
        self.buf.set(h, None);
        self.head = if h + 1 == N {
            0
        } else {
            h + 1
        };
        self.len = self.len - 1;
        let ghost nh = self.head as int;
        assert forall|i: int| 0 <= i < self.len implies #[trigger] ring_slot(N as int, nh, i) == ring_slot(
            N as int,
            h as int,
            i + 1,
        ) && ring_slot(N as int, nh, i) != h by {}
        assert forall|i: int| 0 <= i < self.len implies (#[trigger] self.buf@[ring_slot(
            N as int,
            nh,
            i,
        )]) is Some by {
            assert(old_buf[ring_slot(N as int, h as int, i + 1)] is Some);
        }
        assert(self@ =~= old_view.drop_first());
        order
    }

    /// The oldest order, to be changed in place; `None` when the queue is empty.
    pub fn front_mut(&mut self) -> (r: Option<&mut Order>)
        requires
            old(self).wf(),
        ensures
            old(self)@.len() == 0 ==> r is None && *final(self) == *old(self),
            old(self)@.len() > 0 ==> r is Some && *r->0 == old(self)@[0] && final(self)@ == old(
                self,
            )@.update(0, *final(r->0)) && final(self).wf(),
    {
        if self.len == 0 {
            return None;
        }
        let h = self.head;
        assert(self.buf@[ring_slot(N as int, h as int, 0)] is Some);
        self.buf[h].as_mut()
    }

    pub fn is_empty(&self) -> (r: bool)
        requires
            self.wf(),
        ensures
            r == (self@.len() == 0),
    {
        self.len == 0
    }

    pub fn len(&self) -> (r: usize)
        requires
            self.wf(),
        ensures
            r == self@.len(),
    {
        self.len
    }
}

/// First in, first out: pushing onto a queue with room and then popping gives the
/// oldest order of the queue before the push, or the pushed order when it was empty.
pub proof fn lemma_fifo(q: Seq<Order>, o: Order)
    ensures
        q.push(o)[0] == (if q.len() == 0 {
            o
        } else {
            q[0]
        }),
        q.len() > 0 ==> q.push(o).drop_first() == q.drop_first().push(o),
{
    if q.len() > 0 {
        assert(q.push(o).drop_first() =~= q.drop_first().push(o));
    }
}

} // verus!
