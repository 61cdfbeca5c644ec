//! The three fixed-capacity indices of an order book, each an open-addressing table
//! with backward-shift deletion: order id -> resting order, price -> price level, and
//! (user id, client order id) -> exchange order id.
use vstd::prelude::*;
use vstd::relations::injective_on;
use vstd::set_lib::lemma_map_size;
use crate::probe_table::ProbeTable;
use crate::types::RejectReason;

verus! {

/// Marker for "no slot / no node / no level".
pub const NULL_IDX: u32 = 0xFFFF_FFFF;

/// Slots of the order index.
pub const FAST_MAP_CAPACITY: usize = 262_144;

/// Slots of the price index.
pub const FAST_PRICE_CAPACITY: usize = 8_192;

/// Slots of the client order index.
pub const FAST_CLIENT_CAPACITY: usize = 262_144;

/// Entries the order index accepts (80% load).
pub const FAST_MAP_LIMIT: usize = 209_715;

/// Entries the price index accepts (80% load).
pub const FAST_PRICE_LIMIT: usize = 6_553;

/// Entries the client order index accepts (80% load).
pub const FAST_CLIENT_LIMIT: usize = 209_715;

/// The map from the first key component to values, for a table whose keys all have
/// second component 0.
pub open spec fn first_keys<T>(m: Map<(u64, u64), T>) -> Map<u64, T> {
    Map::new(|k: u64| m.contains_key((k, 0u64)), |k: u64| m[(k, 0u64)])
}

pub proof fn lemma_first_keys_len<T>(m: Map<(u64, u64), T>)
    requires
        m.dom().finite(),
        forall|k: (u64, u64)| #[trigger] m.contains_key(k) ==> k.1 == 0,
    ensures
        first_keys(m).dom().finite(),
        first_keys(m).len() == m.len(),
{
    let f = |p: (u64, u64)| p.0;
    let y = first_keys(m).dom();
    assert(injective_on(f, m.dom()));
    assert(m.dom().map(f) =~= y) by {
        assert forall|k: u64| #[trigger] y.contains(k) implies m.dom().map(f).contains(k) by {
            assert(m.dom().contains((k, 0u64)));
            assert(f((k, 0u64)) == k);
        }
    }
    lemma_map_size(m.dom(), y, f);
}

#[derive(Debug, Clone, Copy, PartialEq, Eq)]
pub struct FastIndexEntry {
    pub order_id: u64,
    pub client_order_id: u64,
    pub user_id: u64,
    pub price: u64,
    pub node_idx: u32,
    pub side: u8,
    pub occupied: bool,
}

impl Default for FastIndexEntry {
    fn default() -> (r: Self)
        ensures
            r == (FastIndexEntry {
                order_id: 0,
                client_order_id: 0,
                user_id: 0,
                price: 0,
                node_idx: NULL_IDX,
                side: 0,
                occupied: false,
            }),
    {
        FastIndexEntry {
            order_id: 0,
            client_order_id: 0,
            user_id: 0,
            price: 0,
            node_idx: NULL_IDX,
            side: 0,
            occupied: false,
        }
    }
}

/// Order id -> resting order entry.
pub struct FastOrderIndex {
    table: ProbeTable<FastIndexEntry>,
}

impl View for FastOrderIndex {
    type V = Map<u64, FastIndexEntry>;

    closed spec fn view(&self) -> Map<u64, FastIndexEntry> {
        first_keys(self.table@)
    }
}

impl FastOrderIndex {
    pub closed spec fn wf(&self) -> bool {
        &&& self.table.wf()
        &&& self.table.capacity() == FAST_MAP_CAPACITY
        &&& forall|k: (u64, u64)| #[trigger] self.table@.contains_key(k) ==> k.1 == 0
    }

    /// A well-formed index holds finitely many entries.
    pub proof fn lemma_finite(&self)
        requires
            self.wf(),
        ensures
            self@.dom().finite(),
    {
        self.table.lemma_view_finite();
        lemma_first_keys_len(self.table@);
    }

    pub fn new() -> (r: Self)
        ensures
            r.wf(),
            r@ == Map::<u64, FastIndexEntry>::empty(),
    {
        let r = FastOrderIndex { table: ProbeTable::new(FAST_MAP_CAPACITY - 1) };
        assert(r@ =~= Map::<u64, FastIndexEntry>::empty());
        r
    }

    /// Inserts or overwrites the entry for `order_id`; refused when the index holds
    /// `FAST_MAP_LIMIT` entries.
    pub fn insert(
        &mut self,
        order_id: u64,
        client_order_id: u64,
        user_id: u64,
        price: u64,
        node_idx: u32,
        side: u8,
    ) -> (r: Result<(), RejectReason>)
        requires
            old(self).wf(),
        ensures
            final(self).wf(),
            final(self)@.dom().finite(),
            old(self)@.len() >= FAST_MAP_LIMIT ==> r == Err::<(), RejectReason>(RejectReason::EngineFull)
                && *final(self) == *old(self),
            old(self)@.len() < FAST_MAP_LIMIT ==> r is Ok && final(self)@ == old(self)@.insert(
                order_id,
                FastIndexEntry { order_id, client_order_id, user_id, price, node_idx, side, occupied: true },
            ),
    {
        proof {
            self.table.lemma_view_finite();
            lemma_first_keys_len(self.table@);
        }
        if self.table.len() >= FAST_MAP_LIMIT {
            return Err(RejectReason::EngineFull);
        }
        let e = FastIndexEntry { order_id, client_order_id, user_id, price, node_idx, side, occupied: true };
        self.table.insert(order_id, 0, e);
        proof {
            assert(self@ =~= old(self)@.insert(order_id, e));
            self.lemma_finite();
        }
        Ok(())
    }

    pub fn lookup(&self, order_id: u64) -> (r: Option<FastIndexEntry>)
        requires
            self.wf(),
        ensures
            r == (if self@.contains_key(order_id) {
                Some(self@[order_id])
            } else {
                None::<FastIndexEntry>
            }),
    {
        self.table.lookup(order_id, 0)
    }

    /// Removes the entry for `order_id`, returning it.
    pub fn remove(&mut self, order_id: u64) -> (r: Option<FastIndexEntry>)
        requires
            old(self).wf(),
        ensures
            final(self).wf(),
            r == (if old(self)@.contains_key(order_id) {
                Some(old(self)@[order_id])
            } else {
                None::<FastIndexEntry>
            }),
            final(self)@ == old(self)@.remove(order_id),
            final(self)@.dom().finite(),
    {
        let r = self.table.remove(order_id, 0);
        proof {
            assert(self@ =~= old(self)@.remove(order_id));
            self.lemma_finite();
        }
        r
    }

    pub fn len(&self) -> (r: usize)
        requires
            self.wf(),
        ensures
            r == self@.len(),
    {
        proof {
            self.table.lemma_view_finite();
            lemma_first_keys_len(self.table@);
        }
        self.table.len()
    }

    pub fn is_empty(&self) -> (r: bool)
        requires
            self.wf(),
        ensures
            r == (self@.len() == 0),
    {
        self.len() == 0
    }
}

impl Default for FastOrderIndex {
    fn default() -> (r: Self)
        ensures
            r.wf(),
            r@ == Map::<u64, FastIndexEntry>::empty(),
    {
        FastOrderIndex::new()
    }
}

#[derive(Debug, Clone, Copy, PartialEq, Eq)]
pub struct PriceIndexEntry {
    pub price: u64,
    pub level_idx: u32,
    pub occupied: bool,
}

impl Default for PriceIndexEntry {
    fn default() -> (r: Self)
        ensures
            r == (PriceIndexEntry { price: 0, level_idx: NULL_IDX, occupied: false }),
    {
        PriceIndexEntry { price: 0, level_idx: NULL_IDX, occupied: false }
    }
}

/// Price -> price level index.
pub struct FastPriceIndex {
    table: ProbeTable<PriceIndexEntry>,
}

impl View for FastPriceIndex {
    type V = Map<u64, u32>;

    closed spec fn view(&self) -> Map<u64, u32> {
        first_keys(self.table@).map_values(|e: PriceIndexEntry| e.level_idx)
    }
}

impl FastPriceIndex {
    pub closed spec fn wf(&self) -> bool {
        &&& self.table.wf()
        &&& self.table.capacity() == FAST_PRICE_CAPACITY
        &&& forall|k: (u64, u64)| #[trigger] self.table@.contains_key(k) ==> k.1 == 0
    }

    pub fn new() -> (r: Self)
        ensures
            r.wf(),
            r@ == Map::<u64, u32>::empty(),
    {
        let r = FastPriceIndex { table: ProbeTable::new(FAST_PRICE_CAPACITY - 1) };
        assert(r@ =~= Map::<u64, u32>::empty());
        r
    }

    pub closed spec fn spec_len(&self) -> nat {
        self.table@.len()
    }

    proof fn lemma_len(&self)
        requires
            self.wf(),
        ensures
            self.spec_len() == self@.len(),
    {
        self.table.lemma_view_finite();
        lemma_first_keys_len(self.table@);
        assert(self@.dom() =~= first_keys(self.table@).dom());
    }

    /// Inserts or overwrites `price -> level_idx`; refused when the index holds
    /// `FAST_PRICE_LIMIT` entries.
    pub fn insert(&mut self, price: u64, level_idx: u32) -> (r: Result<(), RejectReason>)
        requires
            old(self).wf(),
        ensures
            final(self).wf(),
            old(self)@.len() >= FAST_PRICE_LIMIT ==> r == Err::<(), RejectReason>(RejectReason::EngineFull)
                && *final(self) == *old(self),
            old(self)@.len() < FAST_PRICE_LIMIT ==> r is Ok && final(self)@ == old(self)@.insert(
                price,
                level_idx,
            ),
    {
        proof {
            self.lemma_len();
        }
        if self.table.len() >= FAST_PRICE_LIMIT {
            return Err(RejectReason::EngineFull);
        }
        self.table.insert(price, 0, PriceIndexEntry { price, level_idx, occupied: true });
        proof {
            assert(self@ =~= old(self)@.insert(price, level_idx));
        }
        Ok(())
    }

    pub fn lookup(&self, price: u64) -> (r: Option<u32>)
        requires
            self.wf(),
        ensures
            r == (if self@.contains_key(price) {
                Some(self@[price])
            } else {
                None::<u32>
            }),
    {
        match self.table.lookup(price, 0) {
            Some(e) => Some(e.level_idx),
            None => None,
        }
    }

    pub fn remove(&mut self, price: u64) -> (r: Option<u32>)
        requires
            old(self).wf(),
        ensures
            final(self).wf(),
            r == (if old(self)@.contains_key(price) {
                Some(old(self)@[price])
            } else {
                None::<u32>
            }),
            final(self)@ == old(self)@.remove(price),
    {
        let r = self.table.remove(price, 0);
        proof {
            assert(self@ =~= old(self)@.remove(price));
        }
        match r {
            Some(e) => Some(e.level_idx),
            None => None,
        }
    }
}

impl Default for FastPriceIndex {
    fn default() -> (r: Self)
        ensures
            r.wf(),
            r@ == Map::<u64, u32>::empty(),
    {
        FastPriceIndex::new()
    }
}

#[derive(Debug, Clone, Copy, PartialEq, Eq)]
pub struct ClientIndexEntry {
    pub user_id: u64,
    pub client_order_id: u64,
    pub exchange_order_id: u64,
    pub occupied: bool,
}

impl Default for ClientIndexEntry {
    fn default() -> (r: Self)
        ensures
            r == (ClientIndexEntry { user_id: 0, client_order_id: 0, exchange_order_id: 0, occupied: false }),
    {
        ClientIndexEntry { user_id: 0, client_order_id: 0, exchange_order_id: 0, occupied: false }
    }
}

/// (user id, client order id) -> exchange order id.
pub struct FastClientIndex {
    table: ProbeTable<ClientIndexEntry>,
}

impl View for FastClientIndex {
    type V = Map<(u64, u64), u64>;

    closed spec fn view(&self) -> Map<(u64, u64), u64> {
        self.table@.map_values(|e: ClientIndexEntry| e.exchange_order_id)
    }
}

impl FastClientIndex {
    pub closed spec fn wf(&self) -> bool {
        &&& self.table.wf()
        &&& self.table.capacity() == FAST_CLIENT_CAPACITY
    }

    pub fn new() -> (r: Self)
        ensures
            r.wf(),
            r@ == Map::<(u64, u64), u64>::empty(),
    {
        let r = FastClientIndex { table: ProbeTable::new(FAST_CLIENT_CAPACITY - 1) };
        assert(r@ =~= Map::<(u64, u64), u64>::empty());
        r
    }

    /// Inserts or overwrites `(user_id, client_order_id) -> exchange_order_id`; refused
    /// when the index holds `FAST_CLIENT_LIMIT` entries.
    pub fn insert(&mut self, user_id: u64, client_order_id: u64, exchange_order_id: u64) -> (r: Result<
        (),
        RejectReason,
    >)
        requires
            old(self).wf(),
        ensures
            final(self).wf(),
            old(self)@.len() >= FAST_CLIENT_LIMIT ==> r == Err::<(), RejectReason>(RejectReason::EngineFull)
                && *final(self) == *old(self),
            old(self)@.len() < FAST_CLIENT_LIMIT ==> r is Ok && final(self)@ == old(self)@.insert(
                (user_id, client_order_id),
                exchange_order_id,
            ),
    {
        proof {
            assert(self@.dom() =~= self.table@.dom());
        }
        if self.table.len() >= FAST_CLIENT_LIMIT {
            return Err(RejectReason::EngineFull);
        }
        self.table.insert(
            user_id,
            client_order_id,
            ClientIndexEntry { user_id, client_order_id, exchange_order_id, occupied: true },
        );
        proof {
            assert(self@ =~= old(self)@.insert((user_id, client_order_id), exchange_order_id));
        }
        Ok(())
    }

    pub fn lookup(&self, user_id: u64, client_order_id: u64) -> (r: Option<u64>)
        requires
            self.wf(),
        ensures
            r == (if self@.contains_key((user_id, client_order_id)) {
                Some(self@[(user_id, client_order_id)])
            } else {
                None::<u64>
            }),
    {
        match self.table.lookup(user_id, client_order_id) {
            Some(e) => Some(e.exchange_order_id),
            None => None,
        }
    }

    pub fn remove(&mut self, user_id: u64, client_order_id: u64) -> (r: Option<u64>)
        requires
            old(self).wf(),
        ensures
            final(self).wf(),
            r == (if old(self)@.contains_key((user_id, client_order_id)) {
                Some(old(self)@[(user_id, client_order_id)])
            } else {
                None::<u64>
            }),
            final(self)@ == old(self)@.remove((user_id, client_order_id)),
    {
        let r = self.table.remove(user_id, client_order_id);
        proof {
            assert(self@ =~= old(self)@.remove((user_id, client_order_id)));
        }
        match r {
            Some(e) => Some(e.exchange_order_id),
            None => None,
        }
    }
}

impl Default for FastClientIndex {
    fn default() -> (r: Self)
        ensures
            r.wf(),
            r@ == Map::<(u64, u64), u64>::empty(),
    {
        FastClientIndex::new()
    }
}


/// What a read of the order index gives back of a write: after inserting `e` under
/// `k`, a lookup of `k` finds `e`, other keys are untouched, and removing `k` again
/// leaves the index as removing `k` before the insert would.
pub proof fn lemma_order_index_read_after_write(m: Map<u64, FastIndexEntry>, k: u64, e: FastIndexEntry, k2: u64)
    ensures
        m.insert(k, e).contains_key(k) && m.insert(k, e)[k] == e,
        k2 != k ==> (m.insert(k, e).contains_key(k2) == m.contains_key(k2) && (m.contains_key(k2)
            ==> m.insert(k, e)[k2] == m[k2])),
        m.insert(k, e).remove(k) == m.remove(k),
        !m.contains_key(k) ==> m.insert(k, e).remove(k) == m,
{
    assert(m.insert(k, e).remove(k) =~= m.remove(k));
    if !m.contains_key(k) {
        assert(m.remove(k) =~= m);
    }
}
} // verus!
