//! Open-addressing hash table with linear probing and Knuth backward-shift deletion.
//!
//! This is the engine behind `FastOrderIndex`, `FastPriceIndex` and `FastClientIndex`:
//! keys are pairs of `u64` (the second component is 0 for single-integer keys), slots
//! never hold tombstones, and a deletion shifts later members of the probe chain back
//! so that every lookup still stops at the first empty slot.
use vstd::prelude::*;
use vstd::set_lib::{lemma_int_range, lemma_len_subset, set_int_range};

verus! {

/// First multiplier of the 64-bit mixing function.
pub const MIX_MUL_1: u64 = 0x9E3779B97F4A7C15;

/// Second multiplier of the 64-bit mixing function.
pub const MIX_MUL_2: u64 = 0xBF58476D1CE4E5B9;

/// The 64-bit integer mix applied to every key.
pub open spec fn spec_mix(x: u64) -> u64 {
    let a = vstd::wrapping::u64_specs::wrapping_mul(x, MIX_MUL_1);
    let b = a ^ (a >> 30u64);
    let c = vstd::wrapping::u64_specs::wrapping_mul(b, MIX_MUL_2);
    c ^ (c >> 27u64)
}

/// `b` rotated left by 32 bits, folded into `a`.
pub open spec fn spec_fold_key(a: u64, b: u64) -> u64 {
    a ^ ((b << 32u64) | (b >> 32u64))
}

/// The slot at which the search for key `k` starts in a table with index mask `mask`.
pub open spec fn spec_home(k: (u64, u64), mask: usize) -> int {
    ((spec_mix(spec_fold_key(k.0, k.1)) as usize) & mask) as int
}

/// Forward (wrapping) distance from slot `a` to slot `b` in a table of `cap` slots.
pub open spec fn cdist(a: int, b: int, cap: int) -> int {
    if a <= b {
        b - a
    } else {
        b - a + cap
    }
}

pub fn mix(x: u64) -> (r: u64)
    ensures
        r == spec_mix(x),
{
    let mut y = x.wrapping_mul(MIX_MUL_1);
    y = y ^ (y >> 30u64);
    y = y.wrapping_mul(MIX_MUL_2);
    y ^ (y >> 27u64)
}

pub proof fn lemma_home_bound(k: (u64, u64), mask: usize)
    ensures
        0 <= spec_home(k, mask) <= mask,
{
    let x = spec_mix(spec_fold_key(k.0, k.1)) as usize;
    assert(x & mask <= mask) by (bit_vector);
}

/// The slot where the search for `(a, b)` starts.
pub fn home_slot(a: u64, b: u64, mask: usize) -> (r: usize)
    ensures
        r as int == spec_home((a, b), mask),
        r <= mask,
{
    let x = mix(a ^ ((b << 32u64) | (b >> 32u64)));
    let r = (x as usize) & mask;
    assert(r <= mask) by (bit_vector)
        requires
            r == (x as usize) & mask,
    ;
    r
}

#[derive(Clone, Copy)]
pub struct ProbeSlot<T> {
    pub key_a: u64,
    pub key_b: u64,
    pub value: T,
}

pub struct ProbeTable<T> {
    slots: Vec<Option<ProbeSlot<T>>>,
    count: usize,
    mask: usize,
    contents: Ghost<Map<(u64, u64), T>>,
    occupied: Ghost<Set<int>>,
}

impl<T: Copy> View for ProbeTable<T> {
    type V = Map<(u64, u64), T>;

    open spec fn view(&self) -> Map<(u64, u64), T> {
        self.spec_contents()
    }
}

impl<T: Copy> ProbeTable<T> {
    pub closed spec fn spec_contents(&self) -> Map<(u64, u64), T> {
        self.contents@
    }

    /// Number of slots.
    pub closed spec fn capacity(&self) -> nat {
        self.slots@.len()
    }

    pub closed spec fn occ(&self, j: int) -> bool {
        self.slots@[j] is Some
    }

    pub closed spec fn key_at(&self, j: int) -> (u64, u64) {
        let s = self.slots@[j]->Some_0;
        (s.key_a, s.key_b)
    }

    pub closed spec fn val_at(&self, j: int) -> T {
        self.slots@[j]->Some_0.value
    }

    pub closed spec fn home(&self, k: (u64, u64)) -> int {
        spec_home(k, self.mask)
    }

    pub closed spec fn wf(&self) -> bool {
        let cap = self.slots@.len() as int;
        &&& cap == self.mask + 1
        &&& 2 <= cap <= 0x1000_0000
        &&& self.count + 1 < cap
        &&& self.count == self.contents@.len()
        &&& self.contents@.dom().finite()
        &&& self.occupied@.finite()
        &&& self.occupied@.len() == self.count
        &&& forall|j: int| #[trigger] self.occupied@.contains(j) ==> 0 <= j < cap
        &&& forall|j: int|
            0 <= j < cap ==> (#[trigger] self.occupied@.contains(j) <==> self.occ(j))
        &&& forall|j: int|
            0 <= j < cap && #[trigger] self.occ(j) ==> self.contents@.contains_key(self.key_at(j))
                && self.contents@[self.key_at(j)] == self.val_at(j)
        &&& forall|k: (u64, u64)|
            #[trigger] self.contents@.contains_key(k) ==> exists|j: int|
                0 <= j < cap && #[trigger] self.occ(j) && self.key_at(j) == k
        &&& self.keys_unique()
        &&& self.probe_ok()
    }

    #[verifier::opaque]
    pub closed spec fn keys_unique(&self) -> bool {
        let cap = self.slots@.len() as int;
        forall|i: int, j: int|
            0 <= i < cap && 0 <= j < cap && i != j && #[trigger] self.occ(i) && #[trigger] self.occ(j)
                ==> self.key_at(i) != self.key_at(j)
    }

    /// Every slot between the home slot of an entry and the entry itself is occupied.
    #[verifier::opaque]
    pub closed spec fn probe_ok(&self) -> bool {
        let cap = self.slots@.len() as int;
        forall|i: int, j: int|
            0 <= i < cap && 0 <= j < cap && #[trigger] self.occ(j) && cdist(
                self.home(self.key_at(j)),
                i,
                cap,
            ) < cdist(self.home(self.key_at(j)), j, cap) ==> #[trigger] self.occ(i)
    }

    pub open spec fn len_spec(&self) -> nat {
        self@.len()
    }

    /// An empty table with `mask + 1` slots.
    pub fn new(mask: usize) -> (r: Self)
        requires
            1 <= mask < 0x1000_0000,
        ensures
            r.wf(),
            r@ == Map::<(u64, u64), T>::empty(),
            r.capacity() == mask + 1,
    {
        let cap = mask + 1;
        let mut slots: Vec<Option<ProbeSlot<T>>> = Vec::with_capacity(cap);
        let mut i: usize = 0;
        while i < cap
            invariant
                i <= cap,
                slots@.len() == i,
                forall|j: int| 0 <= j < i ==> slots@[j] is None,
            decreases cap - i,
        {
            slots.push(None);
            i = i + 1;
        }
        let r = ProbeTable {
            slots,
            count: 0,
            mask,
            contents: Ghost(Map::empty()),
            occupied: Ghost(Set::empty()),
        };
        assert(r.keys_unique()) by {
            reveal(ProbeTable::keys_unique);
        }
        assert(r.probe_ok()) by {
            reveal(ProbeTable::probe_ok);
        }
        assert forall|k: (u64, u64)| #[trigger] r.contents@.contains_key(k) implies exists|j: int|
            0 <= j < cap && #[trigger] r.occ(j) && r.key_at(j) == k by {}
        r
    }

    /// Number of entries.
    pub fn len(&self) -> (r: usize)
        requires
            self.wf(),
        ensures
            r == self@.len(),
    {
        self.count
    }

    pub proof fn lemma_view_finite(&self)
        requires
            self.wf(),
        ensures
            self@.dom().finite(),
            self@.len() + 1 < self.capacity(),
    {
    }

    /// Some slot of a well-formed table is empty.
    proof fn lemma_has_empty(&self) -> (e: int)
        requires
            self.wf(),
        ensures
            0 <= e < self.capacity(),
            !self.occ(e),
    {
        let cap = self.slots@.len() as int;
        lemma_int_range(0, cap);
        if forall|j: int| 0 <= j < cap ==> #[trigger] self.occ(j) {
            assert(self.occupied@ =~= set_int_range(0, cap)) by {
                assert forall|j: int| #[trigger] set_int_range(0, cap).contains(j) implies self.occupied@.contains(j) by {
                    assert(self.occ(j));
                }
            }
            assert(false);
        }
        let e = choose|j: int| 0 <= j < cap && !#[trigger] self.occ(j);
        e
    }

    /// Looks `(a, b)` up; returns its value when present.
    pub fn lookup(&self, a: u64, b: u64) -> (r: Option<T>)
        requires
            self.wf(),
        ensures
            r == (if self@.contains_key((a, b)) {
                Some(self@[(a, b)])
            } else {
                None::<T>
            }),
    {
        let cap = self.slots.len();
        let h = home_slot(a, b, self.mask);
        let mut idx = h;
        let ghost e = self.lemma_has_empty();
        let ghost k = (a, b);
        loop
            invariant
                self.wf(),
                cap == self.slots@.len(),
                k == (a, b),
                h as int == self.home(k),
                0 <= idx < cap,
                0 <= e < cap,
                !self.occ(e),
                cdist(h as int, idx as int, cap as int) <= cdist(h as int, e, cap as int),
                forall|i: int|
                    0 <= i < cap && cdist(h as int, i, cap as int) < cdist(h as int, idx as int, cap as int)
                        ==> #[trigger] self.occ(i) && self.key_at(i) != k,
            decreases cdist(h as int, e, cap as int) - cdist(h as int, idx as int, cap as int),
        {
            let slot = &self.slots[idx];
            proof {
                assert(*slot == self.slots@[idx as int]);
            }
            match slot {
                None => {
                    proof {
                        self.lemma_absent_at_gap(k, idx as int);
                    }
                    return None;
                },
                Some(s) => {
                    if s.key_a == a && s.key_b == b {
                        proof {
                            assert(self.occ(idx as int));
                            assert(self.key_at(idx as int) == k);
                        }
                        return Some(s.value);
                    }
                },
            }
            let ghost prev = idx as int;
            idx = if idx + 1 == cap { 0 } else { idx + 1 };
            proof {
                assert(self.occ(prev) && self.key_at(prev) != k);
                assert(prev != e);
                assert(cdist(h as int, idx as int, cap as int) == cdist(h as int, prev, cap as int) + 1);
                assert forall|i: int|
                    0 <= i < cap && cdist(h as int, i, cap as int) < cdist(h as int, idx as int, cap as int)
                        implies #[trigger] self.occ(i) && self.key_at(i) != k by {
                    if i != prev {
                        assert(cdist(h as int, i, cap as int) < cdist(h as int, prev, cap as int));
                    }
                }
            }
        }
    }

    /// A search for `k` that reaches an empty slot after passing only other keys proves
    /// that `k` is absent.
    proof fn lemma_absent_at_gap(&self, k: (u64, u64), g: int)
        requires
            self.wf(),
            0 <= g < self.capacity(),
            !self.occ(g),
            forall|i: int|
                0 <= i < self.capacity() && cdist(self.home(k), i, self.capacity() as int) < cdist(
                    self.home(k),
                    g,
                    self.capacity() as int,
                ) ==> #[trigger] self.occ(i) && self.key_at(i) != k,
        ensures
            !self@.contains_key(k),
    {
        let cap = self.capacity() as int;
        if self@.contains_key(k) {
            let j = choose|j: int| 0 <= j < cap && #[trigger] self.occ(j) && self.key_at(j) == k;
            reveal(ProbeTable::probe_ok);
            if cdist(self.home(k), g, cap) < cdist(self.home(k), j, cap) {
                assert(self.occ(g));
            } else {
                assert(cdist(self.home(k), j, cap) < cdist(self.home(k), g, cap) || j == g);
                assert(self.occ(j) && self.key_at(j) == k);
            }
        }
    }

    /// Inserts or overwrites `(a, b) -> value`.
    pub fn insert(&mut self, a: u64, b: u64, value: T)
        requires
            old(self).wf(),
            old(self)@.len() + 2 < old(self).capacity(),
        ensures
            final(self).wf(),
            final(self)@ == old(self)@.insert((a, b), value),
            final(self).capacity() == old(self).capacity(),
    {
        let cap = self.slots.len();
        let h = home_slot(a, b, self.mask);
        let mut idx = h;
        let ghost e = self.lemma_has_empty();
        let ghost k = (a, b);
        loop
            invariant
                self.wf(),
                *self == *old(self),
                self@.len() + 2 < self.capacity(),
                cap == self.slots@.len(),
                k == (a, b),
                h as int == self.home(k),
                0 <= idx < cap,
                0 <= e < cap,
                !self.occ(e),
                cdist(h as int, idx as int, cap as int) <= cdist(h as int, e, cap as int),
                forall|i: int|
                    0 <= i < cap && cdist(h as int, i, cap as int) < cdist(h as int, idx as int, cap as int)
                        ==> #[trigger] self.occ(i) && self.key_at(i) != k,
            decreases cdist(h as int, e, cap as int) - cdist(h as int, idx as int, cap as int),
        {
            let slot = &self.slots[idx];
            proof {
                assert(*slot == self.slots@[idx as int]);
            }
            match slot {
                None => {
                    proof {
                        self.lemma_absent_at_gap(k, idx as int);
                    }
                    let ghost pre = *self;
                    self.slots.set(idx, Some(ProbeSlot { key_a: a, key_b: b, value }));
                    self.count = self.count + 1;
                    proof {
                        self.contents@ = self.contents@.insert(k, value);
                        self.occupied@ = self.occupied@.insert(idx as int);
                        self.lemma_after_fill(pre, idx as int, k, value);
                    }
                    return;
                },
                Some(s) => {
                    if s.key_a == a && s.key_b == b {
                        let ghost pre = *self;
                        self.slots.set(idx, Some(ProbeSlot { key_a: a, key_b: b, value }));
                        proof {
                            self.contents@ = self.contents@.insert(k, value);
                            self.lemma_after_overwrite(pre, idx as int, k, value);
                        }
                        return;
                    }
                },
            }
            let ghost prev = idx as int;
            idx = if idx + 1 == cap { 0 } else { idx + 1 };
            proof {
                assert(self.occ(prev) && self.key_at(prev) != k);
                assert(prev != e);
                assert(cdist(h as int, idx as int, cap as int) == cdist(h as int, prev, cap as int) + 1);
                assert forall|i: int|
                    0 <= i < cap && cdist(h as int, i, cap as int) < cdist(h as int, idx as int, cap as int)
                        implies #[trigger] self.occ(i) && self.key_at(i) != k by {
                    if i != prev {
                        assert(cdist(h as int, i, cap as int) < cdist(h as int, prev, cap as int));
                    }
                }
            }
        }
    }

    /// Filling the empty slot where the search for a new key stopped keeps the table
    /// well formed.
    proof fn lemma_after_fill(&self, pre: Self, g: int, k: (u64, u64), value: T)
        requires
            pre.wf(),
            pre@.len() + 2 < pre.capacity(),
            0 <= g < pre.capacity(),
            !pre.occ(g),
            !pre@.contains_key(k),
            forall|i: int|
                0 <= i < pre.capacity() && cdist(pre.home(k), i, pre.capacity() as int) < cdist(
                    pre.home(k),
                    g,
                    pre.capacity() as int,
                ) ==> #[trigger] pre.occ(i),
            self.slots@ == pre.slots@.update(g, Some(ProbeSlot { key_a: k.0, key_b: k.1, value })),
            self.count == pre.count + 1,
            self.mask == pre.mask,
            self.contents@ == pre.contents@.insert(k, value),
            self.occupied@ == pre.occupied@.insert(g),
        ensures
            self.wf(),
    {
        let cap = pre.capacity() as int;
        assert(self.occ(g) && self.key_at(g) == k && self.val_at(g) == value);
        assert forall|j: int| 0 <= j < cap && j != g implies
            (#[trigger] self.occ(j) == pre.occ(j) && self.slots@[j] == pre.slots@[j]) by {}
        assert forall|kk: (u64, u64)| #[trigger] self.contents@.contains_key(kk) implies exists|j: int|
            0 <= j < cap && #[trigger] self.occ(j) && self.key_at(j) == kk by {
            if kk != k {
                let j = choose|j: int| 0 <= j < cap && #[trigger] pre.occ(j) && pre.key_at(j) == kk;
                assert(self.occ(j) && self.key_at(j) == kk);
            } else {
                assert(self.occ(g));
            }
        }
        assert forall|j: int|
            0 <= j < cap && #[trigger] self.occ(j) implies self.contents@.contains_key(self.key_at(j))
                && self.contents@[self.key_at(j)] == self.val_at(j) by {
            if j != g {
                assert(pre.occ(j));
            }
        }
        assert forall|j: int| 0 <= j < cap implies (#[trigger] self.occupied@.contains(j) <==> self.occ(j)) by {
            if j != g {
                assert(pre.occupied@.contains(j) <==> pre.occ(j));
            }
        }
        assert(self.probe_ok()) by {
            reveal(ProbeTable::probe_ok);
            assert forall|i: int, j: int|
                0 <= i < cap && 0 <= j < cap && #[trigger] self.occ(j) && cdist(
                    self.home(self.key_at(j)),
                    i,
                    cap,
                ) < cdist(self.home(self.key_at(j)), j, cap) implies #[trigger] self.occ(i) by {
                if j != g && i != g {
                    assert(pre.occ(j));
                    assert(pre.occ(i));
                } else if j == g && i != g {
                    assert(pre.occ(i));
                }
            }
        }
        assert(self.keys_unique()) by {
            reveal(ProbeTable::keys_unique);
            assert forall|i: int, j: int|
                0 <= i < cap && 0 <= j < cap && i != j && #[trigger] self.occ(i) && #[trigger] self.occ(j)
                    implies self.key_at(i) != self.key_at(j) by {
                if i != g && j != g {
                    assert(pre.occ(i) && pre.occ(j));
                } else if i == g {
                    assert(pre.occ(j));
                    assert(pre.contents@.contains_key(pre.key_at(j)));
                } else {
                    assert(pre.occ(i));
                    assert(pre.contents@.contains_key(pre.key_at(i)));
                }
            }
        }
    }

    /// Overwriting the value of the slot that holds a key keeps the table well formed.
    proof fn lemma_after_overwrite(&self, pre: Self, g: int, k: (u64, u64), value: T)
        requires
            pre.wf(),
            0 <= g < pre.capacity(),
            pre.occ(g),
            pre.key_at(g) == k,
            self.slots@ == pre.slots@.update(g, Some(ProbeSlot { key_a: k.0, key_b: k.1, value })),
            self.count == pre.count,
            self.mask == pre.mask,
            self.contents@ == pre.contents@.insert(k, value),
            self.occupied@ == pre.occupied@,
        ensures
            self.wf(),
    {
        let cap = pre.capacity() as int;
        assert(self.contents@.dom() =~= pre.contents@.dom());
        assert forall|j: int| 0 <= j < cap && j != g implies
            (#[trigger] self.occ(j) == pre.occ(j) && self.slots@[j] == pre.slots@[j]) by {}
        assert(self.occ(g) && self.key_at(g) == k);
        assert forall|kk: (u64, u64)| #[trigger] self.contents@.contains_key(kk) implies exists|j: int|
            0 <= j < cap && #[trigger] self.occ(j) && self.key_at(j) == kk by {
            let j = choose|j: int| 0 <= j < cap && #[trigger] pre.occ(j) && pre.key_at(j) == kk;
            assert(self.occ(j) && self.key_at(j) == kk);
        }
        assert forall|j: int| 0 <= j < cap implies (#[trigger] self.occupied@.contains(j) <==> self.occ(j)) by {
            assert(pre.occupied@.contains(j) <==> pre.occ(j));
        }
        assert(self.keys_unique()) by {
            reveal(ProbeTable::keys_unique);
            assert forall|i: int, j: int|
                0 <= i < cap && 0 <= j < cap && i != j && #[trigger] self.occ(i) && #[trigger] self.occ(j)
                    implies self.key_at(i) != self.key_at(j) by {
                assert(pre.occ(i) && pre.occ(j));
                assert(pre.key_at(i) != pre.key_at(j)) by { reveal(ProbeTable::keys_unique); }
            }
        }
        assert forall|j: int|
            0 <= j < cap && #[trigger] self.occ(j) implies self.contents@.contains_key(self.key_at(j))
                && self.contents@[self.key_at(j)] == self.val_at(j) by {
            if j != g {
                assert(pre.occ(j));
                assert(pre.key_at(j) != k) by { reveal(ProbeTable::keys_unique); }
            }
        }
        assert(self.probe_ok()) by {
            reveal(ProbeTable::probe_ok);
            assert forall|i: int, j: int|
                0 <= i < cap && 0 <= j < cap && #[trigger] self.occ(j) && cdist(
                    self.home(self.key_at(j)),
                    i,
                    cap,
                ) < cdist(self.home(self.key_at(j)), j, cap) implies #[trigger] self.occ(i) by {
                assert(pre.occ(j));
                assert(pre.key_at(j) == self.key_at(j));
            }
        }
    }

    /// Removes `(a, b)`, returning its value when it was present.
    pub fn remove(&mut self, a: u64, b: u64) -> (r: Option<T>)
        requires
            old(self).wf(),
        ensures
            final(self).wf(),
            final(self).capacity() == old(self).capacity(),
            r == (if old(self)@.contains_key((a, b)) {
                Some(old(self)@[(a, b)])
            } else {
                None::<T>
            }),
            final(self)@ == old(self)@.remove((a, b)),
    {
        let cap = self.slots.len();
        let h = home_slot(a, b, self.mask);
        let mut idx = h;
        let ghost e = self.lemma_has_empty();
        let ghost k = (a, b);
        loop
            invariant
                self.wf(),
                *self == *old(self),
                cap == self.slots@.len(),
                k == (a, b),
                h as int == self.home(k),
                0 <= idx < cap,
                0 <= e < cap,
                !self.occ(e),
                cdist(h as int, idx as int, cap as int) <= cdist(h as int, e, cap as int),
                forall|i: int|
                    0 <= i < cap && cdist(h as int, i, cap as int) < cdist(h as int, idx as int, cap as int)
                        ==> #[trigger] self.occ(i) && self.key_at(i) != k,
            decreases cdist(h as int, e, cap as int) - cdist(h as int, idx as int, cap as int),
        {
            let slot = &self.slots[idx];
            proof {
                assert(*slot == self.slots@[idx as int]);
            }
            match slot {
                None => {
                    proof {
                        self.lemma_absent_at_gap(k, idx as int);
                        assert(self@.remove(k) =~= self@);
                    }
                    return None;
                },
                Some(s) => {
                    if s.key_a == a && s.key_b == b {
                        let removed = s.value;
                        proof {
                            assert(self.occ(idx as int) && self.key_at(idx as int) == k);
                        }
                        self.vacate(idx);
                        return Some(removed);
                    }
                },
            }
            let ghost prev = idx as int;
            idx = if idx + 1 == cap { 0 } else { idx + 1 };
            proof {
                assert(self.occ(prev) && self.key_at(prev) != k);
                assert(prev != e);
                assert(cdist(h as int, idx as int, cap as int) == cdist(h as int, prev, cap as int) + 1);
                assert forall|i: int|
                    0 <= i < cap && cdist(h as int, i, cap as int) < cdist(h as int, idx as int, cap as int)
                        implies #[trigger] self.occ(i) && self.key_at(i) != k by {
                    if i != prev {
                        assert(cdist(h as int, i, cap as int) < cdist(h as int, prev, cap as int));
                    }
                }
            }
        }
    }

    /// The slot after `n`, wrapping around.
    pub closed spec fn succ(&self, n: int) -> int {
        if n + 1 == self.slots@.len() {
            0
        } else {
            n + 1
        }
    }

    /// State of a backward-shift deletion: slot `curr` is the hole (physically still
    /// occupied, logically empty), the slots strictly between `curr` and `next` have
    /// been examined, and `e` is an empty slot. `contents` already omits the deleted key.
    #[verifier::opaque]
    pub closed spec fn shift_inv(&self, e: int, curr: int, next: int) -> bool {
        let cap = self.slots@.len() as int;
        &&& cap == self.mask + 1
        &&& 2 <= cap <= 0x1000_0000
        &&& self.count + 2 < cap
        &&& self.count == self.contents@.len()
        &&& self.contents@.dom().finite()
        &&& self.occupied@.finite()
        &&& self.occupied@.len() == self.count + 1
        &&& (forall|j: int| #[trigger] self.occupied@.contains(j) ==> 0 <= j < cap)
        &&& (forall|j: int|
            0 <= j < cap ==> (#[trigger] self.occupied@.contains(j) <==> self.occ(j)))
        &&& 0 <= e < cap
        &&& !self.occ(e)
        &&& 0 <= curr < cap
        &&& 0 <= next < cap
        &&& curr != next
        &&& self.occ(curr)
        &&& 1 <= cdist(curr, next, cap) <= cdist(curr, e, cap)
        &&& (forall|j: int|
            0 <= j < cap && j != curr && #[trigger] self.occ(j) ==> self.contents@.contains_key(
                self.key_at(j),
            ) && self.contents@[self.key_at(j)] == self.val_at(j))
        &&& (forall|kk: (u64, u64)|
            #[trigger] self.contents@.contains_key(kk) ==> exists|j: int|
                0 <= j < cap && j != curr && #[trigger] self.occ(j) && self.key_at(j) == kk)
        &&& (forall|i: int, j: int|
            0 <= i < cap && 0 <= j < cap && i != j && i != curr && j != curr && #[trigger] self.occ(i)
                && #[trigger] self.occ(j) ==> self.key_at(i) != self.key_at(j))
        &&& (forall|i: int, j: int|
            0 <= i < cap && 0 <= j < cap && j != curr && #[trigger] self.occ(j) && cdist(
                self.home(self.key_at(j)),
                i,
                cap,
            ) < cdist(self.home(self.key_at(j)), j, cap) ==> (i != curr ==> #[trigger] self.occ(i))
                && (i == curr ==> cdist(curr, j, cap) >= cdist(curr, next, cap)))
    }

    proof fn lemma_pack_shift(p: Self, e: int, curr: int, next: int)
        requires
            p.slots@.len() == p.mask + 1,
            2 <= p.slots@.len() <= 0x1000_0000,
            p.count + 2 < p.slots@.len(),
            p.count == p.contents@.len(),
            p.contents@.dom().finite(),
            p.occupied@.finite(),
            p.occupied@.len() == p.count + 1,
            (forall|j: int| #[trigger] p.occupied@.contains(j) ==> 0 <= j < p.slots@.len() as int),
            (forall|j: int|
                0 <= j < p.slots@.len() ==> (#[trigger] p.occupied@.contains(j) <==> p.occ(j))),
            0 <= e < p.slots@.len(),
            !p.occ(e),
            0 <= curr < p.slots@.len(),
            0 <= next < p.slots@.len(),
            curr != next,
            p.occ(curr),
            1 <= cdist(curr, next, p.slots@.len() as int) <= cdist(curr, e, p.slots@.len() as int),
            (forall|j: int|
                0 <= j < p.slots@.len() && j != curr && #[trigger] p.occ(j) ==> p.contents@.contains_key(
                    p.key_at(j),
                ) && p.contents@[p.key_at(j)] == p.val_at(j)),
            (forall|kk: (u64, u64)|
                #[trigger] p.contents@.contains_key(kk) ==> exists|j: int|
                    0 <= j < p.slots@.len() && j != curr && #[trigger] p.occ(j) && p.key_at(j) == kk),
            (forall|i: int, j: int|
                0 <= i < p.slots@.len() && 0 <= j < p.slots@.len() && i != j && i != curr && j != curr && #[trigger] p.occ(i)
                    && #[trigger] p.occ(j) ==> p.key_at(i) != p.key_at(j)),
            (forall|i: int, j: int|
                0 <= i < p.slots@.len() && 0 <= j < p.slots@.len() && j != curr && #[trigger] p.occ(j) && cdist(
                    p.home(p.key_at(j)),
                    i,
                    p.slots@.len() as int,
                ) < cdist(p.home(p.key_at(j)), j, p.slots@.len() as int) ==> (i != curr ==> #[trigger] p.occ(i))
                    && (i == curr ==> cdist(curr, j, p.slots@.len() as int) >= cdist(curr, next, p.slots@.len() as int))),
        ensures
            p.shift_inv(e, curr, next),
    {
        reveal(ProbeTable::shift_inv);
    }

    proof fn lemma_unpack_shift(p: Self, e: int, curr: int, next: int)
        requires
            p.shift_inv(e, curr, next),
        ensures
            p.slots@.len() == p.mask + 1,
            2 <= p.slots@.len() <= 0x1000_0000,
            p.count + 2 < p.slots@.len(),
            p.count == p.contents@.len(),
            p.contents@.dom().finite(),
            p.occupied@.finite(),
            p.occupied@.len() == p.count + 1,
            (forall|j: int| #[trigger] p.occupied@.contains(j) ==> 0 <= j < p.slots@.len() as int),
            (forall|j: int|
                0 <= j < p.slots@.len() ==> (#[trigger] p.occupied@.contains(j) <==> p.occ(j))),
            0 <= e < p.slots@.len(),
            !p.occ(e),
            0 <= curr < p.slots@.len(),
            0 <= next < p.slots@.len(),
            curr != next,
            p.occ(curr),
            1 <= cdist(curr, next, p.slots@.len() as int) <= cdist(curr, e, p.slots@.len() as int),
            (forall|j: int|
                0 <= j < p.slots@.len() && j != curr && #[trigger] p.occ(j) ==> p.contents@.contains_key(
                    p.key_at(j),
                ) && p.contents@[p.key_at(j)] == p.val_at(j)),
            (forall|kk: (u64, u64)|
                #[trigger] p.contents@.contains_key(kk) ==> exists|j: int|
                    0 <= j < p.slots@.len() && j != curr && #[trigger] p.occ(j) && p.key_at(j) == kk),
            (forall|i: int, j: int|
                0 <= i < p.slots@.len() && 0 <= j < p.slots@.len() && i != j && i != curr && j != curr && #[trigger] p.occ(i)
                    && #[trigger] p.occ(j) ==> p.key_at(i) != p.key_at(j)),
            (forall|i: int, j: int|
                0 <= i < p.slots@.len() && 0 <= j < p.slots@.len() && j != curr && #[trigger] p.occ(j) && cdist(
                    p.home(p.key_at(j)),
                    i,
                    p.slots@.len() as int,
                ) < cdist(p.home(p.key_at(j)), j, p.slots@.len() as int) ==> (i != curr ==> #[trigger] p.occ(i))
                    && (i == curr ==> cdist(curr, j, p.slots@.len() as int) >= cdist(curr, next, p.slots@.len() as int))),
    {
        reveal(ProbeTable::shift_inv);
    }

    proof fn lemma_can_shift(c: int, n: int, h: int, cap: int)
        requires
            0 <= c < cap,
            0 <= n < cap,
            0 <= h < cap,
            c != n,
        ensures
            (if c < n {
                h <= c || h > n
            } else {
                h <= c && h > n
            }) == !(0 < cdist(c, h, cap) <= cdist(c, n, cap)),
    {
    }

    #[verifier::rlimit(60)]
    #[verifier::spinoff_prover]
    proof fn lemma_shift_start(&self, s0: Self, k: (u64, u64), e: int, start: int)
        requires
            s0.wf(),
            0 <= start < s0.capacity(),
            s0.occ(start),
            k == s0.key_at(start),
            0 <= e < s0.capacity(),
            !s0.occ(e),
            self.slots@ == s0.slots@,
            self.mask == s0.mask,
            self.count + 1 == s0.count,
            self.contents@ == s0.contents@.remove(k),
            self.occupied@ == s0.occupied@,
        ensures
            self.shift_inv(e, start, self.succ(start)),
    {
        let cap = s0.capacity() as int;
        assert forall|j: int| 0 <= j < cap implies #[trigger] self.occ(j) == s0.occ(j) && (s0.occ(j)
            ==> self.key_at(j) == s0.key_at(j) && self.val_at(j) == s0.val_at(j)) by {}
        assert forall|j: int| 0 <= j < cap implies (#[trigger] self.occupied@.contains(j) <==> self.occ(j)) by {
            assert(s0.occupied@.contains(j) <==> s0.occ(j));
        }
        assert forall|kk: (u64, u64)| #[trigger] self.contents@.contains_key(kk) implies exists|j: int|
            0 <= j < cap && j != start && #[trigger] self.occ(j) && self.key_at(j) == kk by {
            assert(s0.contents@.contains_key(kk));
            let j = choose|j: int| 0 <= j < cap && #[trigger] s0.occ(j) && s0.key_at(j) == kk;
            assert(self.occ(j) && self.key_at(j) == kk);
        }
        assert forall|j: int|
            0 <= j < cap && j != start && #[trigger] self.occ(j) implies self.contents@.contains_key(
                self.key_at(j),
            ) && self.contents@[self.key_at(j)] == self.val_at(j) by {
            assert(s0.occ(j));
            assert(s0.key_at(j) != k) by {
                reveal(ProbeTable::keys_unique);
            }
        }
        assert forall|i: int, j: int|
            0 <= i < cap && 0 <= j < cap && i != j && i != start && j != start && #[trigger] self.occ(i)
                && #[trigger] self.occ(j) implies self.key_at(i) != self.key_at(j) by {
            assert(s0.occ(i) && s0.occ(j));
            reveal(ProbeTable::keys_unique);
        }
        assert forall|i: int, j: int|
            0 <= i < cap && 0 <= j < cap && j != start && #[trigger] self.occ(j) && cdist(
                self.home(self.key_at(j)),
                i,
                cap,
            ) < cdist(self.home(self.key_at(j)), j, cap) implies (i != start ==> #[trigger] self.occ(i))
                && (i == start ==> cdist(start, j, cap) >= cdist(start, self.succ(start), cap)) by {
            assert(s0.occ(j));
            reveal(ProbeTable::probe_ok);
            assert(s0.occ(i));
        }
        assert(s0.occupied@.contains(start));
        assert(cdist(start, e, cap) >= 1);
        reveal(ProbeTable::shift_inv);
    }

    #[verifier::rlimit(100)]
    #[verifier::spinoff_prover]
    proof fn lemma_shift_move(pre: Self, post: Self, e: int, c: int, n: int)
        requires
            pre.shift_inv(e, c, n),
            pre.occ(n),
            !(0 < cdist(c, pre.home(pre.key_at(n)), pre.capacity() as int) <= cdist(c, n, pre.capacity() as int)),
            post.slots@ == pre.slots@.update(c, pre.slots@[n]),
            post.mask == pre.mask,
            post.count == pre.count,
            post.contents@ == pre.contents@,
            post.occupied@ == pre.occupied@,
        ensures
            post.shift_inv(e, n, post.succ(n)),
            n != post.succ(n),
            cdist(post.succ(n), e, pre.capacity() as int) < cdist(n, e, pre.capacity() as int),
    {
        ProbeTable::lemma_move_occ(pre, post, e, c, n);
        ProbeTable::lemma_move_contents(pre, post, e, c, n);
        ProbeTable::lemma_move_unique(pre, post, e, c, n);
        ProbeTable::lemma_move_probe(pre, post, e, c, n);
        ProbeTable::lemma_move_basic(pre, post, e, c, n);
        ProbeTable::lemma_pack_shift(post, e, n, post.succ(n));
    }

    proof fn lemma_move_basic(pre: Self, post: Self, e: int, c: int, n: int)
        requires
            pre.shift_inv(e, c, n),
            pre.occ(n),
            post.slots@ == pre.slots@.update(c, pre.slots@[n]),
            post.mask == pre.mask,
            post.count == pre.count,
            post.contents@ == pre.contents@,
            post.occupied@ == pre.occupied@,
            !(0 < cdist(c, pre.home(pre.key_at(n)), pre.capacity() as int) <= cdist(c, n, pre.capacity() as int)),
        ensures
            post.slots@.len() == post.mask + 1,
            2 <= post.slots@.len() <= 0x1000_0000,
            post.count + 2 < post.slots@.len(),
            post.count == post.contents@.len(),
            post.contents@.dom().finite(),
            post.occupied@.finite(),
            post.occupied@.len() == post.count + 1,
            forall|j: int| #[trigger] post.occupied@.contains(j) ==> 0 <= j < post.slots@.len() as int,
            0 <= e < post.slots@.len(),
            !post.occ(e),
            0 <= n < post.slots@.len(),
            0 <= post.succ(n) < post.slots@.len(),
            n != post.succ(n),
            post.occ(n),
            1 <= cdist(n, post.succ(n), post.slots@.len() as int) <= cdist(n, e, post.slots@.len() as int),
            cdist(post.succ(n), e, pre.capacity() as int) < cdist(n, e, pre.capacity() as int),
    {
        ProbeTable::lemma_unpack_shift(pre, e, c, n);
        assert(n != e);
        assert(post.slots@[e] == pre.slots@[e]);
        assert(post.slots@[n] == pre.slots@[n]);
    }

    proof fn lemma_move_occ(pre: Self, post: Self, e: int, c: int, n: int)
        requires
            pre.shift_inv(e, c, n),
            pre.occ(n),
            post.slots@ == pre.slots@.update(c, pre.slots@[n]),
            post.mask == pre.mask,
            post.count == pre.count,
            post.contents@ == pre.contents@,
            post.occupied@ == pre.occupied@,
        ensures
            forall|j: int| 0 <= j < pre.slots@.len() ==> #[trigger] post.occ(j) == pre.occ(j),
            forall|j: int|
                0 <= j < post.slots@.len() ==> (#[trigger] post.occupied@.contains(j) <==> post.occ(j)),
    {
        ProbeTable::lemma_unpack_shift(pre, e, c, n);
        assert forall|j: int| 0 <= j < pre.slots@.len() implies #[trigger] post.occ(j) == pre.occ(j) by {
            if j != c {
                assert(post.slots@[j] == pre.slots@[j]);
            }
        }
        assert forall|j: int| 0 <= j < post.slots@.len() implies (#[trigger] post.occupied@.contains(j)
            <==> post.occ(j)) by {
            assert(pre.occupied@.contains(j) <==> pre.occ(j));
            assert(post.occ(j) == pre.occ(j));
        }
    }

    #[verifier::rlimit(60)]
    #[verifier::spinoff_prover]
    proof fn lemma_move_contents(pre: Self, post: Self, e: int, c: int, n: int)
        requires
            pre.shift_inv(e, c, n),
            pre.occ(n),
            post.slots@ == pre.slots@.update(c, pre.slots@[n]),
            post.mask == pre.mask,
            post.count == pre.count,
            post.contents@ == pre.contents@,
            post.occupied@ == pre.occupied@,
        ensures
            forall|j: int|
                0 <= j < post.slots@.len() && j != n && #[trigger] post.occ(j) ==> post.contents@.contains_key(
                    post.key_at(j),
                ) && post.contents@[post.key_at(j)] == post.val_at(j),
            forall|kk: (u64, u64)|
                #[trigger] post.contents@.contains_key(kk) ==> exists|j: int|
                    0 <= j < post.slots@.len() && j != n && #[trigger] post.occ(j) && post.key_at(j) == kk,
    {
        ProbeTable::lemma_unpack_shift(pre, e, c, n);
        let cap = pre.slots@.len() as int;
        assert forall|j: int|
            0 <= j < cap && j != n && #[trigger] post.occ(j) implies post.contents@.contains_key(
                post.key_at(j),
            ) && post.contents@[post.key_at(j)] == post.val_at(j) by {
            if j == c {
                assert(pre.occ(n));
            } else {
                assert(post.slots@[j] == pre.slots@[j]);
                assert(pre.occ(j));
            }
        }
        assert forall|kk: (u64, u64)| #[trigger] post.contents@.contains_key(kk) implies exists|j: int|
            0 <= j < cap && j != n && #[trigger] post.occ(j) && post.key_at(j) == kk by {
            let j = choose|j: int| 0 <= j < cap && j != c && #[trigger] pre.occ(j) && pre.key_at(j) == kk;
            if j == n {
                assert(post.occ(c) && post.key_at(c) == kk);
            } else {
                assert(post.slots@[j] == pre.slots@[j]);
                assert(post.occ(j) && post.key_at(j) == kk);
            }
        }
    }

    #[verifier::rlimit(60)]
    #[verifier::spinoff_prover]
    proof fn lemma_move_unique(pre: Self, post: Self, e: int, c: int, n: int)
        requires
            pre.shift_inv(e, c, n),
            pre.occ(n),
            post.slots@ == pre.slots@.update(c, pre.slots@[n]),
            post.mask == pre.mask,
            post.count == pre.count,
            post.contents@ == pre.contents@,
            post.occupied@ == pre.occupied@,
        ensures
            forall|i: int, j: int|
                0 <= i < post.slots@.len() && 0 <= j < post.slots@.len() && i != j && i != n && j != n
                    && #[trigger] post.occ(i) && #[trigger] post.occ(j) ==> post.key_at(i) != post.key_at(j),
    {
        ProbeTable::lemma_unpack_shift(pre, e, c, n);
        let cap = pre.slots@.len() as int;
        assert forall|i: int, j: int|
            0 <= i < cap && 0 <= j < cap && i != j && i != n && j != n && #[trigger] post.occ(i)
                && #[trigger] post.occ(j) implies post.key_at(i) != post.key_at(j) by {
            if i == c {
                assert(post.slots@[j] == pre.slots@[j]);
                assert(pre.occ(j) && pre.occ(n));
            } else if j == c {
                assert(post.slots@[i] == pre.slots@[i]);
                assert(pre.occ(i) && pre.occ(n));
            } else {
                assert(post.slots@[i] == pre.slots@[i]);
                assert(post.slots@[j] == pre.slots@[j]);
                assert(pre.occ(i) && pre.occ(j));
            }
        }
    }

    #[verifier::rlimit(60)]
    #[verifier::spinoff_prover]
    proof fn lemma_move_probe(pre: Self, post: Self, e: int, c: int, n: int)
        requires
            pre.shift_inv(e, c, n),
            pre.occ(n),
            post.slots@ == pre.slots@.update(c, pre.slots@[n]),
            post.mask == pre.mask,
            post.count == pre.count,
            post.contents@ == pre.contents@,
            post.occupied@ == pre.occupied@,
            !(0 < cdist(c, pre.home(pre.key_at(n)), pre.capacity() as int) <= cdist(c, n, pre.capacity() as int)),
        ensures
            forall|i: int, j: int|
                0 <= i < post.slots@.len() && 0 <= j < post.slots@.len() && j != n && #[trigger] post.occ(j)
                    && cdist(post.home(post.key_at(j)), i, post.slots@.len() as int) < cdist(
                    post.home(post.key_at(j)),
                    j,
                    post.slots@.len() as int,
                ) ==> (i != n ==> #[trigger] post.occ(i)) && (i == n ==> cdist(
                    n,
                    j,
                    post.slots@.len() as int,
                ) >= cdist(n, post.succ(n), post.slots@.len() as int)),
    {
        ProbeTable::lemma_unpack_shift(pre, e, c, n);
        let hn0 = pre.home(pre.key_at(n));
        lemma_home_bound(pre.key_at(n), pre.mask);
        assert(cdist(hn0, c, pre.capacity() as int) < cdist(hn0, n, pre.capacity() as int));
        let cap = pre.slots@.len() as int;
        let hn = pre.home(pre.key_at(n));
        assert(cdist(n, post.succ(n), cap) == 1);
        assert forall|i: int, j: int|
            0 <= i < cap && 0 <= j < cap && j != n && #[trigger] post.occ(j) && cdist(
                post.home(post.key_at(j)),
                i,
                cap,
            ) < cdist(post.home(post.key_at(j)), j, cap) implies (i != n ==> #[trigger] post.occ(i))
                && (i == n ==> cdist(n, j, cap) >= cdist(n, post.succ(n), cap)) by {
            if j == c {
                assert(post.key_at(c) == pre.key_at(n));
                if i != n {
                    assert(cdist(hn, i, cap) < cdist(hn, n, cap));
                    assert(i != c);
                    assert(pre.occ(i));
                    assert(post.slots@[i] == pre.slots@[i]);
                }
            } else {
                assert(post.slots@[j] == pre.slots@[j]);
                assert(pre.occ(j));
                if i != n && i != c {
                    assert(pre.occ(i));
                    assert(post.slots@[i] == pre.slots@[i]);
                }
            }
        }
    }

    #[verifier::rlimit(60)]
    #[verifier::spinoff_prover]
    proof fn lemma_shift_skip(pre: Self, e: int, c: int, n: int)
        requires
            pre.shift_inv(e, c, n),
            pre.occ(n),
            0 < cdist(c, pre.home(pre.key_at(n)), pre.capacity() as int) <= cdist(c, n, pre.capacity() as int),
        ensures
            pre.shift_inv(e, c, pre.succ(n)),
            c != pre.succ(n),
            cdist(pre.succ(n), e, pre.capacity() as int) < cdist(n, e, pre.capacity() as int),
    {
        reveal(ProbeTable::shift_inv);
        let cap = pre.capacity() as int;
        let hn = pre.home(pre.key_at(n));
        let n2 = pre.succ(n);
        assert(n != e);
        assert(!(cdist(hn, c, cap) < cdist(hn, n, cap)));
        assert(cdist(c, n2, cap) == cdist(c, n, cap) + 1);
        assert forall|i: int, j: int|
            0 <= i < cap && 0 <= j < cap && j != c && #[trigger] pre.occ(j) && cdist(
                pre.home(pre.key_at(j)),
                i,
                cap,
            ) < cdist(pre.home(pre.key_at(j)), j, cap) implies (i != c ==> #[trigger] pre.occ(i))
                && (i == c ==> cdist(c, j, cap) >= cdist(c, n2, cap)) by {
            if i == c && j != n {
                assert(cdist(c, j, cap) != cdist(c, n, cap));
            }
        }
    }

    #[verifier::rlimit(60)]
    #[verifier::spinoff_prover]
    proof fn lemma_shift_finish(pre: Self, post: Self, e: int, c: int, n: int)
        requires
            pre.shift_inv(e, c, n),
            0 <= c < pre.capacity(),
            !pre.occ(n),
            post.slots@ == pre.slots@.update(c, None),
            post.mask == pre.mask,
            post.count == pre.count,
            post.contents@ == pre.contents@,
            post.occupied@ == pre.occupied@.remove(c),
        ensures
            post.wf(),
            post.capacity() == pre.capacity(),
    {
        reveal(ProbeTable::shift_inv);
        let cap = pre.capacity() as int;
        assert forall|j: int| 0 <= j < cap && j != c implies #[trigger] post.slots@[j] == pre.slots@[j] by {}
        assert forall|j: int| 0 <= j < cap implies (#[trigger] post.occupied@.contains(j) <==> post.occ(j)) by {
            assert(pre.occupied@.contains(j) <==> pre.occ(j));
            if j != c {
                assert(post.slots@[j] == pre.slots@[j]);
                assert(post.occ(j) == pre.occ(j));
            }
        }
        assert forall|j: int| 0 <= j < cap && #[trigger] post.occ(j) implies post.contents@.contains_key(
            post.key_at(j),
        ) && post.contents@[post.key_at(j)] == post.val_at(j) by {
            assert(post.slots@[j] == pre.slots@[j]);
            assert(j != c);
            assert(pre.occ(j));
        }
        assert forall|kk: (u64, u64)| #[trigger] post.contents@.contains_key(kk) implies exists|j: int|
            0 <= j < cap && #[trigger] post.occ(j) && post.key_at(j) == kk by {
            let j = choose|j: int| 0 <= j < cap && j != c && #[trigger] pre.occ(j) && pre.key_at(j) == kk;
            assert(post.slots@[j] == pre.slots@[j]);
            assert(post.occ(j) && post.key_at(j) == kk);
        }
        assert(post.keys_unique()) by {
            reveal(ProbeTable::keys_unique);
            assert forall|i: int, j: int|
                0 <= i < cap && 0 <= j < cap && i != j && #[trigger] post.occ(i) && #[trigger] post.occ(j)
                    implies post.key_at(i) != post.key_at(j) by {
                assert(post.slots@[i] == pre.slots@[i]);
                assert(post.slots@[j] == pre.slots@[j]);
                assert(pre.occ(i) && pre.occ(j));
            }
        }
        assert(post.probe_ok()) by {
            reveal(ProbeTable::probe_ok);
            assert forall|i: int, j: int|
                0 <= i < cap && 0 <= j < cap && #[trigger] post.occ(j) && cdist(
                    post.home(post.key_at(j)),
                    i,
                    cap,
                ) < cdist(post.home(post.key_at(j)), j, cap) implies #[trigger] post.occ(i) by {
                assert(post.slots@[j] == pre.slots@[j]);
                assert(pre.occ(j));
                let hj = post.home(post.key_at(j));
                if i == c {
                    assert(cdist(c, j, cap) >= cdist(c, n, cap));
                    assert(j != n);
                    assert(cdist(c, j, cap) != cdist(c, n, cap));
                    assert(cdist(hj, j, cap) == cdist(hj, c, cap) + cdist(c, j, cap));
                    assert(cdist(hj, n, cap) == cdist(hj, c, cap) + cdist(c, n, cap));
                    assert(pre.occ(n));
                    assert(false);
                } else {
                    assert(pre.occ(i));
                    assert(post.slots@[i] == pre.slots@[i]);
                }
            }
        }
        assert(pre.occupied@.contains(c));
        assert(post.occupied@.len() == post.count);
    }

    /// Empties slot `start` by backward-shift deletion: later members of its probe
    /// chain that may move back are moved into the hole, one at a time.
    fn vacate(&mut self, start: usize)
        requires
            old(self).wf(),
            0 <= start < old(self).capacity(),
            old(self).occ(start as int),
        ensures
            final(self).wf(),
            final(self).capacity() == old(self).capacity(),
            final(self)@ == old(self)@.remove(old(self).key_at(start as int)),
    {
        let cap = self.slots.len();
        let ghost k = self.key_at(start as int);
        let ghost e = self.lemma_has_empty();
        let ghost s0 = *self;
        self.count = self.count - 1;
        proof {
            self.contents@ = self.contents@.remove(k);
            self.lemma_shift_start(s0, k, e, start as int);
            assert(self.contents@ == s0.contents@.remove(k));
        }
        let mut curr = start;
        let mut next = if start + 1 == cap { 0 } else { start + 1 };
        while self.slots[next].is_some()
            invariant
                cap == self.slots@.len(),
                self.mask == s0.mask,
                self.contents@ == s0.contents@.remove(k),
                cap == self.mask + 1,
                curr != next,
                0 <= curr < cap,
                0 <= next < cap,
                0 <= e < cap,
                self.shift_inv(e, curr as int, next as int),
            decreases cdist(next as int, e, cap as int),
        {
            let ns = self.slots[next].unwrap();
            let ideal = home_slot(ns.key_a, ns.key_b, self.mask);
            let can_shift = if curr < next {
                ideal <= curr || ideal > next
            } else {
                ideal <= curr && ideal > next
            };
            let ghost c = curr as int;
            let ghost n = next as int;
            let ghost pre = *self;
            proof {
                assert(self.occ(n));
                assert(self.key_at(n) == (ns.key_a, ns.key_b));
                assert(ideal <= self.mask);
                ProbeTable::<T>::lemma_can_shift(c, n, ideal as int, cap as int);
            }
            if can_shift {
                self.slots.set(curr, Some(ns));
                curr = next;
                proof {
                    ProbeTable::lemma_shift_move(pre, *self, e, c, n);
                }
            } else {
                proof {
                    ProbeTable::lemma_shift_skip(pre, e, c, n);
                }
            }
            next = if next + 1 == cap { 0 } else { next + 1 };
        }
        let ghost c = curr as int;
        let ghost n = next as int;
        let ghost pre = *self;
        self.slots.set(curr, None);
        proof {
            self.occupied@ = self.occupied@.remove(c);
            ProbeTable::lemma_shift_finish(pre, *self, e, c, n);
        }
    }
}

} // verus!
