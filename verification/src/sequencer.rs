//! Process-wide sequence numbers handed out from an atomic counter.
use vstd::prelude::*;
use std::sync::atomic::AtomicU64;
use std::sync::atomic::Ordering;

verus! {

/// Hands out increasing sequence numbers, starting at 1, to any number of threads.
pub struct Sequencer {
    counter: AtomicU64,
}

impl Sequencer {
    pub fn new() -> (r: Self) {
        Self { counter: AtomicU64::new(1) }
    }

    /// The next sequence number. The counter is shared between threads, so the value
    /// depends on what the other threads took before; nothing is stated of it here.
    pub fn next(&self) -> (r: u64) {
        self.counter.fetch_add(1, Ordering::Relaxed)
    }
}

} // verus!
