//! A verified multi-asset limit order book: price-time priority matching with
//! self-trade prevention, two-state margin accounting, open-addressing indices and
//! fixed little-endian wire formats.
use vstd::prelude::*;

pub mod wire;
pub mod types;
pub mod probe_table;
pub mod index;
pub mod arena;
pub mod book_spec;
pub mod book;
pub mod book_laws;
pub mod risk;
pub mod protocol;
pub mod metrics;
pub mod order_ring_buffer;
pub mod api;
pub mod matching_engine;
pub mod spot_risk;
pub mod sequencer;
pub mod validator;
pub mod scheduler;
pub mod connection;
pub mod gateway;
pub mod workload;
pub mod pipeline;
pub mod wal;
pub mod market_maker;

pub use book::{ExecutionReport, MultiAssetEngine, OrderBook};
pub use arena::{OrderArena, PriceLevelArena, PriceLevelNode};
pub use metrics::{LatencyHistogram, LatencySummary};
pub use risk::{Account, RiskEngine};

verus! {

} // verus!
