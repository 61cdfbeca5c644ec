# orderbook

A multi-asset limit order book with pre-trade margin accounting, written in Verus and
verified against functional specifications.

## Layout

- `src/` — the verified library.
  - `book_spec.rs` models a book as sequences of price levels holding FIFO queues and
    specifies matching, resting and cancelling; `book.rs` implements the book over
    pre-allocated arenas, intrusive level ladders and open-addressing indices
    (`arena.rs`, `index.rs`, `probe_table.rs`) and proves it refines the model;
    `book_laws.rs` proves self-trade prevention, conservation of quantity, price
    protection, price priority and owner-only cancels over the model.
  - `risk.rs` is the two-state (available / locked) margin engine; `pipeline.rs` is one
    step of the exchange's matching stage, from an inbound order to the messages, the
    trades and the journal record.
  - `types.rs`, `wire.rs` and `protocol.rs` are the fixed little-endian wire formats,
    with round-trip proofs; `gateway.rs` and `connection.rs` hold the checks and
    decoding the network side applies.
  - `metrics.rs` is the 544-bucket latency histogram with its resolution and
    percentile properties; `order_ring_buffer.rs` a bounded FIFO.
  - `api.rs`, `matching_engine.rs`, `spot_risk.rs`, `validator.rs`, `scheduler.rs` and
    `sequencer.rs` form the simple map-based engine and its helpers; `workload.rs`
    generates the benchmark order stream, specified draw by draw.
  - `wal.rs` is the write-ahead log format (`WAL1` header, records framed with a
    table-driven CRC32) with its decoder and round-trip proofs; `market_maker.rs` is
    the trading client's choice of the next order.
- `tests/` — executable tests of the library.
- `app/` — the binaries: the three-stage exchange, the benchmark, the market maker
  and the small feeds and clients (network and file I/O, threads, floating point).
