# limit_order_book

A limit order book with price-time priority, verified with Verus.

- `src/decimal.rs` — decimal prices and quantities as mantissa and scale; comparisons
  and arithmetic are computed by `rust_decimal`.
- `src/clock.rs` — local wall-clock instants, read from `chrono`.
- `src/book/` — price levels kept in ascending price order (`levels.rs`), limit orders
  and their fills (`order.rs`), the order book with insertion, matching and trade
  execution (`../book.rs`), and its mathematical model and laws (`model.rs`).
- `src/engine.rs` — what a command does to an instrument's book and which events it
  emits, in order.
- `src/exchange_data/` — aggregated (level 2) books of exchange data.
- `app/` — the engine's worker threads and channels, and a small simulation.
