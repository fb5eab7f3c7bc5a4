//! A limit order book with price-time priority matching, and the decisions of the
//! engine that drives one book per instrument.
//!
//! Prices and quantities are decimal numbers computed by `rust_decimal`; order
//! timestamps are `chrono` local times, carried through unread.

pub mod decimal;
pub mod clock;
pub mod book;
pub mod engine;
pub mod exchange_data;
