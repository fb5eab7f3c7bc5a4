//! Binance order book data.

use vstd::prelude::*;

pub mod book;
pub use book::{L2OrderBook, Side};

pub mod snapshot;
pub use snapshot::L2OrderBookSnapshot;

verus! {

/// The trading status of a Binance symbol.
#[allow(non_camel_case_types)]
#[derive(Debug)]
pub enum SymbolStatus {
    TRADING,
    HALT,
    BREAK,
}

/// Errors of the Binance data source.
pub enum BinanceError {
    GetSnapshotError,
}

} // verus!
