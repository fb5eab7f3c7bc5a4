//! Order book data of exchanges: price levels and their quantities.

use vstd::prelude::*;

use crate::decimal::Dec;

pub mod binance;

verus! {

/// A book that takes level updates.
pub trait OrderBookUpsert {
    fn upsert(&mut self, level: Level, side: Side);
}

/// The trading status of a symbol.
pub trait SymbolStatus {}

/// A book that can be fetched as a snapshot of an exchange's book.
pub trait OrderBookSnapshot {
    type Output;

    type Error;

    fn get<S: SymbolStatus>(symbol: &str, depth: u16, status: S) -> Result<Self, Self::Error> where
        Self: Sized;
}

/// A price level of an aggregated book: the total quantity offered at a price.
#[derive(Debug, Copy, Clone)]
pub struct Level {
    pub price: Dec,
    pub qty: Dec,
}

/// The side of an aggregated book.
#[derive(Debug, Copy, Clone)]
pub enum Side {
    Bid,
    Ask,
}

} // verus!
