//! Executed trades.

use vstd::prelude::*;

use crate::clock::Timestamp;
use crate::decimal::Dec;
use crate::engine::InstrumentKey;

verus! {

/// A trade between the front bid and the front ask of a book.
#[derive(Debug, Clone, PartialEq)]
pub struct Trade {
    pub instrument: InstrumentKey,
    pub trade_id: u64,
    pub bid_order_id: u64,
    pub ask_order_id: u64,
    pub executed_at: Timestamp,
    pub execution_price: Dec,
    pub executed_quantity: Dec,
}

} // verus!
