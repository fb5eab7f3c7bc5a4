//! Snapshots of a Binance order book.

use vstd::prelude::*;

use crate::exchange_data::Level;

verus! {

/// A depth snapshot: the bid and ask levels as of an update id.
pub struct L2OrderBookSnapshot {
    last_update_id: u64,
    bids: Vec<Level>,
    asks: Vec<Level>,
}

} // verus!
