//! Commands to the engine and the events it emits.

use vstd::prelude::*;

use crate::book::{LimitOrder, OrderState, Side, Trade};
use crate::clock::Timestamp;
use crate::decimal::Dec;
use crate::engine::InstrumentKey;

verus! {

/// A command to an instrument's worker.
#[derive(Debug, Clone, PartialEq)]
pub enum EngineCommand {
    PlaceOrder(LimitOrder),
    CancelOrder(LimitOrder),
    Shutdown,
}

/// Whether a worker goes on after a command.
#[derive(Debug, Clone, Copy, PartialEq, Eq)]
pub enum CommandOutcome {
    Continue,
    Shutdown,
}

/// An event of the engine's audit stream.
#[derive(Debug, Clone, PartialEq)]
pub enum EngineEvent {
    OrderPlaced(OrderPlacedEvent),
    OrderCancelled(CancellationEvent),
    OrdersMatched(OrdersMatchedEvent),
    TradeExecuted(Trade),
    Shutdown,
}

/// An order was accepted for placement.
#[derive(Debug, PartialEq, Eq, Clone, Hash)]
pub struct OrderPlacedEvent {
    pub instrument: InstrumentKey,
    pub order_id: u64,
    pub state: OrderState,
    pub placed_at: Timestamp,
    pub accepted_at: Timestamp,
    pub limit_price: Dec,
    pub quantity: Dec,
    pub side: Side,
    pub quantity_traded: Dec,
    pub quantity_remaining: Dec,
}

/// The front bid and the front ask of a book cross.
#[derive(Debug, Clone, PartialEq)]
pub struct OrdersMatchedEvent {
    pub instrument: InstrumentKey,
    pub bid_order_id: u64,
    pub ask_order_id: u64,
    pub ask_price: Dec,
    pub bid_price: Dec,
    pub matched_at: Timestamp,
}

/// An order was cancelled.
#[derive(Debug, PartialEq, Eq, Clone, Hash)]
pub struct CancellationEvent {
    pub instrument: InstrumentKey,
    pub order_id: u64,
    pub cancelled_at: Timestamp,
    pub limit_price: Dec,
    pub quantity: Dec,
    pub side: Side,
    pub quantity_traded: Dec,
    pub quantity_remaining: Dec,
}

} // verus!
