//! Why an order book refused or failed an operation.

use vstd::prelude::*;
use vstd::string::*;

use crate::book::order::OrderState;

verus! {

/// The category of a [`BookError`], as `std::io::ErrorKind` names them.
#[derive(Clone, Copy, Debug, PartialEq, Eq)]
pub enum ErrorKind {
    NotFound,
    InvalidData,
    InvalidInput,
    Unsupported,
    Other,
}

/// An error of the order book.
#[derive(Clone, Copy, Debug, PartialEq, Eq)]
pub enum BookError {
    /// No price level on the bid side holds the matched bid price.
    BidLevelNotFound,
    /// The bid price level holds no order.
    BidQueueEmpty,
    /// No price level on the ask side holds the matched ask price.
    AskLevelNotFound,
    /// The ask price level holds no order.
    AskQueueEmpty,
    /// One of the two matched orders is not open.
    InvalidOrderState { bid: OrderState, ask: OrderState },
    /// A fill would leave an order with a negative remaining quantity.
    QuantityBelowZero,
    /// Adding to the traded quantity overflowed the decimal range.
    AdditionOverflow,
    /// Subtracting from the remaining quantity overflowed the decimal range.
    SubtractionOverflow,
    /// The price level to remove an order from does not exist.
    PriceLevelMissing,
    /// The price level to remove an order from is empty.
    QueueEmpty,
    /// Cancellation is not implemented.
    NotImplemented,
    /// The event is not one that the book executes.
    UnsupportedEvent,
}

impl BookError {
    /// The category of the error.
    pub open spec fn spec_kind(self) -> ErrorKind {
        match self {
            BookError::BidLevelNotFound => ErrorKind::NotFound,
            BookError::BidQueueEmpty => ErrorKind::NotFound,
            BookError::AskLevelNotFound => ErrorKind::NotFound,
            BookError::AskQueueEmpty => ErrorKind::NotFound,
            BookError::InvalidOrderState { .. } => ErrorKind::InvalidData,
            BookError::QuantityBelowZero => ErrorKind::Other,
            BookError::AdditionOverflow => ErrorKind::Other,
            BookError::SubtractionOverflow => ErrorKind::Other,
            BookError::PriceLevelMissing => ErrorKind::InvalidInput,
            BookError::QueueEmpty => ErrorKind::InvalidData,
            BookError::NotImplemented => ErrorKind::Unsupported,
            BookError::UnsupportedEvent => ErrorKind::Unsupported,
        }
    }

    /// The message of the error.
    pub open spec fn message(self) -> Seq<char> {
        match self {
            BookError::BidLevelNotFound => "Unable to find price level on bid side"@,
            BookError::BidQueueEmpty => "Unable to find price level on bid side"@,
            BookError::AskLevelNotFound => "Unable to find price level on ask side"@,
            BookError::AskQueueEmpty => "Unable to find price level on bid side"@,
            BookError::InvalidOrderState { bid, ask } => "Invalid order state. Bid: "@
                + bid.name()@ + "; Ask: "@ + ask.name()@,
            BookError::QuantityBelowZero => "Quantity remaining dropped below 0."@,
            BookError::AdditionOverflow => "Addition overflowed"@,
            BookError::SubtractionOverflow => "Subtraction overflowed"@,
            BookError::PriceLevelMissing => "Price level does not exist."@,
            BookError::QueueEmpty => "Queue was empty."@,
            BookError::NotImplemented => "Not implemented"@,
            BookError::UnsupportedEvent => "Executor does not support that EngineEvent"@,
        }
    }

    pub fn kind(&self) -> (r: ErrorKind)
        ensures
            r == self.spec_kind(),
    {
        match self {
            BookError::BidLevelNotFound => ErrorKind::NotFound,
            BookError::BidQueueEmpty => ErrorKind::NotFound,
            BookError::AskLevelNotFound => ErrorKind::NotFound,
            BookError::AskQueueEmpty => ErrorKind::NotFound,
            BookError::InvalidOrderState { .. } => ErrorKind::InvalidData,
            BookError::QuantityBelowZero => ErrorKind::Other,
            BookError::AdditionOverflow => ErrorKind::Other,
            BookError::SubtractionOverflow => ErrorKind::Other,
            BookError::PriceLevelMissing => ErrorKind::InvalidInput,
            BookError::QueueEmpty => ErrorKind::InvalidData,
            BookError::NotImplemented => ErrorKind::Unsupported,
            BookError::UnsupportedEvent => ErrorKind::Unsupported,
        }
    }

    /// The message of the error, as text.
    pub fn to_string(&self) -> (r: String)
        ensures
            r@ == self.message(),
    {
        match self {
            BookError::BidLevelNotFound => String::from_str("Unable to find price level on bid side"),
            BookError::BidQueueEmpty => String::from_str("Unable to find price level on bid side"),
            BookError::AskLevelNotFound => String::from_str("Unable to find price level on ask side"),
            BookError::AskQueueEmpty => String::from_str("Unable to find price level on bid side"),
            BookError::InvalidOrderState { bid, ask } => {
                let mut s = String::from_str("Invalid order state. Bid: ");
                s.append(bid.name());
                s.append("; Ask: ");
                s.append(ask.name());
                s
            },
            BookError::QuantityBelowZero => String::from_str("Quantity remaining dropped below 0."),
            BookError::AdditionOverflow => String::from_str("Addition overflowed"),
            BookError::SubtractionOverflow => String::from_str("Subtraction overflowed"),
            BookError::PriceLevelMissing => String::from_str("Price level does not exist."),
            BookError::QueueEmpty => String::from_str("Queue was empty."),
            BookError::NotImplemented => String::from_str("Not implemented"),
            BookError::UnsupportedEvent => String::from_str(
                "Executor does not support that EngineEvent",
            ),
        }
    }
}

} // verus!
