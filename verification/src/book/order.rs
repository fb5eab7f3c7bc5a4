//! Limit orders and their life cycle.

use vstd::arithmetic::power::lemma_pow_positive;
use vstd::prelude::*;

use crate::book::error::BookError;
use crate::clock::Timestamp;
use crate::decimal::{
    decimal_checked_add, decimal_checked_sub, decimal_eq, decimal_lt, dec_checked_add,
    dec_checked_sub, fits_at_scale, max_scale, Dec, MAX_SCALE,
};
use crate::engine::InstrumentKey;

verus! {

/// The side of the book an order rests on.
#[derive(Debug, PartialEq, Eq, Clone, Copy, Hash)]
pub enum Side {
    Buy,
    Sell,
}

/// Where an order is in its life cycle.
#[derive(Debug, PartialEq, Eq, Hash, Clone, Copy)]
pub enum OrderState {
    /// Instantiated.
    New,
    /// Resting in the order book.
    Open,
    /// Partially executed.
    PartiallyFulfilled,
    /// Wholly executed.
    Fulfilled,
    /// Cancelled.
    Cancelled,
}

impl OrderState {
    /// The variant's name.
    pub open spec fn spec_name(self) -> &'static str {
        match self {
            OrderState::New => "New",
            OrderState::Open => "Open",
            OrderState::PartiallyFulfilled => "PartiallyFulfilled",
            OrderState::Fulfilled => "Fulfilled",
            OrderState::Cancelled => "Cancelled",
        }
    }

    /// The variant's name, as `{:?}` prints it.
    #[verifier::when_used_as_spec(spec_name)]
    pub fn name(self) -> (r: &'static str)
        ensures
            r == self.spec_name(),
    {
        match self {
            OrderState::New => "New",
            OrderState::Open => "Open",
            OrderState::PartiallyFulfilled => "PartiallyFulfilled",
            OrderState::Fulfilled => "Fulfilled",
            OrderState::Cancelled => "Cancelled",
        }
    }

    /// Open and partially fulfilled orders can trade.
    pub open spec fn spec_is_open(self) -> bool {
        self == OrderState::Open || self == OrderState::PartiallyFulfilled
    }
}

/// A limit order: buy or sell `quantity` at `limit_price` or better.
#[derive(Debug, PartialEq, Eq, Clone, Hash)]
pub struct LimitOrder {
    pub instrument: InstrumentKey,
    pub id: u64,
    pub state: OrderState,
    pub placed_at: Timestamp,
    pub limit_price: Dec,
    pub quantity: Dec,
    pub side: Side,
    pub quantity_traded: Dec,
    pub quantity_remaining: Dec,
}

impl LimitOrder {
    /// The order and the outcome after a fill of `qty`: the traded quantity grows by
    /// `qty`, then the remaining quantity shrinks by `qty`; the fill fails if either
    /// computation overflows or the remaining quantity drops below zero, and otherwise
    /// reports whether nothing remains.
    pub open spec fn adjusted(self, qty: Dec) -> (LimitOrder, Result<bool, BookError>) {
        match decimal_checked_add(self.quantity_traded@, qty@) {
            None => (self, Err(BookError::AdditionOverflow)),
            Some(t) => {
                let o1 = LimitOrder { quantity_traded: Dec::from_parts(t), ..self };
                match decimal_checked_sub(self.quantity_remaining@, qty@) {
                    None => (o1, Err(BookError::SubtractionOverflow)),
                    Some(r) => {
                        let o2 = LimitOrder { quantity_remaining: Dec::from_parts(r), ..o1 };
                        if o2.quantity_remaining.val() < 0 {
                            (o2, Err(BookError::QuantityBelowZero))
                        } else {
                            (o2, Ok(o2.quantity_remaining.val() == 0))
                        }
                    },
                }
            },
        }
    }

    /// Whether a fill of `qty` computes exactly: the new traded and remaining quantities
    /// are decimals of the operands' larger scale with a 96-bit mantissa.
    pub open spec fn fill_fits(self, qty: Dec) -> bool {
        &&& fits_at_scale(
            self.quantity_traded.val() + qty.val(),
            max_scale(self.quantity_traded@.1, qty@.1),
        )
        &&& fits_at_scale(
            self.quantity_remaining.val() - qty.val(),
            max_scale(self.quantity_remaining@.1, qty@.1),
        )
    }

    pub fn is_open(&self) -> (r: bool)
        ensures
            r == self.state.spec_is_open(),
    {
        match self.state {
            OrderState::Open => true,
            OrderState::PartiallyFulfilled => true,
            _ => false,
        }
    }

    /// Records a fill of `qty`.  Returns whether the order is now wholly filled, or an
    /// error when its remaining quantity would drop below zero (the order keeps the
    /// adjusted quantities) or when the decimal range overflows.
    pub fn adjust_quantities(&mut self, qty: Dec) -> (r: Result<bool, BookError>)
        ensures
            (*final(self), r) == old(self).adjusted(qty),
            qty == old(self).quantity_remaining ==> r is Err || r == Ok::<bool, BookError>(true),
            old(self).fill_fits(qty) ==> {
                &&& final(self).quantity_traded.val() == old(self).quantity_traded.val() + qty.val()
                &&& final(self).quantity_remaining.val() == old(self).quantity_remaining.val()
                    - qty.val()
                &&& final(self).quantity_traded.val() + final(self).quantity_remaining.val()
                    == old(self).quantity_traded.val() + old(self).quantity_remaining.val()
                &&& r == (if old(self).quantity_remaining.val() < qty.val() {
                    Err::<bool, BookError>(BookError::QuantityBelowZero)
                } else {
                    Ok::<bool, BookError>(old(self).quantity_remaining.val() == qty.val())
                })
            },
    {
        broadcast use Dec::lemma_from_parts_view, Dec::lemma_view_from_parts;

        proof {
            lemma_pow_positive(10, (MAX_SCALE - max_scale(qty@.1, qty@.1)) as nat);
        }

        match dec_checked_add(&self.quantity_traded, &qty) {
            None => Err(BookError::AdditionOverflow),
            Some(t) => {
                self.quantity_traded = t;
                match dec_checked_sub(&self.quantity_remaining, &qty) {
                    None => Err(BookError::SubtractionOverflow),
                    Some(rem) => {
                        self.quantity_remaining = rem;
                        let zero = Dec::zero();
                        if decimal_lt(&self.quantity_remaining, &zero) {
                            Err(BookError::QuantityBelowZero)
                        } else {
                            Ok(decimal_eq(&self.quantity_remaining, &zero))
                        }
                    },
                }
            },
        }
    }
}

} // verus!
