//! Decimal numbers as plain values.
//!
//! A [`Dec`] holds the mantissa and the scale of a `rust_decimal::Decimal`; its
//! value is `mantissa / 10^scale`.  Comparisons and arithmetic are computed by
//! `rust_decimal` itself, behind the trusted functions of this module.

use rust_decimal::Decimal;
use vstd::arithmetic::power::pow;
use vstd::prelude::*;
use vstd::std_specs::cmp::PartialEqSpecImpl;

verus! {

/// The largest mantissa magnitude of a `rust_decimal::Decimal` (2^96 - 1).
pub const MAX_MANTISSA: i128 = 79228162514264337593543950335i128;

/// The largest scale of a `rust_decimal::Decimal`.
pub const MAX_SCALE: u32 = 28u32;

/// The value, in units of 10^-28, of a decimal with the given mantissa and scale.
pub open spec fn value_of(p: (i128, u32)) -> int {
    p.0 * pow(10, (MAX_SCALE - p.1) as nat)
}

/// Whether the value `v` (in units of 10^-28) is a decimal of scale `s` whose
/// mantissa fits in 96 bits.
pub open spec fn fits_at_scale(v: int, s: u32) -> bool {
    -MAX_MANTISSA * pow(10, (MAX_SCALE - s) as nat) <= v <= MAX_MANTISSA * pow(
        10,
        (MAX_SCALE - s) as nat,
    )
}

/// The larger of two scales.
pub open spec fn max_scale(a: u32, b: u32) -> u32 {
    if a < b {
        b
    } else {
        a
    }
}

/// A decimal number `mantissa / 10^scale`, in the range of `rust_decimal::Decimal`:
/// the mantissa has at most 96 bits and the scale is at most 28.
#[derive(Clone, Copy, Debug)]
pub struct Dec {
    mantissa: i128,
    scale: u32,
}

impl View for Dec {
    type V = (i128, u32);

    closed spec fn view(&self) -> (i128, u32) {
        (self.mantissa, self.scale)
    }
}

/// The result of a decimal operation, lifted from mantissa and scale to [`Dec`].
pub open spec fn lift(r: Option<(i128, u32)>) -> Option<Dec> {
    match r {
        Some(p) => Some(Dec::from_parts(p)),
        None => None,
    }
}

impl Dec {
    #[verifier::type_invariant]
    spec fn in_range(self) -> bool {
        &&& -MAX_MANTISSA <= self.mantissa <= MAX_MANTISSA
        &&& self.scale <= MAX_SCALE
    }

    /// The decimal with the given mantissa and scale.
    pub closed spec fn from_parts(p: (i128, u32)) -> Dec {
        Dec { mantissa: p.0, scale: p.1 }
    }

    /// The numeric value, in units of 10^-28.
    pub open spec fn val(self) -> int {
        value_of(self@)
    }

    pub broadcast proof fn lemma_from_parts_view(p: (i128, u32))
        ensures
            #[trigger] Dec::from_parts(p)@ == p,
    {
    }

    pub broadcast proof fn lemma_view_from_parts(d: Dec)
        ensures
            #[trigger] Dec::from_parts(d@) == d,
    {
    }

    /// `num / 10^scale`, as `Decimal::new` builds it.
    pub fn new(num: i64, scale: u32) -> (r: Dec)
        requires
            scale <= MAX_SCALE,
        ensures
            r@ == (num as i128, scale),
    {
        Dec { mantissa: num as i128, scale }
    }

    /// `num / 10^scale`, as `Decimal::from_i128_with_scale` builds it.
    pub fn from_i128_with_scale(num: i128, scale: u32) -> (r: Dec)
        requires
            -MAX_MANTISSA <= num <= MAX_MANTISSA,
            scale <= MAX_SCALE,
        ensures
            r@ == (num, scale),
    {
        Dec { mantissa: num, scale }
    }

    /// Zero, with scale 0.
    pub fn zero() -> (r: Dec)
        ensures
            r@ == (0i128, 0u32),
            r.val() == 0,
    {
        Dec { mantissa: 0, scale: 0 }
    }

    pub fn mantissa(&self) -> (r: i128)
        ensures
            r == self@.0,
            -MAX_MANTISSA <= r <= MAX_MANTISSA,
    {
        proof {
            use_type_invariant(self);
        }
        self.mantissa
    }

    pub fn scale(&self) -> (r: u32)
        ensures
            r == self@.1,
            r <= MAX_SCALE,
    {
        proof {
            use_type_invariant(self);
        }
        self.scale
    }

    /// The smaller of two decimals: `other` when `self > other`, else `self`.
    pub open spec fn spec_min(self, other: Dec) -> Dec {
        if other.val() < self.val() {
            other
        } else {
            self
        }
    }

    /// The smaller of two decimals, as `Decimal::min` chooses it: `other` when
    /// `self > other`, else `self`.
    pub fn min(self, other: Dec) -> (r: Dec)
        ensures
            r == self.spec_min(other),
            r == self || r == other,
            r.val() <= self.val(),
            r.val() <= other.val(),
    {
        if decimal_lt(&other, &self) {
            other
        } else {
            self
        }
    }
}

/// The result of `Decimal::checked_add` on the decimals with these mantissas and scales,
/// as mantissa and scale.
pub uninterp spec fn decimal_checked_add(a: (i128, u32), b: (i128, u32)) -> Option<(i128, u32)>;

/// The result of `Decimal::checked_sub` on the decimals with these mantissas and scales,
/// as mantissa and scale.
pub uninterp spec fn decimal_checked_sub(a: (i128, u32), b: (i128, u32)) -> Option<(i128, u32)>;

/// `<Decimal as PartialOrd>::lt`.  Claimed: the comparison is by numeric value
/// (`Decimal::cmp` aligns the scales and compares exactly).
#[verifier::external_body]
pub(crate) fn decimal_lt(a: &Dec, b: &Dec) -> (r: bool)
    ensures
        r == (a.val() < b.val()),
{
    Decimal::from_i128_with_scale(a.mantissa, a.scale) < Decimal::from_i128_with_scale(
        b.mantissa,
        b.scale,
    )
}

/// `<Decimal as PartialEq>::eq`.  Claimed: equality is equality of numeric value
/// (`1.0 == 1.00`).
#[verifier::external_body]
pub(crate) fn decimal_eq(a: &Dec, b: &Dec) -> (r: bool)
    ensures
        r == (a.val() == b.val()),
{
    Decimal::from_i128_with_scale(a.mantissa, a.scale) == Decimal::from_i128_with_scale(
        b.mantissa,
        b.scale,
    )
}

/// `Decimal::checked_add`.  Claimed: the result is a function of the two operands
/// (named by `decimal_checked_add`), and it is the exact sum whenever the exact sum is
/// a decimal of the larger of the two scales with a 96-bit mantissa.  Left unsaid: how
/// a sum that does not fit is rounded, and when it overflows.
#[verifier::external_body]
pub(crate) fn dec_checked_add(a: &Dec, b: &Dec) -> (r: Option<Dec>)
    ensures
        r == lift(decimal_checked_add(a@, b@)),
        r is Some || !fits_at_scale(a.val() + b.val(), max_scale(a@.1, b@.1)),
        r is Some && fits_at_scale(a.val() + b.val(), max_scale(a@.1, b@.1)) ==> r.unwrap().val() == a.val() + b.val(),
{
    let x = Decimal::from_i128_with_scale(a.mantissa, a.scale);
    let y = Decimal::from_i128_with_scale(b.mantissa, b.scale);
    match x.checked_add(y) {
        Some(s) => Some(Dec { mantissa: s.mantissa(), scale: s.scale() }),
        None => None,
    }
}

/// `Decimal::checked_sub`.  Claimed: the result is a function of the two operands
/// (named by `decimal_checked_sub`), and it is the exact difference whenever the exact
/// difference is a decimal of the larger of the two scales with a 96-bit mantissa.
/// Left unsaid: how a difference that does not fit is rounded, and when it overflows.
#[verifier::external_body]
pub(crate) fn dec_checked_sub(a: &Dec, b: &Dec) -> (r: Option<Dec>)
    ensures
        r == lift(decimal_checked_sub(a@, b@)),
        r is Some || !fits_at_scale(a.val() - b.val(), max_scale(a@.1, b@.1)),
        r is Some && fits_at_scale(a.val() - b.val(), max_scale(a@.1, b@.1)) ==> r.unwrap().val() == a.val() - b.val(),
{
    let x = Decimal::from_i128_with_scale(a.mantissa, a.scale);
    let y = Decimal::from_i128_with_scale(b.mantissa, b.scale);
    match x.checked_sub(y) {
        Some(s) => Some(Dec { mantissa: s.mantissa(), scale: s.scale() }),
        None => None,
    }
}

impl PartialEq for Dec {
    fn eq(&self, other: &Dec) -> (r: bool) {
        decimal_eq(self, other)
    }
}

impl Eq for Dec {}

impl core::hash::Hash for Dec {
    /// `<Decimal as Hash>::hash` on the decimal with this mantissa and scale, which hashes
    /// the normalized value, so that equal values (`1.0` and `1.00`) hash alike.  Nothing
    /// is claimed of it: it has no contract.
    #[verifier::external_body]
    fn hash<H: core::hash::Hasher>(&self, state: &mut H) {
        Decimal::from_i128_with_scale(self.mantissa, self.scale).hash(state)
    }
}

impl PartialEqSpecImpl for Dec {
    open spec fn obeys_eq_spec() -> bool {
        true
    }

    open spec fn eq_spec(&self, other: &Dec) -> bool {
        self.val() == other.val()
    }
}

} // verus!
