//! Exact fixed-point decimal amounts.
//!
//! An [`Amount`] is a signed 96-bit coefficient together with a scale between
//! 0 and 28: it denotes `coefficient / 10^scale`. Two amounts with different
//! scales may denote the same number; every comparison here is by the number
//! denoted, never by representation.

use rust_decimal::Decimal;
use std::cmp::Ordering;
use vstd::arithmetic::power::pow;
use vstd::prelude::*;

verus! {

/// Largest magnitude of a coefficient: `2^96 - 1`.
pub const MAX_COEFFICIENT: i128 = 0xFFFF_FFFF_FFFF_FFFF_FFFF_FFFF;

/// Largest scale: an amount has at most 28 decimal places.
pub const MAX_SCALE: u32 = 28;

/// An exact decimal number `mantissa / 10^scale`.
#[derive(Clone, Copy, Debug)]
pub struct Amount {
    mantissa: i128,
    scale: u32,
}

/// Whether a coefficient and a scale form a representable amount.
pub open spec fn representable(mantissa: i128, scale: u32) -> bool {
    -MAX_COEFFICIENT <= mantissa <= MAX_COEFFICIENT && scale <= MAX_SCALE
}

/// The outcome of comparing two integers, smaller first.
pub open spec fn int_ordering(a: int, b: int) -> Ordering {
    if a < b {
        Ordering::Less
    } else if a == b {
        Ordering::Equal
    } else {
        Ordering::Greater
    }
}

/// Compares the numbers denoted by two amounts with `rust_decimal`'s
/// `Decimal::cmp`, after rebuilding each as a `Decimal` with
/// `Decimal::from_i128_with_scale`.
///
/// Trusted: that the construction keeps coefficient and scale for every
/// representable pair, and that `Decimal::cmp` orders decimals by the number
/// they denote, whatever their scales.
#[verifier::external_body]
fn decimal_cmp(a: &Amount, b: &Amount) -> (r: Ordering)
    requires
        representable(a.mantissa, a.scale),
        representable(b.mantissa, b.scale),
    ensures
        r == int_ordering(a.units(), b.units()),
{
    let x = Decimal::from_i128_with_scale(a.mantissa, a.scale);
    let y = Decimal::from_i128_with_scale(b.mantissa, b.scale);
    x.cmp(&y)
}

impl Amount {
    #[verifier::type_invariant]
    spec fn well_formed(self) -> bool {
        representable(self.mantissa, self.scale)
    }

    /// The signed coefficient.
    pub closed spec fn spec_mantissa(&self) -> i128 {
        self.mantissa
    }

    /// The number of decimal places.
    pub closed spec fn spec_scale(&self) -> u32 {
        self.scale
    }

    /// The number denoted, counted in units of `10^-28`: an integer for every
    /// amount, and equal for two amounts exactly when they denote the same
    /// number.
    pub open spec fn units(self) -> int {
        self.mantissa() * pow(10, (MAX_SCALE - self.scale()) as nat)
    }

    /// Builds `mantissa / 10^scale`, or nothing where the pair is not
    /// representable.
    pub fn new(mantissa: i128, scale: u32) -> (r: Option<Amount>)
        ensures
            r is Some <==> representable(mantissa, scale),
            r matches Some(a) ==> a.mantissa() == mantissa && a.scale() == scale,
    {
        if scale <= MAX_SCALE && -MAX_COEFFICIENT <= mantissa && mantissa <= MAX_COEFFICIENT {
            Some(Amount { mantissa, scale })
        } else {
            None
        }
    }

    /// Zero, with no decimal places.
    pub closed spec fn spec_zero() -> Amount {
        Amount { mantissa: 0, scale: 0 }
    }

    /// Zero, with no decimal places.
    #[verifier::when_used_as_spec(spec_zero)]
    pub fn zero() -> (r: Amount)
        ensures
            r == Amount::zero(),
            r.mantissa() == 0,
            r.scale() == 0,
            r.units() == 0,
    {
        Amount { mantissa: 0, scale: 0 }
    }

    #[verifier::when_used_as_spec(spec_mantissa)]
    pub fn mantissa(&self) -> (r: i128)
        ensures
            r == self.mantissa(),
            representable(r, self.scale()),
    {
        proof {
            use_type_invariant(self);
        }
        self.mantissa
    }

    #[verifier::when_used_as_spec(spec_scale)]
    pub fn scale(&self) -> (r: u32)
        ensures
            r == self.scale(),
            representable(self.mantissa(), r),
    {
        proof {
            use_type_invariant(self);
        }
        self.scale
    }

    /// Orders two amounts by the numbers they denote.
    pub fn compare(&self, other: &Amount) -> (r: Ordering)
        ensures
            r == int_ordering(self.units(), other.units()),
    {
        proof {
            use_type_invariant(self);
            use_type_invariant(other);
        }
        decimal_cmp(self, other)
    }
}

impl PartialEq for Amount {
    /// Two amounts are equal where they denote the same number.
    fn eq(&self, other: &Amount) -> (r: bool) {
        match self.compare(other) {
            Ordering::Equal => true,
            _ => false,
        }
    }
}

impl Eq for Amount {

}

impl vstd::std_specs::cmp::PartialEqSpecImpl for Amount {
    open spec fn obeys_eq_spec() -> bool {
        true
    }

    open spec fn eq_spec(&self, other: &Amount) -> bool {
        self.units() == other.units()
    }
}

impl Default for Amount {
    fn default() -> (r: Amount)
        ensures
            r == Amount::zero(),
            r.mantissa() == 0,
            r.scale() == 0,
            r.units() == 0,
    {
        Amount::zero()
    }
}

} // verus!
