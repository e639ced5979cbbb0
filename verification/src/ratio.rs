//! Exact rational numbers.

use vstd::prelude::*;

verus! {

/// The mathematical value of a [`Ratio`]: the rational number `numer / denom`.
pub struct Rational {
    pub numer: int,
    pub denom: int,
}

impl Rational {
    /// The integer `v` as a rational number.
    pub open spec fn whole(v: int) -> Rational {
        Rational { numer: v, denom: 1 }
    }

    /// A quantile fraction: a number in `[0, 1]`, over a positive denominator.
    pub open spec fn is_fraction(self) -> bool {
        self.denom > 0 && 0 <= self.numer <= self.denom
    }

    /// Both stand for the same number (the denominators are positive).
    pub open spec fn same_value(self, other: Rational) -> bool {
        self.numer * other.denom == other.numer * self.denom
    }

    /// The number is at least the integer `v` (the denominator is positive).
    pub open spec fn at_least(self, v: int) -> bool {
        v * self.denom <= self.numer
    }

    /// The number is at most the integer `v` (the denominator is positive).
    pub open spec fn at_most(self, v: int) -> bool {
        self.numer <= v * self.denom
    }
}

/// An exact rational number `numer / denom`.
///
/// A `Ratio` is not kept in lowest terms, and any pair of fields can be
/// written down: what a function needs of one it checks or requires.
#[derive(Clone, Copy, Debug, PartialEq, Eq, Structural)]
pub struct Ratio {
    pub numer: i128,
    pub denom: i64,
}

impl View for Ratio {
    type V = Rational;

    open spec fn view(&self) -> Rational {
        Rational { numer: self.numer as int, denom: self.denom as int }
    }
}

impl Ratio {
    /// The ratio is a quantile fraction: a number in `[0, 1]`, over a positive denominator.
    pub open spec fn is_fraction(self) -> bool {
        self@.is_fraction()
    }

    /// The ratio `numer / denom`, as it is written.
    pub fn new(numer: i128, denom: i64) -> (r: Ratio)
        ensures
            r.numer == numer,
            r.denom == denom,
    {
        Ratio { numer, denom }
    }

    /// The integer `v` as a ratio, `v / 1`.
    pub fn from_int(v: i64) -> (r: Ratio)
        ensures
            r@ == Rational::whole(v as int),
    {
        Ratio { numer: v as i128, denom: 1 }
    }

    /// Whether the ratio is a quantile fraction.
    pub fn in_unit_interval(&self) -> (r: bool)
        ensures
            r == self.is_fraction(),
    {
        self.denom > 0 && 0 <= self.numer && self.numer <= self.denom as i128
    }
}

/// The mathematical value of an optional ratio.
pub open spec fn value_of(r: Option<Ratio>) -> Option<Rational> {
    match r {
        Some(x) => Some(x@),
        None => None,
    }
}

/// Why a quantile was not computed.
#[derive(Clone, Copy, Debug, PartialEq, Eq, Structural)]
pub enum QuantileError {
    /// The quantile fraction does not lie in `[0, 1]`.
    InvalidQuantile,
}

} // verus!
