//! Blending two neighbouring order statistics.

use crate::ratio::{Ratio, Rational};
use polars_compute::rolling::QuantileMethod;
use vstd::prelude::*;

verus! {

/// The value at `position` on the line through `(base, lower)` and `(base + 1, upper)`:
/// `lower + (position - base) * (upper - lower)`, over the denominator of `position`.
/// Equal neighbours give that value itself.
pub open spec fn linear(lower: int, upper: int, base: int, position: Rational) -> Rational {
    if lower == upper {
        Rational::whole(lower)
    } else {
        Rational {
            numer: lower * position.denom + (position.numer - base * position.denom) * (upper
                - lower),
            denom: position.denom,
        }
    }
}

/// The arithmetic mean of the two neighbours; equal neighbours give that value itself.
pub open spec fn midpoint(lower: int, upper: int) -> Rational {
    if lower == upper {
        Rational::whole(lower)
    } else {
        Rational { numer: lower + upper, denom: 2 }
    }
}

/// What `method` makes of the order statistic `lower` at `base` and of `upper`, the one
/// after it: `lower` itself where the quantile falls on one position (`base == top`) and
/// under every method that does not interpolate, else the blend of the two.
pub open spec fn blended(
    method: QuantileMethod,
    lower: int,
    upper: int,
    base: int,
    top: int,
    position: Rational,
) -> Rational {
    if base == top {
        Rational::whole(lower)
    } else {
        match method {
            QuantileMethod::Midpoint => midpoint(lower, upper),
            QuantileMethod::Linear => linear(lower, upper, base, position),
            _ => Rational::whole(lower),
        }
    }
}

/// A position between `base` and `base + 1`, both included, over a positive denominator.
pub open spec fn spans(base: int, position: Rational) -> bool {
    &&& 0 < position.denom
    &&& base * position.denom <= position.numer <= (base + 1) * position.denom
}

/// A blend of two `i64` values over an `i64` denominator fits an `i128`, and so do the
/// products it is made of.
proof fn lemma_linear_fits(lower: int, upper: int, den: int, part: int)
    by (nonlinear_arith)
    requires
        i64::MIN <= lower <= i64::MAX,
        i64::MIN <= upper <= i64::MAX,
        0 < den <= i64::MAX,
        0 <= part <= den,
    ensures
        i128::MIN <= lower * den <= i128::MAX,
        i128::MIN <= part * (upper - lower) <= i128::MAX,
        i128::MIN <= lower * den + part * (upper - lower) <= i128::MAX,
{
    assert(-0x8000_0000_0000_0000 * den <= lower * den <= 0x7fff_ffff_ffff_ffff * den);
    assert(-0x8000_0000_0000_0000 * den <= upper * den <= 0x7fff_ffff_ffff_ffff * den);
    assert(0x7fff_ffff_ffff_ffff * den <= 0x7fff_ffff_ffff_ffff * 0x7fff_ffff_ffff_ffff);
    assert(-0x8000_0000_0000_0000 * den >= -0x8000_0000_0000_0000 * 0x7fff_ffff_ffff_ffff);
    if lower <= upper {
        assert(0 <= part * (upper - lower) <= den * (upper - lower));
    } else {
        assert(den * (upper - lower) <= part * (upper - lower) <= 0);
    }
    assert(den * (upper - lower) == upper * den - lower * den);
}

/// Linear interpolation between `lower`, the order statistic at `idx`, and `upper`, the
/// next one, at the position `float_idx`.
pub fn linear_interpol(lower: i64, upper: i64, idx: usize, float_idx: Ratio) -> (r: Ratio)
    requires
        spans(idx as int, float_idx@),
    ensures
        r@ == linear(lower as int, upper as int, idx as int, float_idx@),
{
    if lower == upper {
        Ratio::from_int(lower)
    } else {
        let den: i128 = float_idx.denom as i128;
        proof {
            assert(idx * den <= float_idx.numer) by (nonlinear_arith)
                requires
                    idx * float_idx.denom <= float_idx.numer,
                    den == float_idx.denom,
            ;
            assert(0 <= idx * den) by (nonlinear_arith)
                requires
                    0 <= idx,
                    0 < den,
            ;
            assert((idx + 1) * den == idx * den + den) by (nonlinear_arith);
            lemma_linear_fits(
                lower as int,
                upper as int,
                den as int,
                float_idx.numer - idx * den,
            );
        }
        let whole: i128 = (idx as i128) * den;
        let part: i128 = float_idx.numer - whole;
        let proportion: i128 = part * (upper as i128 - lower as i128);
        Ratio { numer: proportion + (lower as i128) * den, denom: float_idx.denom }
    }
}

/// The midpoint of `lower` and `upper`.
pub fn midpoint_interpol(lower: i64, upper: i64) -> (r: Ratio)
    ensures
        r@ == midpoint(lower as int, upper as int),
{
    if lower == upper {
        Ratio::from_int(lower)
    } else {
        Ratio { numer: lower as i128 + upper as i128, denom: 2 }
    }
}

} // verus!
