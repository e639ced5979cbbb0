//! From a quantile fraction to the positions of the order statistics it asks for.

use crate::interpol::spans;
use crate::ratio::{Ratio, Rational};
use polars_compute::rolling::QuantileMethod;
use vstd::arithmetic::div_mod::{lemma_fundamental_div_mod, lemma_fundamental_div_mod_converse};
use vstd::prelude::*;

verus! {

/// `a / d` rounded down, for a positive `d`.
pub open spec fn floor_div(a: int, d: int) -> int {
    a / d
}

/// `a / d` rounded up, for a positive `d`.
pub open spec fn ceil_div(a: int, d: int) -> int {
    (a + d - 1) / d
}

/// `a / d` rounded to the nearest integer, a half rounded up, for a positive `d`.
pub open spec fn round_div(a: int, d: int) -> int {
    (2 * a + d) / (2 * d)
}

/// `v` moved into `[low, high]`.
pub open spec fn clamped(v: int, low: int, high: int) -> int {
    if v < low {
        low
    } else if v > high {
        high
    } else {
        v
    }
}

/// The fractional position `(m - 1) * q + z` of the quantile `q` among the `m = length -
/// null_count` values that follow `z = null_count` nulls, over the denominator of `q`.
pub open spec fn fractional_position(quantile: Rational, length: int, null_count: int) -> Rational {
    Rational {
        numer: (length - null_count - 1) * quantile.numer + null_count * quantile.denom,
        denom: quantile.denom,
    }
}

/// The position that [`quantile_idx`] hands back: the fractional position, but for
/// `Equiprobable`, which has none and gives zero.
pub open spec fn reported_position(
    quantile: Rational,
    length: int,
    null_count: int,
    method: QuantileMethod,
) -> Rational {
    match method {
        QuantileMethod::Equiprobable => Rational { numer: 0, denom: quantile.denom },
        _ => fractional_position(quantile, length, null_count),
    }
}

/// The rank `max(0, ceil(m * q) - 1)` that `Equiprobable` picks among `m` values.
pub open spec fn equiprobable_rank(quantile: Rational, count: int) -> int {
    let rank = ceil_div(count * quantile.numer, quantile.denom) - 1;
    if rank < 0 {
        0
    } else {
        rank
    }
}

/// The position of the lower order statistic.
pub open spec fn base_index(
    quantile: Rational,
    length: int,
    null_count: int,
    method: QuantileMethod,
) -> int {
    let at = fractional_position(quantile, length, null_count);
    match method {
        QuantileMethod::Nearest => round_div(at.numer, at.denom),
        QuantileMethod::Lower | QuantileMethod::Midpoint | QuantileMethod::Linear => clamped(
            floor_div(at.numer, at.denom),
            0,
            length - 1,
        ),
        QuantileMethod::Higher => clamped(ceil_div(at.numer, at.denom), 0, length - 1),
        QuantileMethod::Equiprobable => equiprobable_rank(quantile, length - null_count)
            + null_count,
    }
}

/// The position of the upper order statistic.
pub open spec fn top_index(
    quantile: Rational,
    length: int,
    null_count: int,
    method: QuantileMethod,
) -> int {
    let at = fractional_position(quantile, length, null_count);
    match method {
        QuantileMethod::Nearest => round_div(at.numer, at.denom),
        QuantileMethod::Equiprobable => equiprobable_rank(quantile, length - null_count)
            + null_count,
        _ => ceil_div(at.numer, at.denom),
    }
}

/// A dividend is its quotient times the divisor, and what remains.
proof fn lemma_quotient_remainder(x: int, d: int)
    requires
        d > 0,
    ensures
        x == (x / d) * d + x % d,
        0 <= x % d < d,
{
    lemma_fundamental_div_mod(x, d);
    assert(d * (x / d) == (x / d) * d) by (nonlinear_arith);
}

/// With `p == w * den + rem`, the three roundings of `(p + z * den) / den`.
proof fn lemma_roundings(p: int, den: int, z: int, w: int, rem: int)
    requires
        den > 0,
        0 <= rem < den,
        p == w * den + rem,
    ensures
        floor_div(p + z * den, den) == z + w,
        ceil_div(p + z * den, den) == z + w + if rem > 0 { 1int } else { 0int },
        round_div(p + z * den, den) == z + w + if 2 * rem >= den { 1int } else { 0int },
{
    let x = p + z * den;
    assert(x == (z + w) * den + rem) by (nonlinear_arith)
        requires
            x == p + z * den,
            p == w * den + rem,
    ;
    lemma_fundamental_div_mod_converse(x, den, z + w, rem);
    if rem > 0 {
        assert(x + den - 1 == (z + w + 1) * den + (rem - 1)) by (nonlinear_arith)
            requires
                x == (z + w) * den + rem,
        ;
        lemma_fundamental_div_mod_converse(x + den - 1, den, z + w + 1, rem - 1);
    } else {
        lemma_fundamental_div_mod_converse(x + den - 1, den, z + w, den - 1);
    }
    if 2 * rem >= den {
        assert(2 * x + den == (z + w + 1) * (2 * den) + (2 * rem - den)) by (nonlinear_arith)
            requires
                x == (z + w) * den + rem,
        ;
        lemma_fundamental_div_mod_converse(2 * x + den, 2 * den, z + w + 1, 2 * rem - den);
    } else {
        assert(2 * x + den == (z + w) * (2 * den) + (2 * rem + den)) by (nonlinear_arith)
            requires
                x == (z + w) * den + rem,
        ;
        lemma_fundamental_div_mod_converse(2 * x + den, 2 * den, z + w, 2 * rem + den);
    }
}

/// A product `steps * numer` with `numer <= den`, split as `w * den + rem`, has `w <= steps`,
/// and `w < steps` where anything remains.
proof fn lemma_quotient_bound(steps: int, numer: int, den: int, w: int, rem: int)
    by (nonlinear_arith)
    requires
        0 <= steps,
        0 <= numer <= den,
        0 < den,
        0 <= rem < den,
        steps * numer == w * den + rem,
    ensures
        0 <= steps * numer <= steps * den,
        0 <= w <= steps,
        rem > 0 ==> w < steps,
{
    assert(steps * numer <= steps * den);
    assert(w * den <= steps * den);
    if w > steps {
        assert(w * den >= (steps + 1) * den);
    }
    if w < 0 {
        assert(w * den <= -den);
    }
    if rem > 0 && w == steps {
        assert(false);
    }
}

proof fn lemma_product_fits(steps: int, numer: int, den: int)
    by (nonlinear_arith)
    requires
        0 <= steps <= u64::MAX,
        0 <= numer <= den <= i64::MAX,
    ensures
        0 <= steps * numer <= steps * den <= i128::MAX,
{
    assert(steps * numer <= steps * den);
    assert(steps * den <= 0xffff_ffff_ffff_ffff * 0x7fff_ffff_ffff_ffff);
}

/// Both positions hold a value: they lie from the null count on and within the sequence.
/// `top` is `base` or the position after it, and they differ only under `Lower`,
/// `Midpoint` and `Linear`, where the fractional position lies strictly between them.
pub proof fn lemma_index_bounds(
    quantile: Rational,
    length: int,
    null_count: int,
    method: QuantileMethod,
)
    requires
        quantile.is_fraction(),
        0 <= null_count < length,
    ensures
        ({
            let base = base_index(quantile, length, null_count, method);
            let top = top_index(quantile, length, null_count, method);
            let position = reported_position(quantile, length, null_count, method);
            &&& null_count <= base <= top < length
            &&& top <= base + 1
            &&& base != top ==> spans(base, position) && position.numer != base * position.denom
            &&& base != top ==> method == QuantileMethod::Lower || method
                == QuantileMethod::Midpoint || method == QuantileMethod::Linear
        }),
{
    let den = quantile.denom;
    match method {
        QuantileMethod::Equiprobable => {
            let count = length - null_count;
            let scaled = count * quantile.numer;
            lemma_quotient_remainder(scaled, den);
            lemma_quotient_bound(count, quantile.numer, den, scaled / den, scaled % den);
            lemma_roundings(scaled, den, 0, scaled / den, scaled % den);
        },
        _ => {
            let steps = length - null_count - 1;
            let scaled = steps * quantile.numer;
            let w = scaled / den;
            let rem = scaled % den;
            lemma_quotient_remainder(scaled, den);
            lemma_quotient_bound(steps, quantile.numer, den, w, rem);
            lemma_roundings(scaled, den, null_count, w, rem);
            let floor = w + null_count;
            assert(floor * den + rem == scaled + null_count * den) by (nonlinear_arith)
                requires
                    floor == w + null_count,
                    scaled == w * den + rem,
            ;
            assert((floor + 1) * den == floor * den + den) by (nonlinear_arith);
        },
    }
}

/// The quantile 0 asks for the first value and the quantile 1 for the last one, under
/// every method.
pub proof fn lemma_index_at_ends(
    quantile: Rational,
    length: int,
    null_count: int,
    method: QuantileMethod,
)
    requires
        quantile.is_fraction(),
        0 <= null_count < length,
        quantile.numer == 0 || quantile.numer == quantile.denom,
    ensures
        ({
            let base = base_index(quantile, length, null_count, method);
            let top = top_index(quantile, length, null_count, method);
            &&& base == top
            &&& quantile.numer == 0 ==> base == null_count
            &&& quantile.numer == quantile.denom ==> base == length - 1
        }),
{
    let den = quantile.denom;
    let count = length - null_count;
    if quantile.numer == 0 {
        assert(count * quantile.numer == 0) by (nonlinear_arith)
            requires
                quantile.numer == 0,
        ;
        assert((count - 1) * quantile.numer == 0) by (nonlinear_arith)
            requires
                quantile.numer == 0,
        ;
        lemma_roundings(0, den, 0, 0, 0);
        lemma_roundings(0, den, null_count, 0, 0);
    } else {
        assert(count * quantile.numer == count * den + 0) by (nonlinear_arith)
            requires
                quantile.numer == den,
        ;
        assert((count - 1) * quantile.numer == (count - 1) * den + 0) by (nonlinear_arith)
            requires
                quantile.numer == den,
        ;
        lemma_roundings(count * quantile.numer, den, 0, count, 0);
        lemma_roundings((count - 1) * quantile.numer, den, null_count, count - 1, 0);
    }
}

/// The positions `(base, position, top)` of the order statistics that the quantile
/// `quantile` asks for under `method`, in a sequence of `length` slots of which the first
/// `null_count` (in ascending order, nulls first) are null.
///
/// Both positions hold a value, `top` is `base` or the slot after it, and where they differ
/// the reported position lies between them.
pub fn quantile_idx(
    quantile: Ratio,
    length: usize,
    null_count: usize,
    method: QuantileMethod,
) -> (r: (usize, Ratio, usize))
    requires
        quantile.is_fraction(),
        null_count < length,
    ensures
        r.0 == base_index(quantile@, length as int, null_count as int, method),
        r.1@ == reported_position(quantile@, length as int, null_count as int, method),
        r.2 == top_index(quantile@, length as int, null_count as int, method),
        null_count <= r.0 <= r.2 < length,
        r.2 <= r.0 + 1,
        r.0 != r.2 ==> spans(r.0 as int, r.1@) && r.1@.numer != r.0 * r.1@.denom,
        r.0 != r.2 ==> method == QuantileMethod::Lower || method == QuantileMethod::Midpoint
            || method == QuantileMethod::Linear,
{
    let count: usize = length - null_count;
    let numer: u128 = quantile.numer as u128;
    let den: u128 = quantile.denom as u128;
    match method {
        QuantileMethod::Equiprobable => {
            proof {
                lemma_product_fits(count as int, numer as int, den as int);
            }
            let scaled: u128 = (count as u128) * numer;
            let w: u128 = scaled / den;
            let rem: u128 = scaled % den;
            proof {
                lemma_quotient_remainder(scaled as int, den as int);
                lemma_quotient_bound(count as int, numer as int, den as int, w as int, rem as int);
                lemma_roundings(scaled as int, den as int, 0, w as int, rem as int);
            }
            let ceil: u128 = if rem > 0 {
                w + 1
            } else {
                w
            };
            let rank: u128 = if ceil == 0 {
                0
            } else {
                ceil - 1
            };
            let idx: usize = rank as usize + null_count;
            (idx, Ratio { numer: 0, denom: quantile.denom }, idx)
        },
        _ => {
            proof {
                lemma_product_fits((count - 1) as int, numer as int, den as int);
                lemma_product_fits(null_count as int, den as int, den as int);
                assert((count - 1) * den + null_count * den == (length - 1) * den)
                    by (nonlinear_arith)
                    requires
                        count == length - null_count,
                ;
                lemma_product_fits((length - 1) as int, den as int, den as int);
            }
            let scaled: u128 = ((count - 1) as u128) * numer;
            let w: u128 = scaled / den;
            let rem: u128 = scaled % den;
            proof {
                lemma_quotient_remainder(scaled as int, den as int);
                lemma_quotient_bound(
                    (count - 1) as int,
                    numer as int,
                    den as int,
                    w as int,
                    rem as int,
                );
                lemma_roundings(scaled as int, den as int, null_count as int, w as int, rem as int);
            }
            let floor: usize = w as usize + null_count;
            let ceil: usize = if rem > 0 {
                floor + 1
            } else {
                floor
            };
            let position = Ratio {
                numer: (scaled + (null_count as u128) * den) as i128,
                denom: quantile.denom,
            };
            proof {
                assert(floor * den + rem == scaled + null_count * den) by (nonlinear_arith)
                    requires
                        floor == w + null_count,
                        scaled == w * den + rem,
                ;
                assert((floor + 1) * den == floor * den + den) by (nonlinear_arith);
            }
            match method {
                QuantileMethod::Nearest => {
                    let idx: usize = if 2 * rem >= den {
                        floor + 1
                    } else {
                        floor
                    };
                    (idx, position, idx)
                },
                QuantileMethod::Higher => (ceil, position, ceil),
                _ => (floor, position, ceil),
            }
        },
    }
}

} // verus!
