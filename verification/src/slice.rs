//! Quantiles of a buffer without nulls, by partial selection in place.

use crate::index::{base_index, quantile_idx, reported_position, top_index};
use crate::interpol::{blended, linear_interpol, midpoint_interpol};
use crate::order::{
    lemma_ascending_unique, lemma_least_is_first, lemma_partitioned, lemma_sorted,
    partitioned_at, select_nth, sorted,
};
use crate::ratio::{value_of, QuantileError, Ratio, Rational};
use polars_compute::rolling::QuantileMethod;
use vstd::prelude::*;

verus! {

/// The quantile of the values `vals`: nothing for no values, the value itself for one, else
/// what `method` makes of the order statistics at the positions that the index selector
/// gives for `vals.len()` values without nulls.
pub open spec fn slice_quantile(
    vals: Seq<i64>,
    quantile: Rational,
    method: QuantileMethod,
) -> Option<Rational> {
    if vals.len() == 0 {
        None
    } else if vals.len() == 1 {
        Some(Rational::whole(vals[0] as int))
    } else {
        let base = base_index(quantile, vals.len() as int, 0, method);
        let top = top_index(quantile, vals.len() as int, 0, method);
        let position = reported_position(quantile, vals.len() as int, 0, method);
        Some(
            blended(
                method,
                sorted(vals)[base] as int,
                sorted(vals)[base + 1] as int,
                base,
                top,
                position,
            ),
        )
    }
}

/// The least of the values after position `idx`.
fn least_after(vals: &[i64], idx: usize) -> (least: i64)
    requires
        idx + 1 < vals.len(),
    ensures
        vals@.subrange(idx + 1, vals@.len() as int).contains(least),
        forall|i: int| idx < i < vals@.len() ==> least <= vals@[i],
{
    let mut least: i64 = vals[idx + 1];
    let mut at: usize = idx + 2;
    proof {
        assert(vals@.subrange(idx + 1, vals@.len() as int)[0] == least);
    }
    while at < vals.len()
        invariant
            idx + 2 <= at <= vals@.len(),
            vals@.subrange(idx + 1, vals@.len() as int).contains(least),
            forall|i: int| idx < i < at ==> least <= vals@[i],
        decreases vals@.len() - at,
    {
        if vals[at] < least {
            least = vals[at];
            proof {
                assert(vals@.subrange(idx + 1, vals@.len() as int)[at - idx - 1] == least);
            }
        }
        at = at + 1;
    }
    least
}

/// The quantile `quantile` of the values in `vals` under `method`, found by reordering
/// `vals` around the position asked for instead of sorting it.
///
/// A fraction outside `[0, 1]` is refused. Then, and with fewer than two values, `vals` is
/// left as it was. Otherwise `vals` holds the same values afterwards, reordered around the
/// lower of the two positions asked for: the order statistic of that position stands there,
/// nothing greater before it and nothing less after it.
pub fn quantile_slice(vals: &mut [i64], quantile: Ratio, method: QuantileMethod) -> (res:
    Result<Option<Ratio>, QuantileError>)
    ensures
        final(vals)@.to_multiset() == old(vals)@.to_multiset(),
        !quantile.is_fraction() ==> res == Err::<Option<Ratio>, QuantileError>(
            QuantileError::InvalidQuantile,
        ),
        quantile.is_fraction() ==> res is Ok && value_of(res->Ok_0) == slice_quantile(
            old(vals)@,
            quantile@,
            method,
        ),
        !quantile.is_fraction() || old(vals)@.len() < 2 ==> final(vals)@ == old(vals)@,
        quantile.is_fraction() && old(vals)@.len() >= 2 ==> ({
            let base = base_index(quantile@, old(vals)@.len() as int, 0, method);
            &&& partitioned_at(final(vals)@, base)
            &&& final(vals)@[base] == sorted(old(vals)@)[base]
        }),
{
    if !quantile.in_unit_interval() {
        return Err(QuantileError::InvalidQuantile);
    }
    if vals.len() == 0 {
        return Ok(None);
    }
    if vals.len() == 1 {
        return Ok(Some(Ratio::from_int(vals[0])));
    }
    let (idx, float_idx, top_idx) = quantile_idx(quantile, vals.len(), 0, method);
    select_nth(vals, idx);
    let lower: i64 = vals[idx];
    proof {
        lemma_sorted(vals@);
        lemma_ascending_unique(sorted(vals@), old(vals)@);
        lemma_partitioned(vals@, idx as int);
    }
    if idx == top_idx {
        Ok(Some(Ratio::from_int(lower)))
    } else {
        match method {
            QuantileMethod::Midpoint => {
                let upper: i64 = least_after(vals, idx);
                proof {
                    lemma_least_is_first(vals@.subrange(idx + 1, vals@.len() as int), upper);
                }
                Ok(Some(midpoint_interpol(lower, upper)))
            },
            QuantileMethod::Linear => {
                let upper: i64 = least_after(vals, idx);
                proof {
                    lemma_least_is_first(vals@.subrange(idx + 1, vals@.len() as int), upper);
                }
                Ok(Some(linear_interpol(lower, upper, idx, float_idx)))
            },
            _ => Ok(Some(Ratio::from_int(lower))),
        }
    }
}

} // verus!
