//! Quantiles of any array, nulls included, by sorting a copy.

use crate::chunked::ChunkedArray;
use crate::index::{base_index, quantile_idx, reported_position, top_index};
use crate::interpol::{blended, linear_interpol, midpoint_interpol};
use crate::nullable::{lemma_non_null_len, lemma_nulls_first, null_count_of, nulls_first};
use crate::ratio::{value_of, QuantileError, Ratio, Rational};
use polars_compute::rolling::QuantileMethod;
use vstd::prelude::*;

verus! {

/// The quantile of the values among `slots`: nothing where every slot is null, else what
/// `method` makes of the slots of `nulls_first(slots)` at the positions that the index
/// selector gives for the length and the null count of `slots`.
pub open spec fn sequence_quantile(
    slots: Seq<Option<i64>>,
    quantile: Rational,
    method: QuantileMethod,
) -> Option<Rational> {
    let length = slots.len() as int;
    let nulls = null_count_of(slots) as int;
    if nulls == length {
        None
    } else {
        let base = base_index(quantile, length, nulls, method);
        let top = top_index(quantile, length, nulls, method);
        let position = reported_position(quantile, length, nulls, method);
        Some(
            blended(
                method,
                nulls_first(slots)[base].unwrap() as int,
                nulls_first(slots)[base + 1].unwrap() as int,
                base,
                top,
                position,
            ),
        )
    }
}

/// The slot's value as a ratio.
fn whole_of(slot: Option<i64>) -> (r: Option<Ratio>)
    ensures
        value_of(r) == match slot {
            Some(v) => Some(Rational::whole(v as int)),
            None => None,
        },
{
    match slot {
        Some(v) => Some(Ratio::from_int(v)),
        None => None,
    }
}

/// The quantile `quantile` of the values of `ca` under `method`, read off a sorted copy of
/// `ca`. A fraction outside `[0, 1]` is refused.
pub fn generic_quantile(ca: ChunkedArray, quantile: Ratio, method: QuantileMethod) -> (res:
    Result<Option<Ratio>, QuantileError>)
    ensures
        !quantile.is_fraction() ==> res == Err::<Option<Ratio>, QuantileError>(
            QuantileError::InvalidQuantile,
        ),
        quantile.is_fraction() ==> res is Ok && value_of(res->Ok_0) == sequence_quantile(
            ca@,
            quantile@,
            method,
        ),
{
    if !quantile.in_unit_interval() {
        return Err(QuantileError::InvalidQuantile);
    }
    let null_count: usize = ca.null_count();
    let length: usize = ca.len();
    if null_count == length {
        return Ok(None);
    }
    proof {
        lemma_non_null_len(ca@);
        lemma_nulls_first(ca@);
    }
    let (idx, float_idx, top_idx) = quantile_idx(quantile, length, null_count, method);
    let sorted = ca.sort_ascending();
    let lower: Option<i64> = sorted.get(idx);
    let opt: Option<Ratio> = match method {
        QuantileMethod::Midpoint => {
            if top_idx == idx {
                whole_of(lower)
            } else {
                let upper: Option<i64> = sorted.get(idx + 1);
                Some(midpoint_interpol(lower.unwrap(), upper.unwrap()))
            }
        },
        QuantileMethod::Linear => {
            if top_idx == idx {
                whole_of(lower)
            } else {
                let upper: Option<i64> = sorted.get(idx + 1);
                Some(linear_interpol(lower.unwrap(), upper.unwrap(), idx, float_idx))
            }
        },
        _ => whole_of(lower),
    };
    Ok(opt)
}

} // verus!
