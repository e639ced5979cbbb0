//! What holds of the quantile of every sequence.

use crate::generic::sequence_quantile;
use crate::index::{
    base_index, lemma_index_at_ends, lemma_index_bounds, reported_position, top_index,
};
use crate::interpol::{linear, midpoint};
use crate::nullable::{
    absent, lemma_non_null_absent, lemma_non_null_len, lemma_non_null_present, lemma_nulls_first,
    non_null, null_count_of, nulls_first, present,
};
use crate::order::{ascending, lemma_ascending_unique, lemma_sorted, sorted};
use crate::ratio::Rational;
use crate::slice::slice_quantile;
use polars_compute::rolling::QuantileMethod;
use vstd::prelude::*;

verus! {

/// Selecting in place and reading off a sorted copy give the same quantile: for values
/// without nulls, under every method, [`slice_quantile`] is [`sequence_quantile`] of the
/// slots that hold them.
pub proof fn lemma_paths_agree(vals: Seq<i64>, quantile: Rational, method: QuantileMethod)
    requires
        quantile.is_fraction(),
    ensures
        slice_quantile(vals, quantile, method) == sequence_quantile(
            present(vals),
            quantile,
            method,
        ),
{
    let slots = present(vals);
    lemma_non_null_present(vals);
    lemma_nulls_first(slots);
    if vals.len() > 0 {
        lemma_index_bounds(quantile, vals.len() as int, 0, method);
        let base = base_index(quantile, vals.len() as int, 0, method);
        let top = top_index(quantile, vals.len() as int, 0, method);
        assert(nulls_first(slots)[base] == Some(sorted(vals)[base]));
        if base != top {
            assert(nulls_first(slots)[base + 1] == Some(sorted(vals)[base + 1]));
        }
        if vals.len() == 1 {
            lemma_ascending_unique(vals, vals);
        }
    }
}

/// Of values in ascending order, none of them null, the quantile 0 is the first, the
/// least, and the quantile 1 is the last, the greatest, under every method.
pub proof fn lemma_ends(vals: Seq<i64>, quantile: Rational, method: QuantileMethod)
    requires
        ascending(vals),
        vals.len() > 0,
        quantile.is_fraction(),
    ensures
        quantile.numer == 0 ==> sequence_quantile(present(vals), quantile, method) == Some(
            Rational::whole(vals.first() as int),
        ),
        quantile.numer == quantile.denom ==> sequence_quantile(present(vals), quantile, method)
            == Some(Rational::whole(vals.last() as int)),
        slice_quantile(vals, quantile, method) == sequence_quantile(
            present(vals),
            quantile,
            method,
        ),
{
    lemma_paths_agree(vals, quantile, method);
    lemma_non_null_present(vals);
    lemma_nulls_first(present(vals));
    lemma_ascending_unique(vals, vals);
    if quantile.numer == 0 || quantile.numer == quantile.denom {
        lemma_index_at_ends(quantile, vals.len() as int, 0, method);
    }
}

/// The quantile of a single value is that value, for every fraction in `[0, 1]` and under
/// every method.
pub proof fn lemma_single(v: i64, quantile: Rational, method: QuantileMethod)
    requires
        quantile.is_fraction(),
    ensures
        sequence_quantile(present(seq![v]), quantile, method) == Some(Rational::whole(v as int)),
        slice_quantile(seq![v], quantile, method) == Some(Rational::whole(v as int)),
{
    lemma_paths_agree(seq![v], quantile, method);
}

/// A sequence of nulls alone, the empty one too, has no quantile, under every method.
pub proof fn lemma_all_null(slots: Seq<Option<i64>>, quantile: Rational, method: QuantileMethod)
    requires
        forall|i: int| 0 <= i < slots.len() ==> slots[i] is None,
    ensures
        sequence_quantile(slots, quantile, method) is None,
{
    assert(slots =~= absent(slots.len()));
    lemma_non_null_absent(slots.len());
}

proof fn lemma_weighted_between(lower: int, upper: int, den: int, part: int)
    by (nonlinear_arith)
    requires
        lower <= upper,
        0 <= part <= den,
    ensures
        lower * den <= lower * den + part * (upper - lower) <= upper * den,
{
    assert(0 <= part * (upper - lower) <= den * (upper - lower));
    assert(den * (upper - lower) == upper * den - lower * den);
}

/// Where `Linear` or `Midpoint` blends two neighbouring order statistics (the two
/// positions differ), the quantile lies between the two, both included, and under
/// `Midpoint` it is their arithmetic mean.
pub proof fn lemma_blend_between(
    slots: Seq<Option<i64>>,
    quantile: Rational,
    method: QuantileMethod,
)
    requires
        quantile.is_fraction(),
        null_count_of(slots) < slots.len(),
        method == QuantileMethod::Linear || method == QuantileMethod::Midpoint,
        base_index(quantile, slots.len() as int, null_count_of(slots) as int, method)
            != top_index(quantile, slots.len() as int, null_count_of(slots) as int, method),
    ensures
        ({
            let base = base_index(
                quantile,
                slots.len() as int,
                null_count_of(slots) as int,
                method,
            );
            let lower = nulls_first(slots)[base].unwrap() as int;
            let upper = nulls_first(slots)[base + 1].unwrap() as int;
            let result = sequence_quantile(slots, quantile, method).unwrap();
            &&& sequence_quantile(slots, quantile, method) is Some
            &&& lower <= upper
            &&& result.denom > 0
            &&& result.at_least(lower)
            &&& result.at_most(upper)
            &&& method == QuantileMethod::Midpoint ==> result.same_value(
                Rational { numer: lower + upper, denom: 2 },
            )
        }),
{
    let length = slots.len() as int;
    let nulls = null_count_of(slots) as int;
    lemma_non_null_len(slots);
    lemma_nulls_first(slots);
    lemma_sorted(non_null(slots));
    lemma_index_bounds(quantile, length, nulls, method);
    let base = base_index(quantile, length, nulls, method);
    let position = reported_position(quantile, length, nulls, method);
    let lower = nulls_first(slots)[base].unwrap() as int;
    let upper = nulls_first(slots)[base + 1].unwrap() as int;
    assert(lower == sorted(non_null(slots))[base - nulls]);
    assert(upper == sorted(non_null(slots))[base + 1 - nulls]);
    assert(lower <= upper);
    if method == QuantileMethod::Linear {
        assert((base + 1) * position.denom == base * position.denom + position.denom)
            by (nonlinear_arith);
        lemma_weighted_between(
            lower,
            upper,
            position.denom,
            position.numer - base * position.denom,
        );
        let blend = linear(lower, upper, base, position);
        if lower != upper {
            assert(blend.numer <= upper * position.denom);
        }
        assert(blend.at_least(lower));
        assert(blend.at_most(upper));
    } else {
        assert(midpoint(lower, upper).at_least(lower));
        assert(midpoint(lower, upper).at_most(upper));
    }
}

} // verus!
