//! The quantile and the median of a chunked array.

use crate::chunked::ChunkedArray;
use crate::generic::{generic_quantile, sequence_quantile};
use crate::laws::lemma_paths_agree;
use crate::ratio::{value_of, QuantileError, Ratio, Rational};
use crate::slice::quantile_slice;
use polars_compute::rolling::QuantileMethod;
use vstd::prelude::*;
use vstd::slice::slice_to_vec;

verus! {

/// One half, the fraction of the median.
pub open spec fn half() -> Rational {
    Rational { numer: 1, denom: 2 }
}

impl ChunkedArray {
    /// The quantile `quantile` of the values of the array under `method`; nothing where the
    /// array holds no value. A fraction outside `[0, 1]` is refused.
    ///
    /// Where the values lie in one buffer without nulls and the array is not flagged as
    /// sorted, the quantile is selected in a copy of the buffer; else it is read off a
    /// sorted copy of a clone of the array. The result is the same.
    pub fn quantile(&self, quantile: Ratio, method: QuantileMethod) -> (res: Result<
        Option<Ratio>,
        QuantileError,
    >)
        ensures
            !quantile.is_fraction() ==> res == Err::<Option<Ratio>, QuantileError>(
                QuantileError::InvalidQuantile,
            ),
            quantile.is_fraction() ==> res is Ok && value_of(res->Ok_0) == sequence_quantile(
                self@,
                quantile@,
                method,
            ),
    {
        // A sorted copy costs nothing where the data is sorted already.
        match self.cont_slice() {
            Some(slice) => {
                if !self.is_sorted_ascending_flag() {
                    let mut owned: Vec<i64> = slice_to_vec(slice);
                    proof {
                        if quantile.is_fraction() {
                            lemma_paths_agree(slice@, quantile@, method);
                        }
                    }
                    quantile_slice(owned.as_mut_slice(), quantile, method)
                } else {
                    generic_quantile(self.clone(), quantile, method)
                }
            },
            None => generic_quantile(self.clone(), quantile, method),
        }
    }

    /// The median: the quantile one half under `Linear`.
    pub fn median(&self) -> (r: Option<Ratio>)
        ensures
            value_of(r) == sequence_quantile(self@, half(), QuantileMethod::Linear),
    {
        let res = self.quantile(Ratio { numer: 1, denom: 2 }, QuantileMethod::Linear);
        res.unwrap()
    }

    /// [`ChunkedArray::quantile`] for an array that is given away: where the quantile can be
    /// selected, it is selected in the array's own buffer, without a copy.
    pub fn quantile_faster(self, quantile: Ratio, method: QuantileMethod) -> (res: Result<
        Option<Ratio>,
        QuantileError,
    >)
        ensures
            !quantile.is_fraction() ==> res == Err::<Option<Ratio>, QuantileError>(
                QuantileError::InvalidQuantile,
            ),
            quantile.is_fraction() ==> res is Ok && value_of(res->Ok_0) == sequence_quantile(
                self@,
                quantile@,
                method,
            ),
    {
        let is_sorted: bool = self.is_sorted_ascending_flag();
        if is_sorted {
            self.quantile(quantile, method)
        } else {
            match self.into_cont_values() {
                Ok(values) => {
                    let mut values = values;
                    proof {
                        if quantile.is_fraction() {
                            lemma_paths_agree(values@, quantile@, method);
                        }
                    }
                    quantile_slice(values.as_mut_slice(), quantile, method)
                },
                Err(ca) => ca.quantile(quantile, method),
            }
        }
    }

    /// [`ChunkedArray::median`] for an array that is given away.
    pub fn median_faster(self) -> (r: Option<Ratio>)
        ensures
            value_of(r) == sequence_quantile(self@, half(), QuantileMethod::Linear),
    {
        let res = self.quantile_faster(Ratio { numer: 1, denom: 2 }, QuantileMethod::Linear);
        res.unwrap()
    }
}

} // verus!
