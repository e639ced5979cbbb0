//! The interpolation methods.

use vstd::prelude::*;

verus! {

/// The six interpolation methods are those of `polars_compute::rolling::QuantileMethod`,
/// a plain enum without fields, which is read here with all its variants:
/// `Nearest`, `Lower`, `Higher`, `Midpoint`, `Linear` and `Equiprobable`.
#[verifier::external_type_specification]
pub struct ExQuantileMethod(polars_compute::rolling::QuantileMethod);

} // verus!
