//! Exact quantiles of sequences of nullable integers.
//!
//! A quantile is asked for by a fraction in `[0, 1]` and one of the six
//! methods of `polars_compute::rolling::QuantileMethod`. The fraction, every
//! position computed from it and every result is an exact rational number,
//! a [`Ratio`]: nothing is rounded. Values are `i64` keys, compared by the
//! integer order.
//!
//! - [`index`] turns a fraction, a length and a null count into the positions
//!   of the order statistics that a method asks for.
//! - [`interpol`] blends two neighbouring order statistics.
//! - [`slice`] finds a quantile of a buffer without nulls by reordering it
//!   around the position asked for.
//! - [`generic`] finds a quantile of any array by sorting a copy, nulls first.
//! - [`dispatch`] chooses between the two for a [`ChunkedArray`].
//! - [`laws`] proves what holds of every quantile.
//! - [`order`], [`nullable`] and [`ratio`] hold the mathematics that the
//!   contracts are stated in, and [`chunked`] the array itself.

pub mod chunked;
pub mod dispatch;
pub mod generic;
pub mod index;
pub mod interpol;
pub mod laws;
pub mod method;
pub mod nullable;
pub mod order;
pub mod ratio;
pub mod slice;

pub use chunked::ChunkedArray;
pub use generic::generic_quantile;
pub use index::quantile_idx;
pub use interpol::{linear_interpol, midpoint_interpol};
pub use ratio::{QuantileError, Ratio, Rational};
pub use slice::quantile_slice;
