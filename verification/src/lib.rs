//! Univariate linear regression by batch gradient descent.
//!
//! The library fits `price = theta0 + theta1 * mileage` to a small dataset:
//! it normalizes each feature to zero mean and unit variance, runs a fixed
//! number of gradient-descent passes in normalized space, de-normalizes the
//! learned parameters, and predicts prices with them.
//!
//! All quantities are fixed-point numbers: an `i64` counting micro-units
//! (one unit is [`fixed::SCALE`] == 1_000_000 micro-units). Every arithmetic
//! step, including the truncating divisions, is specified exactly over the
//! mathematical integers, so each public function's contract pins down the
//! precise value it returns.

use vstd::prelude::*;

pub mod fixed;
pub mod model;
pub mod stats;
pub mod train;

pub use model::estimate_price;
pub use model::LinearModel;
pub use stats::normalize;
pub use train::denormalize;
pub use train::gradient_descent;
pub use train::train;
pub use train::DEFAULT_ITERATIONS;
pub use train::DEFAULT_LEARNING_RATE;

verus! {

/// The conditions the numeric core can signal to its caller.
#[derive(Clone, Copy, Debug, PartialEq, Eq, Structural)]
pub enum Error {
    /// The dataset holds no samples, so there is nothing to fit.
    EmptyDataset,
    /// A feature has zero variance, so it cannot be normalized.
    DegenerateFeature,
    /// An intermediate value left the representable fixed-point range.
    Overflow,
}

} // verus!
