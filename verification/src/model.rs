//! The fitted linear model and its prediction function.

use vstd::prelude::*;

use crate::fixed::div_tz;
use crate::fixed::div_tz_i128;
use crate::fixed::fx_ok;
use crate::fixed::lemma_div_tz_quot_bound;
use crate::fixed::mag;
use crate::fixed::FX_MAX;
use crate::fixed::SCALE;

verus! {

/// The prediction formula on fixed-point quantities: `t0 + t1 * x`, the
/// product of two micro-unit values being rescaled by `SCALE`.
pub open spec fn spec_estimate(t0: int, t1: int, x: int) -> int {
    t0 + div_tz(t1 * x, SCALE as int)
}

/// A univariate linear model: intercept `theta0` and slope `theta1`,
/// both in micro-units.
#[derive(Clone, Copy, Debug, PartialEq, Eq, Structural)]
pub struct LinearModel {
    pub theta0: i64,
    pub theta1: i64,
}

impl LinearModel {
    /// Both parameters lie in the fixed-point range.
    pub open spec fn wf(self) -> bool {
        fx_ok(self.theta0 as int) && fx_ok(self.theta1 as int)
    }

    /// A fresh model has zero intercept and slope, so it predicts 0
    /// for every mileage.
    pub fn new() -> (m: LinearModel)
        ensures
            m.theta0 == 0,
            m.theta1 == 0,
            m.wf(),
    {
        LinearModel { theta0: 0, theta1: 0 }
    }

    /// The estimated price for `mileage` under this model.
    pub fn predict(&self, mileage: i64) -> (p: i64)
        requires
            self.wf(),
            fx_ok(mileage as int),
        ensures
            p as int == spec_estimate(self.theta0 as int, self.theta1 as int, mileage as int),
    {
        estimate_price(mileage, self.theta0, self.theta1)
    }
}

/// The estimated price `theta0 + theta1 * mileage` in micro-units.
pub fn estimate_price(mileage: i64, theta0: i64, theta1: i64) -> (p: i64)
    requires
        fx_ok(mileage as int),
        fx_ok(theta0 as int),
        fx_ok(theta1 as int),
    ensures
        p as int == spec_estimate(theta0 as int, theta1 as int, mileage as int),
{
    proof {
        assert(-((FX_MAX as int) * (FX_MAX as int)) <= (theta1 as int) * (mileage as int) <= (
        FX_MAX as int) * (FX_MAX as int)) by (nonlinear_arith)
            requires
                -(FX_MAX as int) <= theta1 as int <= FX_MAX as int,
                -(FX_MAX as int) <= mileage as int <= FX_MAX as int;
    }
    let prod: i128 = theta1 as i128 * mileage as i128;
    let q: i128 = div_tz_i128(prod, SCALE as i128);
    proof {
        lemma_div_tz_quot_bound(prod as int, SCALE as int, 5_000_000_000_000_000_000int);
        assert(mag(q as int) < 5_000_000_000_000_000_000int);
    }
    let r: i128 = theta0 as i128 + q;
    r as i64
}

} // verus!
