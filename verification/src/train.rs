//! Batch gradient descent and de-normalization of the learned parameters.
//!
//! The trainer runs a caller-chosen number of full passes over normalized
//! `(mileage, price)` pairs. Each pass accumulates the prediction errors
//! and their products with the inputs over all samples, then updates both
//! parameters simultaneously by `alpha / m` times the accumulated
//! gradient. There is no convergence check: the pass count alone ends the
//! loop. Afterwards the parameters are mapped back to the original unit
//! scale. Every step is pinned down by the spec functions [`step`],
//! [`descend`] and [`denorm`]; an intermediate that leaves the fixed-point
//! range surfaces as [`Error::Overflow`].

use vstd::prelude::*;

use crate::fixed::div_tz;
use crate::fixed::div_tz_i128;
use crate::fixed::fx_ok;
use crate::fixed::lemma_div_tz_quot_bound;
use crate::fixed::mag;
use crate::fixed::to_fx;
use crate::fixed::FX_MAX;
use crate::fixed::MAX_SAMPLES;
use crate::fixed::SCALE;
use crate::model::spec_estimate;
use crate::model::LinearModel;
use crate::stats::fx_seq_ok;
use crate::stats::ints;
use crate::stats::lemma_mean_in_range;
use crate::stats::norm_result;
use crate::stats::normalize;
use crate::Error;

verus! {

/// Default learning rate: 0.01 in micro-units.
pub const DEFAULT_LEARNING_RATE: i64 = 10_000;

/// Default number of gradient-descent passes.
pub const DEFAULT_ITERATIONS: u64 = 1000;

/// Prediction error of the current parameters on one sample.
pub open spec fn err_term(t0: int, t1: int, x: int, y: int) -> int {
    spec_estimate(t0, t1, x) - y
}

/// Sum of the prediction errors over the first `n` samples.
pub open spec fn sum_err(t0: int, t1: int, xs: Seq<int>, ys: Seq<int>, n: int) -> int
    decreases n,
{
    if n <= 0 {
        0
    } else {
        sum_err(t0, t1, xs, ys, n - 1) + err_term(t0, t1, xs[n - 1], ys[n - 1])
    }
}

/// Sum of error-times-input over the first `n` samples, each product
/// rescaled by `SCALE` as a fixed-point multiplication.
pub open spec fn sum_err_x(t0: int, t1: int, xs: Seq<int>, ys: Seq<int>, n: int) -> int
    decreases n,
{
    if n <= 0 {
        0
    } else {
        sum_err_x(t0, t1, xs, ys, n - 1) + div_tz(
            err_term(t0, t1, xs[n - 1], ys[n - 1]) * xs[n - 1],
            SCALE as int,
        )
    }
}

/// Every sample's prediction error stays in the fixed-point range.
pub open spec fn errs_ok(t0: int, t1: int, xs: Seq<int>, ys: Seq<int>) -> bool {
    forall|i: int| 0 <= i < xs.len() ==> fx_ok(#[trigger] err_term(t0, t1, xs[i], ys[i]))
}

/// One full pass of batch gradient descent: both parameters move by
/// `alpha` times the mean gradient, simultaneously. `None` marks a pass
/// in which some intermediate left the fixed-point range.
pub open spec fn step(t0: int, t1: int, xs: Seq<int>, ys: Seq<int>, alpha: int) -> Option<
    (int, int),
> {
    let m = xs.len() as int;
    if !errs_ok(t0, t1, xs, ys) {
        None
    } else {
        let g0 = div_tz(sum_err(t0, t1, xs, ys, m), m);
        let g1 = div_tz(sum_err_x(t0, t1, xs, ys, m), m);
        if !fx_ok(g0) || !fx_ok(g1) {
            None
        } else {
            let nt0 = t0 - div_tz(alpha * g0, SCALE as int);
            let nt1 = t1 - div_tz(alpha * g1, SCALE as int);
            if fx_ok(nt0) && fx_ok(nt1) {
                Some((nt0, nt1))
            } else {
                None
            }
        }
    }
}

/// `n` passes of gradient descent starting from `(t0, t1)`.
pub open spec fn descend(
    n: nat,
    t0: int,
    t1: int,
    xs: Seq<int>,
    ys: Seq<int>,
    alpha: int,
) -> Option<(int, int)>
    decreases n,
{
    if n == 0 {
        Some((t0, t1))
    } else {
        match descend((n - 1) as nat, t0, t1, xs, ys, alpha) {
            None => None,
            Some(p) => step(p.0, p.1, xs, ys, alpha),
        }
    }
}

/// Once a pass fails, every longer run fails as well.
pub proof fn lemma_descend_none(
    n: nat,
    k: nat,
    t0: int,
    t1: int,
    xs: Seq<int>,
    ys: Seq<int>,
    alpha: int,
)
    requires
        k < n,
        descend(k, t0, t1, xs, ys, alpha) matches Some(p) && step(p.0, p.1, xs, ys, alpha)
            is None,
    ensures
        descend(n, t0, t1, xs, ys, alpha) is None,
    decreases n,
{
    if n == k + 1 {
    } else {
        lemma_descend_none((n - 1) as nat, k, t0, t1, xs, ys, alpha);
    }
}

/// The de-normalized parameters: the slope is rescaled by the ratio of
/// the two standard deviations, and the intercept is moved back through
/// both means; `None` when an intermediate leaves the fixed-point range.
pub open spec fn denorm(
    t0: int,
    t1: int,
    m_mean: int,
    m_std: int,
    p_mean: int,
    p_std: int,
) -> Option<(int, int)> {
    let q = div_tz(p_std * (SCALE as int), m_std);
    if !fx_ok(q) {
        None
    } else {
        let t1d = div_tz(t1 * q, SCALE as int);
        if !fx_ok(t1d) {
            None
        } else {
            let t0d = div_tz(t0 * p_std, SCALE as int) + p_mean - div_tz(
                t1d * m_mean,
                SCALE as int,
            );
            if fx_ok(t0d) {
                Some((t0d, t1d))
            } else {
                None
            }
        }
    }
}

/// Runs `iterations` passes of batch gradient descent from `(0, 0)` over
/// normalized samples, exactly as [`descend`] describes.
pub fn gradient_descent(
    xs: &Vec<i64>,
    ys: &Vec<i64>,
    learning_rate: i64,
    iterations: u64,
) -> (r: Result<(i64, i64), Error>)
    requires
        xs@.len() == ys@.len(),
        xs@.len() <= MAX_SAMPLES as int,
        fx_seq_ok(ints(xs@)),
        fx_seq_ok(ints(ys@)),
        fx_ok(learning_rate as int),
    ensures
        xs@.len() == 0 ==> r == Err::<(i64, i64), Error>(Error::EmptyDataset),
        xs@.len() > 0 ==> (descend(
            iterations as nat,
            0,
            0,
            ints(xs@),
            ints(ys@),
            learning_rate as int,
        ) matches Some(t) ==> r matches Ok(p) && p.0 as int == t.0 && p.1 as int == t.1
            && fx_ok(t.0) && fx_ok(t.1)),
        xs@.len() > 0 && descend(
            iterations as nat,
            0,
            0,
            ints(xs@),
            ints(ys@),
            learning_rate as int,
        ) is None ==> r == Err::<(i64, i64), Error>(Error::Overflow),
{
    let ghost sx: Seq<int> = ints(xs@);
    let ghost sy: Seq<int> = ints(ys@);
    proof {
        assert(sx.len() == xs@.len());
        assert(sy.len() == ys@.len());
        assert(forall|j: int| 0 <= j < sx.len() ==> #[trigger] sx[j] == xs@[j] as int);
        assert(forall|j: int| 0 <= j < sy.len() ==> #[trigger] sy[j] == ys@[j] as int);
    }
    let m: usize = xs.len();
    if m == 0 {
        return Err(Error::EmptyDataset);
    }
    let mut t0: i64 = 0;
    let mut t1: i64 = 0;
    let mut k: u64 = 0;
    while k < iterations
        invariant
            0 <= k <= iterations,
            m == xs@.len(),
            m == ys@.len(),
            1 <= m <= MAX_SAMPLES as int,
            sx == ints(xs@),
            sy == ints(ys@),
            sx.len() == m,
            sy.len() == m,
            fx_seq_ok(sx),
            fx_seq_ok(sy),
            forall|j: int| 0 <= j < sx.len() ==> #[trigger] sx[j] == xs@[j] as int,
            forall|j: int| 0 <= j < sy.len() ==> #[trigger] sy[j] == ys@[j] as int,
            fx_ok(learning_rate as int),
            fx_ok(t0 as int),
            fx_ok(t1 as int),
            descend(k as nat, 0, 0, sx, sy, learning_rate as int) == Some((t0 as int, t1 as int)),
        decreases iterations - k,
    {
        let mut acc0: i128 = 0;
        let mut acc1: i128 = 0;
        let mut i: usize = 0;
        while i < m
            invariant
                0 <= i <= m,
                k < iterations,
                m == xs@.len(),
                m == ys@.len(),
                1 <= m <= MAX_SAMPLES as int,
                sx == ints(xs@),
                sy == ints(ys@),
                sx.len() == m,
                sy.len() == m,
                fx_seq_ok(sx),
                fx_seq_ok(sy),
                forall|j: int| 0 <= j < sx.len() ==> #[trigger] sx[j] == xs@[j] as int,
                forall|j: int| 0 <= j < sy.len() ==> #[trigger] sy[j] == ys@[j] as int,
                fx_ok(t0 as int),
                fx_ok(t1 as int),
                fx_ok(learning_rate as int),
                descend(k as nat, 0, 0, sx, sy, learning_rate as int) == Some(
                    (t0 as int, t1 as int),
                ),
                acc0 as int == sum_err(t0 as int, t1 as int, sx, sy, i as int),
                acc1 as int == sum_err_x(t0 as int, t1 as int, sx, sy, i as int),
                forall|j: int|
                    0 <= j < i ==> fx_ok(#[trigger] err_term(t0 as int, t1 as int, sx[j], sy[j])),
                mag(acc0 as int) <= (i as int) * (FX_MAX as int),
                mag(acc1 as int) <= (i as int) * 5_000_000_000_000_000_000int,
            decreases m - i,
        {
            let x: i64 = xs[i];
            let y: i64 = ys[i];
            proof {
                assert(fx_ok(sx[i as int]));
                assert(fx_ok(sy[i as int]));
                assert(-((FX_MAX as int) * (FX_MAX as int)) <= (t1 as int) * (x as int) <= (
                FX_MAX as int) * (FX_MAX as int)) by (nonlinear_arith)
                    requires
                        -(FX_MAX as int) <= t1 as int <= FX_MAX as int,
                        -(FX_MAX as int) <= x as int <= FX_MAX as int;
            }
            let prod: i128 = t1 as i128 * x as i128;
            let q: i128 = div_tz_i128(prod, SCALE as i128);
            proof {
                lemma_div_tz_quot_bound(prod as int, SCALE as int, 5_000_000_000_000_000_000int);
            }
            let est: i128 = t0 as i128 + q;
            let e: i128 = est - y as i128;
            proof {
                assert(e as int == err_term(t0 as int, t1 as int, sx[i as int], sy[i as int]));
            }
            if e < -(FX_MAX as i128) || e > FX_MAX as i128 {
                proof {
                    assert(!fx_ok(err_term(t0 as int, t1 as int, sx[i as int], sy[i as int])));
                    assert(!errs_ok(t0 as int, t1 as int, sx, sy));
                    assert(step(t0 as int, t1 as int, sx, sy, learning_rate as int) is None);
                    lemma_descend_none(
                        iterations as nat,
                        k as nat,
                        0,
                        0,
                        sx,
                        sy,
                        learning_rate as int,
                    );
                }
                return Err(Error::Overflow);
            }
            proof {
                assert((i as int + 1) * (FX_MAX as int) == (i as int) * (FX_MAX as int)
                    + FX_MAX as int) by (nonlinear_arith);
                assert((i as int + 1) * (FX_MAX as int) <= (MAX_SAMPLES as int) * (FX_MAX as int))
                    by (nonlinear_arith)
                    requires
                        i as int + 1 <= MAX_SAMPLES as int,
                        FX_MAX as int >= 0;
                assert(sum_err(t0 as int, t1 as int, sx, sy, i as int + 1) == sum_err(
                    t0 as int,
                    t1 as int,
                    sx,
                    sy,
                    i as int,
                ) + err_term(t0 as int, t1 as int, sx[i as int], sy[i as int]));
                assert(-((FX_MAX as int) * (FX_MAX as int)) <= (e as int) * (x as int) <= (
                FX_MAX as int) * (FX_MAX as int)) by (nonlinear_arith)
                    requires
                        -(FX_MAX as int) <= e as int <= FX_MAX as int,
                        -(FX_MAX as int) <= x as int <= FX_MAX as int;
            }
            acc0 = acc0 + e;
            let px: i128 = e * x as i128;
            let tx: i128 = div_tz_i128(px, SCALE as i128);
            proof {
                lemma_div_tz_quot_bound(px as int, SCALE as int, 5_000_000_000_000_000_000int);
                assert((i as int + 1) * 5_000_000_000_000_000_000int == (i as int)
                    * 5_000_000_000_000_000_000int + 5_000_000_000_000_000_000int)
                    by (nonlinear_arith);
                assert((i as int + 1) * 5_000_000_000_000_000_000int <= (MAX_SAMPLES as int)
                    * 5_000_000_000_000_000_000int) by (nonlinear_arith)
                    requires
                        i as int + 1 <= MAX_SAMPLES as int;
                assert(sum_err_x(t0 as int, t1 as int, sx, sy, i as int + 1) == sum_err_x(
                    t0 as int,
                    t1 as int,
                    sx,
                    sy,
                    i as int,
                ) + div_tz(
                    err_term(t0 as int, t1 as int, sx[i as int], sy[i as int]) * sx[i as int],
                    SCALE as int,
                ));
            }
            acc1 = acc1 + tx;
            i = i + 1;
        }
        proof {
            assert(errs_ok(t0 as int, t1 as int, sx, sy));
            assert((m as int) * (FX_MAX as int) <= (MAX_SAMPLES as int) * (FX_MAX as int))
                by (nonlinear_arith)
                requires
                    m as int <= MAX_SAMPLES as int,
                    FX_MAX as int >= 0;
            assert((m as int) * 5_000_000_000_000_000_000int <= (MAX_SAMPLES as int)
                * 5_000_000_000_000_000_000int) by (nonlinear_arith)
                requires
                    m as int <= MAX_SAMPLES as int;
        }
        let g0_128: i128 = div_tz_i128(acc0, m as i128);
        let g0: i64 = match to_fx(g0_128) {
            Some(v) => v,
            None => {
                proof {
                    assert(step(t0 as int, t1 as int, sx, sy, learning_rate as int) is None);
                    lemma_descend_none(
                        iterations as nat,
                        k as nat,
                        0,
                        0,
                        sx,
                        sy,
                        learning_rate as int,
                    );
                }
                return Err(Error::Overflow);
            },
        };
        let g1_128: i128 = div_tz_i128(acc1, m as i128);
        let g1: i64 = match to_fx(g1_128) {
            Some(v) => v,
            None => {
                proof {
                    assert(step(t0 as int, t1 as int, sx, sy, learning_rate as int) is None);
                    lemma_descend_none(
                        iterations as nat,
                        k as nat,
                        0,
                        0,
                        sx,
                        sy,
                        learning_rate as int,
                    );
                }
                return Err(Error::Overflow);
            },
        };
        proof {
            assert(-((FX_MAX as int) * (FX_MAX as int)) <= (learning_rate as int) * (g0 as int)
                <= (FX_MAX as int) * (FX_MAX as int)) by (nonlinear_arith)
                requires
                    -(FX_MAX as int) <= learning_rate as int <= FX_MAX as int,
                    -(FX_MAX as int) <= g0 as int <= FX_MAX as int;
            assert(-((FX_MAX as int) * (FX_MAX as int)) <= (learning_rate as int) * (g1 as int)
                <= (FX_MAX as int) * (FX_MAX as int)) by (nonlinear_arith)
                requires
                    -(FX_MAX as int) <= learning_rate as int <= FX_MAX as int,
                    -(FX_MAX as int) <= g1 as int <= FX_MAX as int;
        }
        let d0: i128 = div_tz_i128(learning_rate as i128 * g0 as i128, SCALE as i128);
        let d1: i128 = div_tz_i128(learning_rate as i128 * g1 as i128, SCALE as i128);
        proof {
            lemma_div_tz_quot_bound(
                (learning_rate as int) * (g0 as int),
                SCALE as int,
                5_000_000_000_000_000_000int,
            );
            lemma_div_tz_quot_bound(
                (learning_rate as int) * (g1 as int),
                SCALE as int,
                5_000_000_000_000_000_000int,
            );
        }
        let nt0_128: i128 = t0 as i128 - d0;
        let nt1_128: i128 = t1 as i128 - d1;
        let nt0: i64 = match to_fx(nt0_128) {
            Some(v) => v,
            None => {
                proof {
                    assert(step(t0 as int, t1 as int, sx, sy, learning_rate as int) is None);
                    lemma_descend_none(
                        iterations as nat,
                        k as nat,
                        0,
                        0,
                        sx,
                        sy,
                        learning_rate as int,
                    );
                }
                return Err(Error::Overflow);
            },
        };
        let nt1: i64 = match to_fx(nt1_128) {
            Some(v) => v,
            None => {
                proof {
                    assert(step(t0 as int, t1 as int, sx, sy, learning_rate as int) is None);
                    lemma_descend_none(
                        iterations as nat,
                        k as nat,
                        0,
                        0,
                        sx,
                        sy,
                        learning_rate as int,
                    );
                }
                return Err(Error::Overflow);
            },
        };
        proof {
            assert(step(t0 as int, t1 as int, sx, sy, learning_rate as int) == Some(
                (nt0 as int, nt1 as int),
            ));
            assert(descend((k as nat + 1) as nat, 0, 0, sx, sy, learning_rate as int) == Some(
                (nt0 as int, nt1 as int),
            ));
        }
        t0 = nt0;
        t1 = nt1;
        k = k + 1;
    }
    Ok((t0, t1))
}

/// Maps parameters learned on normalized data back to the original unit
/// scale, exactly as [`denorm`] describes.
pub fn denormalize(
    theta0: i64,
    theta1: i64,
    mileage_mean: i64,
    mileage_std: i64,
    price_mean: i64,
    price_std: i64,
) -> (r: Result<(i64, i64), Error>)
    requires
        fx_ok(theta0 as int),
        fx_ok(theta1 as int),
        fx_ok(mileage_mean as int),
        fx_ok(mileage_std as int),
        fx_ok(price_mean as int),
        fx_ok(price_std as int),
        mileage_std != 0,
    ensures
        denorm(
            theta0 as int,
            theta1 as int,
            mileage_mean as int,
            mileage_std as int,
            price_mean as int,
            price_std as int,
        ) matches Some(t) ==> r matches Ok(p) && p.0 as int == t.0 && p.1 as int == t.1
            && fx_ok(t.0) && fx_ok(t.1),
        denorm(
            theta0 as int,
            theta1 as int,
            mileage_mean as int,
            mileage_std as int,
            price_mean as int,
            price_std as int,
        ) is None ==> r == Err::<(i64, i64), Error>(Error::Overflow),
{
    proof {
        assert(-((FX_MAX as int) * (SCALE as int)) <= (price_std as int) * (SCALE as int) <= (
        FX_MAX as int) * (SCALE as int)) by (nonlinear_arith)
            requires
                -(FX_MAX as int) <= price_std as int <= FX_MAX as int,
                SCALE as int >= 0;
    }
    let qn: i128 = price_std as i128 * SCALE as i128;
    let q128: i128 = div_tz_i128(qn, mileage_std as i128);
    let q: i64 = match to_fx(q128) {
        Some(v) => v,
        None => {
            return Err(Error::Overflow);
        },
    };
    proof {
        assert(-((FX_MAX as int) * (FX_MAX as int)) <= (theta1 as int) * (q as int) <= (
        FX_MAX as int) * (FX_MAX as int)) by (nonlinear_arith)
            requires
                -(FX_MAX as int) <= theta1 as int <= FX_MAX as int,
                -(FX_MAX as int) <= q as int <= FX_MAX as int;
    }
    let t1d128: i128 = div_tz_i128(theta1 as i128 * q as i128, SCALE as i128);
    let t1d: i64 = match to_fx(t1d128) {
        Some(v) => v,
        None => {
            return Err(Error::Overflow);
        },
    };
    proof {
        assert(-((FX_MAX as int) * (FX_MAX as int)) <= (theta0 as int) * (price_std as int) <= (
        FX_MAX as int) * (FX_MAX as int)) by (nonlinear_arith)
            requires
                -(FX_MAX as int) <= theta0 as int <= FX_MAX as int,
                -(FX_MAX as int) <= price_std as int <= FX_MAX as int;
        assert(-((FX_MAX as int) * (FX_MAX as int)) <= (t1d as int) * (mileage_mean as int) <= (
        FX_MAX as int) * (FX_MAX as int)) by (nonlinear_arith)
            requires
                -(FX_MAX as int) <= t1d as int <= FX_MAX as int,
                -(FX_MAX as int) <= mileage_mean as int <= FX_MAX as int;
    }
    let a: i128 = div_tz_i128(theta0 as i128 * price_std as i128, SCALE as i128);
    let b: i128 = div_tz_i128(t1d as i128 * mileage_mean as i128, SCALE as i128);
    proof {
        lemma_div_tz_quot_bound(
            (theta0 as int) * (price_std as int),
            SCALE as int,
            5_000_000_000_000_000_000int,
        );
        lemma_div_tz_quot_bound(
            (t1d as int) * (mileage_mean as int),
            SCALE as int,
            5_000_000_000_000_000_000int,
        );
    }
    let t0d128: i128 = a + price_mean as i128 - b;
    let t0d: i64 = match to_fx(t0d128) {
        Some(v) => v,
        None => {
            return Err(Error::Overflow);
        },
    };
    Ok((t0d, t1d))
}

/// What the whole training pipeline returns on given raw samples:
/// both features normalized, gradient descent run from `(0, 0)`, and the
/// result de-normalized.
pub open spec fn train_result(sm: Seq<int>, sp: Seq<int>, alpha: int, iters: nat) -> Result<
    (int, int),
    Error,
> {
    match norm_result(sm) {
        Err(e) => Err(e),
        Ok(nm) => match norm_result(sp) {
            Err(e) => Err(e),
            Ok(np) => match descend(iters, 0, 0, nm.0, np.0, alpha) {
                None => Err(Error::Overflow),
                Some(t) => match denorm(t.0, t.1, nm.1, nm.2, np.1, np.2) {
                    None => Err(Error::Overflow),
                    Some(d) => Ok(d),
                },
            },
        },
    }
}

/// Trains a model on raw `(mileage, price)` samples: normalizes both
/// features, runs `iterations` passes of gradient descent at
/// `learning_rate`, and de-normalizes the learned parameters, exactly as
/// [`train_result`] describes.
pub fn train(
    mileage: &Vec<i64>,
    price: &Vec<i64>,
    learning_rate: i64,
    iterations: u64,
) -> (r: Result<LinearModel, Error>)
    requires
        mileage@.len() == price@.len(),
        mileage@.len() <= MAX_SAMPLES as int,
        fx_seq_ok(ints(mileage@)),
        fx_seq_ok(ints(price@)),
        fx_ok(learning_rate as int),
    ensures
        train_result(
            ints(mileage@),
            ints(price@),
            learning_rate as int,
            iterations as nat,
        ) matches Err(e) ==> r == Err::<LinearModel, Error>(e),
        train_result(
            ints(mileage@),
            ints(price@),
            learning_rate as int,
            iterations as nat,
        ) matches Ok(t) ==> r matches Ok(mo) && mo.theta0 as int == t.0 && mo.theta1 as int == t.1
            && mo.wf(),
{
    let ghost sm: Seq<int> = ints(mileage@);
    let ghost sp: Seq<int> = ints(price@);
    let (mx, m_mean, m_std) = match normalize(mileage) {
        Ok(t) => t,
        Err(e) => {
            return Err(e);
        },
    };
    let (px, p_mean, p_std) = match normalize(price) {
        Ok(t) => t,
        Err(e) => {
            return Err(e);
        },
    };
    proof {
        assert(norm_result(sm) matches Ok(nm) && ints(mx@) == nm.0 && m_mean as int == nm.1
            && m_std as int == nm.2);
        assert(norm_result(sp) matches Ok(np) && ints(px@) == np.0 && p_mean as int == np.1
            && p_std as int == np.2);
        assert(ints(mx@).len() == sm.len());
        assert(ints(px@).len() == sp.len());
    }
    let tn: (i64, i64) = match gradient_descent(&mx, &px, learning_rate, iterations) {
        Ok(t) => t,
        Err(e) => {
            proof {
                assert(sm.len() > 0);
                assert(descend(
                    iterations as nat,
                    0,
                    0,
                    ints(mx@),
                    ints(px@),
                    learning_rate as int,
                ) is None);
            }
            return Err(e);
        },
    };
    proof {
        assert(m_std != 0);
        lemma_mean_in_range(sm);
        lemma_mean_in_range(sp);
    }
    let dn: (i64, i64) = match denormalize(tn.0, tn.1, m_mean, m_std, p_mean, p_std) {
        Ok(t) => t,
        Err(e) => {
            return Err(e);
        },
    };
    Ok(LinearModel { theta0: dn.0, theta1: dn.1 })
}

/// De-normalization identity: predicting a raw mileage with the
/// de-normalized parameters agrees with normalizing that mileage,
/// predicting in normalized space, and de-normalizing the predicted
/// price. The de-normalized parameters are exact rationals with
/// denominator `ms`, so the identity is stated with denominators
/// cleared: the hypotheses are the de-normalization equations
/// `t1d = t1 * ps / ms` and `t0d = t0 * ps + pm - t1d * mm`, and the
/// conclusion equates `t0d + t1d * x` with
/// `(t0 + t1 * (x - mm) / ms) * ps + pm`, both multiplied by `ms`.
pub proof fn lemma_denorm_identity(
    t0: int,
    t1: int,
    mm: int,
    ms: int,
    pm: int,
    ps: int,
    x: int,
    t0d: int,
    t1d: int,
)
    requires
        t1d * ms == t1 * ps,
        t0d * ms == (t0 * ps + pm) * ms - t1 * ps * mm,
    ensures
        (t0d + t1d * x) * ms == (t0 * ms + t1 * (x - mm)) * ps + pm * ms,
{
    assert((t0d + t1d * x) * ms == t0d * ms + t1d * x * ms) by (nonlinear_arith);
    assert(t1d * x * ms == t1d * ms * x) by (nonlinear_arith);
    assert(t1d * ms * x == t1 * ps * x) by (nonlinear_arith)
        requires
            t1d * ms == t1 * ps;
    assert((t0 * ms + t1 * (x - mm)) * ps == t0 * ms * ps + t1 * ps * x - t1 * ps * mm)
        by (nonlinear_arith);
    assert(t0d * ms == t0 * ps * ms + pm * ms - t1 * ps * mm) by (nonlinear_arith)
        requires
            t0d * ms == (t0 * ps + pm) * ms - t1 * ps * mm;
    assert(t0 * ms * ps == t0 * ps * ms) by (nonlinear_arith);
}

/// Training is deterministic: two runs over the same samples with the
/// same learning rate and pass count give the same outcome.
pub proof fn lemma_train_deterministic(
    sm: Seq<int>,
    sp: Seq<int>,
    alpha: int,
    iters: nat,
    r1: Result<(int, int), Error>,
    r2: Result<(int, int), Error>,
)
    requires
        r1 == train_result(sm, sp, alpha, iters),
        r2 == train_result(sm, sp, alpha, iters),
    ensures
        r1 == r2,
{
}

} // verus!
