//! Fixed-point arithmetic for the regression core.
//!
//! A quantity is stored as an `i64` counting micro-units: the value `x`
//! stands for the rational number `x / SCALE`. Multiplication and division
//! of quantities rescale through [`SCALE`] with division truncating toward
//! zero, exactly as Rust's `/` does on machine integers. [`div_tz`] is the
//! specification of that rounding and every contract in the crate speaks
//! in terms of it.

use vstd::arithmetic::div_mod::lemma_div_is_ordered;
use vstd::arithmetic::div_mod::lemma_div_is_strictly_smaller;
use vstd::arithmetic::div_mod::lemma_div_nonincreasing;
use vstd::arithmetic::div_mod::lemma_fundamental_div_mod;
use vstd::arithmetic::div_mod::lemma_mod_division_less_than_divisor;
use vstd::prelude::*;

verus! {

/// Micro-units per whole unit: the fixed-point scale factor.
pub const SCALE: i64 = 1_000_000;

/// Largest magnitude of a representable fixed-point quantity (2^41
/// micro-units, about 2.2 million whole units). Keeping every quantity
/// within this range lets all intermediate products fit in `i128`.
pub const FX_MAX: i64 = 2_199_023_255_552;

/// Cap on the number of samples, so that `i128` accumulators over a whole
/// dataset cannot overflow.
pub const MAX_SAMPLES: usize = 100_000_000;

/// Magnitude of a mathematical integer.
pub open spec fn mag(x: int) -> int {
    if x < 0 {
        -x
    } else {
        x
    }
}

/// A value lies in the representable fixed-point range.
pub open spec fn fx_ok(x: int) -> bool {
    -(FX_MAX as int) <= x <= FX_MAX as int
}

/// Division truncating toward zero, the rounding Rust's `/` performs on
/// machine integers. Defined as 0 on a zero divisor so that it is total;
/// no executable code divides by zero.
pub open spec fn div_tz(a: int, b: int) -> int {
    if b == 0 {
        0
    } else if (a < 0) == (b < 0) {
        mag(a) / mag(b)
    } else {
        -(mag(a) / mag(b))
    }
}

/// Basic facts about truncating division by a positive divisor: the
/// quotient never grows in magnitude, it agrees with Euclidean division
/// on non-negative dividends, and the remainder it leaves has magnitude
/// below the divisor.
pub proof fn lemma_div_tz_props(a: int, b: int)
    requires
        b > 0,
    ensures
        mag(div_tz(a, b)) == mag(a) / b,
        mag(div_tz(a, b)) <= mag(a),
        a >= 0 ==> div_tz(a, b) == a / b && div_tz(a, b) >= 0,
        mag(a - b * div_tz(a, b)) <= b - 1,
{
    lemma_div_nonincreasing(mag(a), b);
    lemma_fundamental_div_mod(mag(a), b);
    lemma_mod_division_less_than_divisor(mag(a), b);
    if a >= 0 {
        assert(div_tz(a, b) == a / b);
        assert(mag(a) / b >= 0) by {
            lemma_div_is_ordered(0, mag(a), b);
        }
    } else {
        assert(div_tz(a, b) == -(mag(a) / b));
        assert(mag(a) / b >= 0) by {
            lemma_div_is_ordered(0, mag(a), b);
        }
        assert(mag(a) == b * (mag(a) / b) + mag(a) % b);
        assert(b * -(mag(a) / b) == -(b * (mag(a) / b))) by {
            vstd::arithmetic::mul::lemma_mul_unary_negation(b, mag(a) / b);
        }
        assert(a - b * div_tz(a, b) == a + b * (mag(a) / b));
        assert(a + b * (mag(a) / b) == -(mag(a) % b));
    }
}

/// The truncated quotient is below `c` whenever the dividend's magnitude
/// is below `b * c`.
pub proof fn lemma_div_tz_quot_bound(a: int, b: int, c: int)
    requires
        b > 0,
        0 < c,
        mag(a) < b * c,
    ensures
        mag(div_tz(a, b)) < c,
{
    lemma_div_tz_props(a, b);
    assert(mag(a) / b < c) by {
        vstd::arithmetic::div_mod::lemma_multiply_divide_lt(mag(a), b, c);
    }
}

/// Executable truncating division on `i128`, the workhorse of the crate:
/// its result is exactly `div_tz` of its arguments.
pub fn div_tz_i128(a: i128, b: i128) -> (q: i128)
    requires
        b != 0,
        a != i128::MIN,
        b != i128::MIN,
    ensures
        q == div_tz(a as int, b as int),
{
    let na: bool = a < 0;
    let nb: bool = b < 0;
    let ma: u128 = if a < 0 {
        (-a) as u128
    } else {
        a as u128
    };
    let mb: u128 = if b < 0 {
        (-b) as u128
    } else {
        b as u128
    };
    proof {
        assert(ma as int == mag(a as int));
        assert(mb as int == mag(b as int));
        assert(mb > 0);
    }
    let mq: u128 = ma / mb;
    proof {
        lemma_div_nonincreasing(ma as int, mb as int);
        assert(mq <= ma);
        assert(ma <= i128::MAX as u128);
    }
    if na != nb {
        -(mq as i128)
    } else {
        mq as i128
    }
}

/// Checks an `i128` intermediate back into the fixed-point range,
/// returning it as an `i64` exactly when it fits.
pub fn to_fx(a: i128) -> (r: Option<i64>)
    ensures
        fx_ok(a as int) ==> r == Some(a as i64),
        !fx_ok(a as int) ==> r is None,
{
    if a >= -(FX_MAX as i128) && a <= FX_MAX as i128 {
        Some(a as i64)
    } else {
        None
    }
}

/// `r` is the floor of the square root of `n`.
pub open spec fn is_isqrt(n: int, r: int) -> bool {
    r >= 0 && r * r <= n && n < (r + 1) * (r + 1)
}

/// The floor of the square root of a non-negative integer.
pub open spec fn sqrt_floor(n: int) -> int {
    choose|r: int| is_isqrt(n, r)
}

/// The integer square root is unique.
pub proof fn lemma_isqrt_unique(n: int, r1: int, r2: int)
    requires
        is_isqrt(n, r1),
        is_isqrt(n, r2),
    ensures
        r1 == r2,
{
    if r1 < r2 {
        assert((r1 + 1) * (r1 + 1) <= r2 * r2) by (nonlinear_arith)
            requires
                0 <= r1 + 1 <= r2;
    }
    if r2 < r1 {
        assert((r2 + 1) * (r2 + 1) <= r1 * r1) by (nonlinear_arith)
            requires
                0 <= r2 + 1 <= r1;
    }
}

/// Any witness of `is_isqrt` is the value of `sqrt_floor`.
pub proof fn lemma_sqrt_floor(n: int, r: int)
    requires
        is_isqrt(n, r),
    ensures
        sqrt_floor(n) == r,
{
    assert(exists|q: int| is_isqrt(n, q)) by {
        assert(is_isqrt(n, r));
    }
    lemma_isqrt_unique(n, sqrt_floor(n), r);
}

/// Executable integer square root by binary search.
pub fn isqrt_u128(n: u128) -> (r: u128)
    ensures
        is_isqrt(n as int, r as int),
{
    let mut lo: u128 = 0;
    let mut hi: u128 = 0x1_0000_0000_0000_0000;
    proof {
        assert((hi as int) * (hi as int) > n as int) by (nonlinear_arith)
            requires
                hi as int == 0x1_0000_0000_0000_0000int,
                n as int <= u128::MAX as int;
    }
    while lo + 1 < hi
        invariant
            0 <= lo < hi <= 0x1_0000_0000_0000_0000,
            (lo as int) * (lo as int) <= n as int,
            (n as int) < (hi as int) * (hi as int),
        decreases hi - lo,
    {
        let mid: u128 = lo + (hi - lo) / 2;
        proof {
            assert((hi - lo) / 2 >= 1) by {
                lemma_div_is_ordered(2, hi as int - lo as int, 2);
            }
            assert((hi - lo) / 2 < hi - lo) by {
                lemma_div_is_strictly_smaller(hi as int - lo as int, 2);
            }
            assert(lo < mid < hi);
            assert((mid as int) * (mid as int) < 0x1_0000_0000_0000_0000_0000_0000_0000_0000int)
                by (nonlinear_arith)
                requires
                    0 <= (mid as int) < 0x1_0000_0000_0000_0000int;
        }
        let sq: u128 = mid * mid;
        if sq <= n {
            lo = mid;
        } else {
            hi = mid;
        }
    }
    lo
}

} // verus!
