//! Feature normalization: zero mean and unit variance in fixed point.
//!
//! For a non-empty sequence `d` the normalizer computes the arithmetic mean,
//! the population standard deviation (square root of the average squared
//! deviation), and the rescaled sequence `(d[i] - mean) / std_dev`, all in
//! micro-units with truncating division. A zero standard deviation is
//! reported as [`Error::DegenerateFeature`] rather than divided by.

use vstd::prelude::*;

use crate::fixed::div_tz;
use crate::fixed::div_tz_i128;
use crate::fixed::fx_ok;
use crate::fixed::is_isqrt;
use crate::fixed::isqrt_u128;
use crate::fixed::lemma_div_tz_props;
use crate::fixed::lemma_div_tz_quot_bound;
use crate::fixed::lemma_sqrt_floor;
use crate::fixed::mag;
use crate::fixed::sqrt_floor;
use crate::fixed::to_fx;
use crate::fixed::FX_MAX;
use crate::fixed::MAX_SAMPLES;
use crate::fixed::SCALE;
use crate::Error;

verus! {

/// The mathematical values of a fixed-point vector.
pub open spec fn ints(s: Seq<i64>) -> Seq<int> {
    s.map_values(|x: i64| x as int)
}

/// Every entry of the sequence lies in the fixed-point range.
pub open spec fn fx_seq_ok(s: Seq<int>) -> bool {
    forall|i: int| 0 <= i < s.len() ==> fx_ok(#[trigger] s[i])
}

/// Sum of the first `n` entries.
pub open spec fn sum_pfx(s: Seq<int>, n: int) -> int
    decreases n,
{
    if n <= 0 {
        0
    } else {
        sum_pfx(s, n - 1) + s[n - 1]
    }
}

/// Sum of a whole sequence.
pub open spec fn sum_int(s: Seq<int>) -> int {
    sum_pfx(s, s.len() as int)
}

/// Arithmetic mean with truncating division.
pub open spec fn mean_of(s: Seq<int>) -> int {
    div_tz(sum_int(s), s.len() as int)
}

/// Squared deviation of `x` from `mu` as a fixed-point quantity:
/// the product of two micro-unit values is rescaled by `SCALE`.
pub open spec fn sq_dev(x: int, mu: int) -> int {
    div_tz((x - mu) * (x - mu), SCALE as int)
}

/// Sum of the first `n` squared deviations from `mu`.
pub open spec fn sum_sq_pfx(s: Seq<int>, mu: int, n: int) -> int
    decreases n,
{
    if n <= 0 {
        0
    } else {
        sum_sq_pfx(s, mu, n - 1) + sq_dev(s[n - 1], mu)
    }
}

/// Population variance: average squared deviation from the mean.
pub open spec fn variance_of(s: Seq<int>) -> int {
    div_tz(sum_sq_pfx(s, mean_of(s), s.len() as int), s.len() as int)
}

/// Population standard deviation in micro-units. The variance is a
/// fixed-point quantity, so the square root of `variance * SCALE`
/// is again in micro-units.
pub open spec fn std_of(s: Seq<int>) -> int {
    sqrt_floor(variance_of(s) * (SCALE as int))
}

/// One normalized entry: `(x - mu) / sd` as a fixed-point quotient.
pub open spec fn norm_term(x: int, mu: int, sd: int) -> int {
    div_tz((x - mu) * (SCALE as int), sd)
}

/// The normalized sequence of `s`.
pub open spec fn normalized_of(s: Seq<int>) -> Seq<int> {
    s.map_values(|x: int| norm_term(x, mean_of(s), std_of(s)))
}

/// What normalization returns, case by case: the error on an empty or
/// constant sequence, an overflow report when a value leaves the
/// fixed-point range, and otherwise the normalized sequence with its
/// statistics.
pub open spec fn norm_result(s: Seq<int>) -> Result<(Seq<int>, int, int), Error> {
    if s.len() == 0 {
        Err(Error::EmptyDataset)
    } else if std_of(s) == 0 {
        Err(Error::DegenerateFeature)
    } else if !fx_ok(std_of(s)) {
        Err(Error::Overflow)
    } else if !fx_seq_ok(normalized_of(s)) {
        Err(Error::Overflow)
    } else {
        Ok((normalized_of(s), mean_of(s), std_of(s)))
    }
}

/// A sequence of in-range entries has a sum of at most `n` times the
/// fixed-point bound.
proof fn lemma_sum_bound(s: Seq<int>, n: int)
    requires
        fx_seq_ok(s),
        0 <= n <= s.len(),
    ensures
        mag(sum_pfx(s, n)) <= n * (FX_MAX as int),
    decreases n,
{
    if n > 0 {
        lemma_sum_bound(s, n - 1);
        assert(fx_ok(s[n - 1]));
        assert(n * (FX_MAX as int) == (n - 1) * (FX_MAX as int) + FX_MAX as int)
            by (nonlinear_arith);
    } else {
        assert(0 * (FX_MAX as int) == 0) by (nonlinear_arith);
    }
}

/// The mean of in-range entries is itself in range.
pub proof fn lemma_mean_in_range(s: Seq<int>)
    requires
        fx_seq_ok(s),
        s.len() > 0,
    ensures
        fx_ok(mean_of(s)),
{
    let m = s.len() as int;
    lemma_sum_bound(s, m);
    lemma_div_tz_props(sum_int(s), m);
    assert(mag(sum_int(s)) / m <= (m * (FX_MAX as int)) / m) by {
        vstd::arithmetic::div_mod::lemma_div_is_ordered(
            mag(sum_int(s)),
            m * (FX_MAX as int),
            m,
        );
    }
    assert((m * (FX_MAX as int)) / m == FX_MAX as int) by {
        vstd::arithmetic::div_mod::lemma_div_multiples_vanish(FX_MAX as int, m);
    }
}

/// Sum of the first `n` normalized entries, by index.
pub open spec fn sum_norm_pfx(s: Seq<int>, mu: int, sd: int, n: int) -> int
    decreases n,
{
    if n <= 0 {
        0
    } else {
        sum_norm_pfx(s, mu, sd, n - 1) + norm_term(s[n - 1], mu, sd)
    }
}

/// Sum of the first `n` deviations from `mu`, by index.
pub open spec fn sum_shift_pfx(s: Seq<int>, mu: int, n: int) -> int
    decreases n,
{
    if n <= 0 {
        0
    } else {
        sum_shift_pfx(s, mu, n - 1) + (s[n - 1] - mu)
    }
}

/// The sum over the normalized sequence equals the indexed sum of the
/// normalized entries.
proof fn lemma_sum_norm_index(s: Seq<int>, n: int)
    requires
        0 <= n <= s.len(),
    ensures
        sum_pfx(normalized_of(s), n) == sum_norm_pfx(s, mean_of(s), std_of(s), n),
    decreases n,
{
    if n > 0 {
        lemma_sum_norm_index(s, n - 1);
        assert(normalized_of(s)[n - 1] == norm_term(s[n - 1], mean_of(s), std_of(s)));
    }
}

/// The summed deviations from `mu` are the sum minus `n` times `mu`.
proof fn lemma_sum_shift(s: Seq<int>, mu: int, n: int)
    requires
        0 <= n <= s.len(),
    ensures
        sum_shift_pfx(s, mu, n) == sum_pfx(s, n) - n * mu,
    decreases n,
{
    if n > 0 {
        lemma_sum_shift(s, mu, n - 1);
        assert(sum_shift_pfx(s, mu, n) == sum_shift_pfx(s, mu, n - 1) + (s[n - 1] - mu));
        assert(sum_pfx(s, n) == sum_pfx(s, n - 1) + s[n - 1]);
        assert(n * mu == (n - 1) * mu + mu) by (nonlinear_arith);
    } else {
        assert(sum_shift_pfx(s, mu, 0) == 0);
        assert(sum_pfx(s, 0) == 0);
        assert(0 * mu == 0) by (nonlinear_arith);
    }
}

/// Each normalized entry is a truncated quotient, so `sd` times the sum
/// of the first `n` normalized entries differs from `SCALE` times the
/// summed deviations by at most `n` truncation remainders.
proof fn lemma_norm_sum_close(s: Seq<int>, mu: int, sd: int, n: int)
    requires
        sd > 0,
        0 <= n <= s.len(),
    ensures
        mag(sd * sum_norm_pfx(s, mu, sd, n) - (SCALE as int) * sum_shift_pfx(s, mu, n)) <= n * (sd
            - 1),
    decreases n,
{
    if n > 0 {
        lemma_norm_sum_close(s, mu, sd, n - 1);
        let a = sum_norm_pfx(s, mu, sd, n - 1);
        let b = sum_shift_pfx(s, mu, n - 1);
        let w = (s[n - 1] - mu) * (SCALE as int);
        let q = norm_term(s[n - 1], mu, sd);
        lemma_div_tz_props(w, sd);
        assert(mag(w - sd * q) <= sd - 1);
        assert(sd * (a + q) == sd * a + sd * q) by (nonlinear_arith);
        assert((SCALE as int) * (b + (s[n - 1] - mu)) == (SCALE as int) * b + (s[n - 1] - mu) * (
        SCALE as int)) by (nonlinear_arith);
        assert(n * (sd - 1) == (n - 1) * (sd - 1) + (sd - 1)) by (nonlinear_arith);
    }
}

/// The normalized sequence has mean approximately zero: `sd` times the
/// sum of all normalized entries has magnitude at most
/// `m * (sd - 1) + (m - 1) * SCALE`. Dividing through by `m * sd`, the
/// mean of the normalized entries lies within `SCALE / sd + 1`
/// micro-units of zero, which is a tight tolerance whenever the standard
/// deviation is well above one micro-unit.
pub proof fn lemma_normalized_mean_bound(s: Seq<int>)
    requires
        s.len() > 0,
        std_of(s) > 0,
    ensures
        mag(std_of(s) * sum_int(normalized_of(s))) <= s.len() * (std_of(s) - 1) + (s.len() - 1) * (
        SCALE as int),
{
    let m = s.len() as int;
    let mu = mean_of(s);
    let sd = std_of(s);
    assert(normalized_of(s).len() == m);
    lemma_sum_norm_index(s, m);
    assert(sum_int(normalized_of(s)) == sum_norm_pfx(s, mu, sd, m));
    lemma_norm_sum_close(s, mu, sd, m);
    lemma_sum_shift(s, mu, m);
    lemma_div_tz_props(sum_int(s), m);
    assert(mag(sum_int(s) - m * mu) <= m - 1);
    assert(sum_shift_pfx(s, mu, m) == sum_int(s) - m * mu);
    let shift = sum_shift_pfx(s, mu, m);
    assert(mag((SCALE as int) * shift) <= (SCALE as int) * (m - 1)) by (nonlinear_arith)
        requires
            mag(shift) <= m - 1,
            shift <= mag(shift),
            -shift <= mag(shift),
            SCALE as int > 0,
            mag((SCALE as int) * shift) == if (SCALE as int) * shift < 0 {
                -((SCALE as int) * shift)
            } else {
                (SCALE as int) * shift
            };
    assert((m - 1) * (SCALE as int) == (SCALE as int) * (m - 1)) by (nonlinear_arith);
}

/// Normalizes a feature vector: returns the rescaled vector together with
/// the mean and population standard deviation it used, exactly as
/// [`norm_result`] describes, or the error that [`norm_result`] names.
pub fn normalize(data: &Vec<i64>) -> (r: Result<(Vec<i64>, i64, i64), Error>)
    requires
        data@.len() <= MAX_SAMPLES as int,
        fx_seq_ok(ints(data@)),
    ensures
        norm_result(ints(data@)) matches Err(e) ==> r == Err::<(Vec<i64>, i64, i64), Error>(e),
        norm_result(ints(data@)) matches Ok(t) ==> r matches Ok(u) && ints(u.0@) == t.0
            && u.1 as int == t.1 && u.2 as int == t.2,
{
    let ghost s: Seq<int> = ints(data@);
    proof {
        assert(s.len() == data@.len());
        assert(forall|j: int| 0 <= j < s.len() ==> #[trigger] s[j] == data@[j] as int);
    }
    let m: usize = data.len();
    if m == 0 {
        return Err(Error::EmptyDataset);
    }

    // Sum of the entries.
    let mut sum: i128 = 0;
    let mut i: usize = 0;
    while i < m
        invariant
            0 <= i <= m,
            m == data@.len(),
            m <= MAX_SAMPLES as int,
            s == ints(data@),
            s.len() == m,
            fx_seq_ok(s),
            forall|j: int| 0 <= j < s.len() ==> #[trigger] s[j] == data@[j] as int,
            sum as int == sum_pfx(s, i as int),
            mag(sum as int) <= (i as int) * (FX_MAX as int),
        decreases m - i,
    {
        proof {
            assert(fx_ok(s[i as int]));
            assert((i as int + 1) * (FX_MAX as int) == (i as int) * (FX_MAX as int)
                + FX_MAX as int) by (nonlinear_arith);
            assert((i as int + 1) * (FX_MAX as int) <= (MAX_SAMPLES as int) * (FX_MAX as int))
                by (nonlinear_arith)
                requires
                    i as int + 1 <= MAX_SAMPLES as int,
                    FX_MAX as int >= 0;
        }
        sum = sum + data[i] as i128;
        i = i + 1;
    }
    proof {
        assert(sum as int == sum_int(s));
        assert((m as int) * (FX_MAX as int) <= (MAX_SAMPLES as int) * (FX_MAX as int))
            by (nonlinear_arith)
            requires
                m as int <= MAX_SAMPLES as int,
                FX_MAX as int >= 0;
    }

    // Mean.
    let mean128: i128 = div_tz_i128(sum, m as i128);
    proof {
        assert(mean128 as int == mean_of(s));
        lemma_mean_in_range(s);
        assert(fx_ok(mean128 as int));
    }
    let mean: i64 = mean128 as i64;

    // Variance: average squared deviation from the mean.
    let mut acc: i128 = 0;
    i = 0;
    while i < m
        invariant
            0 <= i <= m,
            m == data@.len(),
            m <= MAX_SAMPLES as int,
            s == ints(data@),
            s.len() == m,
            fx_seq_ok(s),
            forall|j: int| 0 <= j < s.len() ==> #[trigger] s[j] == data@[j] as int,
            fx_ok(mean as int),
            acc as int == sum_sq_pfx(s, mean as int, i as int),
            0 <= acc as int <= (i as int) * 0x2_0000_0000_0000_0000int,
        decreases m - i,
    {
        let x: i64 = data[i];
        let d: i128 = x as i128 - mean as i128;
        proof {
            assert(fx_ok(s[i as int]));
            assert(-(2 * (FX_MAX as int)) <= d as int <= 2 * (FX_MAX as int));
            assert(0 <= (d as int) * (d as int)
                <= (2 * (FX_MAX as int)) * (2 * (FX_MAX as int))) by (nonlinear_arith)
                requires
                    -(2 * (FX_MAX as int)) <= d as int <= 2 * (FX_MAX as int);
        }
        let p: i128 = d * d;
        let t: i128 = div_tz_i128(p, SCALE as i128);
        proof {
            assert(t as int == sq_dev(s[i as int], mean as int));
            lemma_div_tz_props(p as int, SCALE as int);
            assert(t as int >= 0);
            lemma_div_tz_quot_bound(p as int, SCALE as int, 0x2_0000_0000_0000_0000int);
            assert((t as int) < 0x2_0000_0000_0000_0000int);
            assert((i as int + 1) * 0x2_0000_0000_0000_0000int == (i as int)
                * 0x2_0000_0000_0000_0000int + 0x2_0000_0000_0000_0000int) by (nonlinear_arith);
            assert((i as int + 1) * 0x2_0000_0000_0000_0000int <= (MAX_SAMPLES as int)
                * 0x2_0000_0000_0000_0000int) by (nonlinear_arith)
                requires
                    i as int + 1 <= MAX_SAMPLES as int;
        }
        acc = acc + t;
        i = i + 1;
    }
    proof {
        assert((m as int) * 0x2_0000_0000_0000_0000int <= (MAX_SAMPLES as int)
            * 0x2_0000_0000_0000_0000int) by (nonlinear_arith)
            requires
                m as int <= MAX_SAMPLES as int;
    }
    let var: i128 = div_tz_i128(acc, m as i128);
    proof {
        lemma_div_tz_props(acc as int, m as int);
        assert(var as int == variance_of(s));
        assert(0 <= var as int <= acc as int);
        assert(0 <= (var as int) * (SCALE as int) && (var as int) * (SCALE as int) <= (
        (MAX_SAMPLES as int) * 0x2_0000_0000_0000_0000int) * (SCALE as int)) by (nonlinear_arith)
            requires
                0 <= var as int <= (MAX_SAMPLES as int) * 0x2_0000_0000_0000_0000int,
                SCALE as int >= 0;
    }

    // Standard deviation: integer square root of variance * SCALE.
    let vs: i128 = var * SCALE as i128;
    let sd_u: u128 = isqrt_u128(vs as u128);
    proof {
        assert(is_isqrt(vs as int, sd_u as int));
        assert((sd_u as int) < 0x100_0000_0000_0000int) by (nonlinear_arith)
            requires
                sd_u as int >= 0,
                (sd_u as int) * (sd_u as int) <= vs as int,
                (vs as int) < 0x100_0000_0000_0000int * 0x100_0000_0000_0000int;
        lemma_sqrt_floor(vs as int, sd_u as int);
        assert(sd_u as int == std_of(s));
    }
    if sd_u == 0 {
        return Err(Error::DegenerateFeature);
    }
    let sd: i64 = match to_fx(sd_u as i128) {
        Some(v) => v,
        None => {
            return Err(Error::Overflow);
        },
    };

    // The normalized sequence.
    let mut out: Vec<i64> = Vec::new();
    i = 0;
    while i < m
        invariant
            0 <= i <= m,
            m == data@.len(),
            s == ints(data@),
            s.len() == m,
            fx_seq_ok(s),
            forall|j: int| 0 <= j < s.len() ==> #[trigger] s[j] == data@[j] as int,
            fx_ok(mean as int),
            mean as int == mean_of(s),
            sd as int == std_of(s),
            sd > 0,
            out@.len() == i,
            forall|j: int|
                0 <= j < i ==> #[trigger] out@[j] as int == norm_term(
                    s[j],
                    mean_of(s),
                    std_of(s),
                ),
            forall|j: int| 0 <= j < i ==> fx_ok(#[trigger] out@[j] as int),
        decreases m - i,
    {
        let x: i64 = data[i];
        let d: i128 = x as i128 - mean as i128;
        proof {
            assert(fx_ok(s[i as int]));
            assert(-(2 * (FX_MAX as int)) <= d as int <= 2 * (FX_MAX as int));
            assert(-((2 * (FX_MAX as int)) * (SCALE as int)) <= (d as int) * (SCALE as int) <= (2
                * (FX_MAX as int)) * (SCALE as int)) by (nonlinear_arith)
                requires
                    -(2 * (FX_MAX as int)) <= d as int <= 2 * (FX_MAX as int),
                    SCALE as int >= 0;
        }
        let num: i128 = d * SCALE as i128;
        let t: i128 = div_tz_i128(num, sd as i128);
        proof {
            assert(t as int == norm_term(s[i as int], mean_of(s), std_of(s)));
            assert(normalized_of(s)[i as int] == norm_term(s[i as int], mean_of(s), std_of(s)));
        }
        match to_fx(t) {
            Some(v) => {
                out.push(v);
            },
            None => {
                proof {
                    assert(!fx_ok(normalized_of(s)[i as int]));
                    assert(!fx_seq_ok(normalized_of(s)));
                }
                return Err(Error::Overflow);
            },
        }
        i = i + 1;
    }
    proof {
        assert(normalized_of(s).len() == s.len());
        assert(forall|j: int|
            0 <= j < s.len() ==> #[trigger] normalized_of(s)[j] == norm_term(
                s[j],
                mean_of(s),
                std_of(s),
            ));
        assert forall|j: int| 0 <= j < normalized_of(s).len() implies fx_ok(
            #[trigger] normalized_of(s)[j],
        ) by {
            assert(out@[j] as int == norm_term(s[j], mean_of(s), std_of(s)));
            assert(fx_ok(out@[j] as int));
        }
        assert(fx_seq_ok(normalized_of(s)));
        assert(ints(out@) =~= normalized_of(s));
    }
    Ok((out, mean, sd))
}

} // verus!
