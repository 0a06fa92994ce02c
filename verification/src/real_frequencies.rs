//! What the frequency scalings of rotary embeddings do when scalars stand for real
//! numbers.
use vstd::prelude::*;

use crate::real_model::{
    lemma_val_constants, lemma_val_over, lemma_val_plus, lemma_val_rational, lemma_val_select,
    models_reals,
};
use crate::rope::{banded_frequency, ramp_of, ramped_frequency, two_pi};
use crate::scalar::{above, below, minus, one, over, plus, times, zero, Scalar};

verus! {

proof fn lemma_blend(a: real, b: real, s: real)
    requires
        0 as real <= s <= 1 as real,
        a <= b,
    ensures
        a <= (1 as real - s) * a + s * b <= b,
{
    let m = (1 as real - s) * a + s * b;
    assert(m - a == s * (b - a)) by (nonlinear_arith)
        requires
            m == (1 as real - s) * a + s * b,
    ;
    assert(b - m == (1 as real - s) * (b - a)) by (nonlinear_arith)
        requires
            m == (1 as real - s) * a + s * b,
    ;
    let d = b - a;
    let r = 1 as real - s;
    assert(s * d >= 0 as real) by (nonlinear_arith)
        requires
            s >= 0 as real,
            d >= 0 as real,
    ;
    assert(r * d >= 0 as real) by (nonlinear_arith)
        requires
            r >= 0 as real,
            d >= 0 as real,
    ;
}

proof fn lemma_quotient_at_most(b: real, f: real)
    requires
        b >= 0 as real,
        f >= 1 as real,
    ensures
        0 as real <= b / f <= b,
        f == 1 as real ==> b / f == b,
{
    let q = b / f;
    assert(q * f == b) by (nonlinear_arith)
        requires
            q == b / f,
            f >= 1 as real,
    ;
    assert(0 as real <= q <= b) by (nonlinear_arith)
        requires
            q * f == b,
            f >= 1 as real,
            b >= 0 as real,
    ;
    if f == 1 as real {
        assert(q * f == q) by (nonlinear_arith)
            requires
                f == 1 as real,
        ;
    }
}

/// Swaps a divisor and a bound.
proof fn lemma_divisors_swap(m: real, w: real, f: real)
    requires
        m > 0 as real,
        w > 0 as real,
        f > 0 as real,
    ensures
        (w <= m / f) == (m / w >= f),
        (w >= m / f) == (m / w <= f),
{
    let p = m / f;
    let q = m / w;
    assert(p * f == m) by (nonlinear_arith)
        requires
            p == m / f,
            f > 0 as real,
    ;
    assert(q * w == m) by (nonlinear_arith)
        requires
            q == m / w,
            w > 0 as real,
    ;
    if w <= p {
        assert(q >= f) by (nonlinear_arith)
            requires
                q * w == m,
                p * f == m,
                w <= p,
                w > 0 as real,
                f > 0 as real,
        ;
    }
    if w >= p {
        assert(q <= f) by (nonlinear_arith)
            requires
                q * w == m,
                p * f == m,
                w >= p,
                w > 0 as real,
                f > 0 as real,
        ;
    }
    if q >= f {
        assert(w <= p) by (nonlinear_arith)
            requires
                q * w == m,
                p * f == m,
                q >= f,
                w > 0 as real,
                f > 0 as real,
        ;
    }
    if q <= f {
        assert(w >= p) by (nonlinear_arith)
            requires
                q * w == m,
                p * f == m,
                q <= f,
                w > 0 as real,
                f > 0 as real,
        ;
    }
}

proof fn lemma_share_of(x: real, low: real, high: real)
    requires
        low < high,
    ensures
        x >= low ==> (x - low) / (high - low) >= 0 as real,
        x <= high ==> (x - low) / (high - low) <= 1 as real,
        x <= low ==> (x - low) / (high - low) <= 0 as real,
        x >= high ==> (x - low) / (high - low) >= 1 as real,
{
    let d = high - low;
    let n = x - low;
    let q = n / d;
    assert(q * d == n) by (nonlinear_arith)
        requires
            q == n / d,
            d > 0 as real,
    ;
    if n >= 0 as real {
        assert(q >= 0 as real) by (nonlinear_arith)
            requires
                q * d == n,
                n >= 0 as real,
                d > 0 as real,
        ;
    }
    if n <= 0 as real {
        assert(q <= 0 as real) by (nonlinear_arith)
            requires
                q * d == n,
                n <= 0 as real,
                d > 0 as real,
        ;
    }
    if n <= d {
        assert(q <= 1 as real) by (nonlinear_arith)
            requires
                q * d == n,
                n <= d,
                d > 0 as real,
        ;
    }
    if n >= d {
        assert(q >= 1 as real) by (nonlinear_arith)
            requires
                q * d == n,
                n >= d,
                d > 0 as real,
        ;
    }
}

/// With a scale factor of one the bands change nothing.
pub proof fn law_unit_scale_keeps_the_frequency<S: Scalar>(
    val: spec_fn(S) -> real,
    base: S,
    scale_factor: S,
    low_freq_factor: S,
    high_freq_factor: S,
    original_max_position: S,
)
    requires
        models_reals(val),
        val(scale_factor) == 1 as real,
    ensures
        val(
            banded_frequency(
                base,
                scale_factor,
                low_freq_factor,
                high_freq_factor,
                original_max_position,
            ),
        ) == val(base),
{
    let wavelen = over(two_pi(), base);
    let low = over(original_max_position, low_freq_factor);
    let high = over(original_max_position, high_freq_factor);
    let scaled = over(base, scale_factor);
    let s = over(
        minus(over(original_max_position, wavelen), low_freq_factor),
        minus(high_freq_factor, low_freq_factor),
    );
    let rest = minus(one(), s);
    let smoothed = plus(times(rest, scaled), times(s, base));
    lemma_val_constants(val, 0);
    lemma_val_over(val, base, scale_factor);
    lemma_val_plus(val, one(), s);
    lemma_val_plus(val, rest, scaled);
    lemma_val_plus(val, s, base);
    lemma_val_plus(val, times(rest, scaled), times(s, base));
    let b = val(base);
    let q = val(s);
    assert(b / (1 as real) == b) by (nonlinear_arith);
    assert((1 as real - q) * b + q * b == b) by (nonlinear_arith);
    let short = S::chosen(below(wavelen, high), base, smoothed);
    lemma_val_select(val, wavelen, high, base, smoothed);
    lemma_val_select(val, low, wavelen, scaled, short);
}

/// The bands slow a wave down at most by the scale factor, and never speed one up: long
/// waves by all of it, short ones not at all.
pub proof fn law_bands_slow_down<S: Scalar>(
    val: spec_fn(S) -> real,
    base: S,
    scale_factor: S,
    low_freq_factor: S,
    high_freq_factor: S,
    original_max_position: S,
)
    requires
        models_reals(val),
        val(base) > 0 as real,
        val(scale_factor) >= 1 as real,
        (0 as real) < val(low_freq_factor) < val(high_freq_factor),
        val(original_max_position) > 0 as real,
    ensures
        ({
            let f = val(
                banded_frequency(
                    base,
                    scale_factor,
                    low_freq_factor,
                    high_freq_factor,
                    original_max_position,
                ),
            );
            let wavelen = val(two_pi::<S>()) / val(base);
            &&& val(base) / val(scale_factor) <= f <= val(base)
            &&& wavelen > val(original_max_position) / val(low_freq_factor) ==> f == val(base)
                / val(scale_factor)
            &&& wavelen < val(original_max_position) / val(high_freq_factor) ==> f == val(base)
        }),
{
    let wavelen = over(two_pi(), base);
    let low = over(original_max_position, low_freq_factor);
    let high = over(original_max_position, high_freq_factor);
    let scaled = over(base, scale_factor);
    let num = minus(over(original_max_position, wavelen), low_freq_factor);
    let den = minus(high_freq_factor, low_freq_factor);
    let s = over(num, den);
    let rest = minus(one(), s);
    let smoothed = plus(times(rest, scaled), times(s, base));
    let short = S::chosen(below(wavelen, high), base, smoothed);
    lemma_val_constants(val, 0);
    lemma_turn_is_positive(val);
    let b = val(base);
    let turn = val(two_pi::<S>());
    lemma_val_over(val, two_pi(), base);
    let w = val(wavelen);
    assert(w > 0 as real) by (nonlinear_arith)
        requires
            w == turn / b,
            turn > 0 as real,
            b > 0 as real,
    ;
    lemma_val_over(val, original_max_position, low_freq_factor);
    lemma_val_over(val, original_max_position, high_freq_factor);
    lemma_val_over(val, original_max_position, wavelen);
    lemma_val_over(val, base, scale_factor);
    lemma_quotient_at_most(b, val(scale_factor));
    lemma_val_plus(val, over(original_max_position, wavelen), low_freq_factor);
    lemma_val_plus(val, high_freq_factor, low_freq_factor);
    lemma_val_over(val, num, den);
    lemma_val_plus(val, one(), s);
    lemma_val_plus(val, rest, scaled);
    lemma_val_plus(val, s, base);
    lemma_val_plus(val, times(rest, scaled), times(s, base));
    lemma_val_select(val, wavelen, high, base, smoothed);
    lemma_val_select(val, low, wavelen, scaled, short);
    let m = val(original_max_position);
    let lf = val(low_freq_factor);
    let hf = val(high_freq_factor);
    lemma_divisors_swap(m, w, lf);
    lemma_divisors_swap(m, w, hf);
    lemma_share_of(m / w, lf, hf);
    lemma_factors_order(m, lf, hf);
    if m / hf <= w <= m / lf {
        lemma_blend(val(scaled), b, val(s));
    }
}

proof fn lemma_turn_is_positive<S: Scalar>(val: spec_fn(S) -> real)
    requires
        models_reals(val),
    ensures
        val(two_pi::<S>()) > 0 as real,
{
    let n = 6283185307179586i64;
    let d = 1000000000000000u64;
    lemma_val_rational(val, n, d);
    let x = n as real;
    let y = d as real;
    assert(x / y > 0 as real) by (nonlinear_arith)
        requires
            x > 0 as real,
            y > 0 as real,
    ;
}

proof fn lemma_factors_order(m: real, low: real, high: real)
    requires
        m > 0 as real,
        (0 as real) < low < high,
    ensures
        m / high < m / low,
{
    let p = m / low;
    let q = m / high;
    assert(p * low == m) by (nonlinear_arith)
        requires
            p == m / low,
            low > 0 as real,
    ;
    assert(q * high == m) by (nonlinear_arith)
        requires
            q == m / high,
            high > 0 as real,
    ;
    assert(q < p) by (nonlinear_arith)
        requires
            p * low == m,
            q * high == m,
            m > 0 as real,
            (0 as real) < low < high,
    ;
}

/// The ramp stays between zero, up to `low`, and one, from `high` on.
pub proof fn law_ramp_is_a_share<S: Scalar>(val: spec_fn(S) -> real, i: u32, low: S, high: S)
    requires
        models_reals(val),
        val(low) < val(high),
    ensures
        0 as real <= val(ramp_of(i, low, high)) <= 1 as real,
        i as real <= val(low) ==> val(ramp_of(i, low, high)) == 0 as real,
        i as real >= val(high) ==> val(ramp_of(i, low, high)) == 1 as real,
{
    lemma_val_constants(val, i);
    let num = minus(S::natural(i), low);
    let den = minus(high, low);
    let t = over(num, den);
    lemma_val_plus(val, S::natural(i), low);
    lemma_val_plus(val, high, low);
    lemma_val_over(val, num, den);
    lemma_share_of(i as real, val(low), val(high));
    let upper = S::chosen(above(t, one()), one(), t);
    lemma_val_select(val, one(), t, one(), t);
    lemma_val_select(val, t, zero(), zero(), upper);
}

/// The ramp leads from the base frequency to that divided by the factor, and never
/// leaves the range between them.
pub proof fn law_ramp_slows_down<S: Scalar>(val: spec_fn(S) -> real, base: S, factor: S, ramp: S)
    requires
        models_reals(val),
        val(base) >= 0 as real,
        val(factor) >= 1 as real,
        0 as real <= val(ramp) <= 1 as real,
    ensures
        val(base) / val(factor) <= val(ramped_frequency(base, factor, ramp)) <= val(base),
        val(ramp) == 0 as real ==> val(ramped_frequency(base, factor, ramp)) == val(base),
        val(ramp) == 1 as real ==> val(ramped_frequency(base, factor, ramp)) == val(base) / val(
            factor,
        ),
        val(factor) == 1 as real ==> val(ramped_frequency(base, factor, ramp)) == val(base),
{
    lemma_val_constants(val, 0);
    let slow = over(base, factor);
    let rest = minus(one(), ramp);
    lemma_val_over(val, base, factor);
    lemma_val_plus(val, one(), ramp);
    lemma_val_plus(val, slow, ramp);
    lemma_val_plus(val, base, rest);
    lemma_val_plus(val, times(slow, ramp), times(base, rest));
    let a = val(slow);
    let b = val(base);
    let r = val(ramp);
    lemma_quotient_at_most(b, val(factor));
    assert(a * r + b * (1 as real - r) == (1 as real - (1 as real - r)) * a + (1 as real - r) * b)
        by (nonlinear_arith);
    lemma_blend(a, b, 1 as real - r);
    if r == 0 as real {
        assert(a * r + b * (1 as real - r) == b) by (nonlinear_arith)
            requires
                r == 0 as real,
        ;
    }
    if r == 1 as real {
        assert(a * r + b * (1 as real - r) == a) by (nonlinear_arith)
            requires
                r == 1 as real,
        ;
    }
}

} // verus!
