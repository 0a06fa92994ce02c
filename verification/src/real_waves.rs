//! How fast the rotary embeddings turn each pair, and which two elements a pair is.
use vstd::prelude::*;

use crate::layout::{lemma_row_major, lemma_row_major_inverse};
use crate::real_model::{
    lemma_val_constants, lemma_val_over, lemma_val_plus, lemma_val_rational, lemma_val_select,
    models_reals,
};
use crate::rope::{
    banded_frequency, base_frequency, llama_turned, ramp_of, ramped_frequency, two_pi, yarn_turned,
};
use crate::scalar::{above, below, minus, one, over, plus, times, zero, Element, Fun, Scalar};

verus! {

/// Powers of two and their logarithms: sums go to products, the power of a logarithm is the
/// number itself, and negation gives the opposite.
#[verifier::opaque]
pub open spec fn raises<S: Scalar>(val: spec_fn(S) -> real) -> bool {
    &&& forall|a: S| #[trigger] val(S::applied(Fun::Neg, a)) == -val(a)
    &&& forall|a: S| val(a) == 0 as real ==> #[trigger] val(S::applied(Fun::Exp2, a)) == 1 as real
    &&& forall|a: S, b: S, c: S|
        #![trigger val(S::applied(Fun::Exp2, a)), val(S::applied(Fun::Exp2, b)), val(
            S::applied(Fun::Exp2, c),
        )]
        val(c) == val(a) + val(b) ==> val(S::applied(Fun::Exp2, c)) == val(
            S::applied(Fun::Exp2, a),
        ) * val(S::applied(Fun::Exp2, b))
    &&& forall|a: S, b: S|
        #![trigger val(S::applied(Fun::Exp2, a)), val(S::applied(Fun::Log2, b))]
        val(b) > 0 as real && val(a) == val(S::applied(Fun::Log2, b)) ==> val(
            S::applied(Fun::Exp2, a),
        ) == val(b)
}

spec fn exponent<S: Scalar>(i: u32, half: u32, theta_base: S) -> S {
    over(
        times(S::applied(Fun::Neg, S::natural(i)), S::applied(Fun::Log2, theta_base)),
        S::natural(half),
    )
}

proof fn lemma_exponent<S: Scalar>(val: spec_fn(S) -> real, i: u32, half: u32, theta_base: S)
    requires
        models_reals(val),
        raises(val),
        0 < half,
    ensures
        val(exponent(i, half, theta_base)) * (half as real) == -(i as real) * val(
            S::applied(Fun::Log2, theta_base),
        ),
{
    reveal(raises);
    lemma_val_constants(val, i);
    lemma_val_constants(val, half);
    let back = S::applied(Fun::Neg, S::natural(i));
    let log = S::applied(Fun::Log2, theta_base);
    lemma_val_plus(val, back, log);
    lemma_val_over(val, times(back, log), S::natural(half));
    let (p, q) = (val(times(back, log)), half as real);
    assert((p / q) * q == p) by (nonlinear_arith)
        requires
            q > 0 as real,
    ;
}

proof fn lemma_cancel(a: real, b: real, q: real)
    requires
        q > 0 as real,
        a * q == b * q,
    ensures
        a == b,
{
    assert(a == b) by (nonlinear_arith)
        requires
            q > 0 as real,
            a * q == b * q,
    ;
}

/// The base frequencies are the powers of the base: the first pair turns by one, the
/// frequency of pair `i + j` is the product of those of pairs `i` and `j`, and `half` pairs
/// on it has fallen by the whole base.
pub proof fn law_frequencies_are_powers<S: Scalar>(
    val: spec_fn(S) -> real,
    i: u32,
    j: u32,
    half: u32,
    theta_base: S,
)
    requires
        models_reals(val),
        raises(val),
        0 < half,
        i + j <= u32::MAX,
        val(theta_base) > 0 as real,
    ensures
        val(base_frequency(0, half, theta_base)) == 1 as real,
        val(base_frequency((i + j) as u32, half, theta_base)) == val(
            base_frequency(i, half, theta_base),
        ) * val(base_frequency(j, half, theta_base)),
        val(base_frequency(half, half, theta_base)) * val(theta_base) == 1 as real,
{
    let q = half as real;
    let log = S::applied(Fun::Log2, theta_base);
    let l = val(log);
    lemma_exponent(val, 0, half, theta_base);
    lemma_exponent(val, i, half, theta_base);
    lemma_exponent(val, j, half, theta_base);
    lemma_exponent(val, (i + j) as u32, half, theta_base);
    lemma_exponent(val, half, half, theta_base);
    let (a, b) = (val(exponent(i, half, theta_base)), val(exponent(j, half, theta_base)));
    let c = val(exponent((i + j) as u32, half, theta_base));
    let z = val(exponent(0, half, theta_base));
    let e = val(exponent(half, half, theta_base));
    assert(z == 0 as real) by (nonlinear_arith)
        requires
            z * q == -(0 as real) * l,
            q > 0 as real,
    ;
    let (x, y) = (i as real, j as real);
    assert(c * q == (a + b) * q) by (nonlinear_arith)
        requires
            a * q == -x * l,
            b * q == -y * l,
            c * q == -(x + y) * l,
    ;
    lemma_cancel(c, a + b, q);
    assert(e * q == (-l) * q) by (nonlinear_arith)
        requires
            e * q == -q * l,
    ;
    lemma_cancel(e, -l, q);
    reveal(raises);
    let nothing = exponent(0, half, theta_base);
    let whole = exponent(half, half, theta_base);
    assert(val(S::applied(Fun::Exp2, log)) == val(theta_base));
    assert(val(nothing) == val(whole) + val(log));
    assert(val(S::applied(Fun::Exp2, nothing)) == val(S::applied(Fun::Exp2, whole)) * val(
        S::applied(Fun::Exp2, log),
    ));
    let first = S::applied(Fun::Exp2, exponent(i, half, theta_base));
    let second = S::applied(Fun::Exp2, exponent(j, half, theta_base));
    let both = S::applied(Fun::Exp2, exponent((i + j) as u32, half, theta_base));
    assert(val(both) == val(first) * val(second));
}

/// Between the bands a frequency is blended by how many of its waves fit into the original
/// length: `s` goes from nothing at `low_freq_factor` waves to one at `high_freq_factor`,
/// and the frequency is `base` by the share `s` and `base / scale_factor` by the rest. A
/// wave is a full turn.
pub proof fn law_middle_band_blends<S: Scalar>(
    val: spec_fn(S) -> real,
    base: S,
    scale_factor: S,
    low_freq_factor: S,
    high_freq_factor: S,
    original_max_position: S,
    waves: real,
    s: real,
)
    requires
        models_reals(val),
        val(base) > 0 as real,
        val(scale_factor) > 0 as real,
        0real < val(low_freq_factor) < val(high_freq_factor),
        val(original_max_position) > 0 as real,
        waves * (6283185307179586int as real) == (val(original_max_position) * val(base))
            * (1000000000000000int as real),
        val(low_freq_factor) <= waves <= val(high_freq_factor),
        s * (val(high_freq_factor) - val(low_freq_factor)) == waves - val(low_freq_factor),
    ensures
        val(
            banded_frequency(
                base,
                scale_factor,
                low_freq_factor,
                high_freq_factor,
                original_max_position,
            ),
        ) == (1real - s) * (val(base) / val(scale_factor)) + s * val(base),
{
    let (b, k) = (val(base), val(scale_factor));
    let (lo, hi) = (val(low_freq_factor), val(high_freq_factor));
    let m = val(original_max_position);
    lemma_val_constants(val, 0);
    lemma_val_rational(val, 6283185307179586, 1000000000000000);
    let turn = val(two_pi::<S>());
    let (up, down) = (6283185307179586int as real, 1000000000000000int as real);
    assert(turn == up / down);
    assert(turn > 0 as real && turn * down == up) by (nonlinear_arith)
        requires
            turn == up / down,
            up > 0 as real,
            down > 0 as real,
    ;
    let wavelen = over(two_pi(), base);
    lemma_val_over(val, two_pi(), base);
    let w = val(wavelen);
    assert(w * b == turn && w > 0 as real) by (nonlinear_arith)
        requires
            w == turn / b,
            b > 0 as real,
            turn > 0 as real,
    ;
    let low = over(original_max_position, low_freq_factor);
    let high = over(original_max_position, high_freq_factor);
    lemma_val_over(val, original_max_position, low_freq_factor);
    lemma_val_over(val, original_max_position, high_freq_factor);
    let fit = over(original_max_position, wavelen);
    lemma_val_over(val, original_max_position, wavelen);
    let f = val(fit);
    assert(f * w == m) by (nonlinear_arith)
        requires
            f == m / w,
            w > 0 as real,
    ;
    lemma_waves(f, w, b, m, turn, up, down, waves);
    lemma_band_bound(m, lo, w, waves);
    lemma_band_bound(m, hi, w, waves);
    let num = minus(fit, low_freq_factor);
    let den = minus(high_freq_factor, low_freq_factor);
    lemma_val_plus(val, fit, low_freq_factor);
    lemma_val_plus(val, high_freq_factor, low_freq_factor);
    let share = over(num, den);
    lemma_val_over(val, num, den);
    let (p, q) = (val(num), val(den));
    let sv = val(share);
    assert(sv * q == p) by (nonlinear_arith)
        requires
            sv == p / q,
            q > 0 as real,
    ;
    lemma_cancel(sv, s, q);
    let scaled = over(base, scale_factor);
    lemma_val_over(val, base, scale_factor);
    let rest = minus(one(), share);
    lemma_val_plus(val, one(), share);
    lemma_val_plus(val, rest, scaled);
    lemma_val_plus(val, share, base);
    let smoothed = plus(times(rest, scaled), times(share, base));
    lemma_val_plus(val, times(rest, scaled), times(share, base));
    let short = S::chosen(below(wavelen, high), base, smoothed);
    lemma_val_select(val, wavelen, high, base, smoothed);
    lemma_val_select(val, low, wavelen, scaled, short);
}

proof fn lemma_waves(
    f: real,
    w: real,
    b: real,
    m: real,
    turn: real,
    up: real,
    down: real,
    waves: real,
)
    requires
        f * w == m,
        w * b == turn,
        turn * down == up,
        waves * up == (m * b) * down,
        up > 0 as real,
    ensures
        f == waves,
{
    assert(m * b == f * turn) by (nonlinear_arith)
        requires
            f * w == m,
            w * b == turn,
    ;
    assert((f * turn) * down == f * up) by (nonlinear_arith)
        requires
            turn * down == up,
    ;
    lemma_cancel(f, waves, up);
}

proof fn lemma_band_bound(m: real, limit: real, w: real, waves: real)
    requires
        limit > 0 as real,
        w > 0 as real,
        waves * w == m,
    ensures
        limit <= waves ==> w <= m / limit,
        waves <= limit ==> w >= m / limit,
{
    let q = m / limit;
    assert(q * limit == m) by (nonlinear_arith)
        requires
            q == m / limit,
            limit > 0 as real,
    ;
    assert(limit <= waves ==> w <= q) by (nonlinear_arith)
        requires
            q * limit == waves * w,
            limit > 0 as real,
            w > 0 as real,
    ;
    assert(waves <= limit ==> w >= q) by (nonlinear_arith)
        requires
            q * limit == waves * w,
            limit > 0 as real,
            w > 0 as real,
    ;
}

/// The ramp is the share of the way from `low` to `high` at which pair `i` lies, and the
/// frequency after it is `base / factor` by that share and `base` by the rest.
pub proof fn law_ramp_blends<S: Scalar>(
    val: spec_fn(S) -> real,
    i: u32,
    low: S,
    high: S,
    base: S,
    factor: S,
    r: real,
)
    requires
        models_reals(val),
        val(low) <= i as real <= val(high),
        val(low) < val(high),
        val(factor) != 0 as real,
        r * (val(high) - val(low)) == (i as real) - val(low),
    ensures
        val(ramped_frequency(base, factor, ramp_of(i, low, high))) == (val(base) / val(factor)) * r
            + val(base) * (1real - r),
{
    lemma_val_constants(val, i);
    let num = minus(S::natural(i), low);
    let den = minus(high, low);
    let t = over(num, den);
    lemma_val_plus(val, S::natural(i), low);
    lemma_val_plus(val, high, low);
    lemma_val_over(val, num, den);
    let (p, q, v) = (val(num), val(den), val(t));
    assert(v * q == p) by (nonlinear_arith)
        requires
            v == p / q,
            q > 0 as real,
    ;
    lemma_cancel(v, r, q);
    assert(0real <= r <= 1real) by (nonlinear_arith)
        requires
            r * q == p,
            0real <= p <= q,
            q > 0 as real,
    ;
    let upper = S::chosen(above(t, one()), one(), t);
    lemma_val_select(val, one(), t, one(), t);
    lemma_val_select(val, t, zero(), zero(), upper);
    let ramp = ramp_of(i, low, high);
    assert(val(ramp) == r);
    let slow = over(base, factor);
    let rest = minus(one(), ramp);
    lemma_val_over(val, base, factor);
    lemma_val_plus(val, one(), ramp);
    lemma_val_plus(val, slow, ramp);
    lemma_val_plus(val, base, rest);
    lemma_val_plus(val, times(slow, ramp), times(base, rest));
}

/// A pair of head `h` is its elements `i` and `i + half`; the banded embedding turns it,
/// counter-clockwise, by the position times the pair's frequency.
pub proof fn law_llama_turns_its_pairs<S: Scalar, T: Element<S>>(
    qk: Seq<T>,
    n_heads: int,
    half: u32,
    position: u32,
    theta_base: S,
    scale_factor: S,
    low_freq_factor: S,
    high_freq_factor: S,
    original_max_position: S,
    h: int,
    i: int,
)
    requires
        qk.len() == n_heads * (2 * half),
        0 <= h < n_heads,
        0 <= i < half,
    ensures
        ({
            let out = llama_turned::<S, T>(
                qk,
                half,
                position,
                theta_base,
                scale_factor,
                low_freq_factor,
                high_freq_factor,
                original_max_position,
            );
            let angle = times(
                S::natural(position),
                banded_frequency(
                    base_frequency(i as u32, half, theta_base),
                    scale_factor,
                    low_freq_factor,
                    high_freq_factor,
                    original_max_position,
                ),
            );
            let (cos, sin) = (S::applied(Fun::Cos, angle), S::applied(Fun::Sin, angle));
            let first = h * (2 * half) + i;
            let (a, b) = (qk[first].widened(), qk[first + half].widened());
            &&& out[first] == T::narrowed(minus(times(a, cos), times(b, sin)))
            &&& out[first + half] == T::narrowed(plus(times(a, sin), times(b, cos)))
        }),
{
    lemma_row_major(h, n_heads, i, 2 * half as int);
    lemma_row_major(h, n_heads, i + half, 2 * half as int);
    lemma_row_major_inverse(h, i, 2 * half as int);
    lemma_row_major_inverse(h, i + half, 2 * half as int);
}

/// A pair of head `h` is its elements `i` and `i + half`; the ramped embedding turns it,
/// counter-clockwise, by the position times the pair's frequency, and scales it by
/// `attn_factor`.
pub proof fn law_yarn_turns_its_pairs<S: Scalar, T: Element<S>>(
    qk: Seq<T>,
    n_heads: int,
    half: u32,
    position: u32,
    theta_base: S,
    factor: S,
    low: S,
    high: S,
    attn_factor: S,
    h: int,
    i: int,
)
    requires
        qk.len() == n_heads * (2 * half),
        0 <= h < n_heads,
        0 <= i < half,
    ensures
        ({
            let out = yarn_turned::<S, T>(
                qk,
                half,
                position,
                theta_base,
                factor,
                low,
                high,
                attn_factor,
            );
            let angle = times(
                S::natural(position),
                ramped_frequency(
                    base_frequency(i as u32, half, theta_base),
                    factor,
                    ramp_of(i as u32, low, high),
                ),
            );
            let cos = times(S::applied(Fun::Cos, angle), attn_factor);
            let sin = times(S::applied(Fun::Sin, angle), attn_factor);
            let first = h * (2 * half) + i;
            let (a, b) = (qk[first].widened(), qk[first + half].widened());
            &&& out[first] == T::narrowed(minus(times(a, cos), times(b, sin)))
            &&& out[first + half] == T::narrowed(plus(times(a, sin), times(b, cos)))
        }),
{
    lemma_row_major(h, n_heads, i, 2 * half as int);
    lemma_row_major(h, n_heads, i + half, 2 * half as int);
    lemma_row_major_inverse(h, i, 2 * half as int);
    lemma_row_major_inverse(h, i + half, 2 * half as int);
}

} // verus!
