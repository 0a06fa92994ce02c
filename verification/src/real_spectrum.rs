//! What the mel spectrograms are for: a tone is heard in its own bin and in no other, and
//! a frame is the spectrum of its own samples.
use vstd::prelude::*;

use crate::lanes::{accumulate, lemma_accumulate_same};
use crate::layout::{lemma_row_major_inverse, same_run};
use crate::mel_spectrogram::{
    angle_step, dft, dft_terms, mel_value, minus_two_pi, power_of, spectrum_of, MelShape, Spectrum,
};
use crate::real_model::{
    lemma_val_constants, lemma_val_over, lemma_val_plus, lemma_val_rational, models_reals,
};
use crate::real_norm_rope::lemma_same_turn;
use crate::real_rotation::{lies_between, total, turns};
use crate::scalar::{over, plus, times, zero, Element, Fun, Scalar};

verus! {

/// Frame `f` of one signal and frame `g` of another come out the same where they hold the
/// same samples, whatever the hop of either signal is.
pub proof fn law_frame_is_heard_alone<S: Scalar, T: Element<S>>(
    a_audio: Seq<T>,
    a_hop: u32,
    a_frames: u32,
    f: int,
    b_audio: Seq<T>,
    b_hop: u32,
    b_frames: u32,
    g: int,
    window: Seq<T>,
    mel_weight: Seq<T>,
    log_eps: S,
    kind: Spectrum,
    n_fft: u32,
    n_freq: u32,
    n_mels: u32,
    mel: int,
)
    requires
        0 <= f,
        0 <= g,
        0 <= mel < n_mels,
        same_run(a_audio, f * a_hop, b_audio, g * b_hop, n_fft as int),
    ensures
        mel_value::<S, T>(
            a_audio,
            window,
            mel_weight,
            (MelShape { n_fft, n_freq, n_mels, hop_length: a_hop, n_frames: a_frames }),
            log_eps,
            kind,
            f * n_mels + mel,
        ) == mel_value::<S, T>(
            b_audio,
            window,
            mel_weight,
            (MelShape { n_fft, n_freq, n_mels, hop_length: b_hop, n_frames: b_frames }),
            log_eps,
            kind,
            g * n_mels + mel,
        ),
{
    let a = MelShape { n_fft, n_freq, n_mels, hop_length: a_hop, n_frames: a_frames };
    let b = MelShape { n_fft, n_freq, n_mels, hop_length: b_hop, n_frames: b_frames };
    lemma_row_major_inverse(f, mel, n_mels as int);
    lemma_row_major_inverse(g, mel, n_mels as int);
    assert forall|wave: Fun, k: u32| #[trigger]
        dft::<S, T>(a_audio, window, a, wave, f, k) == dft::<S, T>(
            b_audio,
            window,
            b,
            wave,
            g,
            k,
        ) by {
        lemma_accumulate_same(
            zero(),
            dft_terms::<S, T>(a_audio, window, a, wave, f, k),
            dft_terms::<S, T>(b_audio, window, b, wave, g, k),
            n_fft as int,
        );
    }
    let x = |k: int|
        times(
            mel_weight[mel * n_freq + k].widened(),
            spectrum_of::<S, T>(a_audio, window, a, kind, f, k as u32),
        );
    let y = |k: int|
        times(
            mel_weight[mel * n_freq + k].widened(),
            spectrum_of::<S, T>(b_audio, window, b, kind, g, k as u32),
        );
    assert forall|k: int| 0 <= k < n_freq implies #[trigger] x(k) == y(k) by {
        assert(dft::<S, T>(a_audio, window, a, Fun::Cos, f, k as u32) == dft::<S, T>(
            b_audio,
            window,
            b,
            Fun::Cos,
            g,
            k as u32,
        ));
        assert(dft::<S, T>(a_audio, window, a, Fun::Sin, f, k as u32) == dft::<S, T>(
            b_audio,
            window,
            b,
            Fun::Sin,
            g,
            k as u32,
        ));
    }
    lemma_accumulate_same(zero(), x, y, n_freq as int);
}

/// `m` full turns.
pub open spec fn full_turns(m: int) -> real {
    (m as real) * (6283185307179586real / 1000000000000000real)
}

/// The cosine is one at full turns, and nowhere else.
#[verifier::opaque]
pub open spec fn turns_around<S: Scalar>(val: spec_fn(S) -> real) -> bool {
    forall|a: S|
        (#[trigger] val(S::applied(Fun::Cos, a)) == 1 as real) == (exists|m: int|
            val(a) == #[trigger] full_turns(m))
}

/// The angle of sample `t` of a wave that goes round `m` times in `n` samples.
spec fn wave_angle<S: Scalar>(n: u32, m: int, t: int) -> S {
    times(
        times(
            over(S::rational(6283185307179586, 1000000000000000), S::natural(n)),
            S::rational(m as i64, 1),
        ),
        S::natural(t as u32),
    )
}

spec fn cosine_at<S: Scalar>(val: spec_fn(S) -> real, n: u32, m: int) -> spec_fn(int) -> real {
    |t: int| val(S::applied(Fun::Cos, wave_angle(n, m, t)))
}

spec fn sine_at<S: Scalar>(val: spec_fn(S) -> real, n: u32, m: int) -> spec_fn(int) -> real {
    |t: int| val(S::applied(Fun::Sin, wave_angle(n, m, t)))
}

proof fn lemma_wave_angle<S: Scalar>(val: spec_fn(S) -> real, n: u32, m: int, t: int)
    requires
        models_reals(val),
        0 < n,
        i64::MIN <= m <= i64::MAX,
        0 <= t <= u32::MAX,
    ensures
        val(wave_angle::<S>(n, m, t)) == (full_turns(1) / (n as real)) * (m as real) * (
        t as real),
{
    let tau = S::rational(6283185307179586, 1000000000000000);
    lemma_val_rational(val, 6283185307179586, 1000000000000000);
    lemma_val_rational(val, m as i64, 1);
    lemma_val_constants(val, n);
    lemma_val_constants(val, t as u32);
    lemma_val_over(val, tau, S::natural(n));
    let step = over(tau, S::natural(n));
    let whole = S::rational(m as i64, 1);
    lemma_val_plus(val, step, whole);
    lemma_val_plus(val, times(step, whole), S::natural(t as u32));
    let x = m as real;
    assert(x / 1real == x) by (nonlinear_arith);
    let y = 6283185307179586real / 1000000000000000real;
    assert(1real * y == y) by (nonlinear_arith);
}

proof fn lemma_regroup(c: real, t: real)
    ensures
        c * (t + 1real) - c * 1real == c * t,
        c * 0real == 0real,
{
    assert(c * (t + 1real) - c * 1real == c * t) by (nonlinear_arith);
    assert(c * 0real == 0real) by (nonlinear_arith);
}

/// One sample later the wave has turned once more by its first angle.
proof fn lemma_wave_step<S: Scalar>(val: spec_fn(S) -> real, n: u32, m: int, t: int)
    requires
        models_reals(val),
        turns(val),
        0 < n,
        i64::MIN <= m <= i64::MAX,
        0 <= t < u32::MAX,
    ensures
        ({
            let (c, s) = (cosine_at(val, n, m), sine_at(val, n, m));
            &&& c(t) == c(t + 1) * c(1) + s(t + 1) * s(1)
            &&& s(t) == s(t + 1) * c(1) - c(t + 1) * s(1)
        }),
{
    lemma_wave_angle(val, n, m, t);
    lemma_wave_angle(val, n, m, t + 1);
    lemma_wave_angle(val, n, m, 1);
    lemma_regroup((full_turns(1) / (n as real)) * (m as real), t as real);
    reveal(turns);
    assert(lies_between(
        val,
        wave_angle::<S>(n, m, t + 1),
        wave_angle::<S>(n, m, 1),
        wave_angle::<S>(n, m, t),
    ));
}

/// The sum over a wave from one sample later.
spec fn later(f: spec_fn(int) -> real, n: int) -> real
    decreases n,
{
    if n <= 0 {
        0 as real
    } else {
        later(f, n - 1) + f(n)
    }
}

proof fn lemma_later(f: spec_fn(int) -> real, n: int)
    requires
        0 <= n,
    ensures
        later(f, n) == total(f, n) - f(0) + f(n),
    decreases n,
{
    if n > 0 {
        lemma_later(f, n - 1);
    }
}

proof fn lemma_turned_sum(
    p: real,
    q: real,
    x: real,
    y: real,
    p1: real,
    q1: real,
    u: real,
    v: real,
)
    requires
        p1 == p + u,
        q1 == q + v,
    ensures
        (p * x + q * y) + (u * x + v * y) == p1 * x + q1 * y,
        (q * x - p * y) + (v * x - u * y) == q1 * x - p1 * y,
{
    assert((p + u) * x == p * x + u * x) by (nonlinear_arith);
    assert((q + v) * y == q * y + v * y) by (nonlinear_arith);
    assert((q + v) * x == q * x + v * x) by (nonlinear_arith);
    assert((p + u) * y == p * y + u * y) by (nonlinear_arith);
}

/// The sums over a wave, by the sums over the wave one sample later.
proof fn lemma_wave_shift<S: Scalar>(val: spec_fn(S) -> real, n: u32, m: int, count: int)
    requires
        models_reals(val),
        turns(val),
        0 < n,
        i64::MIN <= m <= i64::MAX,
        0 <= count <= n,
    ensures
        ({
            let (c, s) = (cosine_at(val, n, m), sine_at(val, n, m));
            &&& total(c, count) == later(c, count) * c(1) + later(s, count) * s(1)
            &&& total(s, count) == later(s, count) * c(1) - later(c, count) * s(1)
        }),
    decreases count,
{
    let (c, s) = (cosine_at(val, n, m), sine_at(val, n, m));
    if count > 0 {
        lemma_wave_shift(val, n, m, count - 1);
        lemma_wave_step(val, n, m, count - 1);
        lemma_turned_sum(
            later(c, count - 1),
            later(s, count - 1),
            c(1),
            s(1),
            later(c, count),
            later(s, count),
            c(count),
            s(count),
        );
    } else {
        lemma_nothing(c(1));
        lemma_nothing(s(1));
    }
}

proof fn lemma_nothing(x: real)
    ensures
        0real * x == 0real,
        x * 0real == 0real,
{
    assert(0real * x == 0real) by (nonlinear_arith);
    assert(x * 0real == 0real) by (nonlinear_arith);
}

proof fn lemma_less(c: real, x: real)
    ensures
        c * (1real - x) == c - c * x,
{
    assert(c * (1real - x) == c - c * x) by (nonlinear_arith);
}

proof fn lemma_cross(c: real, z: real, y: real, d: real)
    requires
        c * d == z * y,
        z * d == -(c * y),
    ensures
        (c * c + z * z) * d == 0real,
{
    assert((c * c + z * z) * d == c * (c * d) + z * (z * d)) by (nonlinear_arith);
    let (p, q) = (z * y, c * y);
    assert(c * p - z * q == 0real) by (nonlinear_arith)
        requires
            p == z * y,
            q == c * y,
    ;
    assert(z * (-q) == -(z * q)) by (nonlinear_arith);
}

proof fn lemma_zero_factor(e: real, d: real)
    requires
        e * d == 0real,
        d != 0real,
    ensures
        e == 0real,
{
    assert(e == 0real) by (nonlinear_arith)
        requires
            e * d == 0real,
            d != 0real,
    ;
}

proof fn lemma_no_squares(c: real, z: real)
    requires
        c * c + z * z == 0real,
    ensures
        c == 0real,
        z == 0real,
{
    assert(c * c >= 0real && z * z >= 0real) by (nonlinear_arith);
    if c != 0real {
        assert(c * c > 0real) by (nonlinear_arith)
            requires
                c != 0real,
        ;
    }
    if z != 0real {
        assert(z * z > 0real) by (nonlinear_arith)
            requires
                z != 0real,
        ;
    }
}

/// Sums that a turn leaves as they are vanish.
proof fn lemma_vanish(c: real, z: real, x: real, y: real)
    requires
        c == c * x + z * y,
        z == z * x - c * y,
        x != 1 as real,
    ensures
        c == 0 as real,
        z == 0 as real,
{
    let d = 1real - x;
    lemma_less(c, x);
    lemma_less(z, x);
    assert(c * d == z * y);
    assert(z * d == -(c * y));
    lemma_cross(c, z, y, d);
    let e = c * c + z * z;
    lemma_zero_factor(e, d);
    lemma_no_squares(c, z);
}

/// Where the cosine is one the sine is zero.
proof fn lemma_sine_vanishes<S: Scalar>(val: spec_fn(S) -> real, a: S)
    requires
        models_reals(val),
        turns(val),
        val(S::applied(Fun::Cos, a)) == 1 as real,
    ensures
        val(S::applied(Fun::Sin, a)) == 0 as real,
{
    lemma_val_constants(val, 0);
    reveal(turns);
    assert(lies_between(val, a, a, zero()));
    let y = val(S::applied(Fun::Sin, a));
    assert(1real * 1real == 1real) by (nonlinear_arith);
    assert(0real * 0real == 0real) by (nonlinear_arith);
    lemma_no_squares(y, 0real);
}

proof fn lemma_unit_turn(turn: real, x: real)
    requires
        x > 0real,
    ensures
        (turn / x) * x == turn,
{
    assert((turn / x) * x == turn) by (nonlinear_arith)
        requires
            x > 0real,
    ;
}

/// A factor other than zero cancels.
proof fn lemma_cancel(c: real, y: real, w: real, x: real, unit: real)
    requires
        c * x == unit,
        unit > 0real,
        c * y == w * unit,
    ensures
        y == w * x,
{
    assert(c * (y - w * x) == c * y - w * (c * x)) by (nonlinear_arith);
    assert(c != 0real) by {
        assert(0real * x == 0real) by (nonlinear_arith);
    }
    let d = y - w * x;
    assert(d * c == c * d) by (nonlinear_arith);
    lemma_zero_factor(d, c);
}

proof fn lemma_swap(a: real, b: real, c: real)
    ensures
        a * b * c == a * c * b,
{
    assert(a * b * c == a * c * b) by (nonlinear_arith);
}

/// A wave that goes round a whole number of times from sample to sample stands still.
proof fn lemma_standing<S: Scalar>(val: spec_fn(S) -> real, n: u32, m: int, t: int)
    requires
        models_reals(val),
        turns(val),
        turns_around(val),
        0 < n,
        m == 0 || m == n || t == n,
        -(n as int) <= m <= n,
        0 <= t <= n,
    ensures
        cosine_at(val, n, m)(t) == 1 as real,
        sine_at(val, n, m)(t) == 0 as real,
{
    lemma_wave_angle(val, n, m, t);
    let turn = full_turns(1);
    let (x, y, z) = (n as real, m as real, t as real);
    let whole = if m == 0 {
        0int
    } else if m == n {
        t
    } else {
        m
    };
    let w = whole as real;
    let unit = 6283185307179586real / 1000000000000000real;
    let c = turn / x;
    lemma_unit_turn(turn, x);
    assert(1real * unit == unit) by (nonlinear_arith);
    if m == 0 {
        assert(c * 0real * z == 0real) by (nonlinear_arith);
        assert(0real * unit == 0real) by (nonlinear_arith);
    } else if m == n {
        assert(z * unit == unit * z) by (nonlinear_arith);
    } else {
        lemma_swap(c, y, x);
        assert(y * unit == unit * y) by (nonlinear_arith);
    }
    assert(val(wave_angle::<S>(n, m, t)) == full_turns(whole));
    reveal(turns_around);
    lemma_sine_vanishes(val, wave_angle::<S>(n, m, t));
}

/// A wave that goes round less than once from sample to sample moves.
proof fn lemma_moving<S: Scalar>(val: spec_fn(S) -> real, n: u32, m: int)
    requires
        models_reals(val),
        turns_around(val),
        m != 0,
        -(n as int) < m < n,
    ensures
        cosine_at(val, n, m)(1) != 1 as real,
{
    lemma_wave_angle(val, n, m, 1);
    reveal(turns_around);
    let a = wave_angle::<S>(n, m, 1);
    if val(S::applied(Fun::Cos, a)) == 1 as real {
        let j = choose|j: int| val(a) == #[trigger] full_turns(j);
        let unit = 6283185307179586real / 1000000000000000real;
        let (x, y, w) = (n as real, m as real, j as real);
        let c = full_turns(1) / x;
        lemma_unit_turn(full_turns(1), x);
        assert(1real * unit == unit && c * y * 1real == c * y) by (nonlinear_arith);
        lemma_cancel(c, y, w, x, unit);
        if j >= 1 {
            assert(w * x >= x) by (nonlinear_arith)
                requires
                    w >= 1real,
                    x > 0real,
            ;
        } else if j <= -1 {
            assert(w * x <= -x) by (nonlinear_arith)
                requires
                    w <= -1real,
                    x > 0real,
            ;
        } else {
            assert(0real * x == 0real) by (nonlinear_arith);
        }
    }
}

proof fn lemma_total_constant(f: spec_fn(int) -> real, x: real, n: int)
    requires
        0 <= n,
        forall|t: int| 0 <= t < n ==> #[trigger] f(t) == x,
    ensures
        total(f, n) == x * (n as real),
    decreases n,
{
    if n > 0 {
        lemma_total_constant(f, x, n - 1);
        let y = (n - 1) as real;
        assert(x * y + x == x * (y + 1real)) by (nonlinear_arith);
    } else {
        assert(x * 0real == 0real) by (nonlinear_arith);
    }
}

/// Over whole turns a wave sums up to nothing, unless it stands still.
proof fn lemma_wave_total<S: Scalar>(val: spec_fn(S) -> real, n: u32, m: int)
    requires
        models_reals(val),
        turns(val),
        turns_around(val),
        0 < n,
        -(n as int) < m <= n,
    ensures
        total(cosine_at(val, n, m), n as int) == if m == 0 || m == n {
            n as real
        } else {
            0 as real
        },
        total(sine_at(val, n, m), n as int) == 0 as real,
{
    let (c, s) = (cosine_at(val, n, m), sine_at(val, n, m));
    if m == 0 || m == n {
        assert forall|t: int| 0 <= t < n implies #[trigger] c(t) == 1real by {
            lemma_standing(val, n, m, t);
        }
        assert forall|t: int| 0 <= t < n implies #[trigger] s(t) == 0real by {
            lemma_standing(val, n, m, t);
        }
        lemma_total_constant(c, 1real, n as int);
        lemma_total_constant(s, 0real, n as int);
        let x = n as real;
        assert(1real * x == x && 0real * x == 0real) by (nonlinear_arith);
    } else {
        lemma_wave_shift(val, n, m, n as int);
        lemma_standing(val, n, m, n as int);
        lemma_wave_angle(val, n, m, 0);
        lemma_regroup((full_turns(1) / (n as real)) * (m as real), 0real);
        assert(c(0) == 1real && s(0) == 0real) by {
            reveal(turns);
        }
        lemma_later(c, n as int);
        lemma_later(s, n as int);
        lemma_moving(val, n, m);
        lemma_vanish(total(c, n as int), total(s, n as int), c(1), s(1));
    }
}

/// What sample `t` of a tone adds to a bin.
proof fn lemma_beat<S: Scalar>(
    val: spec_fn(S) -> real,
    n: u32,
    k: int,
    j: int,
    t: int,
    bin: S,
)
    requires
        models_reals(val),
        turns(val),
        0 < n,
        0 <= k <= n,
        0 <= j <= n,
        0 <= t <= u32::MAX,
        val(bin) == -val(wave_angle::<S>(n, j, t)),
    ensures
        ({
            let tone = cosine_at(val, n, k)(t);
            &&& tone * val(S::applied(Fun::Cos, bin)) * 2real == cosine_at(val, n, k - j)(t)
                + cosine_at(val, n, k + j)(t)
            &&& tone * val(S::applied(Fun::Sin, bin)) * 2real == sine_at(val, n, k - j)(t)
                - sine_at(val, n, k + j)(t)
        }),
{
    lemma_val_constants(val, 0);
    lemma_wave_angle(val, n, k, t);
    lemma_wave_angle(val, n, j, t);
    lemma_wave_angle(val, n, k - j, t);
    lemma_wave_angle(val, n, k + j, t);
    let a = wave_angle::<S>(n, k, t);
    let b = wave_angle::<S>(n, j, t);
    let d = wave_angle::<S>(n, k - j, t);
    let e = wave_angle::<S>(n, k + j, t);
    let (c, x, y, z) = (full_turns(1) / (n as real), k as real, j as real, t as real);
    assert(c * (x - y) * z == c * x * z - c * y * z) by (nonlinear_arith);
    assert(c * (x + y) * z == c * x * z + c * y * z) by (nonlinear_arith);
    reveal(turns);
    assert(lies_between(val, a, b, d));
    assert(lies_between(val, zero(), b, bin));
    assert(lies_between(val, a, bin, e));
    let (ca, sa) = (val(S::applied(Fun::Cos, a)), val(S::applied(Fun::Sin, a)));
    let (cb, sb) = (val(S::applied(Fun::Cos, b)), val(S::applied(Fun::Sin, b)));
    let (cn, sn) = (val(S::applied(Fun::Cos, bin)), val(S::applied(Fun::Sin, bin)));
    assert(1real * cb + 0real * sb == cb && 0real * cb - 1real * sb == -sb)
        by (nonlinear_arith);
    assert(ca * (-sb) == -(ca * sb)) by (nonlinear_arith);
    assert(sa * (-sb) == -(sa * sb)) by (nonlinear_arith);
}

proof fn lemma_accumulated_total<S: Scalar>(
    val: spec_fn(S) -> real,
    f: spec_fn(int) -> S,
    n: int,
)
    requires
        models_reals(val),
    ensures
        val(accumulate(zero(), f, n)) == total(|i: int| val(f(i)), n),
    decreases n,
{
    lemma_val_constants(val, 0);
    if n > 0 {
        lemma_accumulated_total(val, f, n - 1);
        lemma_val_plus(val, accumulate(zero(), f, n - 1), f(n - 1));
    }
}

/// A sum of halved sums.
proof fn lemma_total_halves(
    f: spec_fn(int) -> real,
    x: spec_fn(int) -> real,
    y: spec_fn(int) -> real,
    amp: real,
    sign: real,
    n: int,
)
    requires
        forall|t: int| 0 <= t < n ==> #[trigger] f(t) * 2real == amp * (x(t) + sign * y(t)),
    ensures
        total(f, n) * 2real == amp * (total(x, n) + sign * total(y, n)),
    decreases n,
{
    if n > 0 {
        lemma_total_halves(f, x, y, amp, sign, n - 1);
        assert(f(n - 1) * 2real == amp * (x(n - 1) + sign * y(n - 1)));
        let (a, b, c, d) = (total(x, n - 1), total(y, n - 1), x(n - 1), y(n - 1));
        lemma_add_pairs(amp, sign, a, b, c, d);
    } else {
        assert(amp * (0real + sign * 0real) == 0real) by (nonlinear_arith);
    }
}

proof fn lemma_add_pairs(amp: real, sign: real, a: real, b: real, c: real, d: real)
    ensures
        amp * (a + sign * b) + amp * (c + sign * d) == amp * ((a + c) + sign * (b + d)),
{
    assert(sign * (b + d) == sign * b + sign * d) by (nonlinear_arith);
    let (p, q) = (a + sign * b, c + sign * d);
    assert(amp * p + amp * q == amp * (p + q)) by (nonlinear_arith);
}

/// The samples of frame `frame`, through the window, are a cosine of `k` periods in
/// `n_fft` samples.
pub open spec fn is_tone<S: Scalar>(
    val: spec_fn(S) -> real,
    audio: Seq<S>,
    window: Seq<S>,
    start: int,
    n_fft: u32,
    k: u32,
    amp: real,
    phase: spec_fn(int) -> S,
) -> bool {
    forall|t: int|
        0 <= t < n_fft ==> {
            &&& val(#[trigger] phase(t)) == full_turns(1) / (n_fft as real) * (k as real) * (
            t as real)
            &&& val(audio[start + t]) * val(window[t]) == amp * val(
                S::applied(Fun::Cos, phase(t)),
            )
        }
}

/// How much of a tone of `k` periods is heard in bin `j`: all of it where `j` is `k`, half
/// of that unless the tone stands still, and nothing elsewhere.
pub open spec fn heard(n_fft: u32, k: int, j: int) -> real {
    if j != k {
        0 as real
    } else if k == 0 || 2 * k == n_fft {
        n_fft as real
    } else {
        (n_fft as real) / 2real
    }
}

proof fn lemma_bin<S: Scalar>(
    val: spec_fn(S) -> real,
    audio: Seq<S>,
    window: Seq<S>,
    sh: MelShape,
    frame: int,
    k: u32,
    j: u32,
    amp: real,
    phase: spec_fn(int) -> S,
)
    requires
        models_reals(val),
        turns(val),
        turns_around(val),
        0 < sh.n_fft,
        2 * k <= sh.n_fft,
        2 * j <= sh.n_fft,
        is_tone(val, audio, window, frame * sh.hop_length, sh.n_fft, k, amp, phase),
    ensures
        val(dft::<S, S>(audio, window, sh, Fun::Cos, frame, j)) == amp * heard(
            sh.n_fft,
            k as int,
            j as int,
        ),
        val(dft::<S, S>(audio, window, sh, Fun::Sin, frame, j)) == 0 as real,
{
    let n = sh.n_fft;
    let size = n as int;
    let start = frame * sh.hop_length;
    let re = dft_terms::<S, S>(audio, window, sh, Fun::Cos, frame, j);
    let im = dft_terms::<S, S>(audio, window, sh, Fun::Sin, frame, j);
    let fr = |t: int| val(re(t));
    let fi = |t: int| val(im(t));
    let (dc, ds) = (cosine_at(val, n, k - j), sine_at(val, n, k - j));
    let (ec, es) = (cosine_at(val, n, k + j), sine_at(val, n, k + j));
    assert forall|t: int| 0 <= t < size implies #[trigger] fr(t) * 2real == amp * (dc(t) + 1real
        * ec(t)) && fi(t) * 2real == amp * (ds(t) + (-1real) * es(t)) by {
        let angle = times(angle_step::<S>(n, j), S::natural(t as u32));
        let tau = minus_two_pi::<S>();
        lemma_val_rational(val, (-6283185307179586) as i64, 1000000000000000);
        lemma_val_constants(val, n);
        lemma_val_constants(val, j);
        lemma_val_constants(val, t as u32);
        lemma_val_over(val, tau, S::natural(n));
        lemma_val_plus(val, over(tau, S::natural(n)), S::natural(j));
        lemma_val_plus(val, angle_step::<S>(n, j), S::natural(t as u32));
        lemma_wave_angle(val, n, j as int, t);
        lemma_wave_angle(val, n, k as int, t);
        let unit = 6283185307179586real / 1000000000000000real;
        lemma_negated(unit, n as real, j as real, t as real);
        lemma_beat(val, n, k as int, j as int, t, angle);
        lemma_same_turn(val, phase(t), wave_angle::<S>(n, k as int, t));
        let (x, w) = (audio[start + t], window[t]);
        let (c, s) = (S::applied(Fun::Cos, angle), S::applied(Fun::Sin, angle));
        lemma_val_plus(val, x, w);
        lemma_val_plus(val, times(x, w), c);
        lemma_val_plus(val, times(x, w), s);
        let tone = cosine_at(val, n, k as int)(t);
        lemma_amp(amp, tone, val(c), dc(t), ec(t));
        lemma_amp(amp, tone, val(s), ds(t), -es(t));
    }
    lemma_total_halves(fr, dc, ec, amp, 1real, size);
    assert forall|t: int| 0 <= t < size implies #[trigger] fi(t) * 2real == amp * (ds(t) + (
    -1real) * es(t)) by {
        assert(fr(t) * 2real == amp * (dc(t) + 1real * ec(t)));
    }
    lemma_total_halves(fi, ds, es, amp, -1real, size);
    lemma_wave_total(val, n, k - j);
    lemma_wave_total(val, n, k + j);
    lemma_accumulated_total(val, re, size);
    lemma_accumulated_total(val, im, size);
    let (x, y) = (total(dc, size), total(ec, size));
    assert(1real * y == y) by (nonlinear_arith);
    assert(-1real * 0real == 0real) by (nonlinear_arith);
    assert(amp * 0real == 0real) by (nonlinear_arith);
    let h = heard(n, k as int, j as int);
    assert(x + y == 2real * h);
    let r = total(fr, size);
    assert(amp * (2real * h) == (amp * h) * 2real) by (nonlinear_arith);
}

proof fn lemma_negated(unit: real, n: real, j: real, t: real)
    requires
        n > 0real,
        unit == 6283185307179586real / 1000000000000000real,
    ensures
        ((-6283185307179586real / 1000000000000000real) / n) * j * t == -(((1real * unit) / n) * j
            * t),
{
    let minus_unit = -6283185307179586real / 1000000000000000real;
    assert(minus_unit == -unit);
    assert(1real * unit == unit) by (nonlinear_arith);
    assert(-unit / n == -(unit / n)) by (nonlinear_arith)
        requires
            n > 0real,
    ;
    let c = unit / n;
    assert((-c) * j * t == -(c * j * t)) by (nonlinear_arith);
}

proof fn lemma_amp(amp: real, tone: real, c: real, d: real, e: real)
    requires
        tone * c * 2real == d + e,
    ensures
        (amp * tone) * c * 2real == amp * (d + e),
{
    let p = tone * c;
    assert((amp * tone) * c == amp * p) by (nonlinear_arith)
        requires
            p == tone * c,
    ;
    assert((amp * p) * 2real == amp * (p * 2real)) by (nonlinear_arith);
}

proof fn lemma_only_term(f: spec_fn(int) -> real, n: int, k: int)
    requires
        0 <= k,
        forall|i: int| 0 <= i < n && i != k ==> #[trigger] f(i) == 0 as real,
    ensures
        total(f, n) == if k < n {
            f(k)
        } else {
            0 as real
        },
    decreases n,
{
    if n > 0 {
        lemma_only_term(f, n - 1, k);
    }
}

/// The square root of what is not negative is not negative, and its square is what it was.
#[verifier::opaque]
pub open spec fn takes_roots<S: Scalar>(val: spec_fn(S) -> real) -> bool {
    forall|a: S|
        val(a) >= 0 as real ==> #[trigger] val(S::applied(Fun::Sqrt, a)) >= 0 as real && val(
            S::applied(Fun::Sqrt, a),
        ) * val(S::applied(Fun::Sqrt, a)) == val(a)
}

proof fn lemma_root(r: real, x: real)
    requires
        r >= 0 as real,
        x >= 0 as real,
        r * r == x * x,
    ensures
        r == x,
{
    if r != x {
        assert((r - x) * (r + x) == r * r - x * x) by (nonlinear_arith);
        let (d, e) = (r - x, r + x);
        assert(e * d == d * e) by (nonlinear_arith);
        lemma_zero_factor(e, d);
    }
}

/// A tone of `k` whole periods in the `n_fft` samples of a frame, whatever `hop_length` is,
/// is heard in bin `k` and in no other: the output for that frame and filter `mel` is the
/// logarithm of `log_eps` and the filter's weight at `k` times the power `(amp * n_fft /
/// 2)^2` of the tone, or times its magnitude `amp * n_fft / 2`. A tone that stands still
/// from sample to sample counts twice.
pub proof fn law_tone_is_heard_in_its_bin<S: Scalar>(
    val: spec_fn(S) -> real,
    audio: Seq<S>,
    window: Seq<S>,
    mel_weight: Seq<S>,
    log_eps: S,
    kind: Spectrum,
    n_fft: u32,
    n_freq: u32,
    n_mels: u32,
    hop_length: u32,
    n_frames: u32,
    frame: int,
    mel: int,
    k: u32,
    amp: real,
    phase: spec_fn(int) -> S,
)
    requires
        models_reals(val),
        turns(val),
        turns_around(val),
        takes_roots(val),
        0 < n_fft,
        k < n_freq,
        2 * (n_freq - 1) <= n_fft,
        0 <= frame,
        0 <= mel < n_mels,
        0 as real <= amp,
        is_tone(val, audio, window, frame * hop_length, n_fft, k, amp, phase),
    ensures
        exists|e: S|
            mel_value::<S, S>(
                audio,
                window,
                mel_weight,
                (MelShape { n_fft, n_freq, n_mels, hop_length, n_frames }),
                log_eps,
                kind,
                frame * n_mels + mel,
            ) == #[trigger] S::applied(Fun::Log, e) && val(e) == val(
                mel_weight[mel * n_freq + k],
            ) * (match kind {
                Spectrum::Power => (amp * heard(n_fft, k as int, k as int)) * (amp * heard(
                    n_fft,
                    k as int,
                    k as int,
                )),
                Spectrum::Magnitude => amp * heard(n_fft, k as int, k as int),
            }) + val(log_eps),
{
    let sh = MelShape { n_fft, n_freq, n_mels, hop_length, n_frames };
    lemma_row_major_inverse(frame, mel, n_mels as int);
    let part = |j: int|
        times(
            mel_weight[mel * n_freq + j],
            spectrum_of::<S, S>(audio, window, sh, kind, frame, j as u32),
        );
    let h = amp * heard(n_fft, k as int, k as int);
    assert(h >= 0real) by {
        let x = heard(n_fft, k as int, k as int);
        assert(x >= 0real);
        assert(amp * x >= 0real) by (nonlinear_arith)
            requires
                amp >= 0real,
                x >= 0real,
        ;
    }
    let f = |j: int| val(part(j));
    assert forall|j: int| 0 <= j < n_freq implies #[trigger] f(j) == if j == k {
        val(mel_weight[mel * n_freq + k]) * (match kind {
            Spectrum::Power => h * h,
            Spectrum::Magnitude => h,
        })
    } else {
        0real
    } by {
        lemma_bin(val, audio, window, sh, frame, k, j as u32, amp, phase);
        let re = dft::<S, S>(audio, window, sh, Fun::Cos, frame, j as u32);
        let im = dft::<S, S>(audio, window, sh, Fun::Sin, frame, j as u32);
        let power = power_of::<S, S>(audio, window, sh, frame, j as u32);
        lemma_val_plus(val, re, re);
        lemma_val_plus(val, im, im);
        lemma_val_plus(val, times(re, re), times(im, im));
        let x = val(re);
        assert(amp * 0real == 0real) by (nonlinear_arith);
        assert(0real * 0real == 0real) by (nonlinear_arith);
        assert(x * x >= 0real) by (nonlinear_arith);
        assert(val(power) == x * x);
        let w = mel_weight[mel * n_freq + j];
        let got = spectrum_of::<S, S>(audio, window, sh, kind, frame, j as u32);
        lemma_val_plus(val, w, got);
        let y = val(w);
        assert(y * 0real == 0real) by (nonlinear_arith);
        match kind {
            Spectrum::Power => {},
            Spectrum::Magnitude => {
                reveal(takes_roots);
                assert(x >= 0real);
                lemma_root(val(S::applied(Fun::Sqrt, power)), x);
            },
        }
    }
    lemma_only_term(f, n_freq as int, k as int);
    let acc = accumulate(zero(), part, n_freq as int);
    lemma_accumulated_total(val, part, n_freq as int);
    lemma_val_plus(val, acc, log_eps);
    let frame_of = (frame * n_mels + mel) / n_mels as int;
    let kernel = |k: int|
        times(
            mel_weight[mel * sh.n_freq + k].widened(),
            spectrum_of::<S, S>(audio, window, sh, kind, frame_of, k as u32),
        );
    assert forall|j: int| 0 <= j < n_freq implies #[trigger] kernel(j) == part(j) by {
        let w: S = mel_weight[mel * sh.n_freq + j].widened();
        assert(w == mel_weight[mel * n_freq + j]);
    }
    lemma_accumulate_same(zero(), kernel, part, n_freq as int);
    assert(mel_value::<S, S>(
        audio,
        window,
        mel_weight,
        sh,
        log_eps,
        kind,
        frame * n_mels + mel,
    ) == S::applied(Fun::Log, plus(acc, log_eps)));
}

/// The part of frequency `k` that goes with `wave` in the `n_fft` windowed samples from `at`
/// on: sample `t` meets the wave at `t * k` steps of a full turn over `n_fft`, backwards.
pub open spec fn wave_part<S: Scalar, T: Element<S>>(
    audio: Seq<T>,
    window: Seq<T>,
    at: int,
    n_fft: u32,
    k: int,
    wave: Fun,
) -> S {
    let turn = S::rational((-6283185307179586) as i64, 1000000000000000);
    accumulate(
        zero(),
        |t: int|
            times(
                times(audio[at + t].widened(), window[t].widened()),
                S::applied(
                    wave,
                    times(
                        times(over(turn, S::natural(n_fft)), S::natural(k as u32)),
                        S::natural(t as u32),
                    ),
                ),
            ),
        n_fft as int,
    )
}

/// Band `mel` of a frame is the logarithm of `log_eps` and of the frame's powers, or
/// magnitudes, summed over all frequencies with the weights of that band. The frame starts
/// `hop_length` samples after the one before.
pub proof fn law_band_sums_the_spectrum<S: Scalar, T: Element<S>>(
    audio: Seq<T>,
    window: Seq<T>,
    mel_weight: Seq<T>,
    log_eps: S,
    kind: Spectrum,
    n_fft: u32,
    n_freq: u32,
    n_mels: u32,
    hop_length: u32,
    n_frames: u32,
    frame: int,
    mel: int,
)
    requires
        0 <= frame,
        0 <= mel < n_mels,
    ensures
        ({
            let at = frame * hop_length;
            let power = |k: int|
                {
                    let re = wave_part::<S, T>(audio, window, at, n_fft, k, Fun::Cos);
                    let im = wave_part::<S, T>(audio, window, at, n_fft, k, Fun::Sin);
                    plus(times(re, re), times(im, im))
                };
            mel_value::<S, T>(
                audio,
                window,
                mel_weight,
                (MelShape { n_fft, n_freq, n_mels, hop_length, n_frames }),
                log_eps,
                kind,
                frame * n_mels + mel,
            ) == T::narrowed(
                S::applied(
                    Fun::Log,
                    plus(
                        accumulate(
                            zero(),
                            |k: int|
                                times(
                                    mel_weight[mel * n_freq + k].widened(),
                                    match kind {
                                        Spectrum::Power => power(k),
                                        Spectrum::Magnitude => S::applied(Fun::Sqrt, power(k)),
                                    },
                                ),
                            n_freq as int,
                        ),
                        log_eps,
                    ),
                ),
            )
        }),
{
    let sh = MelShape { n_fft, n_freq, n_mels, hop_length, n_frames };
    let at = frame * hop_length;
    lemma_row_major_inverse(frame, mel, n_mels as int);
    assert forall|k: int, wave: Fun| 0 <= k < n_freq implies dft::<S, T>(
        audio,
        window,
        sh,
        wave,
        frame,
        k as u32,
    ) == #[trigger] wave_part::<S, T>(audio, window, at, n_fft, k, wave) by {
        let turn = S::rational((-6283185307179586) as i64, 1000000000000000);
        lemma_accumulate_same(
            zero(),
            dft_terms::<S, T>(audio, window, sh, wave, frame, k as u32),
            |t: int|
                times(
                    times(audio[at + t].widened(), window[t].widened()),
                    S::applied(
                        wave,
                        times(
                            times(over(turn, S::natural(n_fft)), S::natural(k as u32)),
                            S::natural(t as u32),
                        ),
                    ),
                ),
            n_fft as int,
        );
    }
    let power = |k: int|
        {
            let re = wave_part::<S, T>(audio, window, at, n_fft, k, Fun::Cos);
            let im = wave_part::<S, T>(audio, window, at, n_fft, k, Fun::Sin);
            plus(times(re, re), times(im, im))
        };
    lemma_accumulate_same(
        zero(),
        |k: int|
            times(
                mel_weight[mel * sh.n_freq + k].widened(),
                spectrum_of::<S, T>(
                    audio,
                    window,
                    sh,
                    kind,
                    (frame * n_mels + mel) / sh.n_mels as int,
                    k as u32,
                ),
            ),
        |k: int|
            times(
                mel_weight[mel * n_freq + k].widened(),
                match kind {
                    Spectrum::Power => power(k),
                    Spectrum::Magnitude => S::applied(Fun::Sqrt, power(k)),
                },
            ),
        n_freq as int,
    );
}

} // verus!
