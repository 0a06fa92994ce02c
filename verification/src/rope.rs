//! Rotary position embeddings: element `i` of a head turns with element
//! `i + half`, by an angle that grows with the position.
use vstd::prelude::*;

use crate::lanes::launch;
use crate::layout::{lemma_len_fits, lemma_row_major, lemma_split};
use crate::scalar::{
    above, below, minus, one, over, plus, s_add, s_div, s_gt, s_lt, s_mul, s_one, s_sub, s_zero,
    times, zero, Element, Fun, Scalar,
};

verus! {

/// The first of a pair after its turn.
pub open spec fn turned_first<S: Scalar>(a: S, b: S, cos_t: S, sin_t: S) -> S {
    minus(times(a, cos_t), times(b, sin_t))
}

/// The second of a pair after its turn.
pub open spec fn turned_second<S: Scalar>(a: S, b: S, cos_t: S, sin_t: S) -> S {
    plus(times(a, sin_t), times(b, cos_t))
}

pub fn turn_first<S: Scalar>(a: &S, b: &S, cos_t: &S, sin_t: &S) -> (r: S)
    ensures
        r == turned_first(*a, *b, *cos_t, *sin_t),
{
    s_sub(&s_mul(a, cos_t), &s_mul(b, sin_t))
}

pub fn turn_second<S: Scalar>(a: &S, b: &S, cos_t: &S, sin_t: &S) -> (r: S)
    ensures
        r == turned_second(*a, *b, *cos_t, *sin_t),
{
    s_add(&s_mul(a, sin_t), &s_mul(b, cos_t))
}

/// `theta_base^(-i / half)`.
pub open spec fn base_frequency<S: Scalar>(i: u32, half: u32, theta_base: S) -> S {
    S::applied(
        Fun::Exp2,
        over(
            times(S::applied(Fun::Neg, S::natural(i)), S::applied(Fun::Log2, theta_base)),
            S::natural(half),
        ),
    )
}

fn frequency<S: Scalar>(i: u32, half: u32, theta_base: &S) -> (f: S)
    ensures
        f == base_frequency(i, half, *theta_base),
{
    let e = s_mul(&S::apply(Fun::Neg, &S::from_u32(i)), &S::apply(Fun::Log2, theta_base));
    S::apply(Fun::Exp2, &s_div(&e, &S::from_u32(half)))
}

/// A full turn.
pub open spec fn two_pi<S: Scalar>() -> S {
    S::rational(6283185307179586, 1000000000000000)
}

/// The frequency of pair `i` after the bands: long waves are slowed down by
/// `scale_factor`, short ones are kept, and those between are blended.
pub open spec fn banded_frequency<S: Scalar>(
    base: S,
    scale_factor: S,
    low_freq_factor: S,
    high_freq_factor: S,
    original_max_position: S,
) -> S {
    let wavelen = over(two_pi(), base);
    let low = over(original_max_position, low_freq_factor);
    let high = over(original_max_position, high_freq_factor);
    let scaled = over(base, scale_factor);
    let s = over(
        minus(over(original_max_position, wavelen), low_freq_factor),
        minus(high_freq_factor, low_freq_factor),
    );
    let smoothed = plus(times(minus(one(), s), scaled), times(s, base));
    S::chosen(
        above(wavelen, low),
        scaled,
        S::chosen(below(wavelen, high), base, smoothed),
    )
}

fn banded<S: Scalar>(
    base: &S,
    scale_factor: &S,
    low_freq_factor: &S,
    high_freq_factor: &S,
    original_max_position: &S,
) -> (f: S)
    ensures
        f == banded_frequency(
            *base,
            *scale_factor,
            *low_freq_factor,
            *high_freq_factor,
            *original_max_position,
        ),
{
    let turn = S::ratio(6283185307179586, 1000000000000000);
    let wavelen = s_div(&turn, base);
    let low = s_div(original_max_position, low_freq_factor);
    let high = s_div(original_max_position, high_freq_factor);
    let scaled = s_div(base, scale_factor);
    let num = s_sub(&s_div(original_max_position, &wavelen), low_freq_factor);
    let s = s_div(&num, &s_sub(high_freq_factor, low_freq_factor));
    let smoothed = s_add(&s_mul(&s_sub(&s_one(), &s), &scaled), &s_mul(&s, base));
    let short = S::select(&s_lt(&wavelen, &high), base, &smoothed);
    S::select(&s_gt(&wavelen, &low), &scaled, &short)
}

/// How far pair `i` lies in the band `[low, high]`, clamped to `[0, 1]`.
pub open spec fn ramp_of<S: Scalar>(i: u32, low: S, high: S) -> S {
    let t = over(minus(S::natural(i), low), minus(high, low));
    S::chosen(below(t, zero()), zero(), S::chosen(above(t, one()), one(), t))
}

/// The frequency of pair `i` after the ramp: from the base frequency to that
/// divided by `factor`.
pub open spec fn ramped_frequency<S: Scalar>(base: S, factor: S, ramp: S) -> S {
    plus(times(over(base, factor), ramp), times(base, minus(one(), ramp)))
}

fn ramp<S: Scalar>(i: u32, low: &S, high: &S) -> (r: S)
    ensures
        r == ramp_of(i, *low, *high),
{
    let t = s_div(&s_sub(&S::from_u32(i), low), &s_sub(high, low));
    let upper = S::select(&s_gt(&t, &s_one()), &s_one(), &t);
    S::select(&s_lt(&t, &s_zero()), &s_zero(), &upper)
}

fn ramped<S: Scalar>(base: &S, factor: &S, ramp: &S) -> (f: S)
    ensures
        f == ramped_frequency(*base, *factor, *ramp),
{
    let interp = s_mul(&s_div(base, factor), ramp);
    s_add(&interp, &s_mul(base, &s_sub(&s_one(), ramp)))
}

/// Element `j` of the heads after their turn: `cosine` and `sine` give each pair its
/// angle.
pub open spec fn rope_value<S: Scalar, T: Element<S>>(
    qk: Seq<T>,
    head_dim: int,
    half: int,
    cosine: spec_fn(int) -> S,
    sine: spec_fn(int) -> S,
    j: int,
) -> T {
    let c = j % head_dim;
    if c < half {
        T::narrowed(
            turned_first(qk[j].widened(), qk[j + half].widened(), cosine(c), sine(c)),
        )
    } else {
        T::narrowed(
            turned_second(
                qk[j - half].widened(),
                qk[j].widened(),
                cosine(c - half),
                sine(c - half),
            ),
        )
    }
}

/// The heads `qk` after their turn.
pub open spec fn turned<S: Scalar, T: Element<S>>(
    qk: Seq<T>,
    half: int,
    cosine: spec_fn(int) -> S,
    sine: spec_fn(int) -> S,
) -> Seq<T> {
    Seq::new(qk.len(), |j: int| rope_value(qk, 2 * half, half, cosine, sine, j))
}

/// Turns every pair of every head.
fn rope<S: Scalar, T: Element<S>, F: Fn(usize) -> (S, S)>(
    qk: &[T],
    out: &mut Vec<T>,
    half: usize,
    n_heads: usize,
    angle: F,
    cosine: Ghost<spec_fn(int) -> S>,
    sine: Ghost<spec_fn(int) -> S>,
)
    requires
        half > 0,
        2 * half <= usize::MAX,
        qk@.len() == n_heads * (2 * half),
        old(out)@.len() == qk@.len(),
        forall|i: usize| i < half ==> call_requires(angle, (i,)),
        forall|i: usize, r: (S, S)|
            i < half && call_ensures(angle, (i,), r) ==> r.0 == (cosine@)(i as int) && r.1 == (
            sine@)(i as int),
    ensures
        final(out)@ =~= turned(qk@, half as int, cosine@, sine@),
{
    let ghost size = out@.len();
    let dim: usize = 2 * half;
    launch(
        out,
        |j: usize| -> (v: T)
            requires
                j < size
            ensures
                v == rope_value(qk@, 2 * half as int, half as int, cosine@, sine@, j as int)
            {
                proof {
                    lemma_len_fits(qk);
                    lemma_split(j as int, n_heads as int, dim as int);
                    lemma_row_major(j as int / dim as int, n_heads as int, 0, dim as int);
                }
                let c: usize = j % dim;
                if c < half {
                    let (cos_t, sin_t) = angle(c);
                    T::narrow(
                        &turn_first(&qk[j].widen(), &qk[j + half].widen(), &cos_t, &sin_t),
                    )
                } else {
                    let (cos_t, sin_t) = angle(c - half);
                    T::narrow(
                        &turn_second(&qk[j - half].widen(), &qk[j].widen(), &cos_t, &sin_t),
                    )
                }
            },
        Ghost(|j: int| rope_value(qk@, 2 * half as int, half as int, cosine@, sine@, j)),
    );
}

/// The angle of pair `i` at `position`, with frequency bands.
pub open spec fn llama_angle<S: Scalar>(
    i: u32,
    half: u32,
    position: u32,
    theta_base: S,
    scale_factor: S,
    low_freq_factor: S,
    high_freq_factor: S,
    original_max_position: S,
) -> S {
    times(
        S::natural(position),
        banded_frequency(
            base_frequency(i, half, theta_base),
            scale_factor,
            low_freq_factor,
            high_freq_factor,
            original_max_position,
        ),
    )
}

/// The heads `qk` turned to `position`, with frequency bands.
pub open spec fn llama_turned<S: Scalar, T: Element<S>>(
    qk: Seq<T>,
    half: u32,
    position: u32,
    theta_base: S,
    scale_factor: S,
    low_freq_factor: S,
    high_freq_factor: S,
    original_max_position: S,
) -> Seq<T> {
    let angle = |i: int|
        llama_angle(
            i as u32,
            half,
            position,
            theta_base,
            scale_factor,
            low_freq_factor,
            high_freq_factor,
            original_max_position,
        );
    turned(
        qk,
        half as int,
        |i: int| S::applied(Fun::Cos, angle(i)),
        |i: int| S::applied(Fun::Sin, angle(i)),
    )
}

/// Rotary embedding of one position with frequency bands; `qk` is
/// `[n_heads, head_dim]`.
pub fn ffai_rope_llama<S: Scalar, T: Element<S>>(
    qk: &[T],
    out: &mut Vec<T>,
    head_dim: u32,
    half_dim: u32,
    position: u32,
    theta_base: &S,
    scale_factor: &S,
    low_freq_factor: &S,
    high_freq_factor: &S,
    original_max_position: &S,
    n_heads: u32,
)
    requires
        half_dim > 0,
        head_dim == 2 * half_dim,
        qk@.len() == n_heads * head_dim,
        old(out)@.len() == qk@.len(),
    ensures
        final(out)@ =~= llama_turned::<S, T>(
            qk@,
            half_dim,
            position,
            *theta_base,
            *scale_factor,
            *low_freq_factor,
            *high_freq_factor,
            *original_max_position,
        ),
{
    let ghost theta = |i: int|
        llama_angle(
            i as u32,
            half_dim,
            position,
            *theta_base,
            *scale_factor,
            *low_freq_factor,
            *high_freq_factor,
            *original_max_position,
        );
    rope(
        qk,
        out,
        half_dim as usize,
        n_heads as usize,
        |i: usize| -> (r: (S, S))
            requires
                i < half_dim
            ensures
                r.0 == S::applied(Fun::Cos, theta(i as int)),
                r.1 == S::applied(Fun::Sin, theta(i as int))
            {
                let f = banded(
                    &frequency(i as u32, half_dim, theta_base),
                    scale_factor,
                    low_freq_factor,
                    high_freq_factor,
                    original_max_position,
                );
                let t = s_mul(&S::from_u32(position), &f);
                (S::apply(Fun::Cos, &t), S::apply(Fun::Sin, &t))
            },
        Ghost(|i: int| S::applied(Fun::Cos, theta(i))),
        Ghost(|i: int| S::applied(Fun::Sin, theta(i))),
    );
}

/// The angle of pair `i` at `position`, with a frequency ramp.
pub open spec fn yarn_angle<S: Scalar>(
    i: u32,
    half: u32,
    position: u32,
    theta_base: S,
    factor: S,
    low: S,
    high: S,
) -> S {
    times(
        S::natural(position),
        ramped_frequency(base_frequency(i, half, theta_base), factor, ramp_of(i, low, high)),
    )
}

/// The heads `qk` turned to `position`, with a frequency ramp, and scaled by
/// `attn_factor`.
pub open spec fn yarn_turned<S: Scalar, T: Element<S>>(
    qk: Seq<T>,
    half: u32,
    position: u32,
    theta_base: S,
    factor: S,
    low: S,
    high: S,
    attn_factor: S,
) -> Seq<T> {
    let angle = |i: int| yarn_angle(i as u32, half, position, theta_base, factor, low, high);
    turned(
        qk,
        half as int,
        |i: int| times(S::applied(Fun::Cos, angle(i)), attn_factor),
        |i: int| times(S::applied(Fun::Sin, angle(i)), attn_factor),
    )
}

/// Rotary embedding of one position with a frequency ramp over `[low, high]`; the
/// turned pairs are scaled by `attn_factor`. `qk` is `[n_heads, head_dim]`.
pub fn ffai_rope_yarn<S: Scalar, T: Element<S>>(
    qk: &[T],
    out: &mut Vec<T>,
    head_dim: u32,
    half_dim: u32,
    position: u32,
    theta_base: &S,
    factor: &S,
    low: &S,
    high: &S,
    attn_factor: &S,
    n_heads: u32,
)
    requires
        half_dim > 0,
        head_dim == 2 * half_dim,
        qk@.len() == n_heads * head_dim,
        old(out)@.len() == qk@.len(),
    ensures
        final(out)@ =~= yarn_turned::<S, T>(
            qk@,
            half_dim,
            position,
            *theta_base,
            *factor,
            *low,
            *high,
            *attn_factor,
        ),
{
    let ghost theta = |i: int|
        yarn_angle(i as u32, half_dim, position, *theta_base, *factor, *low, *high);
    rope(
        qk,
        out,
        half_dim as usize,
        n_heads as usize,
        |i: usize| -> (r: (S, S))
            requires
                i < half_dim
            ensures
                r.0 == times(S::applied(Fun::Cos, theta(i as int)), *attn_factor),
                r.1 == times(S::applied(Fun::Sin, theta(i as int)), *attn_factor)
            {
                let base = frequency(i as u32, half_dim, theta_base);
                let f = ramped(&base, factor, &ramp(i as u32, low, high));
                let t = s_mul(&S::from_u32(position), &f);
                (
                    s_mul(&S::apply(Fun::Cos, &t), attn_factor),
                    s_mul(&S::apply(Fun::Sin, &t), attn_factor),
                )
            },
        Ghost(|i: int| times(S::applied(Fun::Cos, theta(i)), *attn_factor)),
        Ghost(|i: int| times(S::applied(Fun::Sin, theta(i)), *attn_factor)),
    );
}

} // verus!
