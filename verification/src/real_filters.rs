//! How tight the probability filters are when scalars stand for real numbers.
use vstd::arithmetic::power2::{lemma2_to64, lemma_pow2_unfold, pow2};
use vstd::prelude::*;

use crate::algebra::{exponential, law_group_sum_is_the_sum, lemma_ring_sums, ring};
use crate::lanes::accumulate;
use crate::logits_min_p::{floor_masked, weight_of};
use crate::logits_top_p::{
    bisected, floor_of, kept_mass, kept_terms, middle, row_mass, row_top, taken_out,
};
use crate::real_logits::{live_weights, law_row_mass_is_the_sum, law_top_p_keeps_the_share};
use crate::real_model::{
    lemma_sum_at_least, lemma_val_constants, lemma_val_exp, lemma_val_over, lemma_val_plus,
    lemma_val_select, models_reals,
};
use crate::scalar::{minus, one, over, plus, times, zero, Element, Scalar};

verus! {

/// A higher floor keeps no more mass.
pub proof fn law_kept_mass_falls<S: Scalar>(
    val: spec_fn(S) -> real,
    logit: spec_fn(int) -> S,
    top: S,
    low: S,
    high: S,
    width: int,
    n: int,
)
    requires
        models_reals(val),
        ring::<S>(),
        0 < width,
        0 <= n,
        val(low) <= val(high),
    ensures
        val(kept_mass(logit, top, low, width, n)) >= val(kept_mass(logit, top, high, width, n)),
{
    lemma_ring_sums::<S>();
    lemma_val_constants(val, 0);
    let f = kept_terms(logit, top, low);
    let g = kept_terms(logit, top, high);
    assert forall|i: int| 0 <= i < n implies #[trigger] val(f(i)) >= val(g(i)) by {
        let w = weight_of(logit(i), top);
        lemma_val_exp(val, minus(logit(i), top), minus(logit(i), top));
        lemma_val_select(val, w, low, w, zero());
        lemma_val_select(val, w, high, w, zero());
    }
    lemma_sum_at_least(val, f, g, n);
    law_group_sum_is_the_sum(f, 1, width, n);
    law_group_sum_is_the_sum(g, 1, width, n);
}

proof fn lemma_half_of_gap(a: real, b: real, h: real, p: real)
    requires
        h * (2 as real) == 1 as real,
        (b - a) * p == 1 as real,
    ensures
        (b - (a + b) * h) * (2 as real * p) == 1 as real,
        ((a + b) * h - a) * (2 as real * p) == 1 as real,
{
    let m = (a + b) * h;
    assert(m * (2 as real) == a + b) by (nonlinear_arith)
        requires
            m == (a + b) * h,
            h * (2 as real) == 1 as real,
    ;
    assert((b - m) * (2 as real * p) == (b - a) * p) by (nonlinear_arith)
        requires
            m * (2 as real) == a + b,
    ;
    assert((m - a) * (2 as real * p) == (b - a) * p) by (nonlinear_arith)
        requires
            m * (2 as real) == a + b,
    ;
}

/// Every halving of the bisection halves the distance of its bounds, and its upper
/// bound, once it has moved, keeps less than the bisection aims at.
pub proof fn law_bisection_brackets<S: Scalar>(
    val: spec_fn(S) -> real,
    logit: spec_fn(int) -> S,
    top: S,
    target: S,
    width: int,
    n: int,
    k: int,
)
    requires
        models_reals(val),
        0 <= k,
    ensures
        ({
            let (lo, hi) = bisected(logit, top, target, width, n, k);
            &&& (val(hi) - val(lo)) * (pow2(k as nat) as real) == 1 as real
            &&& hi == one::<S>() || val(kept_mass(logit, top, hi, width, n)) < val(target)
        }),
    decreases k,
{
    lemma_val_constants(val, 0);
    lemma2_to64();
    if k > 0 {
        law_bisection_brackets(val, logit, top, target, width, n, k - 1);
        let (lo, hi) = bisected(logit, top, target, width, n, k - 1);
        let mid = middle(lo, hi);
        let half = S::rational(1, 2);
        lemma_val_plus(val, lo, hi);
        lemma_val_plus(val, plus(lo, hi), half);
        lemma_pow2_unfold(k as nat);
        let p = pow2((k - 1) as nat) as real;
        assert(pow2(k as nat) as real == 2 as real * p);
        lemma_half_of_gap(val(lo), val(hi), val(half), p);
        let kept = kept_mass(logit, top, mid, width, n);
        lemma_val_select(val, kept, target, mid, lo);
        lemma_val_select(val, kept, target, hi, mid);
        assert(bisected(logit, top, target, width, n, k) == if val(kept) >= val(target) {
            (mid, hi)
        } else {
            (lo, mid)
        });
        let q = pow2(k as nat) as real;
        assert((val(hi) - val(mid)) * q == 1 as real);
        assert((val(mid) - val(lo)) * q == 1 as real);
    } else {
        assert(pow2(0) as real == 1 as real);
        assert((1 as real - 0 as real) * (1 as real) == 1 as real);
    }
}

/// The top-p filter keeps no more than it must: a floor below one that lies higher by
/// one part in two to the 24th, or by more, no longer keeps the share `top_p`.
pub proof fn law_top_p_keeps_no_more<S: Scalar>(
    val: spec_fn(S) -> real,
    logit: spec_fn(int) -> S,
    top_p: S,
    width: int,
    n: int,
    floor: S,
)
    requires
        models_reals(val),
        ring::<S>(),
        0 < width,
        0 <= n,
        (val(floor) - val(floor_of(logit, top_p, width, n))) * (0x100_0000 as real) >= 1 as real,
        val(floor) < 1 as real,
    ensures
        val(kept_mass(logit, row_top(logit, width, n), floor, width, n)) < val(
            times(top_p, row_mass(logit, width, n)),
        ),
{
    let top = row_top(logit, width, n);
    let target = times(top_p, row_mass(logit, width, n));
    let (lo, hi) = bisected(logit, top, target, width, n, 24);
    lemma_val_constants(val, 0);
    lemma2_to64();
    law_bisection_brackets(val, logit, top, target, width, n, 24);
    let f = val(floor);
    let a = val(lo);
    let b = val(hi);
    assert(f >= b) by (nonlinear_arith)
        requires
            (f - a) * (0x100_0000 as real) >= 1 as real,
            (b - a) * (0x100_0000 as real) == 1 as real,
    ;
    law_kept_mass_falls(val, logit, top, hi, floor, width, n);
}

/// The floor of the bisection is zero, or at least one part in two to the power of its
/// halvings.
proof fn lemma_floor_is_zero_or_more<S: Scalar>(
    val: spec_fn(S) -> real,
    logit: spec_fn(int) -> S,
    top: S,
    target: S,
    width: int,
    n: int,
    k: int,
)
    requires
        models_reals(val),
        0 <= k,
    ensures
        ({
            let lo = val(bisected(logit, top, target, width, n, k).0);
            lo == 0 as real || lo > 0 as real && lo * (pow2(k as nat) as real) >= 1 as real
        }),
    decreases k,
{
    lemma_val_constants(val, 0);
    lemma2_to64();
    if k > 0 {
        lemma_floor_is_zero_or_more(val, logit, top, target, width, n, k - 1);
        law_bisection_brackets(val, logit, top, target, width, n, k - 1);
        let (lo, hi) = bisected(logit, top, target, width, n, k - 1);
        let mid = middle(lo, hi);
        let half = S::rational(1, 2);
        lemma_val_plus(val, lo, hi);
        lemma_val_plus(val, plus(lo, hi), half);
        lemma_pow2_unfold(k as nat);
        let p = pow2((k - 1) as nat) as real;
        assert(p > 0 as real) by {
            vstd::arithmetic::power2::lemma_pow2_pos((k - 1) as nat);
        }
        assert(pow2(k as nat) as real == 2 as real * p);
        lemma_half_of_gap(val(lo), val(hi), val(half), p);
        lemma_val_select(val, kept_mass(logit, top, mid, width, n), target, mid, lo);
        let a = val(lo);
        let m = val(mid);
        assert(m * (2 as real * p) >= 1 as real && m > 0 as real) by (nonlinear_arith)
            requires
                (m - a) * (2 as real * p) == 1 as real,
                a >= 0 as real,
                p > 0 as real,
        ;
        assert(a * p >= 1 as real ==> a * (2 as real * p) >= 1 as real) by (nonlinear_arith);
    }
}

/// What floor `floor` keeps of the tokens that were not taken out.
pub open spec fn live_kept<S: Scalar>(
    logit: spec_fn(int) -> S,
    top: S,
    floor: S,
) -> spec_fn(int) -> S {
    |i: int| S::chosen(taken_out(logit(i)), zero(), kept_terms(logit, top, floor)(i))
}

/// Tokens that were taken out before do not count: those that stay hold the share `top_p`
/// of the probability among themselves, where a token that was taken out weighs less than
/// one part in two to the 24th of the largest.
pub proof fn law_top_p_keeps_the_live_share<S: Scalar>(
    val: spec_fn(S) -> real,
    logit: spec_fn(int) -> S,
    top_p: S,
    width: int,
    n: int,
)
    requires
        models_reals(val),
        ring::<S>(),
        exponential::<S>(),
        0 < width,
        0 <= n,
        val(top_p) <= 1 as real,
        forall|i: int|
            0 <= i < n && val(S::lowest()) >= val(#[trigger] logit(i)) ==> val(
                weight_of(logit(i), row_top(logit, width, n)),
            ) * (0x100_0000 as real) < 1 as real,
    ensures
        val(
            accumulate(
                zero(),
                live_kept(
                    logit,
                    row_top(logit, width, n),
                    floor_of(logit, top_p, width, n),
                ),
                n,
            ),
        ) >= val(top_p) * val(row_mass(logit, width, n)),
{
    lemma_ring_sums::<S>();
    lemma2_to64();
    lemma_val_constants(val, 0);
    let top = row_top(logit, width, n);
    let mass = row_mass(logit, width, n);
    let floor = floor_of(logit, top_p, width, n);
    let kept = kept_terms(logit, top, floor);
    let live = live_kept(logit, top, floor);
    let all = live_weights(logit, top);
    lemma_floor_is_zero_or_more(val, logit, top, times(top_p, mass), width, n, 24);
    law_top_p_keeps_the_share(val, logit, top_p, width, n);
    law_group_sum_is_the_sum(kept, 1, width, n);
    law_row_mass_is_the_sum(val, logit, width, n);
    if val(floor) > 0 as real {
        assert forall|i: int| 0 <= i < n implies #[trigger] val(live(i)) >= val(kept(i)) by {
            let w = weight_of(logit(i), top);
            lemma_val_select(val, S::lowest(), logit(i), zero(), kept(i));
            lemma_val_select(val, w, floor, w, zero());
            let x = val(w);
            let f = val(floor);
            assert(x * (0x100_0000 as real) < 1 as real ==> x < f) by (nonlinear_arith)
                requires
                    f * (0x100_0000 as real) >= 1 as real,
            ;
        }
        lemma_sum_at_least(val, live, kept, n);
    } else {
        let none = |i: int| zero::<S>();
        assert forall|i: int| 0 <= i < n implies #[trigger] val(live(i)) >= val(all(i)) by {
            let w = weight_of(logit(i), top);
            lemma_val_exp(val, minus(logit(i), top), minus(logit(i), top));
            lemma_val_select(val, S::lowest(), logit(i), zero(), kept(i));
            lemma_val_select(val, S::lowest(), logit(i), zero(), w);
            lemma_val_select(val, w, floor, w, zero());
        }
        lemma_sum_at_least(val, live, all, n);
        assert forall|i: int| 0 <= i < n implies #[trigger] val(all(i)) >= val(none(i)) by {
            let w = weight_of(logit(i), top);
            lemma_val_exp(val, minus(logit(i), top), minus(logit(i), top));
            lemma_val_select(val, S::lowest(), logit(i), zero(), w);
        }
        lemma_sum_at_least(val, all, none, n);
        lemma_sum_of_nothing(val, n);
        let p = val(top_p);
        let z = val(mass);
        assert(p * z <= z) by (nonlinear_arith)
            requires
                p <= 1 as real,
                z >= 0 as real,
        ;
    }
}

proof fn lemma_sum_of_nothing<S: Scalar>(val: spec_fn(S) -> real, n: int)
    requires
        models_reals(val),
    ensures
        val(accumulate(zero(), |i: int| zero::<S>(), n)) == 0 as real,
    decreases n,
{
    lemma_val_constants(val, 0);
    if n > 0 {
        lemma_sum_of_nothing(val, n - 1);
        lemma_val_plus(val, accumulate(zero(), |i: int| zero::<S>(), n - 1), zero());
    }
}

/// The min-p filter keeps a token exactly where its probability reaches the share
/// `min_p` of the largest one, whatever the sum `mass` of all weights is.
pub proof fn law_min_p_compares_probabilities<S: Scalar, T: Element<S>>(
    val: spec_fn(S) -> real,
    v: T,
    top: S,
    min_p: S,
    mass: S,
)
    requires
        models_reals(val),
        val(mass) > 0 as real,
    ensures
        floor_masked(v, top, min_p) == T::narrowed(
            if val(over(weight_of(v.widened(), top), mass)) >= val(
                times(min_p, over(weight_of(top, top), mass)),
            ) {
                v.widened()
            } else {
                S::lowest()
            },
        ),
{
    let w: S = v.widened();
    lemma_val_plus(val, top, top);
    lemma_val_exp(val, minus(top, top), minus(top, top));
    lemma_val_select(val, weight_of(w, top), min_p, w, S::lowest());
    lemma_val_over(val, weight_of(w, top), mass);
    lemma_val_over(val, weight_of(top, top), mass);
    lemma_val_plus(val, min_p, over(weight_of(top, top), mass));
    lemma_scaled_order(val(weight_of(w, top)), val(min_p), val(mass));
}

proof fn lemma_scaled_order(x: real, y: real, m: real)
    requires
        m > 0 as real,
    ensures
        (x / m >= y * ((1 as real) / m)) == (x >= y),
{
    let r = (1 as real) / m;
    assert(r > 0 as real) by (nonlinear_arith)
        requires
            m > 0 as real,
            r == (1 as real) / m,
    ;
    assert(x / m == x * r) by (nonlinear_arith)
        requires
            m > 0 as real,
            r == (1 as real) / m,
    ;
    assert((x * r >= y * r) == (x >= y)) by (nonlinear_arith)
        requires
            r > 0 as real,
    ;
}

} // verus!
