//! What the top-p filter and the draw of a token do when scalars stand for real numbers.
use vstd::prelude::*;

use crate::algebra::{
    exponential, law_group_sum_is_the_sum, lemma_distribute, lemma_exp_shift, lemma_lane_sum,
    lemma_mul_assoc, lemma_mul_zero, lemma_ring_sums, ring,
};
use crate::lanes::{
    accumulate, halves_evenly, lemma_accumulate_same, pack_terms, rounds, strided, tree, visited,
};
use crate::logits_min_p::{group_max, max_visit, row_logits, weight_of};
use crate::logits_top_p::{
    bisected, floor_of, kept_mass, kept_terms, middle, row_mass, row_top, running_of,
    running_visit, taken_out, top_p_value, Running,
};
use crate::real_model::{
    law_floor_keeps_the_largest, lemma_round_holds, lemma_sum_at_least, lemma_val_constants,
    lemma_val_exp, lemma_val_max, lemma_val_plus, lemma_val_select, models_reals,
};
use crate::sampling::{
    better_of, candidate, cold, greedy, largest, local_best, raw_logits, sampled, total_of, walk,
    warm_logits, weights_of, Best,
};
use crate::scalar::{minus, one, over, plus, times, zero, Element, Op, Rel, Scalar};

verus! {

/// The running maximum of a thread does not depend on the sum beside it.
proof fn lemma_running_max<S: Scalar>(
    logit: spec_fn(int) -> S,
    width: int,
    n: int,
    t: int,
    count: int,
)
    ensures
        visited(
            Running { max: S::lowest(), sum: zero() },
            running_visit(logit),
            t,
            width,
            n,
            count,
        ).max == visited(S::lowest(), max_visit(logit), t, width, n, count),
    decreases count,
{
    if count > 0 {
        lemma_running_max(logit, width, n, t, count - 1);
    }
}

/// Both filters find the same maximum.
pub proof fn law_row_top_is_the_group_maximum<S: Scalar>(
    logit: spec_fn(int) -> S,
    width: int,
    n: int,
)
    requires
        0 < width,
    ensures
        row_top(logit, width, n) == group_max(logit, width, n),
{
    let f = |t: int| running_of(logit, width, n, t).max;
    let g = |t: int| visited(S::lowest(), max_visit(logit), t, width, n, rounds(n, width));
    assert forall|t: int| #[trigger] f(t) == g(t) by {
        lemma_running_max(logit, width, n, t, rounds(n, width));
    }
    assert(Seq::new(width as nat, f) =~= Seq::new(width as nat, g));
}

/// The bounds of the floor stay between zero and one, and apart.
pub proof fn law_floor_bounds<S: Scalar>(
    val: spec_fn(S) -> real,
    logit: spec_fn(int) -> S,
    top: S,
    target: S,
    width: int,
    n: int,
    k: int,
)
    requires
        models_reals(val),
        0 <= k,
    ensures
        ({
            let (lo, hi) = bisected(logit, top, target, width, n, k);
            (0 as real) <= val(lo) < val(hi) <= (1 as real)
        }),
    decreases k,
{
    lemma_val_constants(val, 0);
    if k > 0 {
        law_floor_bounds(val, logit, top, target, width, n, k - 1);
        let (lo, hi) = bisected(logit, top, target, width, n, k - 1);
        let mid = middle(lo, hi);
        let half = S::rational(1, 2);
        lemma_val_plus(val, lo, hi);
        lemma_val_plus(val, plus(lo, hi), half);
        let a = val(lo);
        let b = val(hi);
        let h = val(half);
        assert(a < (a + b) * h < b) by (nonlinear_arith)
            requires
                a < b,
                h * (2 as real) == 1 as real,
        ;
        let kept = kept_mass(logit, top, mid, width, n);
        lemma_val_select(val, kept, target, mid, lo);
        lemma_val_select(val, kept, target, hi, mid);
    }
}

/// The top-p filter never takes out the most likely token.
pub proof fn law_top_p_keeps_the_largest<S: Scalar, T: Element<S>>(
    val: spec_fn(S) -> real,
    inp: Seq<T>,
    n: int,
    top_p: S,
    lsize: int,
    i: int,
)
    requires
        models_reals(val),
        0 < n,
        0 < lsize,
        val(inp[i].widened()) == val(
            row_top(row_logits::<S, T>(inp, n, i / n), lsize, n),
        ),
    ensures
        top_p_value::<S, T>(inp, n, top_p, lsize, i) == T::narrowed(inp[i].widened()),
{
    let logit = row_logits::<S, T>(inp, n, i / n);
    let top = row_top(logit, lsize, n);
    law_floor_bounds(
        val,
        logit,
        top,
        times(top_p, row_mass(logit, lsize, n)),
        lsize,
        n,
        24,
    );
    law_floor_keeps_the_largest(val, inp[i], top, floor_of(logit, top_p, lsize, n));
}

/// The weights of a row relative to its largest logit.
pub open spec fn row_weights<S: Scalar>(logit: spec_fn(int) -> S, top: S) -> spec_fn(int) -> S {
    |i: int| weight_of(logit(i), top)
}

/// The weights of a row without those of the tokens that were taken out.
pub open spec fn live_weights<S: Scalar>(logit: spec_fn(int) -> S, top: S) -> spec_fn(int) -> S {
    |i: int| S::chosen(taken_out(logit(i)), zero(), weight_of(logit(i), top))
}

/// What a thread adds up holds the weights of its stride.
proof fn lemma_running_sum<S: Scalar>(
    val: spec_fn(S) -> real,
    logit: spec_fn(int) -> S,
    top: S,
    width: int,
    n: int,
    t: int,
    count: int,
)
    requires
        models_reals(val),
        ring::<S>(),
        exponential::<S>(),
    ensures
        ({
            let st = visited(
                Running { max: S::lowest(), sum: zero() },
                running_visit(logit),
                t,
                width,
                n,
                count,
            );
            &&& val(st.max) >= val(S::lowest())
            &&& val(times(st.sum, weight_of(st.max, top))) == val(
                strided(live_weights(logit, top), 1, t, width, n, count),
            )
        }),
    decreases count,
{
    let start = Running { max: S::lowest(), sum: zero() };
    if count <= 0 {
        lemma_mul_zero(weight_of(S::lowest(), top));
    } else {
        lemma_running_sum(val, logit, top, width, n, t, count - 1);
        let before = visited(start, running_visit(logit), t, width, n, count - 1);
        let pos = (count - 1) * width + t;
        if pos < n {
            let v = logit(pos);
            let m = S::combined(Op::Max, before.max, v);
            let e = weight_of(m, top);
            let joined = plus(times(before.sum, weight_of(before.max, m)), weight_of(v, m));
            lemma_val_max(val, before.max, v);
            lemma_val_select(val, S::lowest(), v, before.sum, joined);
            lemma_val_select(val, S::lowest(), v, zero(), weight_of(v, top));
            let w = pack_terms(live_weights(logit, top), 1, pos);
            let sum = strided(live_weights(logit, top), 1, t, width, n, count - 1);
            assert(accumulate(sum, w, 0) == sum);
            assert(accumulate(sum, w, 1) == plus(sum, w(0)));
            lemma_val_plus(val, sum, w(0));
            lemma_val_plus(val, before.sum, weight_of(before.max, top));
            if val(S::lowest()) >= val(v) {
                lemma_val_constants(val, 0);
                lemma_val_plus(val, m, top);
                lemma_val_plus(val, before.max, top);
                lemma_val_exp(val, minus(m, top), minus(before.max, top));
                lemma_val_exp(val, minus(before.max, top), minus(m, top));
                lemma_val_plus(val, before.sum, e);
            } else {
                lemma_exp_shift(before.max, m, top);
                lemma_exp_shift(v, m, top);
                lemma_distribute(times(before.sum, weight_of(before.max, m)), weight_of(v, m), e);
                lemma_mul_assoc(before.sum, weight_of(before.max, m), e);
                lemma_val_plus(
                    val,
                    times(before.sum, weight_of(before.max, top)),
                    weight_of(v, top),
                );
            }
        }
    }
}

/// The mass of a row is the sum of the weights of all tokens that were not taken out.
pub proof fn law_row_mass_is_the_sum<S: Scalar>(
    val: spec_fn(S) -> real,
    logit: spec_fn(int) -> S,
    width: int,
    n: int,
)
    requires
        models_reals(val),
        ring::<S>(),
        exponential::<S>(),
        0 < width,
        0 <= n,
    ensures
        val(row_mass(logit, width, n)) == val(
            accumulate(zero(), live_weights(logit, row_top(logit, width, n)), n),
        ),
{
    lemma_ring_sums::<S>();
    let top = row_top(logit, width, n);
    let count = rounds(n, width);
    let f = |t: int|
        {
            let st = running_of(logit, width, n, t);
            times(st.sum, weight_of(st.max, row_top(logit, width, n)))
        };
    let g = |t: int| strided(live_weights(logit, top), 1, t, width, n, count);
    assert forall|t: int| #[trigger] val(f(t)) == val(g(t)) by {
        lemma_running_sum(val, logit, top, width, n, t, count);
    }
    let fs = Seq::new(width as nat, f);
    let gs = Seq::new(width as nat, g);
    lemma_lane_sum(fs);
    lemma_lane_sum(gs);
    let fi = |i: int| fs[i];
    let gi = |i: int| gs[i];
    assert forall|i: int| 0 <= i < width implies #[trigger] val(fi(i)) >= val(gi(i)) by {
        assert(val(f(i)) == val(g(i)));
    }
    assert forall|i: int| 0 <= i < width implies #[trigger] val(gi(i)) >= val(fi(i)) by {
        assert(val(f(i)) == val(g(i)));
    }
    lemma_sum_at_least(val, fi, gi, width);
    lemma_sum_at_least(val, gi, fi, width);
    law_group_sum_is_the_sum(live_weights(logit, top), 1, width, n);
}

proof fn lemma_sum_not_negative<S: Scalar>(val: spec_fn(S) -> real, f: spec_fn(int) -> S, n: int)
    requires
        models_reals(val),
        forall|i: int| 0 <= i < n ==> val(#[trigger] f(i)) >= 0 as real,
    ensures
        val(accumulate(zero(), f, n)) >= 0 as real,
    decreases n,
{
    lemma_val_constants(val, 0);
    if n > 0 {
        lemma_sum_not_negative(val, f, n - 1);
        lemma_val_plus(val, accumulate(zero(), f, n - 1), f(n - 1));
    }
}

/// What the bisection keeps always holds the mass that it aims at.
pub proof fn law_bisection_keeps_enough<S: Scalar>(
    val: spec_fn(S) -> real,
    logit: spec_fn(int) -> S,
    top: S,
    target: S,
    width: int,
    n: int,
    k: int,
)
    requires
        models_reals(val),
        ring::<S>(),
        0 < width,
        0 <= n,
        0 <= k,
        val(target) <= val(accumulate(zero(), row_weights(logit, top), n)),
    ensures
        val(kept_mass(logit, top, bisected(logit, top, target, width, n, k).0, width, n)) >= val(
            target,
        ),
    decreases k,
{
    lemma_ring_sums::<S>();
    lemma_val_constants(val, 0);
    if k == 0 {
        let all = row_weights(logit, top);
        let kept = kept_terms(logit, top, zero());
        assert forall|i: int| 0 <= i < n implies #[trigger] kept(i) == all(i) by {
            let w = weight_of(logit(i), top);
            lemma_val_exp(val, minus(logit(i), top), minus(logit(i), top));
            lemma_val_select(val, w, zero(), w, zero());
        }
        lemma_accumulate_same(zero(), kept, all, n);
        law_group_sum_is_the_sum(kept, 1, width, n);
    } else {
        law_bisection_keeps_enough(val, logit, top, target, width, n, k - 1);
        let (lo, hi) = bisected(logit, top, target, width, n, k - 1);
        let mid = middle(lo, hi);
        let kept = kept_mass(logit, top, mid, width, n);
        lemma_val_select(val, kept, target, mid, lo);
    }
}

/// The tokens that the top-p filter keeps hold at least the share `top_p` of the
/// probability.
pub proof fn law_top_p_keeps_the_share<S: Scalar>(
    val: spec_fn(S) -> real,
    logit: spec_fn(int) -> S,
    top_p: S,
    width: int,
    n: int,
)
    requires
        models_reals(val),
        ring::<S>(),
        exponential::<S>(),
        0 < width,
        0 <= n,
        val(top_p) <= 1 as real,
    ensures
        val(
            kept_mass(
                logit,
                row_top(logit, width, n),
                floor_of(logit, top_p, width, n),
                width,
                n,
            ),
        ) >= val(top_p) * val(row_mass(logit, width, n)),
{
    let top = row_top(logit, width, n);
    let mass = row_mass(logit, width, n);
    let target = times(top_p, mass);
    law_row_mass_is_the_sum(val, logit, width, n);
    lemma_val_constants(val, 0);
    let all = row_weights(logit, top);
    let live = live_weights(logit, top);
    assert forall|i: int| 0 <= i < n implies val(#[trigger] live(i)) >= 0 as real by {
        lemma_val_exp(val, minus(logit(i), top), minus(logit(i), top));
        lemma_val_select(val, S::lowest(), logit(i), zero(), weight_of(logit(i), top));
    }
    lemma_sum_not_negative(val, live, n);
    assert forall|i: int| 0 <= i < n implies #[trigger] val(all(i)) >= val(live(i)) by {
        lemma_val_exp(val, minus(logit(i), top), minus(logit(i), top));
        lemma_val_select(val, S::lowest(), logit(i), zero(), weight_of(logit(i), top));
    }
    lemma_sum_at_least(val, all, live, n);
    lemma_val_plus(val, top_p, mass);
    let p = val(top_p);
    let z = val(mass);
    assert(p * z <= z) by (nonlinear_arith)
        requires
            p <= 1 as real,
            z >= 0 as real,
    ;
    law_bisection_keeps_enough(val, logit, top, target, width, n, 24);
}

/// `holds` says which conditions are true: a comparison as the numbers compare, and a
/// selection follows it.
#[verifier::opaque]
pub open spec fn decides<S: Scalar>(
    val: spec_fn(S) -> real,
    holds: spec_fn(S::Cond) -> bool,
) -> bool {
    &&& forall|a: S, b: S| holds(#[trigger] S::related(Rel::Less, a, b)) == (val(a) < val(b))
    &&& forall|a: S, b: S| holds(#[trigger] S::related(Rel::AtLeast, a, b)) == (val(a) >= val(b))
    &&& holds(S::certain())
    &&& forall|c: S::Cond, d: S::Cond|
        holds(#[trigger] S::conjoined(c, d)) == (holds(c) && holds(d))
    &&& forall|c: S::Cond| holds(#[trigger] S::negated(c)) == !holds(c)
    &&& forall|c: S::Cond, x: S, y: S|
        #[trigger] S::chosen(c, x, y) == if holds(c) {
            x
        } else {
            y
        }
    &&& forall|c: S::Cond, i: S::Index, j: S::Index|
        #[trigger] S::chosen_index(c, i, j) == if holds(c) {
            i
        } else {
            j
        }
}

/// What a thread keeps: nothing, or the largest logit that it visited, with its position.
proof fn lemma_local_best<S: Scalar>(
    val: spec_fn(S) -> real,
    holds: spec_fn(S::Cond) -> bool,
    logit: spec_fn(int) -> S,
    t: int,
    n: int,
    count: int,
)
    requires
        decides(val, holds),
        0 <= t < 256,
        0 <= count,
    ensures
        ({
            let best = local_best(logit, t, n, count);
            &&& forall|c: int|
                0 <= c < count && c * 256 + t < n ==> val(best.value) >= #[trigger] val(
                    logit(c * 256 + t),
                )
            &&& best == (Best { value: S::lowest(), at: S::position(0) }) || exists|p: int|
                0 <= p < n && best == (Best {
                    value: #[trigger] logit(p),
                    at: S::position(p as u32),
                })
        }),
    decreases count,
{
    if count > 0 {
        lemma_local_best(val, holds, logit, t, n, count - 1);
        reveal(decides);
        let before = local_best(logit, t, n, count - 1);
        let best = local_best(logit, t, n, count);
        let pos = (count - 1) * 256 + t;
        assert forall|c: int| 0 <= c < count && c * 256 + t < n implies val(best.value)
            >= #[trigger] val(logit(c * 256 + t)) by {
            if c < count - 1 {
                assert(val(before.value) >= val(logit(c * 256 + t)));
            }
        }
        if pos < n {
            if val(before.value) < val(logit(pos)) {
                assert(best == (Best { value: logit(pos), at: S::position(pos as u32) }));
            } else {
                assert(best == before);
            }
        }
    }
}

/// The winner of a tree is one of the candidates, and none is larger.
proof fn lemma_tree_best<S: Scalar>(
    val: spec_fn(S) -> real,
    holds: spec_fn(S::Cond) -> bool,
    parts: Seq<(S, S)>,
)
    requires
        decides(val, holds),
        halves_evenly(parts.len() as int),
    ensures
        ({
            let win = tree(parts, |upper: (S, S), lower: (S, S)| better_of(upper, lower));
            &&& exists|t: int| 0 <= t < parts.len() && win == #[trigger] parts[t]
            &&& forall|t: int| 0 <= t < parts.len() ==> val(win.0) >= val((#[trigger] parts[t]).0)
        }),
    decreases parts.len(),
{
    let join = |upper: (S, S), lower: (S, S)| better_of(upper, lower);
    if parts.len() > 1 {
        let h = parts.len() as int / 2;
        let half = Seq::new(h as nat, |i: int| join(parts[i + h], parts[i]));
        lemma_tree_best(val, holds, half);
        reveal(decides);
        let win = tree(half, join);
        let i = choose|t: int| 0 <= t < half.len() && win == #[trigger] half[t];
        if val(parts[i].0) < val(parts[i + h].0) {
            assert(win == parts[i + h]);
        } else {
            assert(win == parts[i]);
        }
        assert forall|t: int| 0 <= t < parts.len() implies val(win.0) >= val(
            (#[trigger] parts[t]).0,
        ) by {
            let u = if t < h {
                t
            } else {
                t - h
            };
            assert(val(win.0) >= val(half[u].0));
            assert(val(half[u].0) >= val(parts[t].0));
        }
    } else {
        assert(tree(parts, join) == parts[0]);
    }
}

/// At a temperature of zero the draw picks a largest logit, with its own position, in
/// every row that holds a logit above negative infinity.
pub proof fn law_greedy_picks_the_largest<S: Scalar>(
    val: spec_fn(S) -> real,
    holds: spec_fn(S::Cond) -> bool,
    logit: spec_fn(int) -> S,
    n: int,
)
    requires
        decides(val, holds),
        exists|i: int| 0 <= i < n && val(S::lowest()) < val(#[trigger] logit(i)),
    ensures
        exists|p: int|
            0 <= p < n && greedy(logit, n) == (
                #[trigger] logit(p),
                S::of_index(S::position(p as u32)),
            ),
        forall|i: int| 0 <= i < n ==> val(greedy(logit, n).0) >= val(#[trigger] logit(i)),
{
    let parts = Seq::new(256, |t: int| candidate(logit, n, t));
    let count = rounds(n, 256);
    reveal_with_fuel(halves_evenly, 9);
    assert(halves_evenly(256));
    lemma_tree_best(val, holds, parts);
    let win = greedy(logit, n);
    assert forall|i: int| 0 <= i < n implies val(win.0) >= val(#[trigger] logit(i)) by {
        lemma_round_holds(i, n, 256);
        let t = i % 256;
        let c = i / 256;
        lemma_local_best(val, holds, logit, t, n, count);
        assert(c * 256 + t == i);
        assert(val(local_best(logit, t, n, count).value) >= val(logit(c * 256 + t)));
        assert(val(win.0) >= val(parts[t].0));
    }
    let t = choose|t: int| 0 <= t < parts.len() && win == #[trigger] parts[t];
    lemma_local_best(val, holds, logit, t, n, count);
    let best = local_best(logit, t, n, count);
    let live = choose|i: int| 0 <= i < n && val(S::lowest()) < val(#[trigger] logit(i));
    if best == (Best { value: S::lowest(), at: S::position(0) }) {
        assert(val(win.0) >= val(logit(live)));
        assert(false);
    } else {
        let p = choose|p: int|
            0 <= p < n && best == (Best {
                value: #[trigger] logit(p),
                at: S::position(p as u32),
            });
        assert(win == (logit(p), S::of_index(S::position(p as u32))));
    }
}

/// Weight `j` brings the sum to `target`, and none before it does.
pub open spec fn first_to_reach<S: Scalar>(
    val: spec_fn(S) -> real,
    weight: spec_fn(int) -> S,
    target: S,
    j: int,
) -> bool {
    &&& val(accumulate(zero(), weight, j + 1)) >= val(target)
    &&& forall|k: int|
        0 <= k < j ==> val(#[trigger] accumulate(zero(), weight, k + 1)) < val(target)
}

/// No weight among the first `i` brings the sum to `target`.
pub open spec fn none_reaches<S: Scalar>(
    val: spec_fn(S) -> real,
    weight: spec_fn(int) -> S,
    target: S,
    i: int,
) -> bool {
    forall|k: int| 0 <= k < i ==> val(#[trigger] accumulate(zero(), weight, k + 1)) < val(target)
}

/// The draw takes the first token at which the cumulated weights reach the target, and
/// the last token where they never do.
pub proof fn law_draw_takes_the_first_to_reach<S: Scalar>(
    val: spec_fn(S) -> real,
    holds: spec_fn(S::Cond) -> bool,
    weight: spec_fn(int) -> S,
    target: S,
    n: u32,
    i: int,
)
    requires
        decides(val, holds),
        0 <= i <= n,
    ensures
        ({
            let w = walk(weight, target, n, i);
            &&& w.cum == accumulate(zero(), weight, i)
            &&& holds(w.open) == none_reaches(val, weight, target, i)
            &&& holds(w.open) ==> w.found == S::position((n - 1) as u32)
            &&& !holds(w.open) ==> exists|j: int|
                0 <= j < i && #[trigger] first_to_reach(val, weight, target, j) && w.found
                    == S::position(j as u32)
        }),
    decreases i,
{
    reveal(decides);
    if i > 0 {
        law_draw_takes_the_first_to_reach(val, holds, weight, target, n, i - 1);
        let before = walk(weight, target, n, i - 1);
        let w = walk(weight, target, n, i);
        let cum = accumulate(zero(), weight, i);
        assert(w.cum == cum);
        if holds(before.open) {
            if val(cum) >= val(target) {
                assert forall|k: int| 0 <= k < i - 1 implies val(
                    #[trigger] accumulate(zero(), weight, k + 1),
                ) < val(target) by {}
                assert(accumulate(zero(), weight, (i - 1) + 1) == cum);
                assert(first_to_reach(val, weight, target, i - 1));
                assert(!none_reaches(val, weight, target, i));
            } else {
                assert forall|k: int| 0 <= k < i implies val(
                    #[trigger] accumulate(zero(), weight, k + 1),
                ) < val(target) by {
                    if k == i - 1 {
                        assert(accumulate(zero(), weight, k + 1) == cum);
                    }
                }
            }
        } else {
            let j = choose|j: int|
                0 <= j < i - 1 && #[trigger] first_to_reach(val, weight, target, j)
                    && before.found == S::position(j as u32);
            assert(first_to_reach(val, weight, target, j));
            assert(val(accumulate(zero(), weight, j + 1)) >= val(target));
            assert(!none_reaches(val, weight, target, i));
        }
    }
}

/// A larger target is never reached earlier: the draw for it takes the same token or a
/// later one.
pub proof fn law_larger_target_is_drawn_later<S: Scalar>(
    val: spec_fn(S) -> real,
    holds: spec_fn(S::Cond) -> bool,
    weight: spec_fn(int) -> S,
    low: S,
    high: S,
    n: u32,
)
    requires
        decides(val, holds),
        0 < n,
        val(low) <= val(high),
    ensures
        exists|a: u32, b: u32|
            a <= b < n && walk(weight, low, n, n as int).found == #[trigger] S::position(a)
                && walk(weight, high, n, n as int).found == #[trigger] S::position(b),
{
    law_draw_takes_the_first_to_reach(val, holds, weight, low, n, n as int);
    law_draw_takes_the_first_to_reach(val, holds, weight, high, n, n as int);
    let x = walk(weight, low, n, n as int);
    let y = walk(weight, high, n, n as int);
    let last = (n - 1) as u32;
    if holds(y.open) {
        let a = if holds(x.open) {
            last
        } else {
            let i = choose|i: int|
                0 <= i < n && #[trigger] first_to_reach(val, weight, low, i) && x.found
                    == S::position(i as u32);
            i as u32
        };
        assert(x.found == S::position(a) && y.found == S::position(last));
    } else {
        let j = choose|j: int|
            0 <= j < n && #[trigger] first_to_reach(val, weight, high, j) && y.found
                == S::position(j as u32);
        assert(val(accumulate(zero(), weight, j + 1)) >= val(low));
        assert(!none_reaches(val, weight, low, n as int));
        let i = choose|i: int|
            0 <= i < n && #[trigger] first_to_reach(val, weight, low, i) && x.found
                == S::position(i as u32);
        assert(i <= j) by {
            if j < i {
                assert(val(accumulate(zero(), weight, j + 1)) < val(low));
            }
        }
        assert(x.found == S::position(i as u32) && y.found == S::position(j as u32));
    }
}

/// Whatever the temperature and the uniform draw are, what is sampled is the position of
/// one of the tokens. At a temperature of zero it is that of a largest logit, in every row
/// that holds a logit above negative infinity.
pub proof fn law_sampled_is_a_token<S: Scalar, T: Element<S>>(
    val: spec_fn(S) -> real,
    holds: spec_fn(S::Cond) -> bool,
    inp: Seq<T>,
    before: S::Index,
    temp: S,
    uniform: S,
    n: u32,
)
    requires
        decides(val, holds),
        0 < n,
        forall|p: u32|
            p < n ==> S::to_index(S::of_index(#[trigger] S::position(p))) == S::position(p),
    ensures
        exists|p: u32|
            p < n && sampled::<S, T>(inp, before, temp, uniform, n) == #[trigger] S::position(p),
        val(temp) < val(cold::<S>()) && (exists|i: int|
            0 <= i < n && val(S::lowest()) < val(#[trigger] raw_logits::<S, T>(inp)(i)))
            ==> exists|p: u32|
            p < n && sampled::<S, T>(inp, before, temp, uniform, n) == #[trigger] S::position(p)
                && forall|i: int|
                0 <= i < n ==> val(raw_logits::<S, T>(inp)(p as int)) >= val(
                    #[trigger] raw_logits::<S, T>(inp)(i),
                ),
{
    let raw = raw_logits::<S, T>(inp);
    let size = n as int;
    let result = sampled::<S, T>(inp, before, temp, uniform, n);
    if val(temp) >= val(cold::<S>()) {
        let logit = warm_logits::<S, T>(inp, over(one(), temp));
        let weight = weights_of(logit, largest(logit, size));
        let target = times(uniform, total_of(weight, size));
        law_draw_takes_the_first_to_reach(val, holds, weight, target, n, size);
        reveal(decides);
        let w = walk(weight, target, n, size);
        if holds(w.open) {
            assert(result == S::position((n - 1) as u32));
        } else {
            let j = choose|j: int|
                0 <= j < n && #[trigger] first_to_reach(val, weight, target, j) && w.found
                    == S::position(j as u32);
            assert(result == S::position(j as u32));
        }
    } else if exists|i: int| 0 <= i < n && val(S::lowest()) < val(#[trigger] raw(i)) {
        law_greedy_picks_the_largest(val, holds, raw, size);
        reveal(decides);
        let p = choose|p: int|
            0 <= p < n && greedy(raw, size) == (
                #[trigger] raw(p),
                S::of_index(S::position(p as u32)),
            );
        let q = p as u32;
        assert(S::to_index(greedy(raw, size).1) == S::position(q));
        assert(raw(q as int) == greedy(raw, size).0);
        assert(result == S::position(q));
    } else {
        lemma_greedy_has_a_position(val, holds, raw, size);
        reveal(decides);
        let p = choose|p: int|
            0 <= p < n && greedy(raw, size).1 == S::of_index(#[trigger] S::position(p as u32));
        assert(result == S::position(p as u32));
    }
}

/// The winner has the position of one of the tokens.
proof fn lemma_greedy_has_a_position<S: Scalar>(
    val: spec_fn(S) -> real,
    holds: spec_fn(S::Cond) -> bool,
    logit: spec_fn(int) -> S,
    n: int,
)
    requires
        decides(val, holds),
        0 < n,
    ensures
        exists|p: int|
            0 <= p < n && greedy(logit, n).1 == S::of_index(#[trigger] S::position(p as u32)),
{
    let parts = Seq::new(256, |t: int| candidate(logit, n, t));
    reveal_with_fuel(halves_evenly, 9);
    assert(halves_evenly(256));
    lemma_tree_best(val, holds, parts);
    let win = greedy(logit, n);
    let t = choose|t: int| 0 <= t < parts.len() && win == #[trigger] parts[t];
    lemma_local_best(val, holds, logit, t, n, rounds(n, 256));
    let best = local_best(logit, t, n, rounds(n, 256));
    if best == (Best { value: S::lowest(), at: S::position(0) }) {
        assert(win.1 == S::of_index(S::position(0int as u32)));
    } else {
        let p = choose|p: int|
            0 <= p < n && best == (Best {
                value: #[trigger] logit(p),
                at: S::position(p as u32),
            });
        assert(win.1 == S::of_index(S::position(p as u32)));
    }
}

} // verus!
