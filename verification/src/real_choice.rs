//! What the filters and the draw do to a row of logits, stated over the probabilities that
//! the logits stand for.
//!
//! Logits are weighed against the largest one of their own row: token `c` of row `r`, with
//! `best` the largest there, weighs `exp(x[r * n + c] - x[r * n + best])`.
use vstd::prelude::*;

use crate::algebra::{exponential, law_group_sum_is_the_sum, lemma_ring_sums, ring};
use crate::lanes::{accumulate, rounds, tree};
use crate::layout::lemma_row_major_inverse;
use crate::logits_min_p::{group_max, min_p_value, row_logits, weight_of};
use crate::logits_processors::{distinct, law_penalty_touches_each_token_once, penalized_by};
use crate::logits_top_p::{floor_of, kept_mass, kept_terms, row_mass, row_top, top_p_value};
use crate::real_filters::law_top_p_keeps_no_more;
use crate::real_logits::{
    decides, first_to_reach, law_draw_takes_the_first_to_reach, law_floor_bounds,
    law_greedy_picks_the_largest, law_row_mass_is_the_sum, law_row_top_is_the_group_maximum,
    law_top_p_keeps_the_share, live_weights,
};
use crate::real_model::{
    law_group_max_is_the_largest, lemma_val_constants, lemma_val_exp, lemma_val_over,
    lemma_val_plus, lemma_val_select, models_reals,
};
use crate::real_rotation::{lemma_total_same, total};
use crate::real_sampling::{adds_up, law_total_is_the_sum, lemma_accumulated};
use crate::sampling::{
    better_of, candidate, greedy, larger, largest, local_best, raw_logits, sampled, total_of, walk,
    warm_logits, weights_of,
};
use crate::scalar::{minus, one, over, times, zero, Fun, Scalar};

verus! {

/// Token `best` has the largest of the `n` logits from `at` on, none of which is below
/// negative infinity.
pub open spec fn leads<S: Scalar>(
    val: spec_fn(S) -> real,
    x: Seq<S>,
    at: int,
    n: int,
    best: int,
) -> bool {
    &&& 0 <= best < n
    &&& forall|c: int|
        0 <= c < n ==> val(S::lowest()) <= val(#[trigger] x[at + c]) <= val(x[at + best])
}

/// What logit `v` weighs against logit `top`.
pub open spec fn against<S: Scalar>(val: spec_fn(S) -> real, v: S, top: S) -> real {
    val(S::applied(Fun::Exp, minus(v, top)))
}

proof fn lemma_against<S: Scalar>(val: spec_fn(S) -> real, v: S, a: S, b: S)
    requires
        models_reals(val),
        val(a) == val(b),
    ensures
        against(val, v, a) == against(val, v, b),
        against(val, v, a) > 0 as real,
{
    lemma_val_plus(val, v, a);
    lemma_val_plus(val, v, b);
    lemma_val_exp(val, minus(v, a), minus(v, b));
    lemma_val_exp(val, minus(v, b), minus(v, a));
}

proof fn lemma_top<S: Scalar>(
    val: spec_fn(S) -> real,
    x: Seq<S>,
    n: int,
    r: int,
    width: int,
    best: int,
)
    requires
        models_reals(val),
        0 < width,
        leads(val, x, r * n, n, best),
    ensures
        val(group_max(row_logits::<S, S>(x, n, r), width, n)) == val(x[r * n + best]),
{
    let logit = row_logits::<S, S>(x, n, r);
    assert forall|i: int| 0 <= i < n implies val(S::lowest()) <= val(#[trigger] logit(i)) by {
        let there = x[r * n + i];
    }
    law_group_max_is_the_largest(val, logit, width, n);
    let top = group_max(logit, width, n);
    let i = choose|i: int| 0 <= i < n && val(top) == val(#[trigger] logit(i));
    assert(val(x[r * n + i]) <= val(x[r * n + best]));
    assert(val(top) >= val(logit(best)));
}

/// The filter by `min_p` keeps token `c` of row `r` where it weighs at least `min_p`
/// against the largest logit of that row, and takes it out otherwise.
pub proof fn law_min_p_weighs_its_row<S: Scalar>(
    val: spec_fn(S) -> real,
    x: Seq<S>,
    n: int,
    min_p: S,
    lsize: int,
    r: int,
    best: int,
    c: int,
)
    requires
        models_reals(val),
        0 < lsize,
        0 <= r,
        0 <= c < n,
        leads(val, x, r * n, n, best),
    ensures
        min_p_value::<S, S>(x, n, min_p, lsize, r * n + c) == if against(
            val,
            x[r * n + c],
            x[r * n + best],
        ) >= val(min_p) {
            x[r * n + c]
        } else {
            S::lowest()
        },
{
    lemma_row_major_inverse(r, c, n);
    lemma_top(val, x, n, r, lsize, best);
    let top = group_max(row_logits::<S, S>(x, n, r), lsize, n);
    let v = x[r * n + c];
    lemma_against(val, v, top, x[r * n + best]);
    lemma_val_select(val, weight_of(v, top), min_p, v, S::lowest());
}

/// The summed weights of the tokens of row `r` that weigh at least `floor`.
pub open spec fn mass_from<S: Scalar>(
    val: spec_fn(S) -> real,
    x: Seq<S>,
    n: int,
    r: int,
    best: int,
    floor: real,
) -> real {
    total(
        |c: int|
            if against(val, x[r * n + c], x[r * n + best]) >= floor {
                against(val, x[r * n + c], x[r * n + best])
            } else {
                0 as real
            },
        n,
    )
}

/// The summed weights of the tokens of row `r` that no filter took out before.
pub open spec fn mass_alive<S: Scalar>(
    val: spec_fn(S) -> real,
    x: Seq<S>,
    n: int,
    r: int,
    best: int,
) -> real {
    total(
        |c: int|
            if val(S::lowest()) < val(x[r * n + c]) {
                against(val, x[r * n + c], x[r * n + best])
            } else {
                0 as real
            },
        n,
    )
}

proof fn lemma_reals_add_up<S: Scalar>(val: spec_fn(S) -> real)
    requires
        models_reals(val),
    ensures
        adds_up(val),
{
    reveal(models_reals);
    reveal(adds_up);
    assert(val(zero()) == (0i64 as real) / (1u64 as real));
}

proof fn lemma_kept<S: Scalar>(
    val: spec_fn(S) -> real,
    x: Seq<S>,
    n: int,
    r: int,
    width: int,
    best: int,
    top: S,
    floor: S,
)
    requires
        models_reals(val),
        ring::<S>(),
        0 < width,
        0 <= n,
        val(top) == val(x[r * n + best]),
    ensures
        val(kept_mass(row_logits::<S, S>(x, n, r), top, floor, width, n)) == mass_from(
            val,
            x,
            n,
            r,
            best,
            val(floor),
        ),
{
    let logit = row_logits::<S, S>(x, n, r);
    let f = kept_terms(logit, top, floor);
    lemma_ring_sums::<S>();
    lemma_reals_add_up(val);
    lemma_val_constants(val, 0);
    law_group_sum_is_the_sum(f, 1, width, n);
    lemma_accumulated(val, f, n);
    let g = |c: int|
        if against(val, x[r * n + c], x[r * n + best]) >= val(floor) {
            against(val, x[r * n + c], x[r * n + best])
        } else {
            0 as real
        };
    let h = |c: int| val(f(c));
    assert forall|c: int| 0 <= c < n implies #[trigger] h(c) == g(c) by {
        let v = x[r * n + c];
        lemma_against(val, v, top, x[r * n + best]);
        lemma_val_select(val, weight_of(v, top), floor, weight_of(v, top), zero());
    }
    lemma_total_same(h, g, n);
}

proof fn lemma_alive<S: Scalar>(
    val: spec_fn(S) -> real,
    x: Seq<S>,
    n: int,
    r: int,
    width: int,
    best: int,
)
    requires
        models_reals(val),
        ring::<S>(),
        exponential::<S>(),
        0 < width,
        0 <= n,
        val(row_top(row_logits::<S, S>(x, n, r), width, n)) == val(x[r * n + best]),
    ensures
        val(row_mass(row_logits::<S, S>(x, n, r), width, n)) == mass_alive(val, x, n, r, best),
{
    let logit = row_logits::<S, S>(x, n, r);
    let top = row_top(logit, width, n);
    let f = live_weights(logit, top);
    law_row_mass_is_the_sum(val, logit, width, n);
    lemma_reals_add_up(val);
    lemma_val_constants(val, 0);
    lemma_accumulated(val, f, n);
    let g = |c: int|
        if val(S::lowest()) < val(x[r * n + c]) {
            against(val, x[r * n + c], x[r * n + best])
        } else {
            0 as real
        };
    let h = |c: int| val(f(c));
    assert forall|c: int| 0 <= c < n implies #[trigger] h(c) == g(c) by {
        let v = x[r * n + c];
        lemma_against(val, v, top, x[r * n + best]);
        lemma_val_select(val, S::lowest(), v, zero(), weight_of(v, top));
    }
    lemma_total_same(h, g, n);
}

/// The filter by `top_p` keeps the tokens of row `r` that weigh at least some floor against
/// the largest logit of that row, and takes the others out. The tokens kept hold at least
/// the share `top_p` of the weight of the tokens that were alive, and a floor that is
/// higher by one part in two to the 24th would hold less.
pub proof fn law_top_p_cuts_its_row<S: Scalar>(
    val: spec_fn(S) -> real,
    x: Seq<S>,
    n: int,
    top_p: S,
    lsize: int,
    r: int,
    best: int,
    c: int,
    higher: S,
)
    requires
        models_reals(val),
        ring::<S>(),
        exponential::<S>(),
        0 < lsize,
        0 <= r,
        0 <= c < n,
        leads(val, x, r * n, n, best),
    ensures
        ({
            let floor = val(floor_of(row_logits::<S, S>(x, n, r), top_p, lsize, n));
            &&& 0real <= floor < 1real
            &&& top_p_value::<S, S>(x, n, top_p, lsize, r * n + c) == if against(
                val,
                x[r * n + c],
                x[r * n + best],
            ) >= floor {
                x[r * n + c]
            } else {
                S::lowest()
            }
            &&& val(top_p) <= 1 as real ==> mass_from(val, x, n, r, best, floor) >= val(top_p)
                * mass_alive(val, x, n, r, best)
            &&& (val(higher) - floor) * (0x100_0000 as real) >= 1 as real && val(higher)
                < 1 as real ==> mass_from(val, x, n, r, best, val(higher)) < val(top_p)
                * mass_alive(val, x, n, r, best)
        }),
{
    let logit = row_logits::<S, S>(x, n, r);
    let top = row_top(logit, lsize, n);
    let mass = row_mass(logit, lsize, n);
    let floor = floor_of(logit, top_p, lsize, n);
    lemma_row_major_inverse(r, c, n);
    lemma_ring_sums::<S>();
    lemma_top(val, x, n, r, lsize, best);
    law_row_top_is_the_group_maximum(logit, lsize, n);
    law_floor_bounds(val, logit, top, times(top_p, mass), lsize, n, 24);
    let v = x[r * n + c];
    lemma_against(val, v, top, x[r * n + best]);
    lemma_val_select(val, weight_of(v, top), floor, v, S::lowest());
    lemma_kept(val, x, n, r, lsize, best, top, floor);
    lemma_kept(val, x, n, r, lsize, best, top, higher);
    lemma_alive(val, x, n, r, lsize, best);
    lemma_val_plus(val, top_p, mass);
    if val(top_p) <= 1 as real {
        law_top_p_keeps_the_share(val, logit, top_p, lsize, n);
    }
    if (val(higher) - val(floor)) * (0x100_0000 as real) >= 1 as real && val(higher) < 1 as real {
        law_top_p_keeps_no_more(val, logit, top_p, lsize, n, higher);
    }
}

/// A penalty divides the positive logits of the tokens that occurred and multiplies the
/// others of them; all other logits stay.
pub proof fn law_penalty_divides_or_multiplies<S: Scalar>(
    val: spec_fn(S) -> real,
    logits: Seq<S>,
    token_ids: Seq<u32>,
    penalty: S,
    i: int,
)
    requires
        models_reals(val),
        val(penalty) != 0 as real,
        distinct(token_ids),
        forall|k: int| 0 <= k < token_ids.len() ==> #[trigger] token_ids[k] < logits.len(),
        0 <= i < logits.len(),
    ensures
        val(penalized_by(logits, token_ids, penalty, token_ids.len() as int)[i])
            == if exists|k: int| 0 <= k < token_ids.len() && #[trigger] token_ids[k] == i {
            if val(logits[i]) > 0 as real {
                val(logits[i]) / val(penalty)
            } else {
                val(logits[i]) * val(penalty)
            }
        } else {
            val(logits[i])
        },
{
    law_penalty_touches_each_token_once(logits, token_ids, penalty);
    lemma_val_constants(val, 0);
    let v = logits[i];
    lemma_val_select(val, zero(), v, over(v, penalty), times(v, penalty));
    lemma_val_over(val, v, penalty);
    lemma_val_plus(val, v, penalty);
}

proof fn lemma_same_prefix<S: Scalar>(
    logits: Seq<S>,
    a: Seq<u32>,
    b: Seq<u32>,
    penalty: S,
    k: int,
)
    requires
        forall|i: int| 0 <= i < k ==> #[trigger] a[i] == b[i] && a[i] < logits.len(),
    ensures
        penalized_by(logits, a, penalty, k) == penalized_by(logits, b, penalty, k),
        penalized_by(logits, a, penalty, k).len() == logits.len(),
    decreases k,
{
    if k > 0 {
        lemma_same_prefix(logits, a, b, penalty, k - 1);
        assert(a[k - 1] == b[k - 1]);
    }
}

/// One token more, whether it occurred before or not, divides its logit once more where it
/// is positive and multiplies it where it is not; all other logits stay as the tokens
/// before it left them.
pub proof fn law_each_occurrence_is_penalized<S: Scalar>(
    val: spec_fn(S) -> real,
    logits: Seq<S>,
    token_ids: Seq<u32>,
    token: u32,
    penalty: S,
    i: int,
)
    requires
        models_reals(val),
        val(penalty) != 0 as real,
        forall|k: int| 0 <= k < token_ids.len() ==> #[trigger] token_ids[k] < logits.len(),
        token < logits.len(),
        0 <= i < logits.len(),
    ensures
        ({
            let before = penalized_by(logits, token_ids, penalty, token_ids.len() as int);
            val(
                penalized_by(
                    logits,
                    token_ids.push(token),
                    penalty,
                    token_ids.len() as int + 1,
                )[i],
            ) == if i != token {
                val(before[i])
            } else if val(before[i]) > 0 as real {
                val(before[i]) / val(penalty)
            } else {
                val(before[i]) * val(penalty)
            }
        }),
{
    let k = token_ids.len() as int;
    lemma_same_prefix(logits, token_ids.push(token), token_ids, penalty, k);
    let before = penalized_by(logits, token_ids, penalty, k);
    lemma_val_constants(val, 0);
    let v = before[i];
    lemma_val_select(val, zero(), v, over(v, penalty), times(v, penalty));
    lemma_val_over(val, v, penalty);
    lemma_val_plus(val, v, penalty);
}

proof fn lemma_tree_firsts<S: Scalar>(pairs: Seq<(S, S)>, firsts: Seq<S>)
    requires
        pairs.len() == firsts.len(),
        pairs.len() >= 1,
        forall|t: int| 0 <= t < pairs.len() ==> (#[trigger] pairs[t]).0 == firsts[t],
    ensures
        tree(pairs, |upper: (S, S), lower: (S, S)| better_of(upper, lower)).0 == tree(
            firsts,
            |upper: S, lower: S| larger(upper, lower),
        ),
    decreases pairs.len(),
{
    let f = |upper: (S, S), lower: (S, S)| better_of(upper, lower);
    let g = |upper: S, lower: S| larger(upper, lower);
    if pairs.len() > 1 {
        let h = pairs.len() as int / 2;
        let a = Seq::new(h as nat, |i: int| f(pairs[i + h], pairs[i]));
        let b = Seq::new(h as nat, |i: int| g(firsts[i + h], firsts[i]));
        assert forall|t: int| 0 <= t < a.len() implies (#[trigger] a[t]).0 == b[t] by {
            assert(pairs[t + h].0 == firsts[t + h]);
            assert(pairs[t].0 == firsts[t]);
        }
        lemma_tree_firsts(a, b);
    } else {
        assert(pairs[0].0 == firsts[0]);
    }
}

proof fn lemma_largest<S: Scalar>(
    val: spec_fn(S) -> real,
    holds: spec_fn(S::Cond) -> bool,
    logit: spec_fn(int) -> S,
    n: int,
    best: int,
)
    requires
        decides(val, holds),
        0 <= best < n,
        val(S::lowest()) < val(logit(best)),
        forall|i: int| 0 <= i < n ==> val(#[trigger] logit(i)) <= val(logit(best)),
    ensures
        val(largest(logit, n)) == val(logit(best)),
{
    let pairs = Seq::new(256, |t: int| candidate(logit, n, t));
    let firsts = Seq::new(256, |t: int| local_best(logit, t, n, rounds(n, 256)).value);
    lemma_tree_firsts(pairs, firsts);
    law_greedy_picks_the_largest(val, holds, logit, n);
    let p = choose|p: int|
        0 <= p < n && greedy(logit, n) == (
            #[trigger] logit(p),
            S::of_index(S::position(p as u32)),
        );
    assert(val(logit(p)) <= val(logit(best)));
    assert(val(greedy(logit, n).0) >= val(logit(best)));
}

proof fn lemma_total_grows(f: spec_fn(int) -> real, a: int, b: int)
    requires
        0 <= a <= b,
        forall|i: int| a <= i < b ==> #[trigger] f(i) >= 0 as real,
    ensures
        total(f, a) <= total(f, b),
    decreases b,
{
    if a < b {
        lemma_total_grows(f, a, b - 1);
        assert(f(b - 1) >= 0 as real);
    }
}

/// At a temperature of at least one part in ten million, a token is drawn where the
/// uniform draw falls into its share: the logits are divided by the temperature and weighed
/// against the largest, and the draw times the sum of all weights lies above the sum of the
/// weights before the token, if there are any, and not above that sum and the token's own
/// weight.
pub proof fn law_draw_falls_into_the_share<S: Scalar>(
    val: spec_fn(S) -> real,
    holds: spec_fn(S::Cond) -> bool,
    x: Seq<S>,
    before: S::Index,
    temp: S,
    uniform: S,
    n: u32,
    best: int,
    p: int,
)
    requires
        models_reals(val),
        decides(val, holds),
        val(temp) >= val(S::rational(1, 10000000)),
        0 <= best < n,
        0 <= p < n,
        val(S::lowest()) < val(times(x[best], over(one(), temp))),
        forall|i: int|
            0 <= i < n ==> val(times(#[trigger] x[i], over(one(), temp))) <= val(
                times(x[best], over(one(), temp)),
            ),
        ({
            let weight = |i: int|
                against(
                    val,
                    times(x[i], over(one(), temp)),
                    times(x[best], over(one(), temp)),
                );
            let target = val(uniform) * total(weight, n as int);
            (p == 0 || total(weight, p) < target) && target <= total(weight, p + 1)
        }),
    ensures
        sampled::<S, S>(x, before, temp, uniform, n) == S::position(p as u32),
{
    let inv = over(one(), temp);
    let logit = warm_logits::<S, S>(x, inv);
    let size = n as int;
    let top = largest(logit, size);
    let weight = weights_of(logit, top);
    let sum = total_of(weight, size);
    let target = times(uniform, sum);
    assert forall|i: int| 0 <= i < n implies val(#[trigger] logit(i)) <= val(logit(best)) by {
        let there = x[i];
    }
    lemma_largest(val, holds, logit, size, best);
    lemma_reals_add_up(val);
    let w = |i: int|
        against(val, times(x[i], over(one(), temp)), times(x[best], over(one(), temp)));
    let v = |i: int| val(weight(i));
    assert forall|i: int| #[trigger] v(i) == w(i) && w(i) > 0 as real by {
        lemma_against(val, logit(i), top, logit(best));
    }
    law_total_is_the_sum(val, weight, size);
    lemma_accumulated(val, weight, size);
    lemma_total_same(v, w, size);
    lemma_val_plus(val, uniform, sum);
    assert forall|k: int| 0 <= k <= size implies #[trigger] val(accumulate(zero(), weight, k))
        == total(w, k) by {
        lemma_accumulated(val, weight, k);
        lemma_total_same(v, w, k);
    }
    assert forall|k: int| 0 <= k < p implies val(#[trigger] accumulate(zero(), weight, k + 1))
        < val(target) by {
        assert forall|i: int| k + 1 <= i < p implies #[trigger] w(i) >= 0 as real by {
            assert(v(i) == w(i));
        }
        lemma_total_grows(w, k + 1, p);
    }
    assert(val(accumulate(zero(), weight, p + 1)) >= val(target));
    assert(first_to_reach(val, weight, target, p));
    law_draw_takes_the_first_to_reach(val, holds, weight, target, n, size);
    let end = walk(weight, target, n, size);
    assert(!holds(end.open)) by {
        assert(val(accumulate(zero(), weight, p + 1)) >= val(target));
    }
    let j = choose|j: int|
        0 <= j < size && #[trigger] first_to_reach(val, weight, target, j) && end.found
            == S::position(j as u32);
    if j < p {
        assert(val(accumulate(zero(), weight, j + 1)) < val(target));
    } else if p < j {
        assert(val(accumulate(zero(), weight, p + 1)) < val(target));
    }
    reveal(decides);
}

/// At a temperature below one part in ten million, a token whose logit is above all others
/// is taken, whatever the draw is.
pub proof fn law_cold_draw_takes_the_largest<S: Scalar>(
    val: spec_fn(S) -> real,
    holds: spec_fn(S::Cond) -> bool,
    x: Seq<S>,
    before: S::Index,
    temp: S,
    uniform: S,
    n: u32,
    best: int,
)
    requires
        decides(val, holds),
        val(temp) < val(S::rational(1, 10000000)),
        0 <= best < n,
        val(S::lowest()) < val(x[best]),
        forall|i: int| 0 <= i < n && i != best ==> val(#[trigger] x[i]) < val(x[best]),
        S::to_index(S::of_index(S::position(best as u32))) == S::position(best as u32),
    ensures
        sampled::<S, S>(x, before, temp, uniform, n) == S::position(best as u32),
{
    let raw = raw_logits::<S, S>(x);
    let size = n as int;
    assert(val(S::lowest()) < val(raw(best)));
    law_greedy_picks_the_largest(val, holds, raw, size);
    let p = choose|p: int|
        0 <= p < size && greedy(raw, size) == (
            #[trigger] raw(p),
            S::of_index(S::position(p as u32)),
        );
    assert(val(greedy(raw, size).0) >= val(raw(best)));
    assert(val(x[p]) >= val(x[best]));
    assert(p == best);
    reveal(decides);
}

/// A draw above one takes the last token.
pub proof fn law_draw_above_one_takes_the_last<S: Scalar>(
    val: spec_fn(S) -> real,
    holds: spec_fn(S::Cond) -> bool,
    x: Seq<S>,
    before: S::Index,
    temp: S,
    uniform: S,
    n: u32,
)
    requires
        models_reals(val),
        decides(val, holds),
        val(temp) >= val(S::rational(1, 10000000)),
        0 < n,
        val(uniform) > 1 as real,
    ensures
        sampled::<S, S>(x, before, temp, uniform, n) == S::position((n - 1) as u32),
{
    let logit = warm_logits::<S, S>(x, over(one(), temp));
    let size = n as int;
    let weight = weights_of(logit, largest(logit, size));
    let sum = total_of(weight, size);
    let target = times(uniform, sum);
    lemma_reals_add_up(val);
    law_total_is_the_sum(val, weight, size);
    lemma_val_plus(val, uniform, sum);
    let v = |i: int| val(weight(i));
    assert forall|i: int| #[trigger] v(i) > 0 as real by {
        let at = minus(logit(i), largest(logit, size));
        lemma_val_exp(val, at, at);
    }
    lemma_accumulated(val, weight, size);
    assert(v(size - 1) > 0 as real);
    lemma_total_grows(v, 0, size - 1);
    let (u, t) = (val(uniform), val(sum));
    assert(u * t > t) by (nonlinear_arith)
        requires
            u > 1 as real,
            t > 0 as real,
    ;
    assert forall|k: int| 0 <= k < size implies val(#[trigger] accumulate(zero(), weight, k + 1))
        < val(target) by {
        lemma_accumulated(val, weight, k + 1);
        lemma_total_grows(v, k + 1, size);
    }
    law_draw_takes_the_first_to_reach(val, holds, weight, target, n, size);
    reveal(decides);
}

proof fn lemma_tree_keeps_the_lowest<S: Scalar>(
    val: spec_fn(S) -> real,
    holds: spec_fn(S::Cond) -> bool,
    parts: Seq<(S, S)>,
)
    requires
        decides(val, holds),
        parts.len() >= 1,
        forall|t: int| 0 <= t < parts.len() ==> val((#[trigger] parts[t]).0) <= val(parts[0].0),
    ensures
        tree(parts, |upper: (S, S), lower: (S, S)| better_of(upper, lower)) == parts[0],
    decreases parts.len(),
{
    let join = |upper: (S, S), lower: (S, S)| better_of(upper, lower);
    if parts.len() > 1 {
        let h = parts.len() as int / 2;
        let half = Seq::new(h as nat, |i: int| join(parts[i + h], parts[i]));
        reveal(decides);
        assert(val(parts[h].0) <= val(parts[0].0));
        assert(half[0] == parts[0]);
        assert forall|t: int| 0 <= t < half.len() implies val((#[trigger] half[t]).0) <= val(
            half[0].0,
        ) by {
            assert(val(parts[t + h].0) <= val(parts[0].0));
            assert(val(parts[t].0) <= val(parts[0].0));
        }
        lemma_tree_keeps_the_lowest(val, holds, half);
    }
}

proof fn lemma_first_in_lane<S: Scalar>(
    val: spec_fn(S) -> real,
    holds: spec_fn(S::Cond) -> bool,
    logit: spec_fn(int) -> S,
    n: int,
    t: int,
    p: int,
    count: int,
)
    requires
        decides(val, holds),
        0 <= t < 256,
        0 <= p < n,
        val(S::lowest()) < val(logit(p)),
        forall|i: int| 0 <= i < n ==> val(#[trigger] logit(i)) <= val(logit(p)),
        forall|i: int|
            0 <= i < p && i % 256 == p % 256 ==> val(#[trigger] logit(i)) < val(logit(p)),
    ensures
        val(local_best(logit, t, n, count).value) <= val(logit(p)),
        t == p % 256 && count <= p / 256 ==> val(local_best(logit, t, n, count).value) < val(
            logit(p),
        ),
        t == p % 256 && count > p / 256 ==> local_best(logit, t, n, count).value == logit(p)
            && local_best(logit, t, n, count).at == S::position(p as u32),
    decreases count,
{
    reveal(decides);
    if count > 0 {
        lemma_first_in_lane(val, holds, logit, n, t, p, count - 1);
        let pos = (count - 1) * 256 + t;
        if pos < n {
            assert(val(logit(pos)) <= val(logit(p)));
            if t == p % 256 && pos < p {
                assert(pos % 256 == p % 256);
                assert(val(logit(pos)) < val(logit(p)));
            }
        }
    }
}

/// Of several largest logits the draw of a cold row takes one in the first of 256 lanes, if
/// there is one, and the first of that lane: where all logits are the same, the first.
pub proof fn law_cold_draw_prefers_the_first_lane<S: Scalar>(
    val: spec_fn(S) -> real,
    holds: spec_fn(S::Cond) -> bool,
    x: Seq<S>,
    before: S::Index,
    temp: S,
    uniform: S,
    n: u32,
    best: int,
)
    requires
        decides(val, holds),
        val(temp) < val(S::rational(1, 10000000)),
        0 <= best < n,
        best % 256 == 0,
        val(S::lowest()) < val(x[best]),
        forall|i: int| 0 <= i < n ==> val(#[trigger] x[i]) <= val(x[best]),
        forall|i: int| 0 <= i < best && i % 256 == 0 ==> val(#[trigger] x[i]) < val(x[best]),
        S::to_index(S::of_index(S::position(best as u32))) == S::position(best as u32),
    ensures
        sampled::<S, S>(x, before, temp, uniform, n) == S::position(best as u32),
{
    let raw = raw_logits::<S, S>(x);
    let size = n as int;
    let count = rounds(size, 256);
    assert forall|i: int| 0 <= i < size implies val(#[trigger] raw(i)) <= val(raw(best)) by {
        let there = x[i];
    }
    assert forall|i: int| 0 <= i < best && i % 256 == best % 256 implies val(#[trigger] raw(i))
        < val(raw(best)) by {
        let there = x[i];
    }
    let parts = Seq::new(256, |t: int| candidate(raw, size, t));
    assert(count > best / 256);
    assert forall|t: int| 0 <= t < 256 implies val((#[trigger] parts[t]).0) <= val(parts[0].0) by {
        lemma_first_in_lane(val, holds, raw, size, t, best, count);
        lemma_first_in_lane(val, holds, raw, size, 0, best, count);
    }
    lemma_first_in_lane(val, holds, raw, size, 0, best, count);
    lemma_tree_keeps_the_lowest(val, holds, parts);
    reveal(decides);
}

} // verus!
