//! Sampling of a token from logits.
//!
//! A group of 256 threads reduces the logits, each thread its stride and then all
//! of them in a binary tree. At a temperature of practically zero the largest logit
//! wins; otherwise one thread walks the cumulated weights up to a uniform draw.
use vstd::prelude::*;

use crate::lanes::{
    collect, halves_evenly, lemma_round_fits, round_count, rounds, strided, strided_summed, tree,
    tree_reduced,
};
use crate::scalar::{
    above, below, minus, one, over, plus, s_add, s_div, s_gt, s_lt, s_mul, s_one, s_sub, s_zero,
    times, zero, Element, Fun, Rel, Scalar,
};

verus! {

/// The best logit seen, and where.
pub struct Best<S: Scalar> {
    pub value: S,
    pub at: S::Index,
}

/// What thread `t` of 256 keeps of the logits in `count` rounds: the first of the
/// largest.
pub open spec fn local_best<S: Scalar>(
    logit: spec_fn(int) -> S,
    t: int,
    n: int,
    count: int,
) -> Best<S>
    decreases count,
{
    if count <= 0 {
        Best { value: S::lowest(), at: S::position(0) }
    } else {
        let before = local_best(logit, t, n, count - 1);
        let pos = (count - 1) * 256 + t;
        if pos < n {
            let better = above(logit(pos), before.value);
            Best {
                value: S::chosen(better, logit(pos), before.value),
                at: S::chosen_index(better, S::position(pos as u32), before.at),
            }
        } else {
            before
        }
    }
}

/// A candidate of the tree: its logit, and its index as a number.
pub open spec fn candidate<S: Scalar>(logit: spec_fn(int) -> S, n: int, t: int) -> (S, S) {
    let best = local_best(logit, t, n, rounds(n, 256));
    (best.value, S::of_index(best.at))
}

/// The upper candidate where its logit is larger, else the lower one.
pub open spec fn better_of<S: Scalar>(upper: (S, S), lower: (S, S)) -> (S, S) {
    let better = above(upper.0, lower.0);
    (S::chosen(better, upper.0, lower.0), S::chosen(better, upper.1, lower.1))
}

/// The winner: its logit, and its index as a number.
pub open spec fn greedy<S: Scalar>(logit: spec_fn(int) -> S, n: int) -> (S, S) {
    tree(
        Seq::new(256, |t: int| candidate(logit, n, t)),
        |upper: (S, S), lower: (S, S)| better_of(upper, lower),
    )
}

/// The larger of two, the lower one where neither is.
pub open spec fn larger<S: Scalar>(upper: S, lower: S) -> S {
    S::chosen(above(upper, lower), upper, lower)
}

/// The largest of the logits.
pub open spec fn largest<S: Scalar>(logit: spec_fn(int) -> S, n: int) -> S {
    tree(
        Seq::new(256, |t: int| local_best(logit, t, n, rounds(n, 256)).value),
        |upper: S, lower: S| larger(upper, lower),
    )
}

/// The weight of each logit: `exp(logit - top)`.
pub open spec fn weights_of<S: Scalar>(logit: spec_fn(int) -> S, top: S) -> spec_fn(int) -> S {
    |i: int| S::applied(Fun::Exp, minus(logit(i), top))
}

/// The sum of the weights.
pub open spec fn total_of<S: Scalar>(weight: spec_fn(int) -> S, n: int) -> S {
    tree(
        Seq::new(256, |t: int| strided(weight, 1, t, 256, n, rounds(n, 256))),
        |upper: S, lower: S| plus(upper, lower),
    )
}

/// Where a walk over the cumulated weights stands.
pub struct Walk<S: Scalar> {
    pub cum: S,
    pub found: S::Index,
    /// Nothing was found yet.
    pub open: S::Cond,
}

/// The walk after `i` weights: the first at which the sum reaches `target` is found,
/// and the last one of `n` where none does.
pub open spec fn walk<S: Scalar>(weight: spec_fn(int) -> S, target: S, n: u32, i: int) -> Walk<S>
    decreases i,
{
    if i <= 0 {
        Walk { cum: zero(), found: S::position((n - 1) as u32), open: S::certain() }
    } else {
        let before = walk(weight, target, n, i - 1);
        let cum = plus(before.cum, weight(i - 1));
        let hit = S::conjoined(S::related(Rel::AtLeast, cum, target), before.open);
        Walk {
            cum,
            found: S::chosen_index(hit, S::position((i - 1) as u32), before.found),
            open: S::conjoined(before.open, S::negated(hit)),
        }
    }
}

/// The logits as they are stored.
pub open spec fn raw_logits<S: Scalar, T: Element<S>>(inp: Seq<T>) -> spec_fn(int) -> S {
    |i: int| inp[i].widened()
}

/// The logits at a temperature, by its inverse.
pub open spec fn warm_logits<S: Scalar, T: Element<S>>(inp: Seq<T>, inv_t: S) -> spec_fn(int) -> S {
    |i: int| times(inp[i].widened(), inv_t)
}

/// The index drawn at temperature `temp` by the uniform draw `uniform`.
pub open spec fn drawn<S: Scalar, T: Element<S>>(
    inp: Seq<T>,
    temp: S,
    uniform: S,
    n: u32,
) -> S::Index {
    let logit = warm_logits::<S, T>(inp, over(one(), temp));
    let weight = weights_of(logit, largest(logit, n as int));
    let target = times(uniform, total_of(weight, n as int));
    walk(weight, target, n, n as int).found
}

/// Temperatures below this one are taken for zero.
pub open spec fn cold<S: Scalar>() -> S {
    S::rational(1, 10000000)
}

/// The sampled index; a temperature that is not a number leaves what was there.
pub open spec fn sampled<S: Scalar, T: Element<S>>(
    inp: Seq<T>,
    before: S::Index,
    temp: S,
    uniform: S,
    n: u32,
) -> S::Index {
    let cold_pick = S::to_index(greedy(raw_logits::<S, T>(inp), n as int).1);
    let after_cold = S::chosen_index(below(temp, cold()), cold_pick, before);
    S::chosen_index(
        S::related(Rel::AtLeast, temp, cold()),
        drawn::<S, T>(inp, temp, uniform, n),
        after_cold,
    )
}

fn best_of_thread<S: Scalar, F: Fn(usize) -> S>(
    f: &F,
    t: usize,
    n: u32,
    logit: Ghost<spec_fn(int) -> S>,
) -> (best: Best<S>)
    requires
        t < 256,
        forall|i: usize| i < n ==> call_requires(*f, (i,)),
        forall|i: usize, r: S| i < n && call_ensures(*f, (i,), r) ==> r == (logit@)(i as int),
    ensures
        best == local_best(logit@, t as int, n as int, rounds(n as int, 256)),
{
    let size: usize = n as usize;
    let count: usize = round_count(size, 256);
    let mut best = Best { value: S::neg_infinity(), at: S::index(0) };
    let mut k: usize = 0;
    while k < count
        invariant
            k <= count,
            t < 256,
            size == n,
            count == rounds(n as int, 256),
            forall|i: usize| i < n ==> call_requires(*f, (i,)),
            forall|i: usize, r: S| i < n && call_ensures(*f, (i,), r) ==> r == (logit@)(i as int),
            best == local_best(logit@, t as int, n as int, k as int),
        decreases count - k,
    {
        proof {
            lemma_round_fits(k as int, count as int, t as int, 256, n as int);
        }
        let start: usize = k * 256;
        if t < size - start {
            let pos: usize = start + t;
            let v = f(pos);
            let better = s_gt(&v, &best.value);
            best = Best {
                value: S::select(&better, &v, &best.value),
                at: S::select_index(&better, &S::index(pos as u32), &best.at),
            };
        }
        k = k + 1;
    }
    best
}

proof fn lemma_group_halves()
    ensures
        halves_evenly(256),
{
    reveal_with_fuel(halves_evenly, 9);
}

/// The index of the largest logit.
fn greedy_pick<S: Scalar, F: Fn(usize) -> S>(
    f: F,
    n: u32,
    logit: Ghost<spec_fn(int) -> S>,
) -> (at: S::Index)
    requires
        forall|i: usize| i < n ==> call_requires(f, (i,)),
        forall|i: usize, r: S| i < n && call_ensures(f, (i,), r) ==> r == (logit@)(i as int),
    ensures
        at == S::to_index(greedy(logit@, n as int).1),
{
    let parts: Vec<(S, S)> = collect(
        256,
        |t: usize| -> (c: (S, S))
            requires
                t < 256
            ensures
                c == candidate(logit@, n as int, t as int)
            {
                let best = best_of_thread(&f, t, n, logit);
                (best.value, S::index_value(&best.at))
            },
        Ghost(|t: int, c: (S, S)| c == candidate(logit@, n as int, t)),
    );
    assert(parts@ =~= Seq::new(256, |t: int| candidate(logit@, n as int, t)));
    proof {
        lemma_group_halves();
    }
    let winner = tree_reduced(
        parts,
        |upper: &(S, S), lower: &(S, S)| -> (r: (S, S))
            ensures
                r == better_of(*upper, *lower)
            {
                let better = s_gt(&upper.0, &lower.0);
                (
                    S::select(&better, &upper.0, &lower.0),
                    S::select(&better, &upper.1, &lower.1),
                )
            },
        Ghost(|upper: (S, S), lower: (S, S)| better_of(upper, lower)),
    );
    S::trunc(&winner.1)
}

/// The largest logit.
fn top_logit<S: Scalar, F: Fn(usize) -> S>(f: &F, n: u32, logit: Ghost<spec_fn(int) -> S>) -> (v: S)
    requires
        forall|i: usize| i < n ==> call_requires(*f, (i,)),
        forall|i: usize, r: S| i < n && call_ensures(*f, (i,), r) ==> r == (logit@)(i as int),
    ensures
        v == largest(logit@, n as int),
{
    let ghost count = rounds(n as int, 256);
    let parts: Vec<S> = collect(
        256,
        |t: usize| -> (v: S)
            requires
                t < 256
            ensures
                v == local_best(logit@, t as int, n as int, count).value
            { best_of_thread(f, t, n, logit).value },
        Ghost(|t: int, v: S| v == local_best(logit@, t, n as int, count).value),
    );
    assert(parts@ =~= Seq::new(256, |t: int| local_best(logit@, t, n as int, count).value));
    proof {
        lemma_group_halves();
    }
    tree_reduced(
        parts,
        |upper: &S, lower: &S| -> (r: S)
            ensures
                r == larger(*upper, *lower)
            { S::select(&s_gt(upper, lower), upper, lower) },
        Ghost(|upper: S, lower: S| larger(upper, lower)),
    )
}

/// The sum of the weights.
fn total_weight<S: Scalar, F: Fn(usize) -> S>(
    f: &F,
    n: u32,
    weight: Ghost<spec_fn(int) -> S>,
) -> (v: S)
    requires
        forall|i: usize| i < n ==> call_requires(*f, (i,)),
        forall|i: usize, r: S| i < n && call_ensures(*f, (i,), r) ==> r == (weight@)(i as int),
    ensures
        v == total_of(weight@, n as int),
{
    let ghost count = rounds(n as int, 256);
    let size: usize = n as usize;
    let parts: Vec<S> = collect(
        256,
        |t: usize| -> (v: S)
            requires
                t < 256
            ensures
                v == strided(weight@, 1, t as int, 256, n as int, count)
            { strided_summed(f, 1, t, 256, size, weight) },
        Ghost(|t: int, v: S| v == strided(weight@, 1, t, 256, n as int, count)),
    );
    assert(parts@ =~= Seq::new(256, |t: int| strided(weight@, 1, t, 256, n as int, count)));
    proof {
        lemma_group_halves();
    }
    tree_reduced(
        parts,
        |upper: &S, lower: &S| -> (r: S)
            ensures
                r == plus(*upper, *lower)
            { s_add(upper, lower) },
        Ghost(|upper: S, lower: S| plus(upper, lower)),
    )
}

/// The first index at which the cumulated weights reach `target`.
fn walk_weights<S: Scalar, F: Fn(usize) -> S>(
    f: &F,
    target: &S,
    n: u32,
    weight: Ghost<spec_fn(int) -> S>,
) -> (found: S::Index)
    requires
        n > 0,
        forall|i: usize| i < n ==> call_requires(*f, (i,)),
        forall|i: usize, r: S| i < n && call_ensures(*f, (i,), r) ==> r == (weight@)(i as int),
    ensures
        found == walk(weight@, *target, n, n as int).found,
{
    let mut cum = s_zero::<S>();
    let mut found = S::index(n - 1);
    let mut open = S::always();
    let mut i: u32 = 0;
    while i < n
        invariant
            i <= n,
            n > 0,
            forall|i: usize| i < n ==> call_requires(*f, (i,)),
            forall|i: usize, r: S| i < n && call_ensures(*f, (i,), r) ==> r == (weight@)(i as int),
            ({
                let w = walk(weight@, *target, n, i as int);
                &&& cum == w.cum
                &&& found == w.found
                &&& open == w.open
            }),
        decreases n - i,
    {
        let w = f(i as usize);
        cum = s_add(&cum, &w);
        let hit = S::both(&S::relate(Rel::AtLeast, &cum, target), &open);
        found = S::select_index(&hit, &S::index(i), &found);
        open = S::both(&open, &S::not(&hit));
        i = i + 1;
    }
    found
}

/// The index drawn at a temperature.
fn draw_index<S: Scalar, T: Element<S>>(inp: &[T], temp: &S, uniform: &S, n: u32) -> (found: S::Index)
    requires
        n > 0,
        inp@.len() == n,
    ensures
        found == drawn::<S, T>(inp@, *temp, *uniform, n),
{
    let inv_t = s_div(&s_one(), temp);
    let ghost logit = warm_logits::<S, T>(inp@, inv_t);
    let warm = |i: usize| -> (v: S)
        requires
            i < n
        ensures
            v == logit(i as int)
        { s_mul(&inp[i].widen(), &inv_t) };
    let top = top_logit(&warm, n, Ghost(logit));
    let ghost weight = weights_of(logit, top);
    let weigh = |i: usize| -> (v: S)
        requires
            i < n
        ensures
            v == weight(i as int)
        { S::apply(Fun::Exp, &s_sub(&s_mul(&inp[i].widen(), &inv_t), &top)) };
    let total = total_weight(&weigh, n, Ghost(weight));
    let target = s_mul(uniform, &total);
    walk_weights(&weigh, &target, n, Ghost(weight))
}

/// Samples one of `n` tokens: the largest logit at a temperature below 1e-7, else the
/// one at which the cumulated softmax weights reach `uniform_in[0]`.
pub fn softmax_categorical_sample<S: Scalar, T: Element<S>>(
    inp: &[T],
    out: &mut Vec<S::Index>,
    temperature_in: &[S],
    uniform_in: &[S],
    n: u32,
)
    requires
        n > 0,
        inp@.len() == n,
        old(out)@.len() == 1,
        temperature_in@.len() >= 1,
        uniform_in@.len() >= 1,
    ensures
        final(out)@.len() == 1,
        final(out)@[0] == sampled::<S, T>(
            inp@,
            old(out)@[0],
            temperature_in@[0],
            uniform_in@[0],
            n,
        ),
{
    let temp = &temperature_in[0];
    let limit = S::ratio(1, 10000000);
    let cold_pick: S::Index = greedy_pick(
        |i: usize| -> (v: S)
            requires
                i < n
            ensures
                v == raw_logits::<S, T>(inp@)(i as int)
            { inp[i].widen() },
        n,
        Ghost(raw_logits::<S, T>(inp@)),
    );
    let after_cold = S::select_index(&s_lt(temp, &limit), &cold_pick, &out[0]);
    let warm_pick: S::Index = draw_index(inp, temp, &uniform_in[0], n);
    let pick = S::select_index(&S::relate(Rel::AtLeast, temp, &limit), &warm_pick, &after_cold);
    out.set(0, pick);
}

} // verus!
