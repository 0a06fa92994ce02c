//! Attention of one query over cached keys and values, with the softmax computed as
//! the keys go by.
use vstd::prelude::*;

use crate::algebra::{
    exponential, lemma_add_assoc, lemma_add_zero, lemma_distribute, lemma_exp_cancel,
    lemma_exp_shift, lemma_mul_assoc, lemma_mul_comm, lemma_mul_zero, lemma_ring_sums, ring,
};
use crate::lanes::{accumulate, collect};
use crate::scalar::{minus, over, plus, s_add, s_mul, s_sub, times, zero, Fun, Scalar};

verus! {

/// A softmax in progress: the largest score, the sum of the weights and the weighted
/// sum of the values, both relative to that score.
#[verifier::ext_equal]
pub struct SoftView<S> {
    pub m: S,
    pub l: S,
    pub o: Seq<S>,
}

pub struct Soft<S> {
    pub m: S,
    pub l: S,
    pub o: Vec<S>,
}

impl<S> View for Soft<S> {
    type V = SoftView<S>;

    open spec fn view(&self) -> SoftView<S> {
        SoftView { m: self.m, l: self.l, o: self.o@ }
    }
}

/// One more key: its score and its value, when `m` is the largest score with it.
pub open spec fn soft_step<S: Scalar>(
    st: SoftView<S>,
    score: S,
    value: Seq<S>,
    m: S,
) -> SoftView<S> {
    let factor = S::applied(Fun::Exp, minus(st.m, m));
    let weight = S::applied(Fun::Exp, minus(score, m));
    SoftView {
        m,
        l: plus(times(st.l, factor), weight),
        o: Seq::new(
            st.o.len(),
            |d: int| plus(times(st.o[d], factor), times(weight, value[d])),
        ),
    }
}

pub fn step<S: Scalar>(st: Soft<S>, score: &S, value: &Vec<S>, m: S) -> (r: Soft<S>)
    requires
        value@.len() == st.o@.len(),
    ensures
        r@ == soft_step(st@, *score, value@, m),
{
    let factor = S::apply(Fun::Exp, &s_sub(&st.m, &m));
    let weight = S::apply(Fun::Exp, &s_sub(score, &m));
    let n: usize = st.o.len();
    let o = collect(
        n,
        |d: usize| -> (v: S)
            requires
                d < n
            ensures
                v == plus(times(st.o@[d as int], factor), times(weight, value@[d as int]))
            { s_add(&s_mul(&st.o[d], &factor), &s_mul(&weight, &value[d])) },
        Ghost(
            |d: int, v: S| v == plus(times(st.o@[d], factor), times(weight, value@[d])),
        ),
    );
    let l = s_add(&s_mul(&st.l, &factor), &weight);
    let r = Soft { m, l, o };
    assert(r@ =~= soft_step(st@, *score, value@, r.m));
    r
}

/// Nothing seen yet.
pub open spec fn soft_start<S: Scalar>(m: S, l: S, dim: int) -> SoftView<S> {
    SoftView { m, l, o: Seq::new(dim as nat, |d: int| zero()) }
}

/// The softmax after `t` keys, of which those are taken that `used` names; `pick` gives
/// the larger of a running maximum and a score.
pub open spec fn soft_run<S: Scalar>(
    start: SoftView<S>,
    score: spec_fn(int) -> S,
    value: spec_fn(int) -> Seq<S>,
    used: spec_fn(int) -> bool,
    pick: spec_fn(S, S) -> S,
    t: int,
) -> SoftView<S>
    decreases t,
{
    if t <= 0 {
        start
    } else {
        let before = soft_run(start, score, value, used, pick, t - 1);
        if used(t - 1) {
            soft_step(before, score(t - 1), value(t - 1), pick(before.m, score(t - 1)))
        } else {
            before
        }
    }
}

/// The weight of a key relative to `at`, and nothing for a key that is left out.
pub open spec fn key_weights<S: Scalar>(
    score: spec_fn(int) -> S,
    used: spec_fn(int) -> bool,
    at: S,
) -> spec_fn(int) -> S {
    |t: int|
        if used(t) {
            S::applied(Fun::Exp, minus(score(t), at))
        } else {
            zero()
        }
}

/// The weighted value of a key in dimension `d`.
pub open spec fn key_values<S: Scalar>(
    score: spec_fn(int) -> S,
    value: spec_fn(int) -> Seq<S>,
    used: spec_fn(int) -> bool,
    at: S,
    d: int,
) -> spec_fn(int) -> S {
    |t: int| times(key_weights(score, used, at)(t), value(t)[d])
}

/// A softmax in progress holds the sums of all weights and of all weighted values, up to
/// the factor between its largest score and any other point of reference: with exact
/// arithmetic it does not matter which maximum was picked along the way.
pub proof fn law_running_softmax_holds_the_sums<S: Scalar>(
    start: SoftView<S>,
    score: spec_fn(int) -> S,
    value: spec_fn(int) -> Seq<S>,
    used: spec_fn(int) -> bool,
    pick: spec_fn(S, S) -> S,
    at: S,
    d: int,
    t: int,
)
    requires
        ring::<S>(),
        exponential::<S>(),
        0 <= t,
        0 <= d < start.o.len(),
        start.o[d] == zero::<S>(),
    ensures
        ({
            let st = soft_run(start, score, value, used, pick, t);
            let e = S::applied(Fun::Exp, minus(st.m, at));
            &&& st.o.len() == start.o.len()
            &&& times(st.l, e) == plus(
                times(start.l, S::applied(Fun::Exp, minus(start.m, at))),
                accumulate(zero(), key_weights(score, used, at), t),
            )
            &&& times(st.o[d], e) == accumulate(zero(), key_values(score, value, used, at, d), t)
        }),
    decreases t,
{
    lemma_ring_sums::<S>();
    let weights = key_weights(score, used, at);
    let values = key_values(score, value, used, at, d);
    let base = times(start.l, S::applied(Fun::Exp, minus(start.m, at)));
    if t == 0 {
        lemma_add_zero(base);
        lemma_mul_zero(S::applied(Fun::Exp, minus(start.m, at)));
    } else {
        law_running_softmax_holds_the_sums(start, score, value, used, pick, at, d, t - 1);
        let before = soft_run(start, score, value, used, pick, t - 1);
        let wsum = accumulate(zero(), weights, t - 1);
        let vsum = accumulate(zero(), values, t - 1);
        if used(t - 1) {
            let s = score(t - 1);
            let m = pick(before.m, s);
            let factor = S::applied(Fun::Exp, minus(before.m, m));
            let weight = S::applied(Fun::Exp, minus(s, m));
            let e = S::applied(Fun::Exp, minus(m, at));
            lemma_exp_shift(before.m, m, at);
            lemma_exp_shift(s, m, at);
            // The sum of the weights.
            lemma_distribute(times(before.l, factor), weight, e);
            lemma_mul_assoc(before.l, factor, e);
            lemma_add_assoc(base, wsum, weights(t - 1));
            // The sum of the weighted values.
            let v = value(t - 1)[d];
            lemma_distribute(times(before.o[d], factor), times(weight, v), e);
            lemma_mul_assoc(before.o[d], factor, e);
            lemma_mul_assoc(weight, v, e);
            lemma_mul_comm(v, e);
            lemma_mul_assoc(weight, e, v);
        } else {
            lemma_add_zero(wsum);
            lemma_mul_zero(value(t - 1)[d]);
            lemma_add_zero(vsum);
        }
    }
}

/// Attention computed as the keys go by is the average of the values under the softmax of
/// the scores, relative to any point of reference.
pub proof fn law_running_softmax_is_the_average<S: Scalar>(
    start: SoftView<S>,
    score: spec_fn(int) -> S,
    value: spec_fn(int) -> Seq<S>,
    used: spec_fn(int) -> bool,
    pick: spec_fn(S, S) -> S,
    at: S,
    d: int,
    t: int,
)
    requires
        ring::<S>(),
        exponential::<S>(),
        0 <= t,
        0 <= d < start.o.len(),
        start.o[d] == zero::<S>(),
    ensures
        ({
            let st = soft_run(start, score, value, used, pick, t);
            over(st.o[d], st.l) == over(
                accumulate(zero(), key_values(score, value, used, at, d), t),
                plus(
                    times(start.l, S::applied(Fun::Exp, minus(start.m, at))),
                    accumulate(zero(), key_weights(score, used, at), t),
                ),
            )
        }),
{
    let st = soft_run(start, score, value, used, pick, t);
    law_running_softmax_holds_the_sums(start, score, value, used, pick, at, d, t);
    lemma_exp_cancel(st.o[d], st.l, minus(st.m, at));
}

} // verus!
