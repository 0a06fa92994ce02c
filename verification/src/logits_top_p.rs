//! The top-p filter: the least likely tokens are taken out of the draw as long as the
//! others hold enough of the probability.
//!
//! Logits are `[rows, n]`; a group of `lsize` threads serves a row. The weight from
//! which on tokens are kept is found by bisection.
use vstd::prelude::*;

use crate::lanes::{
    collect, group_sum, group_summed, lane_max, lane_maximum, lane_sum, lane_summed, launch,
    rounds, strided_visited, visited,
};
use crate::layout::{flat, lemma_len_fits, lemma_split};
use crate::logits_min_p::{floor_masked, mask_below, row_logits, weight_of};
use crate::scalar::{
    one, plus, s_add, s_mul, s_one, s_sub, s_zero, times, zero, Element, Fun, Op, Rel, Scalar,
};

verus! {

/// A running maximum and the sum of the weights relative to it.
pub struct Running<S> {
    pub max: S,
    pub sum: S,
}

/// A logit at negative infinity: an earlier filter took its token out.
pub open spec fn taken_out<S: Scalar>(v: S) -> S::Cond {
    S::related(Rel::AtLeast, S::lowest(), v)
}

/// One logit more; a token that was taken out adds nothing.
pub open spec fn running_visit<S: Scalar>(
    logit: spec_fn(int) -> S,
) -> spec_fn(Running<S>, int) -> Running<S> {
    |st: Running<S>, i: int|
        {
            let max = S::combined(Op::Max, st.max, logit(i));
            let sum = plus(times(st.sum, weight_of(st.max, max)), weight_of(logit(i), max));
            Running { max, sum: S::chosen(taken_out(logit(i)), st.sum, sum) }
        }
}

/// What thread `t` keeps of a row.
pub open spec fn running_of<S: Scalar>(
    logit: spec_fn(int) -> S,
    width: int,
    n: int,
    t: int,
) -> Running<S> {
    visited(
        Running { max: S::lowest(), sum: zero() },
        running_visit(logit),
        t,
        width,
        n,
        rounds(n, width),
    )
}

/// The largest logit of a row.
pub open spec fn row_top<S: Scalar>(logit: spec_fn(int) -> S, width: int, n: int) -> S {
    lane_max(Seq::new(width as nat, |t: int| running_of(logit, width, n, t).max))
}

/// The sum of the weights of a row.
pub open spec fn row_mass<S: Scalar>(logit: spec_fn(int) -> S, width: int, n: int) -> S {
    lane_sum(
        Seq::new(
            width as nat,
            |t: int|
                {
                    let st = running_of(logit, width, n, t);
                    times(st.sum, weight_of(st.max, row_top(logit, width, n)))
                },
        ),
    )
}

/// What logit `i` adds to the mass that floor `mid` keeps.
pub open spec fn kept_terms<S: Scalar>(
    logit: spec_fn(int) -> S,
    top: S,
    mid: S,
) -> spec_fn(int) -> S {
    |i: int|
        {
            let w = weight_of(logit(i), top);
            S::chosen(S::related(Rel::AtLeast, w, mid), w, zero())
        }
}

/// The mass that floor `mid` keeps.
pub open spec fn kept_mass<S: Scalar>(
    logit: spec_fn(int) -> S,
    top: S,
    mid: S,
    width: int,
    n: int,
) -> S {
    group_sum(kept_terms(logit, top, mid), 1, width, n)
}

/// The middle of two floors.
pub open spec fn middle<S: Scalar>(lo: S, hi: S) -> S {
    times(plus(lo, hi), S::rational(1, 2))
}

/// The bounds of the floor after `k` halvings: the lower one keeps enough, the upper
/// one too little.
pub open spec fn bisected<S: Scalar>(
    logit: spec_fn(int) -> S,
    top: S,
    target: S,
    width: int,
    n: int,
    k: int,
) -> (S, S)
    decreases k,
{
    if k <= 0 {
        (zero(), one())
    } else {
        let (lo, hi) = bisected(logit, top, target, width, n, k - 1);
        let mid = middle(lo, hi);
        let enough = S::related(Rel::AtLeast, kept_mass(logit, top, mid, width, n), target);
        (S::chosen(enough, mid, lo), S::chosen(enough, hi, mid))
    }
}

/// The floor of a row: the largest that was found to keep the share `top_p`.
pub open spec fn floor_of<S: Scalar>(
    logit: spec_fn(int) -> S,
    top_p: S,
    width: int,
    n: int,
) -> S {
    bisected(
        logit,
        row_top(logit, width, n),
        times(top_p, row_mass(logit, width, n)),
        width,
        n,
        24,
    ).0
}

/// Element `i` of the output.
pub open spec fn top_p_value<S: Scalar, T: Element<S>>(
    inp: Seq<T>,
    n: int,
    top_p: S,
    lsize: int,
    i: int,
) -> T {
    let logit = row_logits::<S, T>(inp, n, i / n);
    floor_masked(inp[i], row_top(logit, lsize, n), floor_of(logit, top_p, lsize, n))
}

/// What is kept of a row: its largest logit and its floor.
pub struct Cut<S> {
    pub top: S,
    pub floor: S,
}

fn visit_logit<S: Scalar>(
    st: Running<S>,
    v: &S,
    logit: Ghost<spec_fn(int) -> S>,
    i: Ghost<int>,
) -> (r: Running<S>)
    requires
        *v == (logit@)(i@),
    ensures
        r == running_visit(logit@)(st, i@),
{
    let max = S::combine(Op::Max, &st.max, v);
    let old_part = s_mul(&st.sum, &S::apply(Fun::Exp, &s_sub(&st.max, &max)));
    let sum = s_add(&old_part, &S::apply(Fun::Exp, &s_sub(v, &max)));
    let out = S::relate(Rel::AtLeast, &S::neg_infinity(), v);
    Running { max, sum: S::select(&out, &st.sum, &sum) }
}

/// The cut of one row, whose logits `f` gives.
fn cut_row<S: Scalar, F: Fn(usize) -> S>(
    f: F,
    n: usize,
    top_p: &S,
    lsize: usize,
    logit: Ghost<spec_fn(int) -> S>,
) -> (cut: Cut<S>)
    requires
        lsize > 0,
        forall|i: usize| i < n ==> call_requires(f, (i,)),
        forall|i: usize, r: S| i < n && call_ensures(f, (i,), r) ==> r == (logit@)(i as int),
    ensures
        cut.top == row_top(logit@, lsize as int, n as int),
        cut.floor == floor_of(logit@, *top_p, lsize as int, n as int),
{
    let parts = collect(
        lsize,
        |t: usize| -> (st: Running<S>)
            requires
                t < lsize
            ensures
                st == running_of(logit@, lsize as int, n as int, t as int)
            {
                strided_visited(
                    Running { max: S::neg_infinity(), sum: s_zero() },
                    &|st: Running<S>, i: usize| -> (r: Running<S>)
                        requires
                            i < n
                        ensures
                            r == running_visit(logit@)(st, i as int)
                        {
                            let v = f(i);
                            visit_logit(st, &v, logit, Ghost(i as int))
                        },
                    t,
                    lsize,
                    n,
                    Ghost(running_visit(logit@)),
                )
            },
        Ghost(
            |t: int, st: Running<S>| st == running_of(logit@, lsize as int, n as int, t),
        ),
    );
    let maxima = collect(
        lsize,
        |t: usize| -> (m: S)
            requires
                t < lsize
            ensures
                m == running_of(logit@, lsize as int, n as int, t as int).max
            { parts[t].max.dup() },
        Ghost(|t: int, m: S| m == running_of(logit@, lsize as int, n as int, t).max),
    );
    assert(maxima@ =~= Seq::new(
        lsize as nat,
        |t: int| running_of(logit@, lsize as int, n as int, t).max,
    ));
    let top = lane_maximum(&maxima);
    let ghost mass_of = |t: int|
        {
            let st = running_of(logit@, lsize as int, n as int, t);
            times(st.sum, weight_of(st.max, top))
        };
    let masses = collect(
        lsize,
        |t: usize| -> (m: S)
            requires
                t < lsize
            ensures
                m == mass_of(t as int)
            { s_mul(&parts[t].sum, &S::apply(Fun::Exp, &s_sub(&parts[t].max, &top))) },
        Ghost(|t: int, m: S| m == mass_of(t)),
    );
    assert(masses@ =~= Seq::new(
        lsize as nat,
        |t: int|
            {
                let st = running_of(logit@, lsize as int, n as int, t);
                times(st.sum, weight_of(st.max, row_top(logit@, lsize as int, n as int)))
            },
    ));
    let z = lane_summed(&masses);
    let target = s_mul(top_p, &z);
    let mut lo = s_zero::<S>();
    let mut hi = s_one::<S>();
    let mut k: usize = 0;
    while k < 24
        invariant
            k <= 24,
            lsize > 0,
            forall|i: usize| i < n ==> call_requires(f, (i,)),
            forall|i: usize, r: S| i < n && call_ensures(f, (i,), r) ==> r == (logit@)(i as int),
            (lo, hi) == bisected(logit@, top, target, lsize as int, n as int, k as int),
        decreases 24 - k,
    {
        let mid = s_mul(&s_add(&lo, &hi), &S::ratio(1, 2));
        let kept = group_summed(
            |i: usize| -> (v: S)
                requires
                    i < n
                ensures
                    v == kept_terms(logit@, top, mid)(i as int)
                {
                    let v = f(i);
                    let w = S::apply(Fun::Exp, &s_sub(&v, &top));
                    S::select(&S::relate(Rel::AtLeast, &w, &mid), &w, &s_zero())
                },
            1,
            lsize,
            n,
            Ghost(kept_terms(logit@, top, mid)),
        );
        let enough = S::relate(Rel::AtLeast, &kept, &target);
        lo = S::select(&enough, &mid, &lo);
        hi = S::select(&enough, &hi, &mid);
        k = k + 1;
    }
    Cut { top, floor: lo }
}

/// Masks the logits of the least likely tokens, as long as the others hold the share
/// `top_p` of the probability.
pub fn logits_top_p_mask<S: Scalar, T: Element<S>>(
    inp: &[T],
    out: &mut Vec<T>,
    n: u32,
    top_p: &S,
    rows: u32,
    lsize: u32,
)
    requires
        n > 0,
        lsize > 0,
        inp@.len() == rows * n,
        old(out)@.len() == inp@.len(),
    ensures
        final(out)@ =~= Seq::new(
            old(out)@.len(),
            |i: int| top_p_value::<S, T>(inp@, n as int, *top_p, lsize as int, i),
        ),
{
    let cols: usize = n as usize;
    let width: usize = lsize as usize;
    let ghost total = rows as int;
    proof {
        lemma_len_fits(inp);
    }
    let cuts = collect(
        rows as usize,
        |r: usize| -> (cut: Cut<S>)
            requires
                r < rows
            ensures
                cut.top == row_top(
                    row_logits::<S, T>(inp@, n as int, r as int),
                    lsize as int,
                    n as int,
                ) && cut.floor == floor_of(
                    row_logits::<S, T>(inp@, n as int, r as int),
                    *top_p,
                    lsize as int,
                    n as int,
                )
            {
                let ghost logit = row_logits::<S, T>(inp@, n as int, r as int);
                cut_row(
                    |i: usize| -> (v: S)
                        requires
                            i < n
                        ensures
                            v == logit(i as int)
                        {
                            let at: usize = flat(r, i, cols, Ghost(total));
                            inp[at].widen()
                        },
                    cols,
                    top_p,
                    width,
                    Ghost(logit),
                )
            },
        Ghost(
            |r: int, cut: Cut<S>|
                cut.top == row_top(
                    row_logits::<S, T>(inp@, n as int, r),
                    lsize as int,
                    n as int,
                ) && cut.floor == floor_of(
                    row_logits::<S, T>(inp@, n as int, r),
                    *top_p,
                    lsize as int,
                    n as int,
                ),
        ),
    );
    launch(
        out,
        |i: usize| -> (r: T)
            requires
                i < inp@.len()
            ensures
                r == top_p_value::<S, T>(inp@, n as int, *top_p, lsize as int, i as int)
            {
                proof {
                    lemma_split(i as int, total, n as int);
                }
                let cut = &cuts[i / cols];
                mask_below(&inp[i], &cut.top, &cut.floor)
            },
        Ghost(|i: int| top_p_value::<S, T>(inp@, n as int, *top_p, lsize as int, i)),
    );
}

} // verus!
