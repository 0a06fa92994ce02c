//! The min-p filter: tokens whose probability is below a share of the largest one are
//! taken out of the draw.
//!
//! Logits are `[rows, n]`; a group of `lsize` threads serves a row.
use vstd::prelude::*;

use crate::lanes::{collect, lane_max, lane_maximum, launch, rounds, strided_visited, visited};
use crate::layout::{flat, lemma_len_fits, lemma_split};
use crate::scalar::{minus, s_sub, Element, Fun, Op, Rel, Scalar};

verus! {

/// The logits of row `r`.
pub open spec fn row_logits<S: Scalar, T: Element<S>>(
    inp: Seq<T>,
    n: int,
    r: int,
) -> spec_fn(int) -> S {
    |i: int| inp[r * n + i].widened()
}

/// One logit more in a running maximum.
pub open spec fn max_visit<S: Scalar>(logit: spec_fn(int) -> S) -> spec_fn(S, int) -> S {
    |m: S, i: int| S::combined(Op::Max, m, logit(i))
}

/// The largest logit of a row, by a group of threads.
pub open spec fn group_max<S: Scalar>(logit: spec_fn(int) -> S, width: int, n: int) -> S {
    lane_max(
        Seq::new(
            width as nat,
            |t: int| visited(S::lowest(), max_visit(logit), t, width, n, rounds(n, width)),
        ),
    )
}

/// The weight of a logit relative to the largest: `exp(v - top)`.
pub open spec fn weight_of<S: Scalar>(v: S, top: S) -> S {
    S::applied(Fun::Exp, minus(v, top))
}

/// A logit where its weight reaches the floor, else negative infinity.
pub open spec fn floor_masked<S: Scalar, T: Element<S>>(v: T, top: S, floor: S) -> T {
    let w: S = v.widened();
    T::narrowed(S::chosen(S::related(Rel::AtLeast, weight_of(w, top), floor), w, S::lowest()))
}

/// Masks one logit.
pub fn mask_below<S: Scalar, T: Element<S>>(v: &T, top: &S, floor: &S) -> (r: T)
    ensures
        r == floor_masked(*v, *top, *floor),
{
    let w = v.widen();
    let weight = S::apply(Fun::Exp, &s_sub(&w, top));
    let keep = S::relate(Rel::AtLeast, &weight, floor);
    T::narrow(&S::select(&keep, &w, &S::neg_infinity()))
}

/// Element `i` of the output.
pub open spec fn min_p_value<S: Scalar, T: Element<S>>(
    inp: Seq<T>,
    n: int,
    min_p: S,
    lsize: int,
    i: int,
) -> T {
    floor_masked(inp[i], group_max(row_logits::<S, T>(inp, n, i / n), lsize, n), min_p)
}

/// The largest logit of row `r`.
fn row_maximum<S: Scalar, T: Element<S>>(
    inp: &[T],
    n: usize,
    r: usize,
    lsize: usize,
    rows: Ghost<int>,
) -> (m: S)
    requires
        inp@.len() == rows@ * n,
        r < rows@,
        lsize > 0,
    ensures
        m == group_max(row_logits::<S, T>(inp@, n as int, r as int), lsize as int, n as int),
{
    proof {
        lemma_len_fits(inp);
    }
    let ghost logit = row_logits::<S, T>(inp@, n as int, r as int);
    let ghost count = rounds(n as int, lsize as int);
    let parts = collect(
        lsize,
        |t: usize| -> (m: S)
            requires
                t < lsize
            ensures
                m == visited(
                    S::lowest(),
                    max_visit(logit),
                    t as int,
                    lsize as int,
                    n as int,
                    count,
                )
            {
                strided_visited(
                    S::neg_infinity(),
                    &|m: S, i: usize| -> (r: S)
                        requires
                            i < n
                        ensures
                            r == max_visit(logit)(m, i as int)
                        {
                            let at: usize = flat(r, i, n, rows);
                            S::combine(Op::Max, &m, &inp[at].widen())
                        },
                    t,
                    lsize,
                    n,
                    Ghost(max_visit(logit)),
                )
            },
        Ghost(
            |t: int, m: S|
                m == visited(S::lowest(), max_visit(logit), t, lsize as int, n as int, count),
        ),
    );
    assert(parts@ =~= Seq::new(
        lsize as nat,
        |t: int| visited(S::lowest(), max_visit(logit), t, lsize as int, n as int, count),
    ));
    lane_maximum(&parts)
}

/// Masks every logit whose weight relative to the largest of its row is below `min_p`.
pub fn logits_min_p_mask<S: Scalar, T: Element<S>>(
    inp: &[T],
    out: &mut Vec<T>,
    n: u32,
    min_p: &S,
    rows: u32,
    lsize: u32,
)
    requires
        n > 0,
        lsize > 0,
        inp@.len() == rows * n,
        old(out)@.len() == inp@.len(),
    ensures
        final(out)@ =~= Seq::new(
            old(out)@.len(),
            |i: int| min_p_value::<S, T>(inp@, n as int, *min_p, lsize as int, i),
        ),
{
    let cols: usize = n as usize;
    let ghost total = rows as int;
    let tops = collect(
        rows as usize,
        |r: usize| -> (m: S)
            requires
                r < rows
            ensures
                m == group_max(
                    row_logits::<S, T>(inp@, n as int, r as int),
                    lsize as int,
                    n as int,
                )
            { row_maximum::<S, T>(inp, cols, r, lsize as usize, Ghost(total)) },
        Ghost(
            |r: int, m: S|
                m == group_max(row_logits::<S, T>(inp@, n as int, r), lsize as int, n as int),
        ),
    );
    launch(
        out,
        |i: usize| -> (r: T)
            requires
                i < inp@.len()
            ensures
                r == min_p_value::<S, T>(inp@, n as int, *min_p, lsize as int, i as int)
            {
                proof {
                    lemma_split(i as int, total, n as int);
                }
                mask_below(&inp[i], &tops[i / cols], min_p)
            },
        Ghost(|i: int| min_p_value::<S, T>(inp@, n as int, *min_p, lsize as int, i)),
    );
}

} // verus!
