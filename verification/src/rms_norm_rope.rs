//! Root-mean-square norm of each head, then its rotary embedding.
use vstd::prelude::*;

use crate::lanes::{collect, lane_sum, lane_summed, launch};
use crate::layout::{flat, lemma_len_fits, lemma_row_major, lemma_rows_of, lemma_split};
use crate::norm::{inv, inv_of};
use crate::rope::{turn_first, turn_second, turned_first, turned_second};
use crate::scalar::{plus, s_add, s_mul, times, Element, Fun, Scalar};

verus! {

/// What thread `t` adds to the squares of the row at `start`: it owns one pair.
pub open spec fn pair_squares<S: Scalar, T: Element<S>>(
    x: Seq<T>,
    start: int,
    half: int,
    t: int,
) -> S {
    let a: S = x[start + t].widened();
    let b: S = x[start + t + half].widened();
    plus(times(a, a), times(b, b))
}

/// The inverse norm of row `r`.
pub open spec fn pair_inv<S: Scalar, T: Element<S>>(x: Seq<T>, axis: u32, eps: S, r: int) -> S {
    let half = axis as int / 2;
    inv_of(
        lane_sum(Seq::new(half as nat, |t: int| pair_squares::<S, T>(x, r * axis, half, t))),
        axis,
        eps,
    )
}

/// The position of row `r`: rows are heads of successive positions.
pub open spec fn position_of(r: int, offset: u32, n_heads: u32, seq_len: u32) -> u32 {
    (offset + r / n_heads as int % seq_len as int) as u32
}

/// Element `i` of the output.
pub open spec fn norm_rope_value<S: Scalar, T: Element<S>>(
    x: Seq<T>,
    w: Seq<T>,
    inv_freqs: Seq<S>,
    eps: S,
    axis: u32,
    offset: u32,
    n_heads: u32,
    seq_len: u32,
    i: int,
) -> T {
    let half = axis as int / 2;
    let r = i / axis as int;
    let c = i % axis as int;
    let t = if c < half {
        c
    } else {
        c - half
    };
    let start = r * axis + t;
    let scale = pair_inv::<S, T>(x, axis, eps, r);
    let theta = times(S::natural(position_of(r, offset, n_heads, seq_len)), inv_freqs[t]);
    let a = times(times(x[start].widened(), w[t].widened()), scale);
    let b = times(times(x[start + half].widened(), w[t + half].widened()), scale);
    let cos_t = S::applied(Fun::Cos, theta);
    let sin_t = S::applied(Fun::Sin, theta);
    if c < half {
        T::narrowed(turned_first(a, b, cos_t, sin_t))
    } else {
        T::narrowed(turned_second(a, b, cos_t, sin_t))
    }
}

/// Normalizes each row of `axis_size` elements and turns its pairs; row `r` is a head
/// of position `offset + r / n_heads % seq_len`.
pub fn ffai_rms_norm_rope<S: Scalar, T: Element<S>>(
    x: &[T],
    w: &[T],
    inv_freqs: &[S],
    out: &mut Vec<T>,
    eps_buf: &[S],
    axis_size: u32,
    offset: u32,
    n_heads: u32,
    seq_len: u32,
    rows: u32,
)
    requires
        axis_size > 0,
        axis_size % 2 == 0,
        n_heads > 0,
        seq_len > 0,
        offset + seq_len <= 0x1_0000_0000,
        eps_buf@.len() >= 1,
        x@.len() == rows * axis_size,
        w@.len() == axis_size,
        inv_freqs@.len() == axis_size / 2,
        old(out)@.len() == x@.len(),
    ensures
        final(out)@ =~= Seq::new(
            old(out)@.len(),
            |i: int|
                norm_rope_value(
                    x@,
                    w@,
                    inv_freqs@,
                    eps_buf@[0],
                    axis_size,
                    offset,
                    n_heads,
                    seq_len,
                    i,
                ),
        ),
{
    let axis: usize = axis_size as usize;
    let half: usize = axis / 2;
    proof {
        lemma_len_fits(x);
        lemma_rows_of(rows as int, axis as int);
    }
    let count: usize = x.len() / axis;
    let scales = collect(
        count,
        |r: usize| -> (v: S)
            requires
                r < count
            ensures
                v == pair_inv::<S, T>(x@, axis_size, eps_buf@[0], r as int)
            {
                proof {
                    lemma_row_major(r as int, rows as int, 0, axis as int);
                }
                let start: usize = flat(r, 0, axis, Ghost(rows as int));
                let parts = collect(
                    half,
                    |t: usize| -> (v: S)
                        requires
                            t < half
                        ensures
                            v == pair_squares::<S, T>(x@, r * axis_size, half as int, t as int)
                        {
                            let a: S = x[start + t].widen();
                            let b: S = x[start + t + half].widen();
                            s_add(&s_mul(&a, &a), &s_mul(&b, &b))
                        },
                    Ghost(
                        |t: int, v: S|
                            v == pair_squares::<S, T>(x@, r * axis_size, half as int, t),
                    ),
                );
                assert(parts@ =~= Seq::new(
                    half as nat,
                    |t: int| pair_squares::<S, T>(x@, r * axis_size, half as int, t),
                ));
                inv(&lane_summed(&parts), axis_size, &eps_buf[0])
            },
        Ghost(|r: int, v: S| v == pair_inv::<S, T>(x@, axis_size, eps_buf@[0], r)),
    );
    let ghost size = out@.len();
    launch(
        out,
        |i: usize| -> (v: T)
            requires
                i < size
            ensures
                v == norm_rope_value(
                    x@,
                    w@,
                    inv_freqs@,
                    eps_buf@[0],
                    axis_size,
                    offset,
                    n_heads,
                    seq_len,
                    i as int,
                )
            {
                proof {
                    lemma_split(i as int, rows as int, axis as int);
                    lemma_row_major(i as int / axis as int, rows as int, 0, axis as int);
                }
                let r: usize = i / axis;
                let c: usize = i % axis;
                let t: usize = if c < half {
                    c
                } else {
                    c - half
                };
                let start: usize = i - c + t;
                let l: u32 = (r / (n_heads as usize) % (seq_len as usize)) as u32;
                let theta = s_mul(&S::from_u32(offset + l), &inv_freqs[t]);
                let a = s_mul(&s_mul(&x[start].widen(), &w[t].widen()), &scales[r]);
                let b = s_mul(
                    &s_mul(&x[start + half].widen(), &w[t + half].widen()),
                    &scales[r],
                );
                let cos_t = S::apply(Fun::Cos, &theta);
                let sin_t = S::apply(Fun::Sin, &theta);
                if c < half {
                    T::narrow(&turn_first(&a, &b, &cos_t, &sin_t))
                } else {
                    T::narrow(&turn_second(&a, &b, &cos_t, &sin_t))
                }
            },
        Ghost(
            |i: int|
                norm_rope_value(
                    x@,
                    w@,
                    inv_freqs@,
                    eps_buf@[0],
                    axis_size,
                    offset,
                    n_heads,
                    seq_len,
                    i,
                ),
        ),
    );
}

} // verus!
