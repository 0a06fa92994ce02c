//! Root-mean-square norm and residual add in one launch.
use vstd::prelude::*;

use crate::lanes::{collect, launch_some};
use crate::layout::{flat, lemma_len_fits, lemma_row_major, lemma_rows_of, lemma_split};
use crate::norm::{quad_covers, quad_inv, quad_scale};
use crate::scalar::{plus, s_add, s_mul, times, Element, Scalar};

verus! {

/// Element `i` of the output, if a thread writes it.
pub open spec fn residual_value<S: Scalar, T: Element<S>>(
    x: Seq<T>,
    residual: Seq<T>,
    w: Seq<T>,
    eps: S,
    n: u32,
    tpg: int,
    i: int,
) -> Option<T> {
    let r = i / n as int;
    let c = i % n as int;
    if quad_covers(n as int, tpg, c) {
        let scale = quad_inv::<S, T>(x, r * n, n, eps, tpg);
        Some(
            T::narrowed(
                plus(
                    residual[i].widened(),
                    times(times(x[i].widened(), scale), w[c].widened()),
                ),
            ),
        )
    } else {
        None
    }
}

/// The inverse norm of each row.
pub fn row_scales<S: Scalar, T: Element<S>>(
    x: &[T],
    eps: &S,
    n: u32,
    tpg: usize,
    rows: Ghost<int>,
) -> (scales: Vec<S>)
    requires
        n > 0,
        tpg > 0,
        4 * tpg <= usize::MAX,
        rows@ >= 0,
        x@.len() == rows@ * n,
    ensures
        scales@ == Seq::new(
            rows@ as nat,
            |r: int| quad_inv::<S, T>(x@, r * n, n, *eps, tpg as int),
        ),
{
    proof {
        lemma_rows_of(rows@, n as int);
        lemma_len_fits(x);
    }
    let count: usize = x.len() / (n as usize);
    let scales = collect(
        count,
        |r: usize| -> (v: S)
            requires
                r < count
            ensures
                v == quad_inv::<S, T>(x@, r * n, n, *eps, tpg as int)
            {
                proof {
                    lemma_row_major(r as int, rows@, 0, n as int);
                }
                quad_scale(x, flat(r, 0, n as usize, rows), n, eps, tpg)
            },
        Ghost(|r: int, v: S| v == quad_inv::<S, T>(x@, r * n, n, *eps, tpg as int)),
    );
    assert(scales@ =~= Seq::new(
        rows@ as nat,
        |r: int| quad_inv::<S, T>(x@, r * n, n, *eps, tpg as int),
    ));
    scales
}

/// `out[r, i] = residual[r, i] + x[r, i] * rsqrt(mean(x[r]^2) + eps) * w[i]`, four
/// columns to each of `tpg` threads; columns that no thread owns are left alone.
pub fn ffai_rms_norm_residual<S: Scalar, T: Element<S>>(
    x: &[T],
    residual: &[T],
    w: &[T],
    out: &mut Vec<T>,
    eps_buf: &[S],
    n: u32,
    rows: u32,
    tpg: u32,
)
    requires
        n > 0,
        tpg > 0,
        4 * tpg <= usize::MAX,
        eps_buf@.len() >= 1,
        x@.len() == rows * n,
        residual@.len() == x@.len(),
        w@.len() == n,
        old(out)@.len() == x@.len(),
    ensures
        final(out)@ =~= Seq::new(
            old(out)@.len(),
            |i: int|
                match residual_value(x@, residual@, w@, eps_buf@[0], n, tpg as int, i) {
                    Some(v) => v,
                    None => old(out)@[i],
                },
        ),
{
    let scales = row_scales(x, &eps_buf[0], n, tpg as usize, Ghost(rows as int));
    let cols: usize = n as usize;
    let ghost size = out@.len();
    launch_some(
        out,
        |i: usize| -> (v: Option<T>)
            requires
                i < size
            ensures
                v == residual_value(x@, residual@, w@, eps_buf@[0], n, tpg as int, i as int)
            {
                proof {
                    lemma_split(i as int, rows as int, n as int);
                }
                let c: usize = i % cols;
                if c / 4 < tpg as usize && c / 4 * 4 < cols && 3 < cols - c / 4 * 4 {
                    let y = s_mul(&s_mul(&x[i].widen(), &scales[i / cols]), &w[c].widen());
                    Some(T::narrow(&s_add(&residual[i].widen(), &y)))
                } else {
                    None
                }
            },
        Ghost(|i: int| residual_value(x@, residual@, w@, eps_buf@[0], n, tpg as int, i)),
    );
}

} // verus!
