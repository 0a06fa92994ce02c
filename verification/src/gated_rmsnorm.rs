//! Root-mean-square norm of wide rows under a gate.
use vstd::prelude::*;

use crate::lanes::launch_some;
use crate::layout::lemma_split;
use crate::norm::{gate, gate_of, quad_covers, quad_inv};
use crate::rms_norm_residual::row_scales;
use crate::scalar::{s_mul, times, Element, Scalar};

verus! {

/// Element `i` of the output, if a thread writes it.
pub open spec fn gated_value<S: Scalar, T: Element<S>>(
    y: Seq<S>,
    z: Seq<T>,
    w: Seq<T>,
    eps: S,
    n: u32,
    tpg: int,
    i: int,
) -> Option<T> {
    let r = i / n as int;
    let c = i % n as int;
    if quad_covers(n as int, tpg, c) {
        let scale = quad_inv::<S, S>(y, r * n, n, eps, tpg);
        Some(
            T::narrowed(
                times(times(times(y[i], scale), w[c].widened()), gate_of(z[i].widened())),
            ),
        )
    } else {
        None
    }
}

/// `out[r, i] = y[r, i] * rsqrt(mean(y[r]^2) + eps) * w[i] * silu(z[r, i])`, four
/// columns to each of `tpg` threads; columns that no thread owns are left alone.
/// The rows `y` are not narrowed.
pub fn ffai_gated_rmsnorm<S: Scalar, T: Element<S>>(
    y: &[S],
    z: &[T],
    w: &[T],
    out: &mut Vec<T>,
    eps_buf: &[S],
    n: u32,
    rows: u32,
    tpg: u32,
)
    requires
        n > 0,
        tpg > 0,
        4 * tpg <= usize::MAX,
        eps_buf@.len() >= 1,
        y@.len() == rows * n,
        z@.len() == y@.len(),
        w@.len() == n,
        old(out)@.len() == y@.len(),
    ensures
        final(out)@ =~= Seq::new(
            old(out)@.len(),
            |i: int|
                match gated_value(y@, z@, w@, eps_buf@[0], n, tpg as int, i) {
                    Some(v) => v,
                    None => old(out)@[i],
                },
        ),
{
    let scales = row_scales::<S, S>(y, &eps_buf[0], n, tpg as usize, Ghost(rows as int));
    let cols: usize = n as usize;
    let ghost size = out@.len();
    launch_some(
        out,
        |i: usize| -> (v: Option<T>)
            requires
                i < size
            ensures
                v == gated_value(y@, z@, w@, eps_buf@[0], n, tpg as int, i as int)
            {
                proof {
                    lemma_split(i as int, rows as int, n as int);
                }
                let c: usize = i % cols;
                if c / 4 < tpg as usize && c / 4 * 4 < cols && 3 < cols - c / 4 * 4 {
                    let v = s_mul(&s_mul(&y[i], &scales[i / cols]), &w[c].widen());
                    Some(T::narrow(&s_mul(&v, &gate(&z[i].widen()))))
                } else {
                    None
                }
            },
        Ghost(|i: int| gated_value(y@, z@, w@, eps_buf@[0], n, tpg as int, i)),
    );
}

} // verus!
