//! Gated root-mean-square norm and block-scaled matrix-vector product in one launch.
//!
//! `y` and `z` are `[hv, dv]`, `norm_weight` is `[dv]`; `weight` is
//! `[out_dim, hv * dv / 8]` words of eight 4-bit codes, or `[out_dim, hv * dv]`
//! bytes; `scales` is `[out_dim, hv * dv / block_size]`. Two simdgroups normalize the
//! rows of `y`, every other row each; then 64 threads compute one output row.
use vstd::prelude::*;

use crate::gated_delta::widen_row;
use crate::gated_delta_prep::row_at;
use crate::lanes::{collect, simd_dot, simd_dotted};
use crate::layout::{flat, lemma_row_major, lemma_split};
use crate::norm::{gate, gate_of, inv, inv_of};
use crate::qgemv::{q_value, qgemv};
use crate::quant::{
    fp4, fp4_weights, fp8_e5m2, fp8_e5m2_weights, int8, int8_weights, mxfp4, mxfp4_weights,
    mxfp8_e4m3, mxfp8_e4m3_weights, mxfp8_e5m2, mxfp8_e5m2_weights, nvfp4, nvfp4_weights, nvfp8,
    nvfp8_weights,
};
use crate::scalar::{s_mul, times, Element, Scalar};

verus! {

/// The inverse norm of row `r` of `y`.
pub open spec fn gated_inv<S: Scalar>(y: Seq<S>, dv: u32, eps: S, r: int) -> S {
    let row = row_at::<S, S>(y, r * dv, dv as int);
    inv_of(simd_dot(row, row), dv, eps)
}

/// The activations: `y * inverse norm * norm_weight * silu(z)`.
pub open spec fn gated_inner<S: Scalar, T: Element<S>>(
    y: Seq<S>,
    z: Seq<T>,
    norm_weight: Seq<T>,
    eps: S,
    hv: u32,
    dv: u32,
) -> Seq<S> {
    Seq::new(
        (hv * dv) as nat,
        |i: int|
            times(
                times(
                    times(y[i], gated_inv(y, dv, eps, i / dv as int)),
                    norm_weight[i % dv as int].widened(),
                ),
                gate_of(z[i].widened()),
            ),
    )
}

/// The lengths of the activations. A staging buffer holds 4096 of them, and the two
/// simdgroups take as many rows each.
pub open spec fn gated_fits<S, T>(
    y: Seq<S>,
    z: Seq<T>,
    norm_weight: Seq<T>,
    hv: u32,
    dv: u32,
) -> bool {
    &&& dv > 0
    &&& dv % 32 == 0
    &&& hv % 2 == 0
    &&& hv * dv <= 4096
    &&& y.len() == hv * dv
    &&& z.len() == hv * dv
    &&& norm_weight.len() == dv
}

fn stage_inner<S: Scalar, T: Element<S>>(
    y: &[S],
    z: &[T],
    norm_weight: &[T],
    eps: &S,
    hv: u32,
    dv: u32,
) -> (inner: Vec<S>)
    requires
        gated_fits(y@, z@, norm_weight@, hv, dv),
    ensures
        inner@ == gated_inner::<S, T>(y@, z@, norm_weight@, *eps, hv, dv),
{
    let cols: usize = dv as usize;
    let size: usize = y.len();
    let scales = collect(
        hv as usize,
        |r: usize| -> (v: S)
            requires
                r < hv
            ensures
                v == gated_inv(y@, dv, *eps, r as int)
            {
                proof {
                    lemma_row_major(r as int, hv as int, 0, dv as int);
                }
                let row: Vec<S> = widen_row::<S, S>(y, flat(r, 0, cols, Ghost(hv as int)), cols);
                assert(row@ =~= row_at::<S, S>(y@, r * dv, dv as int));
                inv(&simd_dotted(&row, &row), dv, eps)
            },
        Ghost(|r: int, v: S| v == gated_inv(y@, dv, *eps, r)),
    );
    let inner = collect(
        size,
        |i: usize| -> (v: S)
            requires
                i < size
            ensures
                v == gated_inner::<S, T>(y@, z@, norm_weight@, *eps, hv, dv)[i as int]
            {
                proof {
                    lemma_split(i as int, hv as int, dv as int);
                }
                let normed = s_mul(
                    &s_mul(&y[i], &scales[i / cols]),
                    &norm_weight[i % cols].widen(),
                );
                s_mul(&normed, &gate(&z[i].widen()))
            },
        Ghost(|i: int, v: S| v == gated_inner::<S, T>(y@, z@, norm_weight@, *eps, hv, dv)[i]),
    );
    assert(inner@ =~= gated_inner::<S, T>(y@, z@, norm_weight@, *eps, hv, dv));
    inner
}

/// `out[r] = W[r, :] . inner`, with weights that are 4-bit floats under powers of two.
pub fn mt_mxfp4_gated_rms_norm_qgemv<S: Scalar, T: Element<S>>(
    y: &[S],
    z: &[T],
    norm_weight: &[T],
    eps_buf: &[S],
    weight: &[u32],
    scales: &[u8],
    out: &mut Vec<T>,
    hv: u32,
    dv: u32,
    block_size: u32,
)
    requires
        eps_buf@.len() >= 1,
        gated_fits(y@, z@, norm_weight@, hv, dv),
        block_size % 8 == 0,
        mxfp4_weights::<S>(weight, scales, (hv * dv) as u32, block_size).fits(
            old(out)@.len() as int,
        ),
    ensures
        final(out)@ =~= Seq::new(
            old(out)@.len(),
            |r: int|
                q_value::<S, T>(
                    mxfp4_weights(weight, scales, (hv * dv) as u32, block_size),
                    gated_inner::<S, T>(y@, z@, norm_weight@, eps_buf@[0], hv, dv),
                    64,
                    r,
                ),
        ),
{
    let inner = stage_inner(y, z, norm_weight, &eps_buf[0], hv, dv);
    let q = mxfp4(weight, scales, hv * dv, block_size);
    qgemv(q, &inner, out, 64);
}

/// `out[r] = W[r, :] . inner`, with weights that are 4-bit floats under small float scales and one global scale.
pub fn mt_nvfp4_gated_rms_norm_qgemv<S: Scalar, T: Element<S>>(
    y: &[S],
    z: &[T],
    norm_weight: &[T],
    eps_buf: &[S],
    weight: &[u32],
    scales: &[u8],
    out: &mut Vec<T>,
    hv: u32,
    dv: u32,
    block_size: u32,
    global: &S,
)
    requires
        eps_buf@.len() >= 1,
        gated_fits(y@, z@, norm_weight@, hv, dv),
        block_size % 8 == 0,
        nvfp4_weights::<S>(weight, scales, (hv * dv) as u32, block_size, global).fits(
            old(out)@.len() as int,
        ),
    ensures
        final(out)@ =~= Seq::new(
            old(out)@.len(),
            |r: int|
                q_value::<S, T>(
                    nvfp4_weights(weight, scales, (hv * dv) as u32, block_size, global),
                    gated_inner::<S, T>(y@, z@, norm_weight@, eps_buf@[0], hv, dv),
                    64,
                    r,
                ),
        ),
{
    let inner = stage_inner(y, z, norm_weight, &eps_buf[0], hv, dv);
    let q = nvfp4(weight, scales, hv * dv, block_size, global);
    qgemv(q, &inner, out, 64);
}

/// `out[r] = W[r, :] . inner`, with weights that are 8-bit floats with three mantissa bits under powers of two.
pub fn mt_mxfp8_e4m3_gated_rms_norm_qgemv<S: Scalar, T: Element<S>>(
    y: &[S],
    z: &[T],
    norm_weight: &[T],
    eps_buf: &[S],
    weight: &[u8],
    scales: &[u8],
    out: &mut Vec<T>,
    hv: u32,
    dv: u32,
    block_size: u32,
)
    requires
        eps_buf@.len() >= 1,
        gated_fits(y@, z@, norm_weight@, hv, dv),
        mxfp8_e4m3_weights::<S>(weight, scales, (hv * dv) as u32, block_size).fits(
            old(out)@.len() as int,
        ),
    ensures
        final(out)@ =~= Seq::new(
            old(out)@.len(),
            |r: int|
                q_value::<S, T>(
                    mxfp8_e4m3_weights(weight, scales, (hv * dv) as u32, block_size),
                    gated_inner::<S, T>(y@, z@, norm_weight@, eps_buf@[0], hv, dv),
                    64,
                    r,
                ),
        ),
{
    let inner = stage_inner(y, z, norm_weight, &eps_buf[0], hv, dv);
    let q = mxfp8_e4m3(weight, scales, hv * dv, block_size);
    qgemv(q, &inner, out, 64);
}

/// `out[r] = W[r, :] . inner`, with weights that are 8-bit floats with two mantissa bits under powers of two.
pub fn mt_mxfp8_e5m2_gated_rms_norm_qgemv<S: Scalar, T: Element<S>>(
    y: &[S],
    z: &[T],
    norm_weight: &[T],
    eps_buf: &[S],
    weight: &[u8],
    scales: &[u8],
    out: &mut Vec<T>,
    hv: u32,
    dv: u32,
    block_size: u32,
)
    requires
        eps_buf@.len() >= 1,
        gated_fits(y@, z@, norm_weight@, hv, dv),
        mxfp8_e5m2_weights::<S>(weight, scales, (hv * dv) as u32, block_size).fits(
            old(out)@.len() as int,
        ),
    ensures
        final(out)@ =~= Seq::new(
            old(out)@.len(),
            |r: int|
                q_value::<S, T>(
                    mxfp8_e5m2_weights(weight, scales, (hv * dv) as u32, block_size),
                    gated_inner::<S, T>(y@, z@, norm_weight@, eps_buf@[0], hv, dv),
                    64,
                    r,
                ),
        ),
{
    let inner = stage_inner(y, z, norm_weight, &eps_buf[0], hv, dv);
    let q = mxfp8_e5m2(weight, scales, hv * dv, block_size);
    qgemv(q, &inner, out, 64);
}

/// `out[r] = W[r, :] . inner`, with weights that are 8-bit floats with three mantissa bits under plain scales.
pub fn mt_nvfp8_gated_rms_norm_qgemv<S: Scalar, T: Element<S>>(
    y: &[S],
    z: &[T],
    norm_weight: &[T],
    eps_buf: &[S],
    weight: &[u8],
    scales: &[S],
    out: &mut Vec<T>,
    hv: u32,
    dv: u32,
    block_size: u32,
)
    requires
        eps_buf@.len() >= 1,
        gated_fits(y@, z@, norm_weight@, hv, dv),
        nvfp8_weights::<S>(weight, scales, (hv * dv) as u32, block_size).fits(
            old(out)@.len() as int,
        ),
    ensures
        final(out)@ =~= Seq::new(
            old(out)@.len(),
            |r: int|
                q_value::<S, T>(
                    nvfp8_weights(weight, scales, (hv * dv) as u32, block_size),
                    gated_inner::<S, T>(y@, z@, norm_weight@, eps_buf@[0], hv, dv),
                    64,
                    r,
                ),
        ),
{
    let inner = stage_inner(y, z, norm_weight, &eps_buf[0], hv, dv);
    let q = nvfp8(weight, scales, hv * dv, block_size);
    qgemv(q, &inner, out, 64);
}

/// `out[r] = W[r, :] . inner`, with weights that are 4-bit floats under plain scales.
pub fn mt_fp4_gated_rms_norm_qgemv<S: Scalar, T: Element<S>>(
    y: &[S],
    z: &[T],
    norm_weight: &[T],
    eps_buf: &[S],
    weight: &[u32],
    scales: &[S],
    out: &mut Vec<T>,
    hv: u32,
    dv: u32,
    block_size: u32,
)
    requires
        eps_buf@.len() >= 1,
        gated_fits(y@, z@, norm_weight@, hv, dv),
        block_size % 8 == 0,
        fp4_weights::<S>(weight, scales, (hv * dv) as u32, block_size).fits(
            old(out)@.len() as int,
        ),
    ensures
        final(out)@ =~= Seq::new(
            old(out)@.len(),
            |r: int|
                q_value::<S, T>(
                    fp4_weights(weight, scales, (hv * dv) as u32, block_size),
                    gated_inner::<S, T>(y@, z@, norm_weight@, eps_buf@[0], hv, dv),
                    64,
                    r,
                ),
        ),
{
    let inner = stage_inner(y, z, norm_weight, &eps_buf[0], hv, dv);
    let q = fp4(weight, scales, hv * dv, block_size);
    qgemv(q, &inner, out, 64);
}

/// `out[r] = W[r, :] . inner`, with weights that are 8-bit floats with two mantissa bits under plain scales.
pub fn mt_fp8_e5m2_gated_rms_norm_qgemv<S: Scalar, T: Element<S>>(
    y: &[S],
    z: &[T],
    norm_weight: &[T],
    eps_buf: &[S],
    weight: &[u8],
    scales: &[S],
    out: &mut Vec<T>,
    hv: u32,
    dv: u32,
    block_size: u32,
)
    requires
        eps_buf@.len() >= 1,
        gated_fits(y@, z@, norm_weight@, hv, dv),
        fp8_e5m2_weights::<S>(weight, scales, (hv * dv) as u32, block_size).fits(
            old(out)@.len() as int,
        ),
    ensures
        final(out)@ =~= Seq::new(
            old(out)@.len(),
            |r: int|
                q_value::<S, T>(
                    fp8_e5m2_weights(weight, scales, (hv * dv) as u32, block_size),
                    gated_inner::<S, T>(y@, z@, norm_weight@, eps_buf@[0], hv, dv),
                    64,
                    r,
                ),
        ),
{
    let inner = stage_inner(y, z, norm_weight, &eps_buf[0], hv, dv);
    let q = fp8_e5m2(weight, scales, hv * dv, block_size);
    qgemv(q, &inner, out, 64);
}

/// `out[r] = W[r, :] . inner`, with weights that are 8-bit integers under plain scales.
pub fn mt_int8_gated_rms_norm_qgemv<S: Scalar, T: Element<S>>(
    y: &[S],
    z: &[T],
    norm_weight: &[T],
    eps_buf: &[S],
    weight: &[u8],
    scales: &[S],
    out: &mut Vec<T>,
    hv: u32,
    dv: u32,
    block_size: u32,
)
    requires
        eps_buf@.len() >= 1,
        gated_fits(y@, z@, norm_weight@, hv, dv),
        int8_weights::<S>(weight, scales, (hv * dv) as u32, block_size).fits(
            old(out)@.len() as int,
        ),
    ensures
        final(out)@ =~= Seq::new(
            old(out)@.len(),
            |r: int|
                q_value::<S, T>(
                    int8_weights(weight, scales, (hv * dv) as u32, block_size),
                    gated_inner::<S, T>(y@, z@, norm_weight@, eps_buf@[0], hv, dv),
                    64,
                    r,
                ),
        ),
{
    let inner = stage_inner(y, z, norm_weight, &eps_buf[0], hv, dv);
    let q = int8(weight, scales, hv * dv, block_size);
    qgemv(q, &inner, out, 64);
}

} // verus!
