//! Root-mean-square norm and block-scaled matrix-vector product in one launch.
//!
//! `x` and `norm_weight` are `[in_dim]`; `weight` is `[out_dim, in_dim / 8]` words of
//! eight 4-bit codes, or `[out_dim, in_dim]` bytes; `scales` is
//! `[out_dim, in_dim / block_size]`; a threadgroup of `lsize` threads computes one
//! row.
use vstd::prelude::*;

use crate::norm::{group_norm, group_normed};
use crate::qgemv::{q_value, qgemv};
use crate::quant::{
    mxfp4, mxfp4_weights, mxfp8_e4m3, mxfp8_e4m3_weights, mxfp8_e5m2, mxfp8_e5m2_weights, nvfp4,
    nvfp4_weights, nvfp8, nvfp8_weights,
};
use crate::scalar::{Element, Scalar};

verus! {

/// `output[r] = W[r, :] . (x * norm_weight * rsqrt(mean(x^2) + eps))`, with weights
/// that are 4-bit floats under powers of two.
pub fn mt_mxfp4_rms_norm_qgemv<S: Scalar, T: Element<S>>(
    x: &[T],
    norm_weight: &[T],
    weight: &[u32],
    scales: &[u8],
    output: &mut Vec<T>,
    eps_buf: &[S],
    in_dim: u32,
    block_size: u32,
    lsize: u32,
)
    requires
        lsize > 0,
        eps_buf@.len() >= 1,
        x@.len() == in_dim,
        norm_weight@.len() == in_dim,
        block_size % 8 == 0,
        mxfp4_weights::<S>(weight, scales, in_dim, block_size).fits(old(output)@.len() as int),
    ensures
        final(output)@ =~= Seq::new(
            old(output)@.len(),
            |r: int|
                q_value::<S, T>(
                    mxfp4_weights(weight, scales, in_dim, block_size),
                    group_normed::<S, T>(x@, norm_weight@, in_dim, eps_buf@[0], lsize as int),
                    lsize as int,
                    r,
                ),
        ),
{
    let act = group_norm(x, norm_weight, in_dim, &eps_buf[0], lsize as usize);
    qgemv(mxfp4(weight, scales, in_dim, block_size), &act, output, lsize as usize);
}

/// `output[r] = W[r, :] . (x * norm_weight * rsqrt(mean(x^2) + eps))`, with weights
/// that are 4-bit floats under small float scales and one global scale.
pub fn mt_nvfp4_rms_norm_qgemv<S: Scalar, T: Element<S>>(
    x: &[T],
    norm_weight: &[T],
    weight: &[u32],
    scales: &[u8],
    output: &mut Vec<T>,
    eps_buf: &[S],
    in_dim: u32,
    block_size: u32,
    global: &S,
    lsize: u32,
)
    requires
        lsize > 0,
        eps_buf@.len() >= 1,
        x@.len() == in_dim,
        norm_weight@.len() == in_dim,
        block_size % 8 == 0,
        nvfp4_weights::<S>(weight, scales, in_dim, block_size, global).fits(old(output)@.len() as int),
    ensures
        final(output)@ =~= Seq::new(
            old(output)@.len(),
            |r: int|
                q_value::<S, T>(
                    nvfp4_weights(weight, scales, in_dim, block_size, global),
                    group_normed::<S, T>(x@, norm_weight@, in_dim, eps_buf@[0], lsize as int),
                    lsize as int,
                    r,
                ),
        ),
{
    let act = group_norm(x, norm_weight, in_dim, &eps_buf[0], lsize as usize);
    qgemv(nvfp4(weight, scales, in_dim, block_size, global), &act, output, lsize as usize);
}

/// `output[r] = W[r, :] . (x * norm_weight * rsqrt(mean(x^2) + eps))`, with weights
/// that are 8-bit floats with three mantissa bits under powers of two.
pub fn mt_mxfp8_e4m3_rms_norm_qgemv<S: Scalar, T: Element<S>>(
    x: &[T],
    norm_weight: &[T],
    weight: &[u8],
    scales: &[u8],
    output: &mut Vec<T>,
    eps_buf: &[S],
    in_dim: u32,
    block_size: u32,
    lsize: u32,
)
    requires
        lsize > 0,
        eps_buf@.len() >= 1,
        x@.len() == in_dim,
        norm_weight@.len() == in_dim,
        mxfp8_e4m3_weights::<S>(weight, scales, in_dim, block_size).fits(old(output)@.len() as int),
    ensures
        final(output)@ =~= Seq::new(
            old(output)@.len(),
            |r: int|
                q_value::<S, T>(
                    mxfp8_e4m3_weights(weight, scales, in_dim, block_size),
                    group_normed::<S, T>(x@, norm_weight@, in_dim, eps_buf@[0], lsize as int),
                    lsize as int,
                    r,
                ),
        ),
{
    let act = group_norm(x, norm_weight, in_dim, &eps_buf[0], lsize as usize);
    qgemv(mxfp8_e4m3(weight, scales, in_dim, block_size), &act, output, lsize as usize);
}

/// `output[r] = W[r, :] . (x * norm_weight * rsqrt(mean(x^2) + eps))`, with weights
/// that are 8-bit floats with two mantissa bits under powers of two.
pub fn mt_mxfp8_e5m2_rms_norm_qgemv<S: Scalar, T: Element<S>>(
    x: &[T],
    norm_weight: &[T],
    weight: &[u8],
    scales: &[u8],
    output: &mut Vec<T>,
    eps_buf: &[S],
    in_dim: u32,
    block_size: u32,
    lsize: u32,
)
    requires
        lsize > 0,
        eps_buf@.len() >= 1,
        x@.len() == in_dim,
        norm_weight@.len() == in_dim,
        mxfp8_e5m2_weights::<S>(weight, scales, in_dim, block_size).fits(old(output)@.len() as int),
    ensures
        final(output)@ =~= Seq::new(
            old(output)@.len(),
            |r: int|
                q_value::<S, T>(
                    mxfp8_e5m2_weights(weight, scales, in_dim, block_size),
                    group_normed::<S, T>(x@, norm_weight@, in_dim, eps_buf@[0], lsize as int),
                    lsize as int,
                    r,
                ),
        ),
{
    let act = group_norm(x, norm_weight, in_dim, &eps_buf[0], lsize as usize);
    qgemv(mxfp8_e5m2(weight, scales, in_dim, block_size), &act, output, lsize as usize);
}

/// `output[r] = W[r, :] . (x * norm_weight * rsqrt(mean(x^2) + eps))`, with weights
/// that are 8-bit floats with three mantissa bits under plain scales.
pub fn mt_nvfp8_rms_norm_qgemv<S: Scalar, T: Element<S>>(
    x: &[T],
    norm_weight: &[T],
    weight: &[u8],
    scales: &[S],
    output: &mut Vec<T>,
    eps_buf: &[S],
    in_dim: u32,
    block_size: u32,
    lsize: u32,
)
    requires
        lsize > 0,
        eps_buf@.len() >= 1,
        x@.len() == in_dim,
        norm_weight@.len() == in_dim,
        nvfp8_weights::<S>(weight, scales, in_dim, block_size).fits(old(output)@.len() as int),
    ensures
        final(output)@ =~= Seq::new(
            old(output)@.len(),
            |r: int|
                q_value::<S, T>(
                    nvfp8_weights(weight, scales, in_dim, block_size),
                    group_normed::<S, T>(x@, norm_weight@, in_dim, eps_buf@[0], lsize as int),
                    lsize as int,
                    r,
                ),
        ),
{
    let act = group_norm(x, norm_weight, in_dim, &eps_buf[0], lsize as usize);
    qgemv(nvfp8(weight, scales, in_dim, block_size), &act, output, lsize as usize);
}

} // verus!
