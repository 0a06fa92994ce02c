//! Patch embedding with block-scaled weights.
//!
//! Image, bias and output are as in [`crate::patch_embed`]; the weight is quantized in
//! blocks of `block_size` along the patch.
use vstd::prelude::*;

use crate::lanes::{accumulate, accumulated, launch};
use crate::layout::{lemma_len_fits, lemma_mul_at_least};
use crate::patch_embed::{lemma_patch_out, patch_fits, patch_shape, PatchShape};
use crate::qgemv::lemma_block;
use crate::quant::{
    fp4, fp4_weights, fp8_e5m2, fp8_e5m2_weights, int8, int8_weights, mxfp4, mxfp4_weights,
    mxfp8_e4m3, mxfp8_e4m3_weights, mxfp8_e5m2, mxfp8_e5m2_weights, nvfp4, nvfp4_weights, nvfp8,
    nvfp8_weights, Quantized,
};
use crate::scalar::{s_mul, times, Element, Scalar};

verus! {

/// What column `col` adds to hidden channel `h` of patch `p`.
pub open spec fn q_patch_terms<S: Scalar, T: Element<S>>(
    image: Seq<T>,
    weight: Quantized<S>,
    sh: PatchShape,
    p: int,
    h: int,
) -> spec_fn(int) -> S {
    |col: int|
        times(weight.weight(h, col, col / weight.block as int), image[sh.pixel(p, col)].widened())
}

/// Element `i` of the output.
pub open spec fn q_patch_value<S: Scalar, T: Element<S>>(
    image: Seq<T>,
    weight: Quantized<S>,
    bias: Seq<T>,
    sh: PatchShape,
    i: int,
) -> T {
    let h = i % sh.hidden as int;
    let p = i / sh.hidden as int;
    T::narrowed(
        accumulate(
            bias[h].widened(),
            q_patch_terms::<S, T>(image, weight, sh, p, h),
            sh.patch_dim(),
        ),
    )
}

/// Weights of a row.
fn patch_dim_of(in_ch: u32, patch_h: u32, patch_w: u32) -> (n: u32)
    requires
        patch_w > 0,
        (in_ch * patch_h) * patch_w <= u32::MAX,
    ensures
        n == (in_ch * patch_h) * patch_w,
{
    proof {
        assert(0 <= in_ch * patch_h) by (nonlinear_arith);
        lemma_mul_at_least(in_ch * patch_h, patch_w as int);
    }
    in_ch * patch_h * patch_w
}

/// Projects every patch of an image.
pub fn q_patch_embed<S: Scalar, T: Element<S>>(
    image: &[T],
    weight: Quantized<S>,
    bias: &[T],
    out: &mut Vec<T>,
    sh: PatchShape,
)
    requires
        patch_fits(image@, bias@, old(out)@, sh),
        weight.cols == sh.patch_dim(),
        weight.fits(sh.hidden as int),
        weight.scales.len() <= usize::MAX,
    ensures
        final(out)@ =~= Seq::new(
            old(out)@.len(),
            |i: int| q_patch_value::<S, T>(image@, weight, bias@, sh, i),
        ),
{
    proof {
        lemma_len_fits(image);
    }
    let ghost made = out@;
    launch(
        out,
        |i: usize| -> (r: T)
            requires
                i < made.len()
            ensures
                r == q_patch_value::<S, T>(image@, weight, bias@, sh, i as int)
            {
                proof {
                    lemma_patch_out(image@, bias@, made, sh, i as int);
                }
                let h: usize = i % sh.hidden;
                let p: usize = i / sh.hidden;
                let acc = accumulated(
                    bias[h].widen(),
                    |col: usize| -> (v: S)
                        requires
                            col < weight.cols
                        ensures
                            v == q_patch_terms::<S, T>(image@, weight, sh, p as int, h as int)(
                                col as int,
                            )
                        {
                            proof {
                                lemma_block(col as int, weight.cols as int, weight.block as int);
                            }
                            let pixel: usize = sh.pixel_at(p, col);
                            let w = weight.load(
                                h,
                                col,
                                col / weight.block,
                                Ghost(sh.hidden as int),
                            );
                            s_mul(&w, &image[pixel].widen())
                        },
                    weight.cols,
                    Ghost(q_patch_terms::<S, T>(image@, weight, sh, p as int, h as int)),
                );
                T::narrow(&acc)
            },
        Ghost(|i: int| q_patch_value::<S, T>(image@, weight, bias@, sh, i)),
    );
}

/// Projects every patch with weights that are 4-bit floats under powers of two.
pub fn mt_mxfp4_patch_embed<S: Scalar, T: Element<S>>(
    image: &[T],
    weight: &[u32],
    scales: &[u8],
    bias: &[T],
    out: &mut Vec<T>,
    in_ch: u32,
    in_h: u32,
    in_w: u32,
    patch_h: u32,
    patch_w: u32,
    hidden: u32,
    block_size: u32,
)
    requires
        patch_fits(
            image@,
            bias@,
            old(out)@,
            patch_shape(in_ch, in_h, in_w, patch_h, patch_w, hidden),
        ),
        (in_ch * patch_h) * patch_w <= u32::MAX,
        mxfp4_weights::<S>(
            weight,
            scales,
            ((in_ch * patch_h) * patch_w) as u32,
            block_size,
        ).fits(hidden as int),
    ensures
        final(out)@ =~= Seq::new(
            old(out)@.len(),
            |i: int|
                q_patch_value::<S, T>(
                    image@,
                    mxfp4_weights::<S>(
                        weight,
                        scales,
                        ((in_ch * patch_h) * patch_w) as u32,
                        block_size,
                    ),
                    bias@,
                    patch_shape(in_ch, in_h, in_w, patch_h, patch_w, hidden),
                    i,
                ),
        ),
{
    let sh = PatchShape {
        in_ch: in_ch as usize,
        in_h: in_h as usize,
        in_w: in_w as usize,
        patch_h: patch_h as usize,
        patch_w: patch_w as usize,
        hidden: hidden as usize,
    };
    let patch_dim: u32 = patch_dim_of(in_ch, patch_h, patch_w);
    assert(patch_dim == sh.patch_dim()) by (nonlinear_arith)
        requires
            patch_dim == (sh.in_ch * sh.patch_h) * sh.patch_w,
            sh.patch_dim() == sh.in_ch * (sh.patch_h * sh.patch_w),
    ;
    let q = mxfp4(weight, scales, patch_dim, block_size);
    q_patch_embed(image, q, bias, out, sh);
}

/// Projects every patch with weights that are 4-bit floats under small float scales and one global scale.
pub fn mt_nvfp4_patch_embed<S: Scalar, T: Element<S>>(
    image: &[T],
    weight: &[u32],
    scales: &[u8],
    bias: &[T],
    out: &mut Vec<T>,
    in_ch: u32,
    in_h: u32,
    in_w: u32,
    patch_h: u32,
    patch_w: u32,
    hidden: u32,
    block_size: u32,
    global: &S,
)
    requires
        patch_fits(
            image@,
            bias@,
            old(out)@,
            patch_shape(in_ch, in_h, in_w, patch_h, patch_w, hidden),
        ),
        (in_ch * patch_h) * patch_w <= u32::MAX,
        nvfp4_weights::<S>(
            weight,
            scales,
            ((in_ch * patch_h) * patch_w) as u32,
            block_size,
            global,
        ).fits(hidden as int),
    ensures
        final(out)@ =~= Seq::new(
            old(out)@.len(),
            |i: int|
                q_patch_value::<S, T>(
                    image@,
                    nvfp4_weights::<S>(
                        weight,
                        scales,
                        ((in_ch * patch_h) * patch_w) as u32,
                        block_size,
                        global,
                    ),
                    bias@,
                    patch_shape(in_ch, in_h, in_w, patch_h, patch_w, hidden),
                    i,
                ),
        ),
{
    let sh = PatchShape {
        in_ch: in_ch as usize,
        in_h: in_h as usize,
        in_w: in_w as usize,
        patch_h: patch_h as usize,
        patch_w: patch_w as usize,
        hidden: hidden as usize,
    };
    let patch_dim: u32 = patch_dim_of(in_ch, patch_h, patch_w);
    assert(patch_dim == sh.patch_dim()) by (nonlinear_arith)
        requires
            patch_dim == (sh.in_ch * sh.patch_h) * sh.patch_w,
            sh.patch_dim() == sh.in_ch * (sh.patch_h * sh.patch_w),
    ;
    let q = nvfp4(weight, scales, patch_dim, block_size, global);
    q_patch_embed(image, q, bias, out, sh);
}

/// Projects every patch with weights that are 4-bit floats under plain scales.
pub fn mt_fp4_patch_embed<S: Scalar, T: Element<S>>(
    image: &[T],
    weight: &[u32],
    scales: &[S],
    bias: &[T],
    out: &mut Vec<T>,
    in_ch: u32,
    in_h: u32,
    in_w: u32,
    patch_h: u32,
    patch_w: u32,
    hidden: u32,
    block_size: u32,
)
    requires
        patch_fits(
            image@,
            bias@,
            old(out)@,
            patch_shape(in_ch, in_h, in_w, patch_h, patch_w, hidden),
        ),
        (in_ch * patch_h) * patch_w <= u32::MAX,
        fp4_weights::<S>(
            weight,
            scales,
            ((in_ch * patch_h) * patch_w) as u32,
            block_size,
        ).fits(hidden as int),
    ensures
        final(out)@ =~= Seq::new(
            old(out)@.len(),
            |i: int|
                q_patch_value::<S, T>(
                    image@,
                    fp4_weights::<S>(
                        weight,
                        scales,
                        ((in_ch * patch_h) * patch_w) as u32,
                        block_size,
                    ),
                    bias@,
                    patch_shape(in_ch, in_h, in_w, patch_h, patch_w, hidden),
                    i,
                ),
        ),
{
    let sh = PatchShape {
        in_ch: in_ch as usize,
        in_h: in_h as usize,
        in_w: in_w as usize,
        patch_h: patch_h as usize,
        patch_w: patch_w as usize,
        hidden: hidden as usize,
    };
    let patch_dim: u32 = patch_dim_of(in_ch, patch_h, patch_w);
    assert(patch_dim == sh.patch_dim()) by (nonlinear_arith)
        requires
            patch_dim == (sh.in_ch * sh.patch_h) * sh.patch_w,
            sh.patch_dim() == sh.in_ch * (sh.patch_h * sh.patch_w),
    ;
    let q = fp4(weight, scales, patch_dim, block_size);
    q_patch_embed(image, q, bias, out, sh);
}

/// Projects every patch with weights that are 8-bit floats with three mantissa bits under powers of two.
pub fn mt_mxfp8_e4m3_patch_embed<S: Scalar, T: Element<S>>(
    image: &[T],
    weight: &[u8],
    scales: &[u8],
    bias: &[T],
    out: &mut Vec<T>,
    in_ch: u32,
    in_h: u32,
    in_w: u32,
    patch_h: u32,
    patch_w: u32,
    hidden: u32,
    block_size: u32,
)
    requires
        patch_fits(
            image@,
            bias@,
            old(out)@,
            patch_shape(in_ch, in_h, in_w, patch_h, patch_w, hidden),
        ),
        (in_ch * patch_h) * patch_w <= u32::MAX,
        mxfp8_e4m3_weights::<S>(
            weight,
            scales,
            ((in_ch * patch_h) * patch_w) as u32,
            block_size,
        ).fits(hidden as int),
    ensures
        final(out)@ =~= Seq::new(
            old(out)@.len(),
            |i: int|
                q_patch_value::<S, T>(
                    image@,
                    mxfp8_e4m3_weights::<S>(
                        weight,
                        scales,
                        ((in_ch * patch_h) * patch_w) as u32,
                        block_size,
                    ),
                    bias@,
                    patch_shape(in_ch, in_h, in_w, patch_h, patch_w, hidden),
                    i,
                ),
        ),
{
    let sh = PatchShape {
        in_ch: in_ch as usize,
        in_h: in_h as usize,
        in_w: in_w as usize,
        patch_h: patch_h as usize,
        patch_w: patch_w as usize,
        hidden: hidden as usize,
    };
    let patch_dim: u32 = patch_dim_of(in_ch, patch_h, patch_w);
    assert(patch_dim == sh.patch_dim()) by (nonlinear_arith)
        requires
            patch_dim == (sh.in_ch * sh.patch_h) * sh.patch_w,
            sh.patch_dim() == sh.in_ch * (sh.patch_h * sh.patch_w),
    ;
    let q = mxfp8_e4m3(weight, scales, patch_dim, block_size);
    q_patch_embed(image, q, bias, out, sh);
}

/// Projects every patch with weights that are 8-bit floats with two mantissa bits under powers of two.
pub fn mt_mxfp8_e5m2_patch_embed<S: Scalar, T: Element<S>>(
    image: &[T],
    weight: &[u8],
    scales: &[u8],
    bias: &[T],
    out: &mut Vec<T>,
    in_ch: u32,
    in_h: u32,
    in_w: u32,
    patch_h: u32,
    patch_w: u32,
    hidden: u32,
    block_size: u32,
)
    requires
        patch_fits(
            image@,
            bias@,
            old(out)@,
            patch_shape(in_ch, in_h, in_w, patch_h, patch_w, hidden),
        ),
        (in_ch * patch_h) * patch_w <= u32::MAX,
        mxfp8_e5m2_weights::<S>(
            weight,
            scales,
            ((in_ch * patch_h) * patch_w) as u32,
            block_size,
        ).fits(hidden as int),
    ensures
        final(out)@ =~= Seq::new(
            old(out)@.len(),
            |i: int|
                q_patch_value::<S, T>(
                    image@,
                    mxfp8_e5m2_weights::<S>(
                        weight,
                        scales,
                        ((in_ch * patch_h) * patch_w) as u32,
                        block_size,
                    ),
                    bias@,
                    patch_shape(in_ch, in_h, in_w, patch_h, patch_w, hidden),
                    i,
                ),
        ),
{
    let sh = PatchShape {
        in_ch: in_ch as usize,
        in_h: in_h as usize,
        in_w: in_w as usize,
        patch_h: patch_h as usize,
        patch_w: patch_w as usize,
        hidden: hidden as usize,
    };
    let patch_dim: u32 = patch_dim_of(in_ch, patch_h, patch_w);
    assert(patch_dim == sh.patch_dim()) by (nonlinear_arith)
        requires
            patch_dim == (sh.in_ch * sh.patch_h) * sh.patch_w,
            sh.patch_dim() == sh.in_ch * (sh.patch_h * sh.patch_w),
    ;
    let q = mxfp8_e5m2(weight, scales, patch_dim, block_size);
    q_patch_embed(image, q, bias, out, sh);
}

/// Projects every patch with weights that are 8-bit floats with two mantissa bits under plain scales.
pub fn mt_fp8_e5m2_patch_embed<S: Scalar, T: Element<S>>(
    image: &[T],
    weight: &[u8],
    scales: &[S],
    bias: &[T],
    out: &mut Vec<T>,
    in_ch: u32,
    in_h: u32,
    in_w: u32,
    patch_h: u32,
    patch_w: u32,
    hidden: u32,
    block_size: u32,
)
    requires
        patch_fits(
            image@,
            bias@,
            old(out)@,
            patch_shape(in_ch, in_h, in_w, patch_h, patch_w, hidden),
        ),
        (in_ch * patch_h) * patch_w <= u32::MAX,
        fp8_e5m2_weights::<S>(
            weight,
            scales,
            ((in_ch * patch_h) * patch_w) as u32,
            block_size,
        ).fits(hidden as int),
    ensures
        final(out)@ =~= Seq::new(
            old(out)@.len(),
            |i: int|
                q_patch_value::<S, T>(
                    image@,
                    fp8_e5m2_weights::<S>(
                        weight,
                        scales,
                        ((in_ch * patch_h) * patch_w) as u32,
                        block_size,
                    ),
                    bias@,
                    patch_shape(in_ch, in_h, in_w, patch_h, patch_w, hidden),
                    i,
                ),
        ),
{
    let sh = PatchShape {
        in_ch: in_ch as usize,
        in_h: in_h as usize,
        in_w: in_w as usize,
        patch_h: patch_h as usize,
        patch_w: patch_w as usize,
        hidden: hidden as usize,
    };
    let patch_dim: u32 = patch_dim_of(in_ch, patch_h, patch_w);
    assert(patch_dim == sh.patch_dim()) by (nonlinear_arith)
        requires
            patch_dim == (sh.in_ch * sh.patch_h) * sh.patch_w,
            sh.patch_dim() == sh.in_ch * (sh.patch_h * sh.patch_w),
    ;
    let q = fp8_e5m2(weight, scales, patch_dim, block_size);
    q_patch_embed(image, q, bias, out, sh);
}

/// Projects every patch with weights that are 8-bit floats with three mantissa bits under plain scales.
pub fn mt_nvfp8_patch_embed<S: Scalar, T: Element<S>>(
    image: &[T],
    weight: &[u8],
    scales: &[S],
    bias: &[T],
    out: &mut Vec<T>,
    in_ch: u32,
    in_h: u32,
    in_w: u32,
    patch_h: u32,
    patch_w: u32,
    hidden: u32,
    block_size: u32,
)
    requires
        patch_fits(
            image@,
            bias@,
            old(out)@,
            patch_shape(in_ch, in_h, in_w, patch_h, patch_w, hidden),
        ),
        (in_ch * patch_h) * patch_w <= u32::MAX,
        nvfp8_weights::<S>(
            weight,
            scales,
            ((in_ch * patch_h) * patch_w) as u32,
            block_size,
        ).fits(hidden as int),
    ensures
        final(out)@ =~= Seq::new(
            old(out)@.len(),
            |i: int|
                q_patch_value::<S, T>(
                    image@,
                    nvfp8_weights::<S>(
                        weight,
                        scales,
                        ((in_ch * patch_h) * patch_w) as u32,
                        block_size,
                    ),
                    bias@,
                    patch_shape(in_ch, in_h, in_w, patch_h, patch_w, hidden),
                    i,
                ),
        ),
{
    let sh = PatchShape {
        in_ch: in_ch as usize,
        in_h: in_h as usize,
        in_w: in_w as usize,
        patch_h: patch_h as usize,
        patch_w: patch_w as usize,
        hidden: hidden as usize,
    };
    let patch_dim: u32 = patch_dim_of(in_ch, patch_h, patch_w);
    assert(patch_dim == sh.patch_dim()) by (nonlinear_arith)
        requires
            patch_dim == (sh.in_ch * sh.patch_h) * sh.patch_w,
            sh.patch_dim() == sh.in_ch * (sh.patch_h * sh.patch_w),
    ;
    let q = nvfp8(weight, scales, patch_dim, block_size);
    q_patch_embed(image, q, bias, out, sh);
}

/// Projects every patch with weights that are 8-bit integers under plain scales.
pub fn mt_int8_patch_embed<S: Scalar, T: Element<S>>(
    image: &[T],
    weight: &[u8],
    scales: &[S],
    bias: &[T],
    out: &mut Vec<T>,
    in_ch: u32,
    in_h: u32,
    in_w: u32,
    patch_h: u32,
    patch_w: u32,
    hidden: u32,
    block_size: u32,
)
    requires
        patch_fits(
            image@,
            bias@,
            old(out)@,
            patch_shape(in_ch, in_h, in_w, patch_h, patch_w, hidden),
        ),
        (in_ch * patch_h) * patch_w <= u32::MAX,
        int8_weights::<S>(
            weight,
            scales,
            ((in_ch * patch_h) * patch_w) as u32,
            block_size,
        ).fits(hidden as int),
    ensures
        final(out)@ =~= Seq::new(
            old(out)@.len(),
            |i: int|
                q_patch_value::<S, T>(
                    image@,
                    int8_weights::<S>(
                        weight,
                        scales,
                        ((in_ch * patch_h) * patch_w) as u32,
                        block_size,
                    ),
                    bias@,
                    patch_shape(in_ch, in_h, in_w, patch_h, patch_w, hidden),
                    i,
                ),
        ),
{
    let sh = PatchShape {
        in_ch: in_ch as usize,
        in_h: in_h as usize,
        in_w: in_w as usize,
        patch_h: patch_h as usize,
        patch_w: patch_w as usize,
        hidden: hidden as usize,
    };
    let patch_dim: u32 = patch_dim_of(in_ch, patch_h, patch_w);
    assert(patch_dim == sh.patch_dim()) by (nonlinear_arith)
        requires
            patch_dim == (sh.in_ch * sh.patch_h) * sh.patch_w,
            sh.patch_dim() == sh.in_ch * (sh.patch_h * sh.patch_w),
    ;
    let q = int8(weight, scales, patch_dim, block_size);
    q_patch_embed(image, q, bias, out, sh);
}

} // verus!
