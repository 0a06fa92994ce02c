//! Grouped products with block-scaled weights, in tiles of 8 rows.
//!
//! `x` is `[m_total, k_in]`; `w` is `[n_experts, n_out, k_in / 8]` words of eight
//! 4-bit codes, or `[n_experts, n_out, k_in]` bytes; `scales` is
//! `[n_experts, n_out, k_in / block_size]`; `indices` gives each row its expert;
//! `out` is `[m_total, n_out]`.
use vstd::prelude::*;

use crate::moe::{block_weight, moe_block, moe_out, moe_shape, MoeShape, NO_EXPERT};
use crate::quant::{
    fp4, fp4_weights, fp8_e5m2, fp8_e5m2_weights, int8, int8_weights, mxfp4, mxfp4_weights,
    mxfp8_e4m3, mxfp8_e4m3_weights, mxfp8_e5m2, mxfp8_e5m2_weights, nvfp4, nvfp4_weights, nvfp8,
    nvfp8_weights,
};
use crate::scalar::{Element, Scalar};

verus! {

/// Grouped product with 4-bit floats under powers of two.
pub fn mt_mxfp4_moe_gather_qmm_bm8_mpp<S: Scalar, T: Element<S>>(
    x: &[T],
    w: &[u32],
    scales: &[u8],
    indices: &[u32],
    out: &mut Vec<T>,
    m_total: u32,
    n_out: u32,
    k_in: u32,
    block_size: u32,
    n_experts: u32,
)
    requires
        k_in % 16 == 0,
        n_out % 32 == 0,
        mxfp4_weights::<S>(w, scales, k_in, block_size).fits(n_experts * n_out),
        x@.len() == m_total * k_in,
        indices@.len() == m_total,
        old(out)@.len() == m_total * n_out,
        forall|r: int|
            0 <= r < indices@.len() ==> #[trigger] indices@[r] == NO_EXPERT || indices@[r]
                < n_experts,
    ensures
        final(out)@ =~= Seq::new(
            old(out)@.len(),
            |i: int|
                moe_out(
                    x@,
                    block_weight::<S>(
                        mxfp4_weights(w, scales, k_in, block_size),
                        moe_shape(m_total, n_out, k_in, n_experts, 8, 32, 16),
                    ),
                    indices@,
                    old(out)@,
                    moe_shape(m_total, n_out, k_in, n_experts, 8, 32, 16),
                    i,
                ),
        ),
{
    let sh = MoeShape {
        m: m_total as usize,
        n: n_out as usize,
        k: k_in as usize,
        bm: 8,
        bn: 32,
        bk: 16,
        experts: n_experts as usize,
    };
    moe_block(x, mxfp4(w, scales, k_in, block_size), indices, out, sh);
}

/// Grouped product with 4-bit floats under small float scales and one global scale.
pub fn mt_nvfp4_moe_gather_qmm_bm8_mpp<S: Scalar, T: Element<S>>(
    x: &[T],
    w: &[u32],
    scales: &[u8],
    indices: &[u32],
    out: &mut Vec<T>,
    m_total: u32,
    n_out: u32,
    k_in: u32,
    block_size: u32,
    global: &S,
    n_experts: u32,
)
    requires
        k_in % 16 == 0,
        n_out % 32 == 0,
        nvfp4_weights::<S>(w, scales, k_in, block_size, global).fits(n_experts * n_out),
        x@.len() == m_total * k_in,
        indices@.len() == m_total,
        old(out)@.len() == m_total * n_out,
        forall|r: int|
            0 <= r < indices@.len() ==> #[trigger] indices@[r] == NO_EXPERT || indices@[r]
                < n_experts,
    ensures
        final(out)@ =~= Seq::new(
            old(out)@.len(),
            |i: int|
                moe_out(
                    x@,
                    block_weight::<S>(
                        nvfp4_weights(w, scales, k_in, block_size, global),
                        moe_shape(m_total, n_out, k_in, n_experts, 8, 32, 16),
                    ),
                    indices@,
                    old(out)@,
                    moe_shape(m_total, n_out, k_in, n_experts, 8, 32, 16),
                    i,
                ),
        ),
{
    let sh = MoeShape {
        m: m_total as usize,
        n: n_out as usize,
        k: k_in as usize,
        bm: 8,
        bn: 32,
        bk: 16,
        experts: n_experts as usize,
    };
    moe_block(x, nvfp4(w, scales, k_in, block_size, global), indices, out, sh);
}

/// Grouped product with 4-bit floats under plain scales.
pub fn mt_fp4_moe_gather_qmm_bm8_mpp<S: Scalar, T: Element<S>>(
    x: &[T],
    w: &[u32],
    scales: &[S],
    indices: &[u32],
    out: &mut Vec<T>,
    m_total: u32,
    n_out: u32,
    k_in: u32,
    block_size: u32,
    n_experts: u32,
)
    requires
        k_in % 16 == 0,
        n_out % 32 == 0,
        fp4_weights::<S>(w, scales, k_in, block_size).fits(n_experts * n_out),
        x@.len() == m_total * k_in,
        indices@.len() == m_total,
        old(out)@.len() == m_total * n_out,
        forall|r: int|
            0 <= r < indices@.len() ==> #[trigger] indices@[r] == NO_EXPERT || indices@[r]
                < n_experts,
    ensures
        final(out)@ =~= Seq::new(
            old(out)@.len(),
            |i: int|
                moe_out(
                    x@,
                    block_weight::<S>(
                        fp4_weights(w, scales, k_in, block_size),
                        moe_shape(m_total, n_out, k_in, n_experts, 8, 32, 16),
                    ),
                    indices@,
                    old(out)@,
                    moe_shape(m_total, n_out, k_in, n_experts, 8, 32, 16),
                    i,
                ),
        ),
{
    let sh = MoeShape {
        m: m_total as usize,
        n: n_out as usize,
        k: k_in as usize,
        bm: 8,
        bn: 32,
        bk: 16,
        experts: n_experts as usize,
    };
    moe_block(x, fp4(w, scales, k_in, block_size), indices, out, sh);
}

/// Grouped product with 8-bit floats with three mantissa bits under powers of two.
pub fn mt_mxfp8_e4m3_moe_gather_qmm_bm8_mpp<S: Scalar, T: Element<S>>(
    x: &[T],
    w: &[u8],
    scales: &[u8],
    indices: &[u32],
    out: &mut Vec<T>,
    m_total: u32,
    n_out: u32,
    k_in: u32,
    block_size: u32,
    n_experts: u32,
)
    requires
        k_in % 16 == 0,
        n_out % 32 == 0,
        mxfp8_e4m3_weights::<S>(w, scales, k_in, block_size).fits(n_experts * n_out),
        x@.len() == m_total * k_in,
        indices@.len() == m_total,
        old(out)@.len() == m_total * n_out,
        forall|r: int|
            0 <= r < indices@.len() ==> #[trigger] indices@[r] == NO_EXPERT || indices@[r]
                < n_experts,
    ensures
        final(out)@ =~= Seq::new(
            old(out)@.len(),
            |i: int|
                moe_out(
                    x@,
                    block_weight::<S>(
                        mxfp8_e4m3_weights(w, scales, k_in, block_size),
                        moe_shape(m_total, n_out, k_in, n_experts, 8, 32, 16),
                    ),
                    indices@,
                    old(out)@,
                    moe_shape(m_total, n_out, k_in, n_experts, 8, 32, 16),
                    i,
                ),
        ),
{
    let sh = MoeShape {
        m: m_total as usize,
        n: n_out as usize,
        k: k_in as usize,
        bm: 8,
        bn: 32,
        bk: 16,
        experts: n_experts as usize,
    };
    moe_block(x, mxfp8_e4m3(w, scales, k_in, block_size), indices, out, sh);
}

/// Grouped product with 8-bit floats with two mantissa bits under powers of two.
pub fn mt_mxfp8_e5m2_moe_gather_qmm_bm8_mpp<S: Scalar, T: Element<S>>(
    x: &[T],
    w: &[u8],
    scales: &[u8],
    indices: &[u32],
    out: &mut Vec<T>,
    m_total: u32,
    n_out: u32,
    k_in: u32,
    block_size: u32,
    n_experts: u32,
)
    requires
        k_in % 16 == 0,
        n_out % 32 == 0,
        mxfp8_e5m2_weights::<S>(w, scales, k_in, block_size).fits(n_experts * n_out),
        x@.len() == m_total * k_in,
        indices@.len() == m_total,
        old(out)@.len() == m_total * n_out,
        forall|r: int|
            0 <= r < indices@.len() ==> #[trigger] indices@[r] == NO_EXPERT || indices@[r]
                < n_experts,
    ensures
        final(out)@ =~= Seq::new(
            old(out)@.len(),
            |i: int|
                moe_out(
                    x@,
                    block_weight::<S>(
                        mxfp8_e5m2_weights(w, scales, k_in, block_size),
                        moe_shape(m_total, n_out, k_in, n_experts, 8, 32, 16),
                    ),
                    indices@,
                    old(out)@,
                    moe_shape(m_total, n_out, k_in, n_experts, 8, 32, 16),
                    i,
                ),
        ),
{
    let sh = MoeShape {
        m: m_total as usize,
        n: n_out as usize,
        k: k_in as usize,
        bm: 8,
        bn: 32,
        bk: 16,
        experts: n_experts as usize,
    };
    moe_block(x, mxfp8_e5m2(w, scales, k_in, block_size), indices, out, sh);
}

/// Grouped product with 8-bit floats with two mantissa bits under plain scales.
pub fn mt_fp8_e5m2_moe_gather_qmm_bm8_mpp<S: Scalar, T: Element<S>>(
    x: &[T],
    w: &[u8],
    scales: &[S],
    indices: &[u32],
    out: &mut Vec<T>,
    m_total: u32,
    n_out: u32,
    k_in: u32,
    block_size: u32,
    n_experts: u32,
)
    requires
        k_in % 16 == 0,
        n_out % 32 == 0,
        fp8_e5m2_weights::<S>(w, scales, k_in, block_size).fits(n_experts * n_out),
        x@.len() == m_total * k_in,
        indices@.len() == m_total,
        old(out)@.len() == m_total * n_out,
        forall|r: int|
            0 <= r < indices@.len() ==> #[trigger] indices@[r] == NO_EXPERT || indices@[r]
                < n_experts,
    ensures
        final(out)@ =~= Seq::new(
            old(out)@.len(),
            |i: int|
                moe_out(
                    x@,
                    block_weight::<S>(
                        fp8_e5m2_weights(w, scales, k_in, block_size),
                        moe_shape(m_total, n_out, k_in, n_experts, 8, 32, 16),
                    ),
                    indices@,
                    old(out)@,
                    moe_shape(m_total, n_out, k_in, n_experts, 8, 32, 16),
                    i,
                ),
        ),
{
    let sh = MoeShape {
        m: m_total as usize,
        n: n_out as usize,
        k: k_in as usize,
        bm: 8,
        bn: 32,
        bk: 16,
        experts: n_experts as usize,
    };
    moe_block(x, fp8_e5m2(w, scales, k_in, block_size), indices, out, sh);
}

/// Grouped product with 8-bit floats with three mantissa bits under plain scales.
pub fn mt_nvfp8_moe_gather_qmm_bm8_mpp<S: Scalar, T: Element<S>>(
    x: &[T],
    w: &[u8],
    scales: &[S],
    indices: &[u32],
    out: &mut Vec<T>,
    m_total: u32,
    n_out: u32,
    k_in: u32,
    block_size: u32,
    n_experts: u32,
)
    requires
        k_in % 16 == 0,
        n_out % 32 == 0,
        nvfp8_weights::<S>(w, scales, k_in, block_size).fits(n_experts * n_out),
        x@.len() == m_total * k_in,
        indices@.len() == m_total,
        old(out)@.len() == m_total * n_out,
        forall|r: int|
            0 <= r < indices@.len() ==> #[trigger] indices@[r] == NO_EXPERT || indices@[r]
                < n_experts,
    ensures
        final(out)@ =~= Seq::new(
            old(out)@.len(),
            |i: int|
                moe_out(
                    x@,
                    block_weight::<S>(
                        nvfp8_weights(w, scales, k_in, block_size),
                        moe_shape(m_total, n_out, k_in, n_experts, 8, 32, 16),
                    ),
                    indices@,
                    old(out)@,
                    moe_shape(m_total, n_out, k_in, n_experts, 8, 32, 16),
                    i,
                ),
        ),
{
    let sh = MoeShape {
        m: m_total as usize,
        n: n_out as usize,
        k: k_in as usize,
        bm: 8,
        bn: 32,
        bk: 16,
        experts: n_experts as usize,
    };
    moe_block(x, nvfp8(w, scales, k_in, block_size), indices, out, sh);
}

/// Grouped product with 8-bit integers under plain scales.
pub fn mt_int8_moe_gather_qmm_bm8_mpp<S: Scalar, T: Element<S>>(
    x: &[T],
    w: &[u8],
    scales: &[S],
    indices: &[u32],
    out: &mut Vec<T>,
    m_total: u32,
    n_out: u32,
    k_in: u32,
    block_size: u32,
    n_experts: u32,
)
    requires
        k_in % 16 == 0,
        n_out % 32 == 0,
        int8_weights::<S>(w, scales, k_in, block_size).fits(n_experts * n_out),
        x@.len() == m_total * k_in,
        indices@.len() == m_total,
        old(out)@.len() == m_total * n_out,
        forall|r: int|
            0 <= r < indices@.len() ==> #[trigger] indices@[r] == NO_EXPERT || indices@[r]
                < n_experts,
    ensures
        final(out)@ =~= Seq::new(
            old(out)@.len(),
            |i: int|
                moe_out(
                    x@,
                    block_weight::<S>(
                        int8_weights(w, scales, k_in, block_size),
                        moe_shape(m_total, n_out, k_in, n_experts, 8, 32, 16),
                    ),
                    indices@,
                    old(out)@,
                    moe_shape(m_total, n_out, k_in, n_experts, 8, 32, 16),
                    i,
                ),
        ),
{
    let sh = MoeShape {
        m: m_total as usize,
        n: n_out as usize,
        k: k_in as usize,
        bm: 8,
        bn: 32,
        bk: 16,
        experts: n_experts as usize,
    };
    moe_block(x, int8(w, scales, k_in, block_size), indices, out, sh);
}

} // verus!
