//! Grouped product with 8-bit weights, in tiles of 8 rows.
use vstd::prelude::*;

use crate::moe::{
    affine_fits, affine_weight, moe_affine, moe_out, moe_shape, MoeShape, NO_EXPERT,
};
use crate::scalar::{Element, Scalar};

verus! {

/// `x` is `[m_total, k_in]`, `w` is `[n_experts, n_out, k_in / 4]` words of four
/// codes, `scales` and `biases` are `[n_experts, n_out, k_in / group_size]`,
/// `indices` gives each row its expert, `out` is `[m_total, n_out]`.
pub fn mt_moe_gather_qmm_mma_int8_bm8_mpp<S: Scalar, T: Element<S>>(
    x: &[T],
    w: &[u32],
    scales: &[T],
    biases: &[T],
    indices: &[u32],
    out: &mut Vec<T>,
    m_total: u32,
    n_out: u32,
    k_in: u32,
    group_size: u32,
    n_experts: u32,
)
    requires
        k_in % 16 == 0,
        n_out % 32 == 0,
        affine_fits(
            w@,
            scales@,
            biases@,
            moe_shape(m_total, n_out, k_in, n_experts, 8, 32, 16),
            group_size as int,
            4,
        ),
        x@.len() == m_total * k_in,
        indices@.len() == m_total,
        old(out)@.len() == m_total * n_out,
        forall|r: int|
            0 <= r < indices@.len() ==> #[trigger] indices@[r] == NO_EXPERT || indices@[r]
                < n_experts,
    ensures
        final(out)@ =~= Seq::new(
            old(out)@.len(),
            |i: int|
                moe_out(
                    x@,
                    affine_weight::<S, T>(
                        w@,
                        scales@,
                        biases@,
                        moe_shape(m_total, n_out, k_in, n_experts, 8, 32, 16),
                        group_size as int,
                        256,
                        4,
                    ),
                    indices@,
                    old(out)@,
                    moe_shape(m_total, n_out, k_in, n_experts, 8, 32, 16),
                    i,
                ),
        ),
{
    let sh = MoeShape {
        m: m_total as usize,
        n: n_out as usize,
        k: k_in as usize,
        bm: 8,
        bn: 32,
        bk: 16,
        experts: n_experts as usize,
    };
    moe_affine(x, w, scales, biases, indices, out, sh, group_size as usize, 256, 4);
}

} // verus!
