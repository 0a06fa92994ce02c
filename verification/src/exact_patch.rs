//! What the patch projections compute: hidden channel `h` of the patch in row `i` and
//! column `j` of patches meets, under weight column `(c * patch_h + y) * patch_w + x`, the
//! pixel of channel `c` that lies `y` down and `x` right in that patch.
use vstd::prelude::*;

use crate::lanes::{accumulate, lemma_accumulate_same};
use crate::layout::{lemma_row_major, lemma_row_major_inverse, lemma_split};
use crate::patch_embed::{patch_shape, patch_terms, patch_value, PatchShape};
use crate::patch_embed_block_scaled::{q_patch_terms, q_patch_value};
use crate::quant::Quantized;
use crate::scalar::{times, Element, Scalar};

verus! {

proof fn lemma_pixel_place(sh: PatchShape, i: int, j: int, c: int, y: int, x: int)
    requires
        sh.valid(),
        0 <= i,
        0 <= j < sh.in_w as int / sh.patch_w as int,
        0 <= c,
        0 <= y < sh.patch_h,
        0 <= x < sh.patch_w,
    ensures
        sh.pixel(
            i * (sh.in_w as int / sh.patch_w as int) + j,
            (c * sh.patch_h + y) * sh.patch_w + x,
        ) == (c * sh.in_h + (i * sh.patch_h + y)) * sh.in_w + (j * sh.patch_w + x),
{
    lemma_row_major_inverse(i, j, sh.in_w as int / sh.patch_w as int);
    let area = sh.patch_h * sh.patch_w;
    let within = y * sh.patch_w + x;
    lemma_row_major(y, sh.patch_h as int, x, sh.patch_w as int);
    assert((c * sh.patch_h + y) * sh.patch_w + x == c * area + within) by (nonlinear_arith)
        requires
            area == sh.patch_h * sh.patch_w,
            within == y * sh.patch_w + x,
    ;
    lemma_row_major_inverse(c, within, area);
    lemma_row_major_inverse(y, x, sh.patch_w as int);
}

proof fn lemma_column_split(sh: PatchShape, col: int) -> (at: (int, int, int))
    requires
        sh.valid(),
        0 <= col < sh.patch_dim(),
    ensures
        0 <= at.0 < sh.in_ch,
        0 <= at.1 < sh.patch_h,
        0 <= at.2 < sh.patch_w,
        col == (at.0 * sh.patch_h + at.1) * sh.patch_w + at.2,
{
    let rows = sh.in_ch * sh.patch_h;
    assert(sh.patch_dim() == rows * sh.patch_w) by (nonlinear_arith)
        requires
            sh.patch_dim() == sh.in_ch * (sh.patch_h * sh.patch_w),
            rows == sh.in_ch * sh.patch_h,
    ;
    lemma_split(col, rows, sh.patch_w as int);
    let row = col / sh.patch_w as int;
    lemma_split(row, sh.in_ch as int, sh.patch_h as int);
    (row / sh.patch_h as int, row % sh.patch_h as int, col % sh.patch_w as int)
}

/// A patch's hidden channel is the bias and, over all channels, rows and columns of the
/// patch, pixel times weight.
pub proof fn law_patch_meets_its_pixels<S: Scalar, T: Element<S>>(
    image: Seq<T>,
    weight: Seq<T>,
    bias: Seq<T>,
    in_ch: u32,
    in_h: u32,
    in_w: u32,
    patch_h: u32,
    patch_w: u32,
    hidden: u32,
    i: int,
    j: int,
    h: int,
    f: spec_fn(int) -> S,
)
    requires
        0 < patch_h,
        0 < patch_w,
        0 <= i < in_h as int / patch_h as int,
        0 <= j < in_w as int / patch_w as int,
        0 <= h < hidden,
        forall|c: int, y: int, x: int|
            0 <= c < in_ch && 0 <= y < patch_h && 0 <= x < patch_w ==> #[trigger] f(
                (c * patch_h + y) * patch_w + x,
            ) == times(
                image[(c * in_h + (i * patch_h + y)) * in_w + (j * patch_w + x)].widened(),
                weight[h * (in_ch * (patch_h * patch_w)) + ((c * patch_h + y) * patch_w
                    + x)].widened(),
            ),
    ensures
        patch_value::<S, T>(
            image,
            weight,
            bias,
            patch_shape(in_ch, in_h, in_w, patch_h, patch_w, hidden),
            (i * (in_w as int / patch_w as int) + j) * hidden + h,
        ) == T::narrowed(
            accumulate(bias[h].widened(), f, in_ch * (patch_h * patch_w)),
        ),
{
    let sh = patch_shape(in_ch, in_h, in_w, patch_h, patch_w, hidden);
    let p = i * (in_w as int / patch_w as int) + j;
    lemma_row_major(i, in_h as int / patch_h as int, j, in_w as int / patch_w as int);
    lemma_row_major_inverse(p, h, hidden as int);
    let g = patch_terms::<S, T>(image, weight, sh, p, h);
    assert forall|col: int| 0 <= col < sh.patch_dim() implies #[trigger] g(col) == f(col) by {
        let at = lemma_column_split(sh, col);
        lemma_pixel_place(sh, i, j, at.0, at.1, at.2);
        let term = f((at.0 * patch_h + at.1) * patch_w + at.2);
    }
    lemma_accumulate_same(bias[h].widened(), g, f, sh.patch_dim());
}

/// With block-scaled weights, a patch's hidden channel is the bias and, over all channels,
/// rows and columns of the patch, weight times pixel; row `h` of the weights serves it.
pub proof fn law_patch_meets_its_blocks<S: Scalar, T: Element<S>>(
    image: Seq<T>,
    weight: Quantized<S>,
    bias: Seq<T>,
    in_ch: u32,
    in_h: u32,
    in_w: u32,
    patch_h: u32,
    patch_w: u32,
    hidden: u32,
    i: int,
    j: int,
    h: int,
    f: spec_fn(int) -> S,
)
    requires
        0 < patch_h,
        0 < patch_w,
        0 <= i < in_h as int / patch_h as int,
        0 <= j < in_w as int / patch_w as int,
        0 <= h < hidden,
        forall|c: int, y: int, x: int|
            0 <= c < in_ch && 0 <= y < patch_h && 0 <= x < patch_w ==> #[trigger] f(
                (c * patch_h + y) * patch_w + x,
            ) == times(
                weight.weight(
                    h,
                    (c * patch_h + y) * patch_w + x,
                    ((c * patch_h + y) * patch_w + x) / weight.block as int,
                ),
                image[(c * in_h + (i * patch_h + y)) * in_w + (j * patch_w + x)].widened(),
            ),
    ensures
        q_patch_value::<S, T>(
            image,
            weight,
            bias,
            patch_shape(in_ch, in_h, in_w, patch_h, patch_w, hidden),
            (i * (in_w as int / patch_w as int) + j) * hidden + h,
        ) == T::narrowed(
            accumulate(bias[h].widened(), f, in_ch * (patch_h * patch_w)),
        ),
{
    let sh = patch_shape(in_ch, in_h, in_w, patch_h, patch_w, hidden);
    let p = i * (in_w as int / patch_w as int) + j;
    lemma_row_major(i, in_h as int / patch_h as int, j, in_w as int / patch_w as int);
    lemma_row_major_inverse(p, h, hidden as int);
    let g = q_patch_terms::<S, T>(image, weight, sh, p, h);
    assert forall|col: int| 0 <= col < sh.patch_dim() implies #[trigger] g(col) == f(col) by {
        let at = lemma_column_split(sh, col);
        lemma_pixel_place(sh, i, j, at.0, at.1, at.2);
        let term = f((at.0 * patch_h + at.1) * patch_w + at.2);
    }
    lemma_accumulate_same(bias[h].widened(), g, f, sh.patch_dim());
}

} // verus!
