//! Patch embedding: an image cut into tiles, each projected to a token.
//!
//! `image` is `[in_ch, in_h, in_w]`, the weight `[hidden, in_ch * patch_h * patch_w]`,
//! `bias` is `[hidden]` and `out` `[num_patches, hidden]`. Patches are numbered row by
//! row over the image.
use vstd::prelude::*;

use crate::lanes::{accumulate, accumulated, launch};
use crate::layout::{flat, flat3, lemma_len_fits, lemma_mul_mono, lemma_row_major, lemma_split};
use crate::scalar::{s_mul, times, Element, Scalar};

verus! {

#[derive(Clone, Copy)]
pub struct PatchShape {
    pub in_ch: usize,
    pub in_h: usize,
    pub in_w: usize,
    pub patch_h: usize,
    pub patch_w: usize,
    pub hidden: usize,
}

impl PatchShape {
    pub open spec fn valid(self) -> bool {
        &&& self.patch_h > 0
        &&& self.patch_w > 0
    }

    pub open spec fn patches_h(self) -> int {
        self.in_h as int / self.patch_h as int
    }

    pub open spec fn patches_w(self) -> int {
        self.in_w as int / self.patch_w as int
    }

    pub open spec fn num_patches(self) -> int {
        self.patches_h() * self.patches_w()
    }

    pub open spec fn patch_area(self) -> int {
        self.patch_h * self.patch_w
    }

    /// Pixels of a patch, over all channels.
    pub open spec fn patch_dim(self) -> int {
        self.in_ch * self.patch_area()
    }

    /// The channel that column `col` of the weight belongs to.
    pub open spec fn channel(self, col: int) -> int {
        col / self.patch_area()
    }

    /// The image row of column `col` in patch `p`.
    pub open spec fn pixel_y(self, p: int, col: int) -> int {
        p / self.patches_w() * self.patch_h + col % self.patch_area() / self.patch_w as int
    }

    /// The image column of column `col` in patch `p`.
    pub open spec fn pixel_x(self, p: int, col: int) -> int {
        p % self.patches_w() * self.patch_w + col % self.patch_area() % self.patch_w as int
    }

    /// Where the pixel is that column `col` of the weight meets in patch `p`.
    pub open spec fn pixel(self, p: int, col: int) -> int {
        (self.channel(col) * self.in_h + self.pixel_y(p, col)) * self.in_w + self.pixel_x(p, col)
    }

    /// Pixels of a patch, over all channels.
    pub fn dim(self) -> (n: usize)
        requires
            self.valid(),
            0 < self.num_patches(),
            (self.in_ch * self.in_h) * self.in_w <= usize::MAX,
        ensures
            n == self.patch_dim(),
    {
        if self.in_ch == 0 {
            assert(self.in_ch * self.patch_area() == 0) by (nonlinear_arith)
                requires
                    self.in_ch == 0,
            ;
            return 0;
        }
        proof {
            lemma_dim_fits(self);
        }
        let area: usize = self.patch_h * self.patch_w;
        self.in_ch * area
    }

    /// Where the pixel is that column `col` of the weight meets in patch `p`.
    pub fn pixel_at(self, p: usize, col: usize) -> (i: usize)
        requires
            self.valid(),
            p < self.num_patches(),
            col < self.patch_dim(),
            (self.in_ch * self.in_h) * self.in_w <= usize::MAX,
        ensures
            i == self.pixel(p as int, col as int),
            i < (self.in_ch * self.in_h) * self.in_w,
    {
        proof {
            lemma_pixel(self, p as int, col as int);
        }
        let area: usize = self.patch_h * self.patch_w;
        let patches_w: usize = self.in_w / self.patch_w;
        let within: usize = col % area;
        let y: usize = p / patches_w * self.patch_h + within / self.patch_w;
        let x: usize = p % patches_w * self.patch_w + within % self.patch_w;
        flat3(col / area, y, self.in_h, x, self.in_w, Ghost(self.in_ch as int))
    }
}

/// The pixel lies in the image, and in the tile of its patch.
pub proof fn lemma_pixel(sh: PatchShape, p: int, col: int)
    requires
        sh.valid(),
        0 <= p < sh.num_patches(),
        0 <= col < sh.patch_dim(),
    ensures
        0 < sh.patch_area() <= sh.in_h * sh.in_w,
        0 < sh.patches_w(),
        0 <= sh.channel(col) < sh.in_ch,
        0 <= col % sh.patch_area() < sh.patch_area(),
        0 <= p / sh.patches_w() * sh.patch_h,
        0 <= p % sh.patches_w() * sh.patch_w,
        p / sh.patches_w() * sh.patch_h <= sh.pixel_y(p, col) < (p / sh.patches_w() + 1)
            * sh.patch_h,
        p % sh.patches_w() * sh.patch_w <= sh.pixel_x(p, col) < (p % sh.patches_w() + 1)
            * sh.patch_w,
        sh.pixel_y(p, col) < sh.in_h,
        sh.pixel_x(p, col) < sh.in_w,
        sh.in_h * sh.in_w <= (sh.in_ch * sh.in_h) * sh.in_w,
{
    let area = sh.patch_area();
    assert(area > 0) by (nonlinear_arith)
        requires
            area == sh.patch_h * sh.patch_w,
            sh.patch_h > 0,
            sh.patch_w > 0,
    ;
    lemma_split(col, sh.in_ch as int, area);
    let within = col % area;
    lemma_split(within, sh.patch_h as int, sh.patch_w as int);
    vstd::arithmetic::div_mod::lemma_fundamental_div_mod(sh.in_h as int, sh.patch_h as int);
    vstd::arithmetic::div_mod::lemma_fundamental_div_mod(sh.in_w as int, sh.patch_w as int);
    let ph = sh.patches_h();
    let pw = sh.patches_w();
    vstd::arithmetic::div_mod::lemma_div_pos_is_pos(sh.in_h as int, sh.patch_h as int);
    vstd::arithmetic::div_mod::lemma_div_pos_is_pos(sh.in_w as int, sh.patch_w as int);
    assert(pw > 0 && ph > 0) by (nonlinear_arith)
        requires
            0 <= pw,
            0 <= ph,
            0 < ph * pw,
    ;
    lemma_split(p, ph, pw);
    lemma_row_major(p / pw, ph, within / sh.patch_w as int, sh.patch_h as int);
    lemma_row_major(p % pw, pw, within % sh.patch_w as int, sh.patch_w as int);
    assert(ph * sh.patch_h == sh.patch_h * ph) by (nonlinear_arith);
    assert(pw * sh.patch_w == sh.patch_w * pw) by (nonlinear_arith);
    assert(area <= sh.in_h * sh.in_w) by (nonlinear_arith)
        requires
            area == sh.patch_h * sh.patch_w,
            sh.patch_h <= sh.in_h,
            sh.patch_w <= sh.in_w,
    ;
    assert(sh.in_h * sh.in_w <= (sh.in_ch * sh.in_h) * sh.in_w) by (nonlinear_arith)
        requires
            sh.in_ch >= 1,
    ;
}

/// What column `col` adds to hidden channel `h` of patch `p`.
pub open spec fn patch_terms<S: Scalar, T: Element<S>>(
    image: Seq<T>,
    weight: Seq<T>,
    sh: PatchShape,
    p: int,
    h: int,
) -> spec_fn(int) -> S {
    |col: int|
        times(image[sh.pixel(p, col)].widened(), weight[h * sh.patch_dim() + col].widened())
}

/// Element `i` of the output.
pub open spec fn patch_value<S: Scalar, T: Element<S>>(
    image: Seq<T>,
    weight: Seq<T>,
    bias: Seq<T>,
    sh: PatchShape,
    i: int,
) -> T {
    let h = i % sh.hidden as int;
    let p = i / sh.hidden as int;
    T::narrowed(
        accumulate(
            bias[h].widened(),
            patch_terms::<S, T>(image, weight, sh, p, h),
            sh.patch_dim(),
        ),
    )
}

pub open spec fn patch_shape(
    in_ch: u32,
    in_h: u32,
    in_w: u32,
    patch_h: u32,
    patch_w: u32,
    hidden: u32,
) -> PatchShape {
    PatchShape {
        in_ch: in_ch as usize,
        in_h: in_h as usize,
        in_w: in_w as usize,
        patch_h: patch_h as usize,
        patch_w: patch_w as usize,
        hidden: hidden as usize,
    }
}

/// The lengths of image, bias and output.
pub open spec fn patch_fits<T>(image: Seq<T>, bias: Seq<T>, out: Seq<T>, sh: PatchShape) -> bool {
    &&& sh.valid()
    &&& image.len() == (sh.in_ch * sh.in_h) * sh.in_w
    &&& bias.len() == sh.hidden
    &&& out.len() == sh.num_patches() * sh.hidden
}

/// An output element has a hidden channel.
pub proof fn lemma_patch_out<T>(image: Seq<T>, bias: Seq<T>, out: Seq<T>, sh: PatchShape, i: int)
    requires
        patch_fits(image, bias, out, sh),
        0 <= i < out.len(),
    ensures
        sh.hidden > 0,
        0 <= i % sh.hidden as int,
        sh.hidden > i % sh.hidden as int,
        0 <= i / sh.hidden as int,
        sh.num_patches() > i / sh.hidden as int,
{
    assert(sh.hidden > 0) by (nonlinear_arith)
        requires
            0 < sh.num_patches() * sh.hidden,
            0 <= sh.hidden,
    ;
    lemma_split(i, sh.num_patches(), sh.hidden as int);
}

/// A patch is no larger than its image.
pub proof fn lemma_dim_fits(sh: PatchShape)
    requires
        sh.valid(),
        0 < sh.num_patches(),
        sh.in_ch > 0,
    ensures
        0 < sh.patch_area() <= sh.patch_dim() <= (sh.in_ch * sh.in_h) * sh.in_w,
{
    let area = sh.patch_area();
    assert(0 < area) by (nonlinear_arith)
        requires
            area == sh.patch_h * sh.patch_w,
            sh.patch_h > 0,
            sh.patch_w > 0,
    ;
    assert(area <= sh.in_ch * area) by (nonlinear_arith)
        requires
            0 < area,
            sh.in_ch > 0,
    ;
    lemma_pixel(sh, 0, 0);
    lemma_mul_mono(area, sh.in_h * sh.in_w, sh.in_ch as int);
    assert(sh.in_ch * area == area * sh.in_ch) by (nonlinear_arith);
    assert((sh.in_h * sh.in_w) * sh.in_ch == (sh.in_ch * sh.in_h) * sh.in_w) by (nonlinear_arith);
}

/// Projects every patch of an image.
pub fn patch_embed<S: Scalar, T: Element<S>>(
    image: &[T],
    weight: &[T],
    bias: &[T],
    out: &mut Vec<T>,
    in_ch: u32,
    in_h: u32,
    in_w: u32,
    patch_h: u32,
    patch_w: u32,
    hidden: u32,
)
    requires
        patch_fits(
            image@,
            bias@,
            old(out)@,
            patch_shape(in_ch, in_h, in_w, patch_h, patch_w, hidden),
        ),
        weight@.len() == hidden * patch_shape(
            in_ch,
            in_h,
            in_w,
            patch_h,
            patch_w,
            hidden,
        ).patch_dim(),
    ensures
        final(out)@ =~= Seq::new(
            old(out)@.len(),
            |i: int|
                patch_value::<S, T>(
                    image@,
                    weight@,
                    bias@,
                    patch_shape(in_ch, in_h, in_w, patch_h, patch_w, hidden),
                    i,
                ),
        ),
{
    let sh = PatchShape {
        in_ch: in_ch as usize,
        in_h: in_h as usize,
        in_w: in_w as usize,
        patch_h: patch_h as usize,
        patch_w: patch_w as usize,
        hidden: hidden as usize,
    };
    proof {
        lemma_len_fits(image);
        lemma_len_fits(weight);
    }
    if out.len() == 0 {
        return ;
    }
    proof {
        lemma_patch_out(image@, bias@, out@, sh, 0);
    }
    let patch_dim: usize = sh.dim();
    let ghost made = out@;
    launch(
        out,
        |i: usize| -> (r: T)
            requires
                i < made.len()
            ensures
                r == patch_value::<S, T>(image@, weight@, bias@, sh, i as int)
            {
                proof {
                    lemma_patch_out(image@, bias@, made, sh, i as int);
                }
                let h: usize = i % sh.hidden;
                let p: usize = i / sh.hidden;
                let acc = accumulated(
                    bias[h].widen(),
                    |col: usize| -> (v: S)
                        requires
                            col < patch_dim
                        ensures
                            v == patch_terms::<S, T>(image@, weight@, sh, p as int, h as int)(
                                col as int,
                            )
                        {
                            let pixel: usize = sh.pixel_at(p, col);
                            let at: usize = flat(h, col, patch_dim, Ghost(sh.hidden as int));
                            s_mul(&image[pixel].widen(), &weight[at].widen())
                        },
                    patch_dim,
                    Ghost(patch_terms::<S, T>(image@, weight@, sh, p as int, h as int)),
                );
                T::narrow(&acc)
            },
        Ghost(|i: int| patch_value::<S, T>(image@, weight@, bias@, sh, i)),
    );
}

} // verus!
