//! Root-mean-square norm and matrix-vector product with affine weights in one
//! launch: a weight is `code * scale + bias`, with one scale and one bias per group.
//!
//! `x` and `norm_weight` are `[in_dim]`; `weight` is `[out_dim, in_dim / 8]` words of
//! eight 4-bit codes, or `[out_dim, in_dim / 4]` words of four 8-bit codes; `scales`
//! and `biases` are `[out_dim, in_dim / group_size]`.
use vstd::prelude::*;

use crate::lanes::{
    accumulate, accumulated, collect, group_sum, group_summed, lane_sum, lane_summed, launch,
};
use crate::layout::{flat, lemma_len_fits};
use crate::norm::{group_norm, group_normed};
use crate::qgemv::lemma_block;
use crate::quant::{code_of, digit};
use crate::scalar::{plus, s_add, s_mul, s_zero, times, zero, Element, Scalar};

verus! {

/// The lengths of packed weights, scales and biases of `rows` rows, `per` codes to a
/// word.
pub open spec fn affine_rows_fit<T>(
    weight: Seq<u32>,
    scales: Seq<T>,
    biases: Seq<T>,
    rows: int,
    in_dim: int,
    group: int,
    per: int,
) -> bool {
    &&& group > 0
    &&& in_dim % group == 0
    &&& in_dim % per == 0
    &&& weight.len() == rows * (in_dim / per)
    &&& scales.len() == rows * (in_dim / group)
    &&& biases.len() == scales.len()
}

/// Code `c` of row `r`.
pub open spec fn affine_code(
    weight: Seq<u32>,
    in_dim: int,
    base: int,
    per: int,
    r: int,
    c: int,
) -> u32 {
    digit(weight[r * (in_dim / per) + c / per] as int, base, c % per) as u32
}

/// What column `c` adds to row `r`.
pub open spec fn affine_terms<S: Scalar, T: Element<S>>(
    weight: Seq<u32>,
    scales: Seq<T>,
    biases: Seq<T>,
    act: Seq<S>,
    in_dim: int,
    group: int,
    r: int,
) -> spec_fn(int) -> S {
    |c: int|
        {
            let g = r * (in_dim / group) + c / group;
            let code = S::natural(affine_code(weight, in_dim, 16, 8, r, c));
            times(plus(times(code, scales[g].widened()), biases[g].widened()), act[c])
        }
}

/// Row `r` of the product by a group of `width` threads.
pub open spec fn affine_value<S: Scalar, T: Element<S>>(
    weight: Seq<u32>,
    scales: Seq<T>,
    biases: Seq<T>,
    act: Seq<S>,
    in_dim: int,
    group: int,
    width: int,
    r: int,
) -> T {
    T::narrowed(
        group_sum(
            affine_terms::<S, T>(weight, scales, biases, act, in_dim, group, r),
            8,
            width,
            in_dim / 8,
        ),
    )
}

fn load_code(
    weight: &[u32],
    in_dim: usize,
    base: u32,
    per: usize,
    r: usize,
    c: usize,
    rows: Ghost<int>,
) -> (code: u32)
    requires
        base > 1,
        per > 0,
        in_dim as int % per as int == 0,
        weight@.len() == rows@ * (in_dim as int / per as int),
        r < rows@,
        c < in_dim,
    ensures
        code == affine_code(
            weight@,
            in_dim as int,
            base as int,
            per as int,
            r as int,
            c as int,
        ),
        code < base,
{
    proof {
        lemma_len_fits(weight);
        lemma_block(c as int, in_dim as int, per as int);
    }
    code_of(weight[flat(r, c / per, in_dim / per, rows)], base, c % per)
}

/// `output[r] = W[r, :] . (x * norm_weight * rsqrt(mean(x^2) + eps))`, with 4-bit
/// codes, one row per threadgroup of `lsize` threads.
pub fn ffai_rms_norm_qgemv<S: Scalar, T: Element<S>>(
    x: &[T],
    norm_weight: &[T],
    weight: &[u32],
    scales: &[T],
    biases: &[T],
    output: &mut Vec<T>,
    eps_buf: &[S],
    in_dim: u32,
    group_size: u32,
    lsize: u32,
)
    requires
        lsize > 0,
        eps_buf@.len() >= 1,
        x@.len() == in_dim,
        norm_weight@.len() == in_dim,
        group_size % 8 == 0,
        affine_rows_fit(
            weight@,
            scales@,
            biases@,
            old(output)@.len() as int,
            in_dim as int,
            group_size as int,
            8,
        ),
    ensures
        final(output)@ =~= Seq::new(
            old(output)@.len(),
            |r: int|
                affine_value(
                    weight@,
                    scales@,
                    biases@,
                    group_normed::<S, T>(x@, norm_weight@, in_dim, eps_buf@[0], lsize as int),
                    in_dim as int,
                    group_size as int,
                    lsize as int,
                    r,
                ),
        ),
{
    let act = group_norm(x, norm_weight, in_dim, &eps_buf[0], lsize as usize);
    let cols: usize = in_dim as usize;
    let group: usize = group_size as usize;
    let ghost rows = output@.len() as int;
    proof {
        lemma_len_fits(scales);
    }
    launch(
        output,
        |r: usize| -> (v: T)
            requires
                r < rows
            ensures
                v == affine_value(
                    weight@,
                    scales@,
                    biases@,
                    act@,
                    in_dim as int,
                    group_size as int,
                    lsize as int,
                    r as int,
                )
            {
                let total = group_summed(
                    |c: usize| -> (v: S)
                        requires
                            c < cols
                        ensures
                            v == affine_terms::<S, T>(
                                weight@,
                                scales@,
                                biases@,
                                act@,
                                in_dim as int,
                                group_size as int,
                                r as int,
                            )(c as int)
                        {
                            proof {
                                lemma_block(c as int, cols as int, group as int);
                            }
                            let g: usize = flat(r, c / group, cols / group, Ghost(rows));
                            let code: u32 = load_code(weight, cols, 16, 8, r, c, Ghost(rows));
                            let w = s_add(
                                &s_mul(&S::from_u32(code), &scales[g].widen()),
                                &biases[g].widen(),
                            );
                            s_mul(&w, &act[c])
                        },
                    8,
                    lsize as usize,
                    cols / 8,
                    Ghost(
                        affine_terms::<S, T>(
                            weight@,
                            scales@,
                            biases@,
                            act@,
                            in_dim as int,
                            group_size as int,
                            r as int,
                        ),
                    ),
                );
                T::narrow(&total)
            },
        Ghost(
            |r: int|
                affine_value(
                    weight@,
                    scales@,
                    biases@,
                    act@,
                    in_dim as int,
                    group_size as int,
                    lsize as int,
                    r,
                ),
        ),
    );
}

/// Where a 4-bit code stands in its half word, as a factor; an 8-bit code is
/// shifted down.
pub open spec fn code_place(base: int, j: int) -> int {
    if base != 16 || j % 4 == 0 {
        1
    } else if j % 4 == 1 {
        16
    } else if j % 4 == 2 {
        256
    } else {
        4096
    }
}

/// What element `j` of a lane's sixteen adds to the dot product with the codes: the
/// code in its place, times the activation scaled down by that place.
pub open spec fn fast_term<S: Scalar>(
    weight: Seq<u32>,
    act: Seq<S>,
    in_dim: int,
    base: int,
    per: int,
    r: int,
    xb: int,
    j: int,
) -> S {
    let place = code_place(base, j);
    let code = S::natural((affine_code(weight, in_dim, base, per, r, xb + j) * place) as u32);
    if place == 1 {
        times(code, act[xb + j])
    } else {
        times(code, times(act[xb + j], S::rational(1, place as u64)))
    }
}

/// `f(0) + .. + f(15)`, from the left.
pub open spec fn sixteen<S: Scalar>(f: spec_fn(int) -> S) -> S {
    accumulate(f(0), |i: int| f(i + 1), 15)
}

/// The dot product of a lane's sixteen activations from `xb` on with their codes.
pub open spec fn code_dot<S: Scalar>(
    weight: Seq<u32>,
    act: Seq<S>,
    in_dim: int,
    base: int,
    per: int,
    r: int,
    xb: int,
) -> S {
    sixteen(|j: int| fast_term(weight, act, in_dim, base, per, r, xb, j))
}

/// The sum of a lane's sixteen activations from `xb` on.
pub open spec fn act_sum<S: Scalar>(act: Seq<S>, xb: int) -> S {
    sixteen(|j: int| act[xb + j])
}

/// What lane `lane` has added up for row `r` after `blocks` blocks of 512 columns:
/// `scale * dot + bias * sum` for each.
pub open spec fn fast_lane<S: Scalar, T: Element<S>>(
    weight: Seq<u32>,
    scales: Seq<T>,
    biases: Seq<T>,
    act: Seq<S>,
    in_dim: int,
    group: int,
    base: int,
    per: int,
    r: int,
    lane: int,
    blocks: int,
) -> S
    decreases blocks,
{
    if blocks <= 0 {
        zero()
    } else {
        let before = fast_lane::<S, T>(
            weight,
            scales,
            biases,
            act,
            in_dim,
            group,
            base,
            per,
            r,
            lane,
            blocks - 1,
        );
        let xb = (blocks - 1) * 512 + lane * 16;
        let g = r * (in_dim / group) + xb / group;
        plus(
            plus(
                before,
                times(scales[g].widened(), code_dot(weight, act, in_dim, base, per, r, xb)),
            ),
            times(biases[g].widened(), act_sum(act, xb)),
        )
    }
}

/// Row `r` of the product by the 32 lanes of a simdgroup.
pub open spec fn fast_value<S: Scalar, T: Element<S>>(
    weight: Seq<u32>,
    scales: Seq<T>,
    biases: Seq<T>,
    act: Seq<S>,
    in_dim: int,
    group: int,
    base: int,
    per: int,
    r: int,
) -> T {
    T::narrowed(
        lane_sum(
            Seq::new(
                32,
                |lane: int|
                    fast_lane::<S, T>(
                        weight,
                        scales,
                        biases,
                        act,
                        in_dim,
                        group,
                        base,
                        per,
                        r,
                        lane,
                        in_dim / 512,
                    ),
            ),
        ),
    )
}

/// Adds sixteen terms from the left.
fn sum_sixteen<S: Scalar, F: Fn(usize) -> S>(f: F, term: Ghost<spec_fn(int) -> S>) -> (r: S)
    requires
        forall|i: usize| i < 16 ==> call_requires(f, (i,)),
        forall|i: usize, r: S| i < 16 && call_ensures(f, (i,), r) ==> r == (term@)(i as int),
    ensures
        r == sixteen(term@),
{
    let first = f(0);
    accumulated(
        first,
        |i: usize| -> (r: S)
            requires
                i < 15
            ensures
                r == (term@)(i + 1)
            { f(i + 1) },
        15,
        Ghost(|i: int| (term@)(i + 1)),
    )
}

fn place_of(base: u32, j: usize) -> (p: u32)
    ensures
        p == code_place(base as int, j as int),
{
    if base != 16 || j % 4 == 0 {
        1
    } else if j % 4 == 1 {
        16
    } else if j % 4 == 2 {
        256
    } else {
        4096
    }
}

fn fast_product<S: Scalar>(
    weight: &[u32],
    act: &Vec<S>,
    in_dim: usize,
    base: u32,
    per: usize,
    r: usize,
    xb: usize,
    j: usize,
    rows: Ghost<int>,
) -> (v: S)
    requires
        1 < base <= 256,
        per > 0,
        in_dim as int % per as int == 0,
        weight@.len() == rows@ * (in_dim as int / per as int),
        act@.len() == in_dim,
        r < rows@,
        j < 16,
        xb + 16 <= in_dim,
    ensures
        v == fast_term(
            weight@,
            act@,
            in_dim as int,
            base as int,
            per as int,
            r as int,
            xb as int,
            j as int,
        ),
{
    let place: u32 = place_of(base, j);
    let code: u32 = load_code(weight, in_dim, base, per, r, xb + j, rows);
    assert(code * place <= 255 * 4096) by (nonlinear_arith)
        requires
            code <= 255,
            place <= 4096,
    ;
    let shifted = S::from_u32(code * place);
    if place == 1 {
        s_mul(&shifted, &act[xb + j])
    } else {
        s_mul(&shifted, &s_mul(&act[xb + j], &S::ratio(1, place as u64)))
    }
}

/// What lane `lane` adds up for row `r`.
fn fast_lane_sum<S: Scalar, T: Element<S>>(
    weight: &[u32],
    scales: &[T],
    biases: &[T],
    act: &Vec<S>,
    in_dim: usize,
    group: usize,
    base: u32,
    per: usize,
    r: usize,
    lane: usize,
    rows: Ghost<int>,
) -> (acc: S)
    requires
        1 < base <= 256,
        per > 0,
        in_dim % 512 == 0,
        act@.len() == in_dim,
        affine_rows_fit(
            weight@,
            scales@,
            biases@,
            rows@,
            in_dim as int,
            group as int,
            per as int,
        ),
        r < rows@,
        lane < 32,
    ensures
        acc == fast_lane::<S, T>(
            weight@,
            scales@,
            biases@,
            act@,
            in_dim as int,
            group as int,
            base as int,
            per as int,
            r as int,
            lane as int,
            in_dim as int / 512,
        ),
{
    proof {
        lemma_len_fits(scales);
    }
    let mut acc = s_zero::<S>();
    let mut b: usize = 0;
    while b < in_dim / 512
        invariant
            b <= in_dim / 512,
            1 < base <= 256,
            per > 0,
            in_dim % 512 == 0,
            act@.len() == in_dim,
            affine_rows_fit(
                weight@,
                scales@,
                biases@,
                rows@,
                in_dim as int,
                group as int,
                per as int,
            ),
            scales@.len() <= usize::MAX,
            r < rows@,
            lane < 32,
            acc == fast_lane::<S, T>(
                weight@,
                scales@,
                biases@,
                act@,
                in_dim as int,
                group as int,
                base as int,
                per as int,
                r as int,
                lane as int,
                b as int,
            ),
        decreases in_dim / 512 - b,
    {
        let xb: usize = b * 512 + lane * 16;
        proof {
            lemma_block(xb as int, in_dim as int, group as int);
        }
        let g: usize = flat(r, xb / group, in_dim / group, rows);
        let dot = sum_sixteen(
            |j: usize| -> (v: S)
                requires
                    j < 16
                ensures
                    v == fast_term(
                        weight@,
                        act@,
                        in_dim as int,
                        base as int,
                        per as int,
                        r as int,
                        xb as int,
                        j as int,
                    )
                { fast_product(weight, act, in_dim, base, per, r, xb, j, rows) },
            Ghost(
                |j: int|
                    fast_term(
                        weight@,
                        act@,
                        in_dim as int,
                        base as int,
                        per as int,
                        r as int,
                        xb as int,
                        j,
                    ),
            ),
        );
        let sum = sum_sixteen(
            |j: usize| -> (v: S)
                requires
                    j < 16
                ensures
                    v == act@[xb + j]
                { act[xb + j].dup() },
            Ghost(|j: int| act@[xb + j]),
        );
        let with_dot = s_add(&acc, &s_mul(&scales[g].widen(), &dot));
        acc = s_add(&with_dot, &s_mul(&biases[g].widen(), &sum));
        b = b + 1;
    }
    acc
}

fn fast<S: Scalar, T: Element<S>>(
    weight: &[u32],
    scales: &[T],
    biases: &[T],
    output: &mut Vec<T>,
    act: &Vec<S>,
    in_dim: usize,
    group: usize,
    base: u32,
    per: usize,
)
    requires
        1 < base <= 256,
        per > 0,
        in_dim % 512 == 0,
        act@.len() == in_dim,
        affine_rows_fit(
            weight@,
            scales@,
            biases@,
            old(output)@.len() as int,
            in_dim as int,
            group as int,
            per as int,
        ),
    ensures
        final(output)@ =~= Seq::new(
            old(output)@.len(),
            |r: int|
                fast_value::<S, T>(
                    weight@,
                    scales@,
                    biases@,
                    act@,
                    in_dim as int,
                    group as int,
                    base as int,
                    per as int,
                    r,
                ),
        ),
{
    let ghost rows = output@.len() as int;
    launch(
        output,
        |r: usize| -> (v: T)
            requires
                r < rows
            ensures
                v == fast_value::<S, T>(
                    weight@,
                    scales@,
                    biases@,
                    act@,
                    in_dim as int,
                    group as int,
                    base as int,
                    per as int,
                    r as int,
                )
            {
                let parts = collect(
                    32,
                    |lane: usize| -> (v: S)
                        requires
                            lane < 32
                        ensures
                            v == fast_lane::<S, T>(
                                weight@,
                                scales@,
                                biases@,
                                act@,
                                in_dim as int,
                                group as int,
                                base as int,
                                per as int,
                                r as int,
                                lane as int,
                                in_dim as int / 512,
                            )
                        {
                            fast_lane_sum(
                                weight,
                                scales,
                                biases,
                                act,
                                in_dim,
                                group,
                                base,
                                per,
                                r,
                                lane,
                                Ghost(rows),
                            )
                        },
                    Ghost(
                        |lane: int, v: S|
                            v == fast_lane::<S, T>(
                                weight@,
                                scales@,
                                biases@,
                                act@,
                                in_dim as int,
                                group as int,
                                base as int,
                                per as int,
                                r as int,
                                lane,
                                in_dim as int / 512,
                            ),
                    ),
                );
                assert(parts@ =~= Seq::new(
                    32,
                    |lane: int|
                        fast_lane::<S, T>(
                            weight@,
                            scales@,
                            biases@,
                            act@,
                            in_dim as int,
                            group as int,
                            base as int,
                            per as int,
                            r as int,
                            lane,
                            in_dim as int / 512,
                        ),
                ));
                T::narrow(&lane_summed(&parts))
            },
        Ghost(
            |r: int|
                fast_value::<S, T>(
                    weight@,
                    scales@,
                    biases@,
                    act@,
                    in_dim as int,
                    group as int,
                    base as int,
                    per as int,
                    r,
                ),
        ),
    );
}

/// As [`ffai_rms_norm_qgemv`], eight rows per threadgroup of two simdgroups. The
/// codes are not shifted down: the activations carry the inverse of their places.
pub fn ffai_rms_norm_qgemv_fast<S: Scalar, T: Element<S>>(
    x: &[T],
    norm_weight: &[T],
    weight: &[u32],
    scales: &[T],
    biases: &[T],
    output: &mut Vec<T>,
    eps_buf: &[S],
    in_dim: u32,
    group_size: u32,
)
    requires
        eps_buf@.len() >= 1,
        in_dim % 512 == 0,
        group_size % 16 == 0,
        old(output)@.len() % 8 == 0,
        x@.len() == in_dim,
        norm_weight@.len() == in_dim,
        affine_rows_fit(
            weight@,
            scales@,
            biases@,
            old(output)@.len() as int,
            in_dim as int,
            group_size as int,
            8,
        ),
    ensures
        final(output)@ =~= Seq::new(
            old(output)@.len(),
            |r: int|
                fast_value::<S, T>(
                    weight@,
                    scales@,
                    biases@,
                    group_normed::<S, T>(x@, norm_weight@, in_dim, eps_buf@[0], 64),
                    in_dim as int,
                    group_size as int,
                    16,
                    8,
                    r,
                ),
        ),
{
    let act = group_norm(x, norm_weight, in_dim, &eps_buf[0], 64);
    fast(weight, scales, biases, output, &act, in_dim as usize, group_size as usize, 16, 8);
}

/// As [`ffai_rms_norm_qgemv_fast`], with 8-bit codes.
pub fn ffai_rms_norm_qgemv_int8_fast<S: Scalar, T: Element<S>>(
    x: &[T],
    norm_weight: &[T],
    weight: &[u32],
    scales: &[T],
    biases: &[T],
    output: &mut Vec<T>,
    eps_buf: &[S],
    in_dim: u32,
    group_size: u32,
)
    requires
        eps_buf@.len() >= 1,
        in_dim % 512 == 0,
        group_size % 16 == 0,
        old(output)@.len() % 8 == 0,
        x@.len() == in_dim,
        norm_weight@.len() == in_dim,
        affine_rows_fit(
            weight@,
            scales@,
            biases@,
            old(output)@.len() as int,
            in_dim as int,
            group_size as int,
            4,
        ),
    ensures
        final(output)@ =~= Seq::new(
            old(output)@.len(),
            |r: int|
                fast_value::<S, T>(
                    weight@,
                    scales@,
                    biases@,
                    group_normed::<S, T>(x@, norm_weight@, in_dim, eps_buf@[0], 64),
                    in_dim as int,
                    group_size as int,
                    256,
                    4,
                    r,
                ),
        ),
{
    let act = group_norm(x, norm_weight, in_dim, &eps_buf[0], 64);
    fast(weight, scales, biases, output, &act, in_dim as usize, group_size as usize, 256, 4);
}

} // verus!
