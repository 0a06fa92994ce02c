//! What the normalizing launches write, each element from the row it belongs to.
//!
//! The inverse norm of a row is the inverse root of the mean of its squares and a small
//! number; the laws hold of scalars that add in any order.
use vstd::prelude::*;

use crate::algebra::{
    law_simd_dot_is_the_dot_product, lemma_lane_sum, lemma_ring_sums, lemma_sum_tail, ring,
    sums_freely,
};
use crate::exact::{
    law_affine_product_is_the_product, law_block_product_is_the_product, law_group_norm_is_the_norm,
    law_group_normed_is_the_normed, lemma_quads, plain_normed,
};
use crate::exact_qgemv::{coded_terms, law_fast_kernel_is_the_normed_product, places_cancel};
use crate::exact_quant::lemma_flat_block;
use crate::gated_delta_prep::row_at;
use crate::gated_rms_norm_block_scaled_qgemv::gated_inner;
use crate::gated_rmsnorm::gated_value;
use crate::lanes::{accumulate, lemma_accumulate_same};
use crate::layout::{lemma_row_major, lemma_row_major_inverse};
use crate::norm::{group_normed, quad, quad_inv, squares};
use crate::qgemv::{pack_of, q_terms, q_value};
use crate::quant::{law_int4_round_trip, law_int8_round_trip, packed_row, Quantized};
use crate::rms_norm_qgemv::{affine_terms, affine_value, fast_value};
use crate::rms_norm_residual::residual_value;
use crate::scalar::{minus, one, over, plus, times, zero, Element, Fun, Scalar};

verus! {

/// The inverse root of the mean of `n` squares from `at` on and `eps`.
pub open spec fn inverse_root<S: Scalar, T: Element<S>>(x: Seq<T>, at: int, n: u32, eps: S) -> S {
    reached_root::<S, T>(x, at, n as int, n, eps)
}

/// The inverse root of `eps` and of the first `reach` squares from `at` on over `n`.
pub open spec fn reached_root<S: Scalar, T: Element<S>>(
    x: Seq<T>,
    at: int,
    reach: int,
    n: u32,
    eps: S,
) -> S {
    let total = accumulate(
        zero(),
        |d: int| times(x[at + d].widened(), x[at + d].widened()),
        reach,
    );
    S::applied(Fun::Rsqrt, plus(over(total, S::natural(n)), eps))
}

/// The columns that `tpg` threads reach, four to each, in whole fours.
pub open spec fn reached(n: u32, tpg: int) -> int {
    if 4 * tpg <= n {
        4 * tpg
    } else {
        n - n % 4
    }
}

proof fn lemma_reached<S: Scalar, T: Element<S>>(
    x: Seq<T>,
    start: int,
    n: u32,
    eps: S,
    tpg: int,
)
    requires
        sums_freely::<S>(),
        0 < tpg,
    ensures
        quad_inv::<S, T>(x, start, n, eps, tpg) == reached_root::<S, T>(
            x,
            start,
            reached(n, tpg),
            n,
            eps,
        ),
{
    let part = |t: int| quad::<S, T>(x, start, n as int, t);
    let parts = Seq::new(tpg as nat, part);
    let whole = reached(n, tpg) / 4;
    lemma_lane_sum(parts);
    lemma_accumulate_same(zero(), |i: int| parts[i], part, tpg);
    lemma_sum_tail(part, whole, tpg);
    lemma_quads::<S, T>(x, start, n as int, whole);
    lemma_accumulate_same(
        zero(),
        squares::<S, T>(x, start),
        |d: int| times(x[start + d].widened(), x[start + d].widened()),
        4 * whole,
    );
}

/// Element `c` of row `r` is the residual's element, and on it the row's element over the
/// root of its own row's mean square and `eps`, times weight `c`. Columns that no thread
/// reaches are neither counted nor written.
pub proof fn law_residual_adds_the_normed_row<S: Scalar, T: Element<S>>(
    x: Seq<T>,
    residual: Seq<T>,
    w: Seq<T>,
    eps: S,
    n: u32,
    tpg: int,
    r: int,
    c: int,
)
    requires
        sums_freely::<S>(),
        0 < tpg,
        0 <= r,
        0 <= c < n,
    ensures
        residual_value::<S, T>(x, residual, w, eps, n, tpg, r * n + c) == if c < reached(n, tpg) {
            let root = reached_root::<S, T>(x, r * n, reached(n, tpg), n, eps);
            Some(
                T::narrowed(
                    plus(
                        residual[r * n + c].widened(),
                        times(times(x[r * n + c].widened(), root), w[c].widened()),
                    ),
                ),
            )
        } else {
            None
        },
{
    lemma_row_major_inverse(r, c, n as int);
    lemma_reached::<S, T>(x, r * n, n, eps, tpg);
}

/// Element `c` of row `r` is the row's element over the root of its own row's mean square
/// and `eps`, times weight `c`, times a gate `z / (1 + exp(-z))` by the same element of `z`.
/// Columns that no thread reaches are neither counted nor written.
pub proof fn law_gate_meets_the_normed_row<S: Scalar, T: Element<S>>(
    y: Seq<S>,
    z: Seq<T>,
    w: Seq<T>,
    eps: S,
    n: u32,
    tpg: int,
    r: int,
    c: int,
)
    requires
        sums_freely::<S>(),
        0 < tpg,
        0 <= r,
        0 <= c < n,
    ensures
        ({
            let i = r * n + c;
            let gate = over(
                z[i].widened(),
                plus(one(), S::applied(Fun::Exp, minus(zero(), z[i].widened()))),
            );
            let root = reached_root::<S, S>(y, r * n, reached(n, tpg), n, eps);
            gated_value::<S, T>(y, z, w, eps, n, tpg, i) == if c < reached(n, tpg) {
                Some(T::narrowed(times(times(times(y[i], root), w[c].widened()), gate)))
            } else {
                None
            }
        }),
{
    lemma_row_major_inverse(r, c, n as int);
    lemma_reached::<S, S>(y, r * n, n, eps, tpg);
}

/// The activations of a gated product: element `d` of head `h` over the root of its own
/// head's mean square and `eps`, times weight `d`, times that element's own gate.
pub proof fn law_gate_meets_the_normed_head<S: Scalar, T: Element<S>>(
    y: Seq<S>,
    z: Seq<T>,
    norm_weight: Seq<T>,
    eps: S,
    hv: u32,
    dv: u32,
    h: int,
    d: int,
)
    requires
        sums_freely::<S>(),
        dv % 32 == 0,
        0 <= h < hv,
        0 <= d < dv,
    ensures
        ({
            let i = h * dv + d;
            let gate = over(
                z[i].widened(),
                plus(one(), S::applied(Fun::Exp, minus(zero(), z[i].widened()))),
            );
            gated_inner::<S, T>(y, z, norm_weight, eps, hv, dv)[i] == times(
                times(
                    times(y[i], inverse_root::<S, S>(y, h * dv, dv, eps)),
                    norm_weight[d].widened(),
                ),
                gate,
            )
        }),
{
    lemma_row_major(h, hv as int, d, dv as int);
    lemma_row_major_inverse(h, d, dv as int);
    let row = row_at::<S, S>(y, h * dv, dv as int);
    law_simd_dot_is_the_dot_product(row, row);
    lemma_accumulate_same(
        zero(),
        |c: int| times(row[c], row[c]),
        |c: int| times(y[h * dv + c].widened(), y[h * dv + c].widened()),
        dv as int,
    );
}

/// Element `c` of `x` over the root of its mean square and `eps`, times weight `c`.
pub open spec fn over_root<S: Scalar, T: Element<S>>(
    x: Seq<T>,
    w: Seq<T>,
    n: u32,
    eps: S,
    c: int,
) -> S {
    times(times(x[c].widened(), w[c].widened()), inverse_root::<S, T>(x, 0, n, eps))
}

proof fn lemma_normed<S: Scalar, T: Element<S>>(
    x: Seq<T>,
    w: Seq<T>,
    n: u32,
    eps: S,
    width: int,
)
    requires
        sums_freely::<S>(),
        0 < width,
    ensures
        forall|c: int|
            0 <= c < n ==> #[trigger] group_normed::<S, T>(x, w, n, eps, width)[c] == over_root::<
                S,
                T,
            >(x, w, n, eps, c),
{
    law_group_norm_is_the_norm::<S, T>(x, n, eps, width);
    lemma_accumulate_same(
        zero(),
        squares::<S, T>(x, 0),
        |d: int| times(x[0 + d].widened(), x[0 + d].widened()),
        n as int,
    );
}

/// Output `r` of a normalized product with block-scaled weights sums, over all columns,
/// row `r`'s weight times the normalized activation.
pub proof fn law_blocks_meet_the_normed_vector<S: Scalar, T: Element<S>>(
    x: Seq<T>,
    norm_weight: Seq<T>,
    eps: S,
    q: Quantized<S>,
    in_dim: u32,
    width: int,
    r: int,
)
    requires
        sums_freely::<S>(),
        0 < width,
        q.cols == in_dim,
        in_dim as int % pack_of(q.codes) == 0,
    ensures
        q_value::<S, T>(q, group_normed::<S, T>(x, norm_weight, in_dim, eps, width), width, r)
            == T::narrowed(
            accumulate(
                zero(),
                |c: int|
                    times(
                        q.weight(r, c, c / q.block as int),
                        over_root::<S, T>(x, norm_weight, in_dim, eps, c),
                    ),
                in_dim as int,
            ),
        ),
{
    let act = group_normed::<S, T>(x, norm_weight, in_dim, eps, width);
    lemma_normed::<S, T>(x, norm_weight, in_dim, eps, width);
    law_block_product_is_the_product::<S, T>(q, act, width, r);
    lemma_accumulate_same(
        zero(),
        q_terms(q, act, r),
        |c: int|
            times(
                q.weight(r, c, c / q.block as int),
                over_root::<S, T>(x, norm_weight, in_dim, eps, c),
            ),
        in_dim as int,
    );
}

/// Output `r` of a gated product sums, over all heads' elements, row `r`'s weight times the
/// activation.
pub proof fn law_blocks_meet_the_gated_heads<S: Scalar, T: Element<S>>(
    q: Quantized<S>,
    inner: Seq<S>,
    r: int,
)
    requires
        sums_freely::<S>(),
        q.cols as int % pack_of(q.codes) == 0,
    ensures
        q_value::<S, T>(q, inner, 64, r) == T::narrowed(
            accumulate(
                zero(),
                |c: int| times(q.weight(r, c, c / q.block as int), inner[c]),
                q.cols as int,
            ),
        ),
{
    law_block_product_is_the_product::<S, T>(q, inner, 64, r);
    lemma_accumulate_same(
        zero(),
        q_terms(q, inner, r),
        |c: int| times(q.weight(r, c, c / q.block as int), inner[c]),
        q.cols as int,
    );
}

/// Output `r` of a normalized product with packed weights sums, over all columns, the
/// weight `code * scale + bias` of the flat place `r * in_dim + c` times the normalized
/// activation; the code is the one that was packed there.
pub proof fn law_codes_meet_the_normed_vector<S: Scalar, T: Element<S>>(
    x: Seq<T>,
    norm_weight: Seq<T>,
    eps: S,
    codes: Seq<u32>,
    scales: Seq<T>,
    biases: Seq<T>,
    in_dim: u32,
    group: int,
    width: int,
    rows: int,
    r: int,
)
    requires
        sums_freely::<S>(),
        0 < width,
        in_dim % 8 == 0,
        0 < group,
        in_dim as int % group == 0,
        codes.len() == rows * in_dim,
        0 <= r < rows,
    ensures
        affine_value::<S, T>(
            packed_row(codes, 16, 8),
            scales,
            biases,
            group_normed::<S, T>(x, norm_weight, in_dim, eps, width),
            in_dim as int,
            group,
            width,
            r,
        ) == T::narrowed(
            accumulate(
                zero(),
                |c: int|
                    times(
                        plus(
                            times(
                                S::natural((codes[r * in_dim + c] as int % 16) as u32),
                                scales[(r * in_dim + c) / group].widened(),
                            ),
                            biases[(r * in_dim + c) / group].widened(),
                        ),
                        over_root::<S, T>(x, norm_weight, in_dim, eps, c),
                    ),
                in_dim as int,
            ),
        ),
{
    let act = group_normed::<S, T>(x, norm_weight, in_dim, eps, width);
    let w = packed_row(codes, 16, 8);
    lemma_normed::<S, T>(x, norm_weight, in_dim, eps, width);
    law_affine_product_is_the_product::<S, T>(
        w,
        scales,
        biases,
        act,
        in_dim as int,
        group,
        width,
        r,
    );
    let f = affine_terms::<S, T>(w, scales, biases, act, in_dim as int, group, r);
    let g = |c: int|
        times(
            plus(
                times(
                    S::natural((codes[r * in_dim + c] as int % 16) as u32),
                    scales[(r * in_dim + c) / group].widened(),
                ),
                biases[(r * in_dim + c) / group].widened(),
            ),
            over_root::<S, T>(x, norm_weight, in_dim, eps, c),
        );
    lemma_flat_block(rows, in_dim as int, 0, 8);
    assert forall|c: int| 0 <= c < in_dim implies #[trigger] f(c) == g(c) by {
        lemma_flat_block(r, in_dim as int, c, 8);
        lemma_flat_block(r, in_dim as int, c, group);
        lemma_row_major(r, rows, c, in_dim as int);
        law_int4_round_trip(codes, r * in_dim + c);
    }
    lemma_accumulate_same(zero(), f, g, in_dim as int);
}

/// The fast kernels compute the same sum over all columns, from codes that were packed
/// eight or four to a word.
pub proof fn law_fast_codes_meet_the_normed_vector<S: Scalar, T: Element<S>>(
    x: Seq<T>,
    norm_weight: Seq<T>,
    eps: S,
    codes: Seq<u32>,
    scales: Seq<T>,
    biases: Seq<T>,
    in_dim: u32,
    group: int,
    base: int,
    per: int,
    rows: int,
    r: int,
)
    requires
        ring::<S>(),
        base == 16 && per == 8 && places_cancel::<S>() || base == 256 && per == 4,
        in_dim % 512 == 0,
        0 < group,
        group % 16 == 0,
        in_dim as int % group == 0,
        codes.len() == rows * in_dim,
        0 <= r < rows,
    ensures
        fast_value::<S, T>(
            packed_row(codes, base, per),
            scales,
            biases,
            group_normed::<S, T>(x, norm_weight, in_dim, eps, 64),
            in_dim as int,
            group,
            base,
            per,
            r,
        ) == T::narrowed(
            accumulate(
                zero(),
                |c: int|
                    times(
                        plus(
                            times(
                                S::natural((codes[r * in_dim + c] as int % base) as u32),
                                scales[(r * in_dim + c) / group].widened(),
                            ),
                            biases[(r * in_dim + c) / group].widened(),
                        ),
                        over_root::<S, T>(x, norm_weight, in_dim, eps, c),
                    ),
                in_dim as int,
            ),
        ),
{
    let w = packed_row(codes, base, per);
    let act = plain_normed::<S, T>(x, norm_weight, in_dim, eps);
    lemma_ring_sums::<S>();
    lemma_normed::<S, T>(x, norm_weight, in_dim, eps, 1);
    law_group_normed_is_the_normed::<S, T>(x, norm_weight, in_dim, eps, 1);
    law_fast_kernel_is_the_normed_product::<S, T>(
        x,
        norm_weight,
        eps,
        w,
        scales,
        biases,
        in_dim,
        group,
        base,
        per,
        r,
    );
    let f = coded_terms::<S, T>(w, scales, biases, act, in_dim as int, group, base, per, r);
    let g = |c: int|
        times(
            plus(
                times(
                    S::natural((codes[r * in_dim + c] as int % base) as u32),
                    scales[(r * in_dim + c) / group].widened(),
                ),
                biases[(r * in_dim + c) / group].widened(),
            ),
            over_root::<S, T>(x, norm_weight, in_dim, eps, c),
        );
    lemma_flat_block(rows, in_dim as int, 0, per);
    assert forall|c: int| 0 <= c < in_dim implies #[trigger] f(c) == g(c) by {
        lemma_flat_block(r, in_dim as int, c, per);
        lemma_flat_block(r, in_dim as int, c, group);
        lemma_row_major(r, rows, c, in_dim as int);
        if base == 16 {
            law_int4_round_trip(codes, r * in_dim + c);
        } else {
            law_int8_round_trip(codes, r * in_dim + c);
        }
    }
    lemma_accumulate_same(zero(), f, g, in_dim as int);
}

} // verus!
