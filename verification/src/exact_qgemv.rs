//! What the fast matrix-vector products with affine weights compute when arithmetic is
//! exact: the same as the plain ones.
use vstd::prelude::*;

use crate::algebra::{
    law_group_sum_is_the_sum, lemma_add_assoc, lemma_add_zero, lemma_distribute, lemma_mul_assoc,
    lemma_mul_comm, lemma_ring_sums, lemma_sum_of_sums, lemma_sum_scaled, lemma_sum_start,
    pack_sum, ring,
};
use crate::exact::{
    law_affine_product_is_the_product, law_group_normed_is_the_normed, plain_normed,
};
use crate::lanes::{
    accumulate, lemma_accumulate_append, lemma_accumulate_same, lemma_rounds, pack_terms, rounds,
    strided,
};
use crate::norm::group_normed;
use crate::quant::digit;
use crate::rms_norm_qgemv::{
    act_sum, affine_code, affine_terms, affine_value, code_dot, code_place, fast_lane, fast_term,
    fast_value, sixteen,
};
use crate::scalar::{plus, times, zero, Element, Scalar};

verus! {

/// What column `c` adds to row `r`: the weight `code * scale + bias` of its group, times
/// the activation.
pub open spec fn coded_terms<S: Scalar, T: Element<S>>(
    weight: Seq<u32>,
    scales: Seq<T>,
    biases: Seq<T>,
    act: Seq<S>,
    in_dim: int,
    group: int,
    base: int,
    per: int,
    r: int,
) -> spec_fn(int) -> S {
    |c: int|
        {
            let g = r * (in_dim / group) + c / group;
            let code = S::natural(affine_code(weight, in_dim, base, per, r, c));
            times(plus(times(code, scales[g].widened()), biases[g].widened()), act[c])
        }
}

/// A code left in its place in a word counts as much as the code itself, where the
/// activation is scaled down by the place.
#[verifier::opaque]
pub open spec fn places_cancel<S: Scalar>() -> bool {
    forall|code: u32, place: u64, a: S|
        code < 16 && (place == 16 || place == 256 || place == 4096) ==> #[trigger] times(
            S::natural((code * place) as u32),
            times(a, S::rational(1, place)),
        ) == times(S::natural(code), a)
}

proof fn lemma_fast_term<S: Scalar>(
    weight: Seq<u32>,
    act: Seq<S>,
    in_dim: int,
    base: int,
    per: int,
    r: int,
    xb: int,
    j: int,
)
    requires
        base > 1,
        base == 16 ==> places_cancel::<S>(),
    ensures
        fast_term(weight, act, in_dim, base, per, r, xb, j) == times(
            S::natural(affine_code(weight, in_dim, base, per, r, xb + j)),
            act[xb + j],
        ),
{
    let place = code_place(base, j);
    if place != 1 {
        reveal(places_cancel);
        let c = xb + j;
        let w = weight[r * (in_dim / per) + c / per] as int;
        lemma_digit_below(w, 16, c % per);
        let code = affine_code(weight, in_dim, base, per, r, c);
        assert(code < 16);
        assert(code * (place as u64) == code * place);
    }
}

/// A digit is below its base.
proof fn lemma_digit_below(v: int, base: int, i: int)
    requires
        base > 0,
    ensures
        0 <= digit(v, base, i) < base,
    decreases i,
{
    if i > 0 {
        lemma_digit_below(v / base, base, i - 1);
    }
}

/// Sixteen terms from the left are their sum.
proof fn lemma_sixteen<S: Scalar>(f: spec_fn(int) -> S)
    requires
        ring::<S>(),
    ensures
        sixteen(f) == accumulate(zero(), f, 16),
{
    lemma_ring_sums::<S>();
    lemma_add_zero(f(0));
    assert(accumulate(zero(), f, 0) == zero::<S>());
    assert(accumulate(zero(), f, 1) == plus(accumulate(zero(), f, 0), f(0)));
    lemma_accumulate_append(zero(), f, |i: int| f(i + 1), 1, 15);
}

/// What a lane adds for a block of sixteen columns.
proof fn lemma_block_of_sixteen<S: Scalar, T: Element<S>>(
    weight: Seq<u32>,
    scales: Seq<T>,
    biases: Seq<T>,
    act: Seq<S>,
    in_dim: int,
    group: int,
    base: int,
    per: int,
    r: int,
    d: int,
)
    requires
        ring::<S>(),
        base > 1,
        base == 16 ==> places_cancel::<S>(),
        group > 0,
        group % 16 == 0,
        0 <= d,
    ensures
        ({
            let xb = d * 16;
            let g = r * (in_dim / group) + xb / group;
            plus(
                times(scales[g].widened(), code_dot(weight, act, in_dim, base, per, r, xb)),
                times(biases[g].widened(), act_sum(act, xb)),
            ) == pack_sum(
                coded_terms::<S, T>(
                    weight,
                    scales,
                    biases,
                    act,
                    in_dim,
                    group,
                    base,
                    per,
                    r,
                ),
                16,
            )(d)
        }),
{
    lemma_ring_sums::<S>();
    let xb = d * 16;
    let g = r * (in_dim / group) + xb / group;
    let scale: S = scales[g].widened();
    let bias: S = biases[g].widened();
    let term = coded_terms::<S, T>(
        weight,
        scales,
        biases,
        act,
        in_dim,
        group,
        base,
        per,
        r,
    );
    let code = |j: int| S::natural(affine_code(weight, in_dim, base, per, r, xb + j));
    let dot = |j: int| fast_term(weight, act, in_dim, base, per, r, xb, j);
    let plain = |j: int| times(code(j), act[xb + j]);
    let acts = |j: int| act[xb + j];
    lemma_sixteen(dot);
    lemma_sixteen(acts);
    assert forall|j: int| 0 <= j < 16 implies #[trigger] dot(j) == plain(j) by {
        lemma_fast_term(weight, act, in_dim, base, per, r, xb, j);
    }
    lemma_accumulate_same(zero(), dot, plain, 16);
    lemma_mul_comm(scale, accumulate(zero(), plain, 16));
    lemma_sum_scaled(plain, scale, 16);
    lemma_mul_comm(bias, accumulate(zero(), acts, 16));
    lemma_sum_scaled(acts, bias, 16);
    let left = |j: int| times(plain(j), scale);
    let right = |j: int| times(acts(j), bias);
    lemma_sum_of_sums(left, right, 16);
    let both = |j: int| plus(left(j), right(j));
    let pack = pack_terms(term, 16, d);
    assert forall|j: int| 0 <= j < 16 implies #[trigger] both(j) == pack(j) by {
        lemma_same_group(d, j, group);
        let c = code(j);
        let a = act[xb + j];
        lemma_mul_assoc(c, a, scale);
        lemma_mul_comm(a, scale);
        lemma_mul_assoc(c, scale, a);
        lemma_mul_comm(a, bias);
        lemma_distribute(times(c, scale), bias, a);
    }
    lemma_accumulate_same(zero(), both, pack, 16);
}

/// The sixteen columns of a lane lie in one group.
proof fn lemma_same_group(d: int, j: int, group: int)
    requires
        0 <= d,
        0 <= j < 16,
        group > 0,
        group % 16 == 0,
    ensures
        (d * 16 + j) / group == (d * 16) / group,
{
    let m = group / 16;
    vstd::arithmetic::div_mod::lemma_div_denominator(d * 16 + j, 16, m);
    vstd::arithmetic::div_mod::lemma_div_denominator(d * 16, 16, m);
    assert((d * 16 + j) / 16 == d);
    assert((d * 16) / 16 == d);
}

/// What a lane has added up after some blocks is its stride of packs of sixteen.
proof fn lemma_fast_lane<S: Scalar, T: Element<S>>(
    weight: Seq<u32>,
    scales: Seq<T>,
    biases: Seq<T>,
    act: Seq<S>,
    in_dim: int,
    group: int,
    base: int,
    per: int,
    r: int,
    lane: int,
    blocks: int,
    total: int,
)
    requires
        ring::<S>(),
        base > 1,
        base == 16 ==> places_cancel::<S>(),
        group > 0,
        group % 16 == 0,
        0 <= lane < 32,
        0 <= blocks <= total,
    ensures
        fast_lane::<S, T>(
            weight,
            scales,
            biases,
            act,
            in_dim,
            group,
            base,
            per,
            r,
            lane,
            blocks,
        ) == strided(
            coded_terms::<S, T>(weight, scales, biases, act, in_dim, group, base, per, r),
            16,
            lane,
            32,
            32 * total,
            blocks,
        ),
    decreases blocks,
{
    if blocks > 0 {
        lemma_ring_sums::<S>();
        lemma_fast_lane::<S, T>(
            weight,
            scales,
            biases,
            act,
            in_dim,
            group,
            base,
            per,
            r,
            lane,
            blocks - 1,
            total,
        );
        let term = coded_terms::<S, T>(
            weight,
            scales,
            biases,
            act,
            in_dim,
            group,
            base,
            per,
            r,
        );
        let d = (blocks - 1) * 32 + lane;
        let xb = (blocks - 1) * 512 + lane * 16;
        assert(xb == d * 16);
        let before = strided(term, 16, lane, 32, 32 * total, blocks - 1);
        lemma_block_of_sixteen::<S, T>(
            weight,
            scales,
            biases,
            act,
            in_dim,
            group,
            base,
            per,
            r,
            d,
        );
        let g = r * (in_dim / group) + xb / group;
        lemma_add_assoc(
            before,
            times(scales[g].widened(), code_dot(weight, act, in_dim, base, per, r, xb)),
            times(biases[g].widened(), act_sum(act, xb)),
        );
        lemma_sum_start(before, pack_terms(term, 16, d), 16);
    }
}

/// A fast product is the sum over all columns of `(code * scale + bias) * activation`.
pub proof fn law_fast_product_is_the_product<S: Scalar, T: Element<S>>(
    weight: Seq<u32>,
    scales: Seq<T>,
    biases: Seq<T>,
    act: Seq<S>,
    in_dim: int,
    group: int,
    base: int,
    per: int,
    r: int,
)
    requires
        ring::<S>(),
        base > 1,
        base == 16 ==> places_cancel::<S>(),
        0 <= in_dim,
        in_dim % 512 == 0,
        group > 0,
        group % 16 == 0,
    ensures
        fast_value::<S, T>(weight, scales, biases, act, in_dim, group, base, per, r)
            == T::narrowed(
            accumulate(
                zero(),
                coded_terms::<S, T>(
                    weight,
                    scales,
                    biases,
                    act,
                    in_dim,
                    group,
                    base,
                    per,
                    r,
                ),
                in_dim,
            ),
        ),
{
    lemma_ring_sums::<S>();
    let total = in_dim / 512;
    let term = coded_terms::<S, T>(
        weight,
        scales,
        biases,
        act,
        in_dim,
        group,
        base,
        per,
        r,
    );
    lemma_rounds(32 * total, 32);
    assert(rounds(32 * total, 32) == total);
    let f = |lane: int|
        fast_lane::<S, T>(
            weight,
            scales,
            biases,
            act,
            in_dim,
            group,
            base,
            per,
            r,
            lane,
            total,
        );
    let g = |lane: int| strided(term, 16, lane, 32, 32 * total, total);
    assert forall|lane: int| 0 <= lane < 32 implies #[trigger] f(lane) == g(lane) by {
        lemma_fast_lane::<S, T>(
            weight,
            scales,
            biases,
            act,
            in_dim,
            group,
            base,
            per,
            r,
            lane,
            total,
            total,
        );
    }
    assert(Seq::new(32, f) =~= Seq::new(32, g));
    law_group_sum_is_the_sum(term, 16, 32, 32 * total);
}

/// The fast and the plain product with 4-bit weights agree.
pub proof fn law_fast_and_plain_agree<S: Scalar, T: Element<S>>(
    weight: Seq<u32>,
    scales: Seq<T>,
    biases: Seq<T>,
    act: Seq<S>,
    in_dim: int,
    group: int,
    width: int,
    r: int,
)
    requires
        ring::<S>(),
        places_cancel::<S>(),
        0 <= in_dim,
        in_dim % 512 == 0,
        group > 0,
        group % 16 == 0,
        0 < width,
    ensures
        fast_value::<S, T>(weight, scales, biases, act, in_dim, group, 16, 8, r)
            == affine_value::<S, T>(weight, scales, biases, act, in_dim, group, width, r),
{
    lemma_ring_sums::<S>();
    law_fast_product_is_the_product::<S, T>(
        weight,
        scales,
        biases,
        act,
        in_dim,
        group,
        16,
        8,
        r,
    );
    law_affine_product_is_the_product::<S, T>(
        weight,
        scales,
        biases,
        act,
        in_dim,
        group,
        width,
        r,
    );
    lemma_accumulate_same(
        zero(),
        coded_terms::<S, T>(weight, scales, biases, act, in_dim, group, 16, 8, r),
        affine_terms::<S, T>(weight, scales, biases, act, in_dim, group, r),
        in_dim,
    );
}

/// The fast kernels normalize and multiply: row `r` is the sum over all columns of
/// `(code * scale + bias) * x * w * rsqrt(mean(x^2) + eps)`.
pub proof fn law_fast_kernel_is_the_normed_product<S: Scalar, T: Element<S>>(
    x: Seq<T>,
    norm_weight: Seq<T>,
    eps: S,
    weight: Seq<u32>,
    scales: Seq<T>,
    biases: Seq<T>,
    in_dim: u32,
    group: int,
    base: int,
    per: int,
    r: int,
)
    requires
        ring::<S>(),
        base > 1,
        base == 16 ==> places_cancel::<S>(),
        in_dim % 512 == 0,
        group > 0,
        group % 16 == 0,
    ensures
        fast_value::<S, T>(
            weight,
            scales,
            biases,
            group_normed::<S, T>(x, norm_weight, in_dim, eps, 64),
            in_dim as int,
            group,
            base,
            per,
            r,
        ) == T::narrowed(
            accumulate(
                zero(),
                coded_terms::<S, T>(
                    weight,
                    scales,
                    biases,
                    plain_normed::<S, T>(x, norm_weight, in_dim, eps),
                    in_dim as int,
                    group,
                    base,
                    per,
                    r,
                ),
                in_dim as int,
            ),
        ),
{
    lemma_ring_sums::<S>();
    law_group_normed_is_the_normed::<S, T>(x, norm_weight, in_dim, eps, 64);
    law_fast_product_is_the_product::<S, T>(
        weight,
        scales,
        biases,
        plain_normed::<S, T>(x, norm_weight, in_dim, eps),
        in_dim as int,
        group,
        base,
        per,
        r,
    );
}

/// The fast and the plain kernel with 4-bit weights write the same output, whatever the
/// threadgroup of the plain one is.
pub proof fn law_fast_and_plain_kernels_agree<S: Scalar, T: Element<S>>(
    x: Seq<T>,
    norm_weight: Seq<T>,
    eps: S,
    weight: Seq<u32>,
    scales: Seq<T>,
    biases: Seq<T>,
    in_dim: u32,
    group: int,
    width: int,
    rows: nat,
)
    requires
        ring::<S>(),
        places_cancel::<S>(),
        in_dim % 512 == 0,
        group > 0,
        group % 16 == 0,
        0 < width,
    ensures
        Seq::new(
            rows,
            |r: int|
                fast_value::<S, T>(
                    weight,
                    scales,
                    biases,
                    group_normed::<S, T>(x, norm_weight, in_dim, eps, 64),
                    in_dim as int,
                    group,
                    16,
                    8,
                    r,
                ),
        ) =~= Seq::new(
            rows,
            |r: int|
                affine_value::<S, T>(
                    weight,
                    scales,
                    biases,
                    group_normed::<S, T>(x, norm_weight, in_dim, eps, width),
                    in_dim as int,
                    group,
                    width,
                    r,
                ),
        ),
{
    lemma_ring_sums::<S>();
    law_group_normed_is_the_normed::<S, T>(x, norm_weight, in_dim, eps, 64);
    law_group_normed_is_the_normed::<S, T>(x, norm_weight, in_dim, eps, width);
    let act = plain_normed::<S, T>(x, norm_weight, in_dim, eps);
    assert forall|r: int|
        fast_value::<S, T>(weight, scales, biases, act, in_dim as int, group, 16, 8, r)
            == #[trigger] affine_value::<S, T>(
            weight,
            scales,
            biases,
            act,
            in_dim as int,
            group,
            width,
            r,
        ) by {
        law_fast_and_plain_agree::<S, T>(
            weight,
            scales,
            biases,
            act,
            in_dim as int,
            group,
            width,
            r,
        );
    }
}

} // verus!
