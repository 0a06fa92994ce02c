//! What the kernels compute when arithmetic is exact: the plain formulas, whatever the
//! group of threads is and however the work is split among them.
use vstd::prelude::*;

use crate::algebra::{
    law_group_sum_is_the_sum, law_simd_dot_is_the_dot_product, law_tree_sum_is_the_sum,
    lemma_add_assoc, lemma_add_zero, lemma_lane_sum, lemma_mul_one, lemma_mul_zero,
    lemma_ring_sums, lemma_sub_self, ring, sums_freely,
};
use crate::gated_delta::{decayed, delta_of, read_of, row_after, stepped, TokenView};
use crate::gemv::{dense_terms, dense_value};
use crate::lanes::{
    accumulate, halves_evenly, lemma_accumulate_same, pack_terms, rounds, simd_dot, strided,
};
use crate::norm::{group_inv, group_normed, inv_of, quad, quad_inv, squares};
use crate::qgemv::{pack_of, q_terms, q_value};
use crate::quant::Quantized;
use crate::rms_norm_qgemv::{affine_terms, affine_value};
use crate::sampling::total_of;
use crate::scalar::{minus, one, plus, times, zero, Element, Scalar};
use crate::ssm::{scanned, simd_total, ScanShape};

verus! {

/// A dense product is the sum over all columns, where the threads take whole groups of
/// them.
pub proof fn law_gemv_is_the_product<S: Scalar, T: Element<S>>(
    mat: Seq<T>,
    vec: Seq<T>,
    k: int,
    per: int,
    width: int,
    r: int,
)
    requires
        sums_freely::<S>(),
        0 <= k,
        0 < per,
        0 < width,
        k % per == 0,
    ensures
        dense_value::<S, T>(mat, vec, k, per, width, r) == T::narrowed(
            accumulate(zero(), dense_terms::<S, T>(mat, vec, k, r), k),
        ),
{
    lemma_whole(k, per);
    law_group_sum_is_the_sum(dense_terms::<S, T>(mat, vec, k, r), per, width, k / per);
}

/// All ways to launch a dense product agree.
pub proof fn law_gemv_launches_agree<S: Scalar, T: Element<S>>(
    mat: Seq<T>,
    vec: Seq<T>,
    k: int,
    per_a: int,
    width_a: int,
    per_b: int,
    width_b: int,
    r: int,
)
    requires
        sums_freely::<S>(),
        0 <= k,
        0 < per_a,
        0 < width_a,
        k % per_a == 0,
        0 < per_b,
        0 < width_b,
        k % per_b == 0,
    ensures
        dense_value::<S, T>(mat, vec, k, per_a, width_a, r) == dense_value::<S, T>(
            mat,
            vec,
            k,
            per_b,
            width_b,
            r,
        ),
{
    law_gemv_is_the_product::<S, T>(mat, vec, k, per_a, width_a, r);
    law_gemv_is_the_product::<S, T>(mat, vec, k, per_b, width_b, r);
}

proof fn lemma_whole(k: int, per: int)
    requires
        0 <= k,
        0 < per,
        k % per == 0,
    ensures
        (k / per) * per == k,
        0 <= k / per,
{
    vstd::arithmetic::div_mod::lemma_fundamental_div_mod(k, per);
    vstd::arithmetic::div_mod::lemma_div_pos_is_pos(k, per);
    assert((k / per) * per == per * (k / per)) by (nonlinear_arith);
}

/// A product with block-scaled weights is the sum over all columns.
pub proof fn law_block_product_is_the_product<S: Scalar, T: Element<S>>(
    q: Quantized<S>,
    act: Seq<S>,
    width: int,
    r: int,
)
    requires
        sums_freely::<S>(),
        0 < width,
        q.cols as int % pack_of(q.codes) == 0,
    ensures
        q_value::<S, T>(q, act, width, r) == T::narrowed(
            accumulate(zero(), q_terms(q, act, r), q.cols as int),
        ),
{
    lemma_whole(q.cols as int, pack_of(q.codes));
    law_group_sum_is_the_sum(
        q_terms(q, act, r),
        pack_of(q.codes),
        width,
        q.cols as int / pack_of(q.codes),
    );
}

/// A product with affine weights is the sum over all columns.
pub proof fn law_affine_product_is_the_product<S: Scalar, T: Element<S>>(
    weight: Seq<u32>,
    scales: Seq<T>,
    biases: Seq<T>,
    act: Seq<S>,
    in_dim: int,
    group: int,
    width: int,
    r: int,
)
    requires
        sums_freely::<S>(),
        0 <= in_dim,
        in_dim % 8 == 0,
        0 < width,
    ensures
        affine_value::<S, T>(weight, scales, biases, act, in_dim, group, width, r) == T::narrowed(
            accumulate(
                zero(),
                affine_terms::<S, T>(weight, scales, biases, act, in_dim, group, r),
                in_dim,
            ),
        ),
{
    lemma_whole(in_dim, 8);
    law_group_sum_is_the_sum(
        affine_terms::<S, T>(weight, scales, biases, act, in_dim, group, r),
        8,
        width,
        in_dim / 8,
    );
}

/// The norm of a vector does not depend on the group that computes it.
pub proof fn law_group_norm_is_the_norm<S: Scalar, T: Element<S>>(
    x: Seq<T>,
    n: u32,
    eps: S,
    width: int,
)
    requires
        sums_freely::<S>(),
        0 < width,
    ensures
        group_inv::<S, T>(x, n, eps, width) == inv_of(
            accumulate(zero(), squares::<S, T>(x, 0), n as int),
            n,
            eps,
        ),
{
    law_group_sum_is_the_sum(squares::<S, T>(x, 0), 1, width, n as int);
}

/// The vector `x * w * rsqrt(mean(x^2) + eps)`, the mean taken over all elements from the
/// left.
pub open spec fn plain_normed<S: Scalar, T: Element<S>>(
    x: Seq<T>,
    w: Seq<T>,
    n: u32,
    eps: S,
) -> Seq<S> {
    let inv = inv_of(accumulate(zero(), squares::<S, T>(x, 0), n as int), n, eps);
    Seq::new(n as nat, |i: int| times(times(x[i].widened(), w[i].widened()), inv))
}

/// What a group of threads normalizes is the normalized vector.
pub proof fn law_group_normed_is_the_normed<S: Scalar, T: Element<S>>(
    x: Seq<T>,
    w: Seq<T>,
    n: u32,
    eps: S,
    width: int,
)
    requires
        sums_freely::<S>(),
        0 < width,
    ensures
        group_normed::<S, T>(x, w, n, eps, width) == plain_normed::<S, T>(x, w, n, eps),
{
    law_group_norm_is_the_norm::<S, T>(x, n, eps, width);
    assert(group_normed::<S, T>(x, w, n, eps, width) =~= plain_normed::<S, T>(x, w, n, eps));
}

/// Four elements to each thread are all elements, where the threads are as many as they
/// should be.
pub proof fn law_quad_norm_is_the_norm<S: Scalar, T: Element<S>>(
    x: Seq<T>,
    start: int,
    n: u32,
    eps: S,
    tpg: int,
)
    requires
        sums_freely::<S>(),
        0 < tpg,
        n == 4 * tpg,
    ensures
        quad_inv::<S, T>(x, start, n, eps, tpg) == inv_of(
            accumulate(zero(), squares::<S, T>(x, start), n as int),
            n,
            eps,
        ),
{
    let sq = squares::<S, T>(x, start);
    let part = |t: int| quad::<S, T>(x, start, n as int, t);
    let parts = Seq::new(tpg as nat, part);
    lemma_lane_sum(parts);
    lemma_accumulate_same(zero(), |i: int| parts[i], part, tpg);
    lemma_quads::<S, T>(x, start, n as int, tpg);
}

/// Quads in a row are the squares in a row.
pub proof fn lemma_quads<S: Scalar, T: Element<S>>(x: Seq<T>, start: int, n: int, t: int)
    requires
        sums_freely::<S>(),
        0 <= t,
        4 * t <= n,
    ensures
        accumulate(zero(), |t: int| quad::<S, T>(x, start, n, t), t) == accumulate(
            zero(),
            squares::<S, T>(x, start),
            4 * t,
        ),
    decreases t,
{
    let part = |t: int| quad::<S, T>(x, start, n, t);
    let sq = squares::<S, T>(x, start);
    if t > 0 {
        lemma_quads::<S, T>(x, start, n, t - 1);
        let a = 4 * (t - 1);
        let before = accumulate(zero(), sq, a);
        let one = accumulate(zero(), sq, a + 1);
        let two = accumulate(zero(), sq, a + 2);
        let three = accumulate(zero(), sq, a + 3);
        assert(one == plus(before, sq(a)));
        assert(two == plus(one, sq(a + 1)));
        assert(three == plus(two, sq(a + 2)));
        assert(accumulate(zero(), sq, 4 * t) == plus(three, sq(a + 3)));
        lemma_add_assoc(before, sq(a), sq(a + 1));
        lemma_add_assoc(before, plus(sq(a), sq(a + 1)), sq(a + 2));
        lemma_add_assoc(before, plus(plus(sq(a), sq(a + 1)), sq(a + 2)), sq(a + 3));
    }
}

/// The sum of the weights that a token is drawn by.
pub proof fn law_sampling_total_is_the_sum<S: Scalar>(weight: spec_fn(int) -> S, n: int)
    requires
        sums_freely::<S>(),
        0 <= n,
    ensures
        total_of(weight, n) == accumulate(zero(), weight, n),
{
    let f = |t: int| strided(weight, 1, t, 256, n, rounds(n, 256));
    let parts = Seq::new(256, f);
    reveal_with_fuel(halves_evenly, 9);
    assert(halves_evenly(256));
    law_tree_sum_is_the_sum(parts);
    lemma_lane_sum(parts);
    law_group_sum_is_the_sum(weight, 1, 256, n);
}

/// How far the delta rule moves a row: from what the decayed row holds at the key towards
/// the value.
pub proof fn law_delta_is_the_rule<S: Scalar>(state: Seq<S>, tok: TokenView<S>)
    requires
        sums_freely::<S>(),
        state.len() % 32 == 0,
    ensures
        delta_of(state, tok) == times(
            minus(
                tok.v,
                accumulate(
                    zero(),
                    |i: int| times(times(state[i], tok.g), tok.k[i]),
                    state.len() as int,
                ),
            ),
            tok.beta,
        ),
        read_of(state, tok) == accumulate(
            zero(),
            |i: int| times(stepped(state, tok)[i], tok.q[i]),
            state.len() as int,
        ),
{
    let decayed_row = decayed(state, tok.g);
    law_simd_dot_is_the_dot_product(decayed_row, tok.k);
    lemma_accumulate_same(
        zero(),
        |i: int| times(decayed_row[i], tok.k[i]),
        |i: int| times(times(state[i], tok.g), tok.k[i]),
        state.len() as int,
    );
    law_simd_dot_is_the_dot_product(stepped(state, tok), tok.q);
}

/// A token that neither decays nor writes leaves the row as it is.
pub proof fn law_delta_without_gate_is_identity<S: Scalar>(state: Seq<S>, tok: TokenView<S>)
    requires
        ring::<S>(),
        tok.g == one::<S>(),
        tok.beta == zero::<S>(),
    ensures
        stepped(state, tok) =~= state,
{
    lemma_ring_sums::<S>();
    lemma_mul_zero(minus(tok.v, simd_dot(decayed(state, tok.g), tok.k)));
    assert forall|i: int| 0 <= i < state.len() implies stepped(state, tok)[i] == state[i] by {
        lemma_mul_one(state[i]);
        lemma_mul_zero(tok.k[i]);
        lemma_add_zero(state[i]);
    }
}

/// A row that already holds the value at the key only decays.
pub proof fn law_known_value_only_decays<S: Scalar>(state: Seq<S>, tok: TokenView<S>)
    requires
        ring::<S>(),
        tok.v == simd_dot(decayed(state, tok.g), tok.k),
    ensures
        stepped(state, tok) =~= decayed(state, tok.g),
{
    lemma_ring_sums::<S>();
    lemma_sub_self(tok.v);
    lemma_mul_zero(tok.beta);
    assert forall|i: int| 0 <= i < state.len() implies stepped(state, tok)[i] == decayed(
        state,
        tok.g,
    )[i] by {
        lemma_mul_zero(tok.k[i]);
        lemma_add_zero(decayed(state, tok.g)[i]);
    }
}

/// A row may be taken through its tokens in two parts.
pub proof fn law_tokens_split<S: Scalar>(
    state: Seq<S>,
    tokens: spec_fn(int) -> TokenView<S>,
    first: int,
    rest: int,
)
    requires
        0 <= first,
        0 <= rest,
    ensures
        row_after(state, tokens, first + rest) == row_after(
            row_after(state, tokens, first),
            |t: int| tokens(first + t),
            rest,
        ),
    decreases rest,
{
    if rest > 0 {
        law_tokens_split(state, tokens, first, rest - 1);
    }
}

/// The sum over the state by a simdgroup is the sum over all of its entries.
pub proof fn law_scan_total_is_the_sum<S: Scalar>(term: spec_fn(int) -> S, per: int)
    requires
        sums_freely::<S>(),
        0 <= per,
    ensures
        simd_total(term, per) == accumulate(zero(), term, 32 * per),
{
    law_group_sum_is_the_sum(term, per, 32, 32);
    let f = |l: int| accumulate(zero(), pack_terms(term, per, l), per);
    let g = |l: int| strided(term, per, l, 32, 32, rounds(32, 32));
    assert(rounds(32, 32) == 1);
    assert forall|l: int| 0 <= l < 32 implies #[trigger] f(l) == g(l) by {
        reveal_with_fuel(strided, 2);
    }
    assert(Seq::new(32, f) =~= Seq::new(32, g));
}

/// Without an input the state only decays.
pub proof fn law_scan_without_input_only_decays<S: Scalar, T: Element<S>>(
    x: Seq<T>,
    b: Seq<T>,
    dt: Seq<T>,
    state: Seq<S>,
    decay: spec_fn(int, int, int) -> S,
    sh: ScanShape,
    h: int,
    n: int,
    d: int,
)
    requires
        ring::<S>(),
        x[h * sh.head_dim + d].widened() == zero::<S>(),
    ensures
        scanned(x, b, dt, state, decay, sh, h, n, d) == times(
            decay(h, n, d),
            state[sh.at(h, n, d)],
        ),
{
    lemma_ring_sums::<S>();
    lemma_mul_zero(times(dt[h].widened(), b[n].widened()));
    lemma_add_zero(times(decay(h, n, d), state[sh.at(h, n, d)]));
}

} // verus!
