//! What the attention kernels compute when arithmetic is exact: the average of the values
//! under the softmax of the scores.
use vstd::prelude::*;

use crate::algebra::{
    exponential, law_group_sum_is_the_sum, lemma_add_zero, lemma_lane_sum, lemma_mul_assoc,
    lemma_mul_one, lemma_mul_zero, lemma_ring_sums, lemma_sum_scaled, ring, sums_freely,
};
use crate::attention::{
    key_values, key_weights, law_running_softmax_holds_the_sums,
    law_running_softmax_is_the_average, soft_run, soft_start, SoftView,
};
use crate::flash_block_scaled_sdpa::{
    flash_after, score_of, score_terms, value_of, FlashShape,
};
use crate::lanes::{
    accumulate, lane_max, lane_sum, lemma_accumulate_same, lemma_rounds, pack_terms,
    rounds, strided,
};
use crate::quant::Quantized;
use crate::scalar::{above, minus, one, over, plus, times, zero, Element, Fun, Scalar};
use crate::sdpa_decode_d64::{
    cache_row, decode_after, decode_part, decode_score, joined, lane_score, maxima, part_weight,
    rescaled_sums, scaled_query, DecodeShape,
};

verus! {

/// The score of a token is the dot product of its key with the scaled query.
pub proof fn law_flash_score_is_the_dot_product<S: Scalar, T: Element<S>>(
    queries: Seq<T>,
    k: Quantized<S>,
    scale: S,
    sh: FlashShape,
    q: int,
    t: int,
)
    requires
        sums_freely::<S>(),
    ensures
        score_of(queries, k, scale, sh, q, t) == accumulate(
            zero(),
            score_terms(queries, k, scale, sh, q, t),
            sh.dim as int,
        ),
{
    law_group_sum_is_the_sum(
        score_terms(queries, k, scale, sh, q, t),
        1,
        32,
        sh.dim as int,
    );
}

/// The scores of query `q`.
pub open spec fn flash_scores<S: Scalar, T: Element<S>>(
    queries: Seq<T>,
    k: Quantized<S>,
    scale: S,
    sh: FlashShape,
    q: int,
) -> spec_fn(int) -> S {
    |t: int| score_of(queries, k, scale, sh, q, t)
}

/// The values that query `q` averages.
pub open spec fn flash_values<S: Scalar>(
    v: Quantized<S>,
    sh: FlashShape,
    q: int,
) -> spec_fn(int) -> Seq<S> {
    |t: int| value_of(v, sh, q, t)
}

pub open spec fn flash_used(sh: FlashShape) -> spec_fn(int) -> bool {
    |t: int| sh.uses(t)
}

/// What query `q` starts with.
pub open spec fn flash_start<S: Scalar>(sinks: Seq<S>, sh: FlashShape, q: int) -> SoftView<S> {
    if sh.has_sinks {
        soft_start(sinks[q % sh.num_q_heads as int], one(), sh.dim as int)
    } else {
        soft_start(S::lowest(), zero(), sh.dim as int)
    }
}

/// Attention as the keys go by.
pub proof fn lemma_flash_run<S: Scalar, T: Element<S>>(
    queries: Seq<T>,
    k: Quantized<S>,
    v: Quantized<S>,
    sinks: Seq<S>,
    scale: S,
    sh: FlashShape,
    q: int,
    t: int,
)
    ensures
        flash_after(queries, k, v, sinks, scale, sh, q, t) == soft_run(
            flash_start(sinks, sh, q),
            flash_scores(queries, k, scale, sh, q),
            flash_values(v, sh, q),
            flash_used(sh),
            |m: S, s: S| S::chosen(above(m, s), m, s),
            t,
        ),
    decreases t,
{
    if t > 0 {
        lemma_flash_run(queries, k, v, sinks, scale, sh, q, t - 1);
    }
}

/// The sum of the weights of query `q` relative to `at`: of every token in the window, and
/// of the sink where there is one.
pub open spec fn flash_mass<S: Scalar, T: Element<S>>(
    queries: Seq<T>,
    k: Quantized<S>,
    sinks: Seq<S>,
    scale: S,
    sh: FlashShape,
    q: int,
    at: S,
) -> S {
    let keys = accumulate(
        zero(),
        key_weights(flash_scores(queries, k, scale, sh, q), flash_used(sh), at),
        sh.tokens as int,
    );
    if sh.has_sinks {
        plus(S::applied(Fun::Exp, minus(sinks[q % sh.num_q_heads as int], at)), keys)
    } else {
        keys
    }
}

/// A query gets the average of the values in its window, each weighted by the exponential
/// of its score; a sink takes its share of the weight and adds no value. The point of
/// reference of the exponentials does not matter.
pub proof fn law_flash_is_attention<S: Scalar, T: Element<S>>(
    queries: Seq<T>,
    k: Quantized<S>,
    v: Quantized<S>,
    sinks: Seq<S>,
    scale: S,
    sh: FlashShape,
    q: int,
    d: int,
    at: S,
)
    requires
        ring::<S>(),
        exponential::<S>(),
        0 <= d < sh.dim,
    ensures
        ({
            let st = flash_after(queries, k, v, sinks, scale, sh, q, sh.tokens as int);
            over(st.o[d], st.l) == over(
                accumulate(
                    zero(),
                    key_values(
                        flash_scores(queries, k, scale, sh, q),
                        flash_values(v, sh, q),
                        flash_used(sh),
                        at,
                        d,
                    ),
                    sh.tokens as int,
                ),
                flash_mass(queries, k, sinks, scale, sh, q, at),
            )
        }),
{
    lemma_ring_sums::<S>();
    let start = flash_start(sinks, sh, q);
    let scores = flash_scores(queries, k, scale, sh, q);
    let used = flash_used(sh);
    lemma_flash_run(queries, k, v, sinks, scale, sh, q, sh.tokens as int);
    law_running_softmax_is_the_average(
        start,
        scores,
        flash_values(v, sh, q),
        used,
        |m: S, s: S| S::chosen(above(m, s), m, s),
        at,
        d,
        sh.tokens as int,
    );
    let e = S::applied(Fun::Exp, minus(start.m, at));
    lemma_mul_one(e);
    lemma_mul_zero(e);
    lemma_add_zero(accumulate(zero(), key_weights(scores, used, at), sh.tokens as int));
}

/// What dimension `d` adds to the score of token `t`.
pub open spec fn decode_score_terms<S: Scalar, T: Element<S>>(
    q: Seq<T>,
    k: Seq<T>,
    scale: S,
    sh: DecodeShape,
    h: int,
    t: int,
) -> spec_fn(int) -> S {
    |d: int| times(scaled_query(q, scale, h, d), k[sh.kv_at(h, t, d)].widened())
}

/// The score of a token is the dot product of its key with the scaled query.
pub proof fn law_decode_score_is_the_dot_product<S: Scalar, T: Element<S>>(
    q: Seq<T>,
    k: Seq<T>,
    scale: S,
    sh: DecodeShape,
    h: int,
    t: int,
)
    requires
        sums_freely::<S>(),
    ensures
        decode_score(q, k, scale, sh, h, t) == accumulate(
            zero(),
            decode_score_terms(q, k, scale, sh, h, t),
            64,
        ),
{
    let term = decode_score_terms(q, k, scale, sh, h, t);
    law_group_sum_is_the_sum(term, 2, 32, 32);
    let f = |l: int| lane_score(q, k, scale, sh, h, t, l);
    let g = |l: int| strided(term, 2, l, 32, 32, rounds(32, 32));
    assert(rounds(32, 32) == 1);
    assert forall|l: int| 0 <= l < 32 implies #[trigger] f(l) == g(l) by {
        reveal_with_fuel(strided, 2);
        let pack = pack_terms(term, 2, l);
        assert(accumulate(zero(), pack, 0) == zero::<S>());
        assert(accumulate(zero(), pack, 1) == plus(zero(), pack(0)));
        assert(accumulate(zero(), pack, 2) == plus(accumulate(zero(), pack, 1), pack(1)));
        lemma_add_zero(pack(0));
    }
    assert(Seq::new(32, f) =~= Seq::new(32, g));
}

/// Division is multiplication by the inverse.
#[verifier::opaque]
pub open spec fn divides<S: Scalar>() -> bool {
    forall|a: S, b: S| #[trigger] over(a, b) == times(a, over(one(), b))
}

proof fn lemma_divide<S: Scalar>(a: S, b: S)
    requires
        divides::<S>(),
    ensures
        over(a, b) == times(a, over(one(), b)),
{
    reveal(divides);
}

/// The scores of query head `h`.
pub open spec fn decode_scores<S: Scalar, T: Element<S>>(
    q: Seq<T>,
    k: Seq<T>,
    scale: S,
    sh: DecodeShape,
    h: int,
) -> spec_fn(int) -> S {
    |t: int| decode_score(q, k, scale, sh, h, t)
}

/// The values that query head `h` averages.
pub open spec fn decode_values<S: Scalar, T: Element<S>>(
    v: Seq<T>,
    sh: DecodeShape,
    h: int,
) -> spec_fn(int) -> Seq<S> {
    |t: int| cache_row(v, sh, h, t)
}

/// The weight of token `t` relative to `at`.
pub open spec fn token_weights<S: Scalar>(score: spec_fn(int) -> S, at: S) -> spec_fn(int) -> S {
    |t: int| S::applied(Fun::Exp, minus(score(t), at))
}

/// The weighted value of token `t` in dimension `d`.
pub open spec fn token_values<S: Scalar>(
    score: spec_fn(int) -> S,
    value: spec_fn(int) -> Seq<S>,
    at: S,
    d: int,
) -> spec_fn(int) -> S {
    |t: int| times(token_weights(score, at)(t), value(t)[d])
}

/// The tokens of simdgroup `sg`, by its rounds.
spec fn of_group<A>(f: spec_fn(int) -> A, sg: int) -> spec_fn(int) -> A {
    |c: int| f(c * 32 + sg)
}

spec fn group_used(n: int, sg: int) -> spec_fn(int) -> bool {
    |c: int| c * 32 + sg < n
}

proof fn lemma_decode_run<S: Scalar, T: Element<S>>(
    q: Seq<T>,
    k: Seq<T>,
    v: Seq<T>,
    scale: S,
    sh: DecodeShape,
    h: int,
    sg: int,
    count: int,
)
    ensures
        decode_after(q, k, v, scale, sh, h, sg, count) == soft_run(
            soft_start(S::lowest(), zero(), 64),
            of_group(decode_scores(q, k, scale, sh, h), sg),
            of_group(decode_values::<S, T>(v, sh, h), sg),
            group_used(sh.n_kv as int, sg),
            |m: S, s: S| S::chosen(above(s, m), s, m),
            count,
        ),
    decreases count,
{
    if count > 0 {
        lemma_decode_run(q, k, v, scale, sh, h, sg, count - 1);
    }
}

/// The weights that a simdgroup adds up are those of its stride.
proof fn lemma_group_weights<S: Scalar>(
    score: spec_fn(int) -> S,
    value: spec_fn(int) -> Seq<S>,
    at: S,
    d: int,
    n: int,
    sg: int,
    count: int,
)
    requires
        ring::<S>(),
    ensures
        accumulate(
            zero(),
            key_weights(of_group(score, sg), group_used(n, sg), at),
            count,
        ) == strided(token_weights(score, at), 1, sg, 32, n, count),
        accumulate(
            zero(),
            key_values(of_group(score, sg), of_group(value, sg), group_used(n, sg), at, d),
            count,
        ) == strided(token_values(score, value, at, d), 1, sg, 32, n, count),
    decreases count,
{
    lemma_ring_sums::<S>();
    let weights = key_weights(of_group(score, sg), group_used(n, sg), at);
    let values = key_values(of_group(score, sg), of_group(value, sg), group_used(n, sg), at, d);
    if count > 0 {
        lemma_group_weights(score, value, at, d, n, sg, count - 1);
        let t = (count - 1) * 32 + sg;
        let w_before = accumulate(zero(), weights, count - 1);
        let v_before = accumulate(zero(), values, count - 1);
        if t < n {
            let w = pack_terms(token_weights(score, at), 1, t);
            let u = pack_terms(token_values(score, value, at, d), 1, t);
            assert(accumulate(w_before, w, 0) == w_before);
            assert(accumulate(w_before, w, 1) == plus(w_before, w(0)));
            assert(accumulate(v_before, u, 0) == v_before);
            assert(accumulate(v_before, u, 1) == plus(v_before, u(0)));
        } else {
            lemma_add_zero(w_before);
            lemma_mul_zero(of_group(value, sg)(count - 1)[d]);
            lemma_add_zero(v_before);
        }
    }
}

/// The sums of the simdgroups, brought to one maximum, add up to the weights of all tokens.
pub proof fn lemma_decode_mass<S: Scalar, T: Element<S>>(
    q: Seq<T>,
    k: Seq<T>,
    v: Seq<T>,
    scale: S,
    sh: DecodeShape,
    h: int,
)
    requires
        ring::<S>(),
        exponential::<S>(),
    ensures
        ({
            let parts = Seq::new(32, |sg: int| decode_part(q, k, v, scale, sh, h, sg));
            lane_sum(rescaled_sums(parts)) == accumulate(
                zero(),
                token_weights(decode_scores(q, k, scale, sh, h), lane_max(maxima(parts))),
                sh.n_kv as int,
            )
        }),
{
    lemma_ring_sums::<S>();
    let parts = Seq::new(32, |sg: int| decode_part(q, k, v, scale, sh, h, sg));
    let top = lane_max(maxima(parts));
    let score = decode_scores(q, k, scale, sh, h);
    let value = decode_values::<S, T>(v, sh, h);
    let n = sh.n_kv as int;
    let count = rounds(n, 32);
    lemma_rounds(n, 32);
    let start = soft_start(S::lowest(), zero(), 64);
    let pick = |m: S, s: S| S::chosen(above(s, m), s, m);
    let weights = token_weights(score, top);
    let w_of = |g: int| strided(weights, 1, g, 32, n, count);
    assert forall|g: int| 0 <= g < 32 implies rescaled_sums(parts)[g] == #[trigger] w_of(g) by {
        lemma_decode_run(q, k, v, scale, sh, h, g, count);
        law_running_softmax_holds_the_sums(
            start,
            of_group(score, g),
            of_group(value, g),
            group_used(n, g),
            pick,
            top,
            0,
            count,
        );
        lemma_group_weights(score, value, top, 0, n, g, count);
        let e0 = S::applied(Fun::Exp, minus(start.m, top));
        lemma_mul_zero(e0);
        lemma_add_zero(w_of(g));
    }
    assert(rescaled_sums(parts) =~= Seq::new(32, w_of));
    law_group_sum_is_the_sum(weights, 1, 32, n);
}

/// A query head gets the average of the values of all tokens, each weighted by the
/// exponential of its score, however the tokens are shared among the simdgroups.
pub proof fn law_decode_is_attention<S: Scalar, T: Element<S>>(
    q: Seq<T>,
    k: Seq<T>,
    v: Seq<T>,
    scale: S,
    sh: DecodeShape,
    h: int,
    d: int,
)
    requires
        ring::<S>(),
        exponential::<S>(),
        divides::<S>(),
        0 <= d < 64,
        ({
            let parts = Seq::new(32, |sg: int| decode_part(q, k, v, scale, sh, h, sg));
            forall|a: S, b: S|
                #[trigger] S::chosen(above(lane_sum(rescaled_sums(parts)), zero()), a, b) == a
        }),
    ensures
        ({
            let parts = Seq::new(32, |sg: int| decode_part(q, k, v, scale, sh, h, sg));
            let top = lane_max(maxima(parts));
            let score = decode_scores(q, k, scale, sh, h);
            joined(parts, d) == over(
                accumulate(
                    zero(),
                    token_values(score, decode_values::<S, T>(v, sh, h), top, d),
                    sh.n_kv as int,
                ),
                accumulate(zero(), token_weights(score, top), sh.n_kv as int),
            )
        }),
{
    lemma_ring_sums::<S>();
    let parts = Seq::new(32, |sg: int| decode_part(q, k, v, scale, sh, h, sg));
    let top = lane_max(maxima(parts));
    let score = decode_scores(q, k, scale, sh, h);
    let value = decode_values::<S, T>(v, sh, h);
    let n = sh.n_kv as int;
    let count = rounds(n, 32);
    lemma_rounds(n, 32);
    let start = soft_start(S::lowest(), zero(), 64);
    let pick = |m: S, s: S| S::chosen(above(s, m), s, m);
    let weights = token_weights(score, top);
    let values = token_values(score, value, top, d);
    let sum = lane_sum(rescaled_sums(parts));
    let inv = over(one(), sum);
    let w_of = |g: int| strided(weights, 1, g, 32, n, count);
    let v_of = |g: int| strided(values, 1, g, 32, n, count);
    let term = |g: int| times(parts[g].o[d], part_weight(parts, g));
    assert forall|g: int| 0 <= g < 32 implies rescaled_sums(parts)[g] == #[trigger] w_of(g)
        && term(g) == times(v_of(g), inv) by {
        lemma_decode_run(q, k, v, scale, sh, h, g, count);
        law_running_softmax_holds_the_sums(
            start,
            of_group(score, g),
            of_group(value, g),
            group_used(n, g),
            pick,
            top,
            d,
            count,
        );
        lemma_group_weights(score, value, top, d, n, g, count);
        let e0 = S::applied(Fun::Exp, minus(start.m, top));
        lemma_mul_zero(e0);
        lemma_add_zero(w_of(g));
        let e = S::applied(Fun::Exp, minus(parts[g].m, top));
        assert(times(parts[g].l, e) == w_of(g));
        assert(times(parts[g].o[d], e) == v_of(g));
        assert(part_weight(parts, g) == over(e, sum));
        lemma_divide(e, sum);
        lemma_mul_assoc(parts[g].o[d], e, inv);
    }
    assert(rescaled_sums(parts) =~= Seq::new(32, w_of));
    law_group_sum_is_the_sum(weights, 1, 32, n);
    assert(sum == accumulate(zero(), weights, n));
    let scaled = |g: int| times(v_of(g), inv);
    assert forall|g: int| 0 <= g < 32 implies #[trigger] term(g) == scaled(g) by {
        assert(rescaled_sums(parts)[g] == w_of(g));
    }
    lemma_accumulate_same(zero(), term, scaled, 32);
    lemma_sum_scaled(v_of, inv, 32);
    let v_parts = Seq::new(32, v_of);
    lemma_lane_sum(v_parts);
    lemma_accumulate_same(zero(), |i: int| v_parts[i], v_of, 32);
    law_group_sum_is_the_sum(values, 1, 32, n);
    lemma_divide(accumulate(zero(), values, n), sum);
}

} // verus!
