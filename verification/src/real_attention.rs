//! What attention over a quantized cache is for: each query averages the values of its own
//! head, and sees nothing else.
use vstd::prelude::*;

use crate::algebra::{
    exponential, lemma_add_zero, lemma_exp_cancel, lemma_exp_shift, lemma_mul_assoc,
    lemma_mul_comm, lemma_mul_one, lemma_mul_zero, lemma_ring_sums, lemma_sum_scaled, lemma_sum_tail,
    ring,
};
use crate::attention::{key_values, key_weights, law_running_softmax_holds_the_sums};
use crate::exact_attention::{
    decode_score_terms, decode_scores, decode_values, divides, flash_mass, flash_scores,
    flash_start, flash_used, flash_values, law_decode_is_attention,
    law_decode_score_is_the_dot_product, law_flash_is_attention, law_flash_score_is_the_dot_product,
    lemma_decode_mass, lemma_flash_run, token_values, token_weights,
};
use crate::flash_block_scaled_sdpa::{
    flash_after, flash_shape, flash_value, kv_weight, score_terms, value_of, FlashShape,
};
use crate::lanes::{
    accumulate, lane_max, lane_sum, lemma_accumulate_same, lemma_group_sum_same, rounds,
};
use crate::layout::{lemma_row_major_inverse, lemma_run_at, same_run};
use crate::qgemv::lemma_block;
use crate::quant::{Codes, Quantized, Scales};
use crate::real_model::{
    lemma_val_constants, lemma_val_exp, lemma_val_over, lemma_val_plus, lemma_val_select,
    models_reals,
};
use crate::scalar::{above, minus, over, plus, times, zero, Element, Fun, Scalar};
use crate::sdpa_decode_d64::{
    cache_row, decode_after, decode_part, decode_shape, decode_value, lane_score, maxima,
    part_weight, rescaled_sums, DecodeShape,
};

verus! {

/// The buffers of `a` hold from row `at` on what those of `b` hold from row `bt` on, for
/// `rows` rows of `dim` weights in blocks of `block`.
pub open spec fn same_rows<S: Scalar>(
    a: Quantized<S>,
    at: int,
    b: Quantized<S>,
    bt: int,
    rows: int,
    dim: int,
    block: int,
) -> bool {
    &&& a.cols == dim
    &&& b.cols == dim
    &&& a.block == block
    &&& b.block == block
    &&& match (a.codes, b.codes) {
        (Codes::Nibbles(x), Codes::Nibbles(y)) => dim % 8 == 0 && same_run(
            x@,
            at * (dim / 8),
            y@,
            bt * (dim / 8),
            rows * (dim / 8),
        ),
        (Codes::Bytes(code, x), Codes::Bytes(other, y)) => code == other && same_run(
            x@,
            at * dim,
            y@,
            bt * dim,
            rows * dim,
        ),
        _ => false,
    }
    &&& match (a.scales, b.scales) {
        (Scales::Pow2(x), Scales::Pow2(y)) => same_run(
            x@,
            at * (dim / block),
            y@,
            bt * (dim / block),
            rows * (dim / block),
        ),
        (Scales::Micro(x, global), Scales::Micro(y, other)) => *global == *other && same_run(
            x@,
            at * (dim / block),
            y@,
            bt * (dim / block),
            rows * (dim / block),
        ),
        (Scales::Direct(x), Scales::Direct(y)) => same_run(
            x@,
            at * (dim / block),
            y@,
            bt * (dim / block),
            rows * (dim / block),
        ),
        _ => false,
    }
}

proof fn lemma_same_weight<S: Scalar>(
    a: Quantized<S>,
    at: int,
    b: Quantized<S>,
    bt: int,
    rows: int,
    dim: int,
    block: int,
    t: int,
    d: int,
)
    requires
        same_rows(a, at, b, bt, rows, dim, block),
        0 < block,
        dim % block == 0,
        0 <= t < rows,
        0 <= d < dim,
    ensures
        kv_weight(a, at + t, d) == kv_weight(b, bt + t, d),
{
    lemma_block(d, dim, block);
    match (a.codes, b.codes) {
        (Codes::Nibbles(x), Codes::Nibbles(y)) => {
            lemma_block(d, dim, 8);
            lemma_run_at(x@, at, y@, bt, rows, dim / 8, t, d / 8);
        },
        (Codes::Bytes(code, x), Codes::Bytes(other, y)) => {
            lemma_run_at(x@, at, y@, bt, rows, dim, t, d);
        },
        _ => {},
    }
    match (a.scales, b.scales) {
        (Scales::Pow2(x), Scales::Pow2(y)) => {
            lemma_run_at(x@, at, y@, bt, rows, dim / block, t, d / block);
        },
        (Scales::Micro(x, global), Scales::Micro(y, other)) => {
            lemma_run_at(x@, at, y@, bt, rows, dim / block, t, d / block);
        },
        (Scales::Direct(x), Scales::Direct(y)) => {
            lemma_run_at(x@, at, y@, bt, rows, dim / block, t, d / block);
        },
        _ => {},
    }
}

proof fn lemma_same_softmax<S: Scalar, T: Element<S>>(
    a_queries: Seq<T>,
    a_k: Quantized<S>,
    a_v: Quantized<S>,
    a_sinks: Seq<S>,
    a: FlashShape,
    p: int,
    b_queries: Seq<T>,
    b_k: Quantized<S>,
    b_v: Quantized<S>,
    b_sinks: Seq<S>,
    b: FlashShape,
    q: int,
    scale: S,
    block: int,
    t: int,
)
    requires
        0 < block,
        a.dim as int % block == 0,
        b.dim == a.dim,
        b.tokens == a.tokens,
        b.has_sinks == a.has_sinks,
        b.window_size == a.window_size,
        same_run(a_queries, p * a.dim, b_queries, q * a.dim, a.dim as int),
        a.has_sinks ==> a_sinks[p % a.num_q_heads as int] == b_sinks[q % b.num_q_heads as int],
        same_rows(
            a_k,
            p / a.repeat_count as int * a.tokens,
            b_k,
            q / b.repeat_count as int * a.tokens,
            a.tokens as int,
            a.dim as int,
            block,
        ),
        same_rows(
            a_v,
            p / a.repeat_count as int * a.tokens,
            b_v,
            q / b.repeat_count as int * a.tokens,
            a.tokens as int,
            a.dim as int,
            block,
        ),
        t <= a.tokens,
    ensures
        flash_after(a_queries, a_k, a_v, a_sinks, scale, a, p, t) == flash_after(
            b_queries,
            b_k,
            b_v,
            b_sinks,
            scale,
            b,
            q,
            t,
        ),
    decreases t,
{
    if t > 0 {
        lemma_same_softmax(
            a_queries,
            a_k,
            a_v,
            a_sinks,
            a,
            p,
            b_queries,
            b_k,
            b_v,
            b_sinks,
            b,
            q,
            scale,
            block,
            t - 1,
        );
        let (at, bt) = (
            p / a.repeat_count as int * a.tokens,
            q / b.repeat_count as int * a.tokens,
        );
        let (rows, dim) = (a.tokens as int, a.dim as int);
        let f = score_terms(a_queries, a_k, scale, a, p, t - 1);
        let g = score_terms(b_queries, b_k, scale, b, q, t - 1);
        assert forall|d: int| 0 <= d < dim implies #[trigger] f(d) == g(d) by {
            lemma_same_weight(a_k, at, b_k, bt, rows, dim, block, t - 1, d);
            assert(a_queries[p * a.dim + d] == b_queries[q * a.dim + d]);
        }
        lemma_group_sum_same(f, g, 1, 32, dim);
        assert(value_of(a_v, a, p, t - 1) =~= value_of(b_v, b, q, t - 1)) by {
            assert forall|d: int| 0 <= d < dim implies #[trigger] value_of(a_v, a, p, t - 1)[d]
                == value_of(b_v, b, q, t - 1)[d] by {
                lemma_same_weight(a_v, at, b_v, bt, rows, dim, block, t - 1, d);
            }
        }
    }
}

/// Each query is served as if it and its head were alone: query `p` of one launch and
/// query `q` of another get the same output where they hold the same numbers, where the
/// rows `p / repeat_count * tokens ..` of one cache are the rows `q / repeat_count *
/// tokens ..` of the other, and where sink `p % num_q_heads` is sink `q % num_q_heads`.
/// Whatever else the launches hold, and how many queries and heads they have, does not
/// matter.
pub proof fn law_query_sees_its_head_alone<S: Scalar, T: Element<S>>(
    a_queries: Seq<T>,
    a_k: Quantized<S>,
    a_v: Quantized<S>,
    a_sinks: Seq<S>,
    a_repeat: u32,
    a_heads: u32,
    a_n_queries: u32,
    a_n_kv: u32,
    p: int,
    b_queries: Seq<T>,
    b_k: Quantized<S>,
    b_v: Quantized<S>,
    b_sinks: Seq<S>,
    b_repeat: u32,
    b_heads: u32,
    b_n_queries: u32,
    b_n_kv: u32,
    q: int,
    scale: S,
    dim: u32,
    tokens: u32,
    block: u32,
    has_sinks: u32,
    window_size: u32,
    d: int,
)
    requires
        0 <= d < dim,
        0 < block,
        dim % block == 0,
        0 <= p,
        0 <= q,
        same_run(a_queries, p * dim, b_queries, q * dim, dim as int),
        has_sinks > 0 ==> a_sinks[p % a_heads as int] == b_sinks[q % b_heads as int],
        same_rows(
            a_k,
            p / a_repeat as int * tokens,
            b_k,
            q / b_repeat as int * tokens,
            tokens as int,
            dim as int,
            block as int,
        ),
        same_rows(
            a_v,
            p / a_repeat as int * tokens,
            b_v,
            q / b_repeat as int * tokens,
            tokens as int,
            dim as int,
            block as int,
        ),
    ensures
        flash_value::<S, T>(
            a_queries,
            a_k,
            a_v,
            a_sinks,
            scale,
            flash_shape(
                dim,
                tokens,
                a_repeat,
                a_heads,
                has_sinks,
                window_size,
                a_n_queries,
                a_n_kv,
            ),
            p * dim + d,
        ) == flash_value::<S, T>(
            b_queries,
            b_k,
            b_v,
            b_sinks,
            scale,
            flash_shape(
                dim,
                tokens,
                b_repeat,
                b_heads,
                has_sinks,
                window_size,
                b_n_queries,
                b_n_kv,
            ),
            q * dim + d,
        ),
{
    let a = flash_shape(
        dim,
        tokens,
        a_repeat,
        a_heads,
        has_sinks,
        window_size,
        a_n_queries,
        a_n_kv,
    );
    let b = flash_shape(
        dim,
        tokens,
        b_repeat,
        b_heads,
        has_sinks,
        window_size,
        b_n_queries,
        b_n_kv,
    );
    lemma_row_major_inverse(p, d, dim as int);
    lemma_row_major_inverse(q, d, dim as int);
    lemma_same_softmax(
        a_queries,
        a_k,
        a_v,
        a_sinks,
        a,
        p,
        b_queries,
        b_k,
        b_v,
        b_sinks,
        b,
        q,
        scale,
        block as int,
        tokens as int,
    );
}

/// The weights of the window, and of the sink, add up to something positive, so the
/// output is a quotient.
proof fn lemma_mass_is_positive<S: Scalar, T: Element<S>>(
    val: spec_fn(S) -> real,
    queries: Seq<T>,
    k: Quantized<S>,
    v: Quantized<S>,
    sinks: Seq<S>,
    scale: S,
    sh: FlashShape,
    q: int,
    d: int,
    at: S,
)
    requires
        models_reals(val),
        ring::<S>(),
        exponential::<S>(),
        0 <= d < sh.dim,
        0 < sh.tokens,
    ensures
        val(flash_after(queries, k, v, sinks, scale, sh, q, sh.tokens as int).l) > 0 as real,
        val(flash_mass(queries, k, sinks, scale, sh, q, at)) > 0 as real,
{
    lemma_ring_sums::<S>();
    let n = sh.tokens as int;
    let start = flash_start(sinks, sh, q);
    let scores = flash_scores(queries, k, scale, sh, q);
    let used = flash_used(sh);
    lemma_flash_run(queries, k, v, sinks, scale, sh, q, n);
    law_running_softmax_holds_the_sums(
        start,
        scores,
        flash_values(v, sh, q),
        used,
        |m: S, s: S| S::chosen(above(m, s), m, s),
        at,
        d,
        n,
    );
    let st = flash_after(queries, k, v, sinks, scale, sh, q, n);
    let e = S::applied(Fun::Exp, minus(st.m, at));
    let first = S::applied(Fun::Exp, minus(start.m, at));
    let weights = key_weights(scores, used, at);
    let sum = accumulate(zero(), weights, n);
    lemma_mul_one(first);
    lemma_mul_zero(first);
    lemma_add_zero(sum);
    lemma_weights_reach(val, scores, used, at, n);
    lemma_val_exp(val, minus(st.m, at), minus(st.m, at));
    lemma_val_exp(val, minus(start.m, at), minus(start.m, at));
    lemma_val_plus(val, times(start.l, first), sum);
    lemma_val_constants(val, 0);
    lemma_val_plus(val, st.l, e);
    assert(used(n - 1));
    let (x, y) = (val(st.l), val(e));
    assert(val(flash_mass(queries, k, sinks, scale, sh, q, at)) == x * y);
    assert(x > 0 as real) by (nonlinear_arith)
        requires
            x * y > 0 as real,
            y > 0 as real,
    ;
}

proof fn lemma_weights_reach<S: Scalar>(
    val: spec_fn(S) -> real,
    score: spec_fn(int) -> S,
    used: spec_fn(int) -> bool,
    at: S,
    n: int,
)
    requires
        models_reals(val),
    ensures
        val(accumulate(zero(), key_weights(score, used, at), n)) >= 0 as real,
        0 < n && used(n - 1) ==> val(accumulate(zero(), key_weights(score, used, at), n))
            > 0 as real,
    decreases n,
{
    lemma_val_constants(val, 0);
    if n > 0 {
        lemma_weights_reach(val, score, used, at, n - 1);
        let w = key_weights(score, used, at);
        lemma_val_exp(val, minus(score(n - 1), at), minus(score(n - 1), at));
        lemma_val_plus(val, accumulate(zero(), w, n - 1), w(n - 1));
    }
}

/// Output `q * dim + d` is the average of dimension `d` of the values in the rows
/// `q / repeat_count * tokens + t`, over the tokens `t` of the window, each weighted by
/// the exponential of its score: the dot product of the scaled query, the elements
/// `q * dim ..`, with the key in the same row. A weight of a row is its code times the
/// scale of its block. Sink `q % num_q_heads` takes its share of the weight.
pub proof fn law_query_averages_its_head<S: Scalar, T: Element<S>>(
    val: spec_fn(S) -> real,
    queries: Seq<T>,
    k: Quantized<S>,
    v: Quantized<S>,
    sinks: Seq<S>,
    scale: S,
    dim: u32,
    tokens: u32,
    repeat_count: u32,
    num_q_heads: u32,
    has_sinks: u32,
    window_size: u32,
    n_queries: u32,
    n_kv: u32,
    q: int,
    d: int,
    at: S,
)
    requires
        models_reals(val),
        ring::<S>(),
        exponential::<S>(),
        0 <= q,
        0 <= d < dim,
        0 < tokens,
        k.cols == dim,
        v.cols == dim,
    ensures
        ({
            let row = |t: int| q / repeat_count as int * tokens + t;
            let key = |t: int, c: int|
                times(
                    k.codes.element::<S>(dim as int, row(t), c),
                    k.scales.scale(
                        row(t) * (dim as int / k.block as int) + c / k.block as int,
                    ),
                );
            let value = |t: int, c: int|
                times(
                    v.codes.element::<S>(dim as int, row(t), c),
                    v.scales.scale(
                        row(t) * (dim as int / v.block as int) + c / v.block as int,
                    ),
                );
            let score = |t: int|
                accumulate(
                    zero(),
                    |c: int| times(times(queries[q * dim + c].widened(), scale), key(t, c)),
                    dim as int,
                );
            let weight = |t: int|
                if window_size == 0 || tokens - window_size <= t {
                    S::applied(Fun::Exp, minus(score(t), at))
                } else {
                    zero()
                };
            let mass = accumulate(zero(), weight, tokens as int);
            flash_value::<S, T>(
                queries,
                k,
                v,
                sinks,
                scale,
                flash_shape(
                    dim,
                    tokens,
                    repeat_count,
                    num_q_heads,
                    has_sinks,
                    window_size,
                    n_queries,
                    n_kv,
                ),
                q * dim + d,
            ) == T::narrowed(
                over(
                    accumulate(
                        zero(),
                        |t: int| times(weight(t), value(t, d)),
                        tokens as int,
                    ),
                    if has_sinks > 0 {
                        plus(
                            S::applied(Fun::Exp, minus(sinks[q % num_q_heads as int], at)),
                            mass,
                        )
                    } else {
                        mass
                    },
                ),
            )
        }),
{
    lemma_ring_sums::<S>();
    let sh = flash_shape(
        dim,
        tokens,
        repeat_count,
        num_q_heads,
        has_sinks,
        window_size,
        n_queries,
        n_kv,
    );
    let row = |t: int| q / repeat_count as int * tokens + t;
    let key = |t: int, c: int|
        times(
            k.codes.element::<S>(dim as int, row(t), c),
            k.scales.scale(row(t) * (dim as int / k.block as int) + c / k.block as int),
        );
    let value = |t: int, c: int|
        times(
            v.codes.element::<S>(dim as int, row(t), c),
            v.scales.scale(row(t) * (dim as int / v.block as int) + c / v.block as int),
        );
    let score = |t: int|
        accumulate(
            zero(),
            |c: int| times(times(queries[q * dim + c].widened(), scale), key(t, c)),
            dim as int,
        );
    let weight = |t: int|
        if window_size == 0 || tokens - window_size <= t {
            S::applied(Fun::Exp, minus(score(t), at))
        } else {
            zero()
        };
    let n = tokens as int;
    let scores = flash_scores(queries, k, scale, sh, q);
    let used = flash_used(sh);
    let weights = key_weights(scores, used, at);
    let values = key_values(scores, flash_values(v, sh, q), used, at, d);
    assert forall|t: int| 0 <= t < n implies #[trigger] weights(t) == weight(t) by {
        law_flash_score_is_the_dot_product(queries, k, scale, sh, q, t);
        lemma_accumulate_same(
            zero(),
            score_terms(queries, k, scale, sh, q, t),
            |c: int| times(times(queries[q * dim + c].widened(), scale), key(t, c)),
            dim as int,
        );
    }
    lemma_accumulate_same(zero(), weights, weight, n);
    let parts = |t: int| times(weight(t), value(t, d));
    assert forall|t: int| 0 <= t < n implies #[trigger] values(t) == parts(t) by {
        assert(weights(t) == weight(t));
    }
    lemma_accumulate_same(zero(), values, parts, n);
    lemma_row_major_inverse(q, d, dim as int);
    law_flash_is_attention(queries, k, v, sinks, scale, sh, q, d, at);
    lemma_mass_is_positive(val, queries, k, v, sinks, scale, sh, q, d, at);
    let st = flash_after(queries, k, v, sinks, scale, sh, q, n);
    lemma_val_constants(val, 0);
    lemma_val_select(val, zero(), st.l, over(st.o[d], st.l), st.o[d]);
}

/// Where all values of a head are the same in dimension `d`, without a sink, that is what
/// every query of the head gets there, whatever the queries and the keys are.
pub proof fn law_equal_values_come_through<S: Scalar>(
    val: spec_fn(S) -> real,
    queries: Seq<S>,
    k: Quantized<S>,
    v: Quantized<S>,
    sinks: Seq<S>,
    scale: S,
    dim: u32,
    tokens: u32,
    repeat_count: u32,
    num_q_heads: u32,
    window_size: u32,
    n_queries: u32,
    n_kv: u32,
    head: int,
    q: int,
    d: int,
    x: real,
)
    requires
        models_reals(val),
        ring::<S>(),
        exponential::<S>(),
        0 < repeat_count,
        0 <= head,
        head * repeat_count <= q < (head + 1) * repeat_count,
        0 <= d < dim,
        0 < tokens,
        k.cols == dim,
        v.cols == dim,
        forall|t: int|
            0 <= t < tokens ==> val(
                #[trigger] v.weight(head * tokens + t, d, d / v.block as int),
            ) == x,
    ensures
        val(
            flash_value::<S, S>(
                queries,
                k,
                v,
                sinks,
                scale,
                flash_shape(
                    dim,
                    tokens,
                    repeat_count,
                    num_q_heads,
                    0,
                    window_size,
                    n_queries,
                    n_kv,
                ),
                q * dim + d,
            ),
        ) == x,
{
    let sh = flash_shape(
        dim,
        tokens,
        repeat_count,
        num_q_heads,
        0,
        window_size,
        n_queries,
        n_kv,
    );
    let n = tokens as int;
    let at = zero::<S>();
    assert(0 <= head * repeat_count) by (nonlinear_arith)
        requires
            0 <= head,
            0 < repeat_count,
    ;
    assert((head + 1) * repeat_count == head * repeat_count + repeat_count) by (nonlinear_arith);
    lemma_row_major_inverse(head, q - head * repeat_count, repeat_count as int);
    lemma_row_major_inverse(q, d, dim as int);
    law_flash_is_attention(queries, k, v, sinks, scale, sh, q, d, at);
    lemma_mass_is_positive(val, queries, k, v, sinks, scale, sh, q, d, at);
    let st = flash_after(queries, k, v, sinks, scale, sh, q, n);
    lemma_val_constants(val, 0);
    lemma_val_select(val, zero(), st.l, over(st.o[d], st.l), st.o[d]);
    let scores = flash_scores(queries, k, scale, sh, q);
    let values = flash_values(v, sh, q);
    assert forall|t: int| 0 <= t < n implies val(#[trigger] values(t)[d]) == x by {
        assert(val(v.weight(head * tokens + t, d, d / v.block as int)) == x);
    }
    lemma_constant_average(val, scores, values, flash_used(sh), at, d, x, n);
    let mass = flash_mass(queries, k, sinks, scale, sh, q, at);
    let sum = accumulate(zero(), key_values(scores, values, flash_used(sh), at, d), n);
    lemma_val_over(val, sum, mass);
    let m = val(mass);
    assert((x * m) / m == x) by (nonlinear_arith)
        requires
            m > 0 as real,
    ;
}

proof fn lemma_constant_average<S: Scalar>(
    val: spec_fn(S) -> real,
    score: spec_fn(int) -> S,
    value: spec_fn(int) -> Seq<S>,
    used: spec_fn(int) -> bool,
    at: S,
    d: int,
    x: real,
    n: int,
)
    requires
        models_reals(val),
        forall|t: int| 0 <= t < n ==> val(#[trigger] value(t)[d]) == x,
    ensures
        val(accumulate(zero(), key_values(score, value, used, at, d), n)) == x * val(
            accumulate(zero(), key_weights(score, used, at), n),
        ),
    decreases n,
{
    lemma_val_constants(val, 0);
    if n > 0 {
        lemma_constant_average(val, score, value, used, at, d, x, n - 1);
        let w = key_weights(score, used, at);
        let y = key_values(score, value, used, at, d);
        let (a, b) = (accumulate(zero(), w, n - 1), accumulate(zero(), y, n - 1));
        lemma_val_plus(val, a, w(n - 1));
        lemma_val_plus(val, b, y(n - 1));
        lemma_val_plus(val, w(n - 1), value(n - 1)[d]);
        assert(val(value(n - 1)[d]) == x);
        let (p, q) = (val(a), val(w(n - 1)));
        assert(x * (p + q) == x * p + q * x) by (nonlinear_arith);
    } else {
        assert(x * 0real == 0real) by (nonlinear_arith);
    }
}

proof fn lemma_cache_at<A>(
    a: Seq<A>,
    a_stride: int,
    g: int,
    b: Seq<A>,
    b_stride: int,
    h: int,
    n: int,
    t: int,
    d: int,
)
    requires
        same_run(a, (g * a_stride) * 64, b, (h * b_stride) * 64, n * 64),
        0 <= t < n,
        0 <= d < 64,
    ensures
        a[(g * a_stride + t) * 64 + d] == b[(h * b_stride + t) * 64 + d],
{
    lemma_run_at(a, g * a_stride, b, h * b_stride, n, 64, t, d);
}

proof fn lemma_same_decode<S: Scalar, T: Element<S>>(
    a_q: Seq<T>,
    a_k: Seq<T>,
    a_v: Seq<T>,
    a: DecodeShape,
    p: int,
    b_q: Seq<T>,
    b_k: Seq<T>,
    b_v: Seq<T>,
    b: DecodeShape,
    q: int,
    scale: S,
    sg: int,
    count: int,
)
    requires
        a.n_kv == b.n_kv,
        0 <= sg,
        same_run(a_q, p * 64, b_q, q * 64, 64),
        same_run(
            a_k,
            (p / a.heads_per_group as int * a.kv_stride) * 64,
            b_k,
            (q / b.heads_per_group as int * b.kv_stride) * 64,
            a.n_kv * 64,
        ),
        same_run(
            a_v,
            (p / a.heads_per_group as int * a.kv_stride) * 64,
            b_v,
            (q / b.heads_per_group as int * b.kv_stride) * 64,
            a.n_kv * 64,
        ),
    ensures
        decode_after(a_q, a_k, a_v, scale, a, p, sg, count) == decode_after(
            b_q,
            b_k,
            b_v,
            scale,
            b,
            q,
            sg,
            count,
        ),
    decreases count,
{
    if count > 0 {
        lemma_same_decode(
            a_q,
            a_k,
            a_v,
            a,
            p,
            b_q,
            b_k,
            b_v,
            b,
            q,
            scale,
            sg,
            count - 1,
        );
        let t = (count - 1) * 32 + sg;
        if t < a.n_kv {
            let (g, h) = (p / a.heads_per_group as int, q / b.heads_per_group as int);
            let (x, y) = (a.kv_stride as int, b.kv_stride as int);
            let n = a.n_kv as int;
            assert forall|d: int| 0 <= d < 64 implies #[trigger] a_q[p * 64 + d] == b_q[q * 64
                + d] && a_k[a.kv_at(p, t, d)] == b_k[b.kv_at(q, t, d)] && a_v[a.kv_at(p, t, d)]
                == b_v[b.kv_at(q, t, d)] by {
                lemma_cache_at(a_k, x, g, b_k, y, h, n, t, d);
                lemma_cache_at(a_v, x, g, b_v, y, h, n, t, d);
            }
            let f = Seq::new(32, |l: int| lane_score(a_q, a_k, scale, a, p, t, l));
            let e = Seq::new(32, |l: int| lane_score(b_q, b_k, scale, b, q, t, l));
            assert forall|l: int| 0 <= l < 32 implies #[trigger] f[l] == e[l] by {
                assert(a_q[p * 64 + 2 * l] == b_q[q * 64 + 2 * l]);
                assert(a_q[p * 64 + (2 * l + 1)] == b_q[q * 64 + (2 * l + 1)]);
            }
            assert(f =~= e);
            assert(cache_row::<S, T>(a_v, a, p, t) =~= cache_row::<S, T>(b_v, b, q, t)) by {
                assert forall|d: int| 0 <= d < 64 implies #[trigger] cache_row::<S, T>(
                    a_v,
                    a,
                    p,
                    t,
                )[d] == cache_row::<S, T>(b_v, b, q, t)[d] by {
                    assert(a_q[p * 64 + d] == b_q[q * 64 + d]);
                }
            }
        }
    }
}

/// A query head of a decode step is served as if it and its cache were alone: heads `p`
/// and `q` of two launches get the same where they hold the same numbers and where the
/// first `n_kv` rows of the cache that starts at `p / heads_per_group * kv_stride` are
/// those of the cache that starts at `q / heads_per_group * kv_stride`. Rows beyond do not
/// matter, nor do other heads.
pub proof fn law_decode_sees_its_head_alone<S: Scalar, T: Element<S>>(
    a_q: Seq<T>,
    a_k: Seq<T>,
    a_v: Seq<T>,
    a_stride: u32,
    a_group: u32,
    a_q_heads: u32,
    a_kv_heads: u32,
    p: int,
    b_q: Seq<T>,
    b_k: Seq<T>,
    b_v: Seq<T>,
    b_stride: u32,
    b_group: u32,
    b_q_heads: u32,
    b_kv_heads: u32,
    q: int,
    scale: S,
    n_kv: u32,
    d: int,
)
    requires
        0 <= d < 64,
        0 <= p,
        0 <= q,
        same_run(a_q, p * 64, b_q, q * 64, 64),
        same_run(
            a_k,
            (p / a_group as int * a_stride) * 64,
            b_k,
            (q / b_group as int * b_stride) * 64,
            n_kv * 64,
        ),
        same_run(
            a_v,
            (p / a_group as int * a_stride) * 64,
            b_v,
            (q / b_group as int * b_stride) * 64,
            n_kv * 64,
        ),
    ensures
        decode_value::<S, T>(
            a_q,
            a_k,
            a_v,
            scale,
            decode_shape(n_kv, a_stride, a_group, a_q_heads, a_kv_heads),
            p * 64 + d,
        ) == decode_value::<S, T>(
            b_q,
            b_k,
            b_v,
            scale,
            decode_shape(n_kv, b_stride, b_group, b_q_heads, b_kv_heads),
            q * 64 + d,
        ),
{
    let a = decode_shape(n_kv, a_stride, a_group, a_q_heads, a_kv_heads);
    let b = decode_shape(n_kv, b_stride, b_group, b_q_heads, b_kv_heads);
    lemma_row_major_inverse(p, d, 64);
    lemma_row_major_inverse(q, d, 64);
    let f = Seq::new(32, |sg: int| decode_part(a_q, a_k, a_v, scale, a, p, sg));
    let e = Seq::new(32, |sg: int| decode_part(b_q, b_k, b_v, scale, b, q, sg));
    assert forall|sg: int| 0 <= sg < 32 implies #[trigger] f[sg] == e[sg] by {
        lemma_same_decode(
            a_q,
            a_k,
            a_v,
            a,
            p,
            b_q,
            b_k,
            b_v,
            b,
            q,
            scale,
            sg,
            rounds(n_kv as int, 32),
        );
    }
    assert(f =~= e);
}

proof fn lemma_all_weights_reach<S: Scalar>(
    val: spec_fn(S) -> real,
    score: spec_fn(int) -> S,
    at: S,
    n: int,
)
    requires
        models_reals(val),
    ensures
        val(accumulate(zero(), token_weights(score, at), n)) >= 0 as real,
        0 < n ==> val(accumulate(zero(), token_weights(score, at), n)) > 0 as real,
    decreases n,
{
    lemma_val_constants(val, 0);
    if n > 0 {
        lemma_all_weights_reach(val, score, at, n - 1);
        let w = token_weights(score, at);
        lemma_val_exp(val, minus(score(n - 1), at), minus(score(n - 1), at));
        lemma_val_plus(val, accumulate(zero(), w, n - 1), w(n - 1));
    }
}

/// What the scores are taken relative to does not matter.
proof fn lemma_average_shifts<S: Scalar>(
    score: spec_fn(int) -> S,
    value: spec_fn(int) -> Seq<S>,
    a: S,
    b: S,
    d: int,
    n: int,
)
    requires
        ring::<S>(),
        exponential::<S>(),
    ensures
        over(
            accumulate(zero(), token_values(score, value, a, d), n),
            accumulate(zero(), token_weights(score, a), n),
        ) == over(
            accumulate(zero(), token_values(score, value, b, d), n),
            accumulate(zero(), token_weights(score, b), n),
        ),
{
    let e = S::applied(Fun::Exp, minus(a, b));
    let (wa, wb) = (token_weights(score, a), token_weights(score, b));
    let (va, vb) = (token_values(score, value, a, d), token_values(score, value, b, d));
    assert forall|t: int| times(#[trigger] wa(t), e) == wb(t) && times(va(t), e) == vb(t) by {
        lemma_exp_shift(score(t), a, b);
        let x = value(t)[d];
        lemma_mul_assoc(wa(t), x, e);
        lemma_mul_comm(x, e);
        lemma_mul_assoc(wa(t), e, x);
    }
    lemma_sum_scaled(wa, e, n);
    lemma_sum_scaled(va, e, n);
    lemma_accumulate_same(zero(), |t: int| times(wa(t), e), wb, n);
    assert forall|t: int| 0 <= t < n implies times(#[trigger] va(t), e) == vb(t) by {
        assert(times(wa(t), e) == wb(t));
    }
    lemma_accumulate_same(zero(), |t: int| times(va(t), e), vb, n);
    lemma_exp_cancel(accumulate(zero(), va, n), accumulate(zero(), wa, n), minus(a, b));
}

/// A query head of a decode step gets the average of the values in the first `n_kv` rows
/// of its cache, each weighted by the exponential of its score: the dot product of the
/// scaled query, the elements `h * 64 ..`, with the key in the same row. What the scores
/// are taken relative to, `at`, does not matter.
pub proof fn law_decode_averages_its_cache<S: Scalar, T: Element<S>>(
    val: spec_fn(S) -> real,
    q: Seq<T>,
    k: Seq<T>,
    v: Seq<T>,
    scale: S,
    n_kv: u32,
    kv_stride: u32,
    heads_per_group: u32,
    n_q_heads: u32,
    n_kv_heads: u32,
    h: int,
    d: int,
    at: S,
)
    requires
        models_reals(val),
        ring::<S>(),
        exponential::<S>(),
        divides::<S>(),
        0 < n_kv,
        0 <= h,
        0 <= d < 64,
    ensures
        ({
            let row = |t: int| (h / heads_per_group as int * kv_stride + t) * 64;
            let score = |t: int|
                accumulate(
                    zero(),
                    |c: int|
                        times(
                            times(q[h * 64 + c].widened(), scale),
                            k[row(t) + c].widened(),
                        ),
                    64,
                );
            let weight = |t: int| S::applied(Fun::Exp, minus(score(t), at));
            decode_value::<S, T>(
                q,
                k,
                v,
                scale,
                decode_shape(n_kv, kv_stride, heads_per_group, n_q_heads, n_kv_heads),
                h * 64 + d,
            ) == T::narrowed(
                over(
                    accumulate(
                        zero(),
                        |t: int| times(weight(t), v[row(t) + d].widened()),
                        n_kv as int,
                    ),
                    accumulate(zero(), weight, n_kv as int),
                ),
            )
        }),
{
    lemma_ring_sums::<S>();
    let sh = decode_shape(n_kv, kv_stride, heads_per_group, n_q_heads, n_kv_heads);
    let parts = Seq::new(32, |sg: int| decode_part(q, k, v, scale, sh, h, sg));
    let top = lane_max(maxima(parts));
    let scores = decode_scores(q, k, scale, sh, h);
    lemma_row_major_inverse(h, d, 64);
    lemma_decode_mass(q, k, v, scale, sh, h);
    lemma_all_weights_reach(val, scores, top, n_kv as int);
    lemma_val_constants(val, 0);
    let sum = lane_sum(rescaled_sums(parts));
    assert forall|x: S, y: S| #[trigger] S::chosen(above(sum, zero()), x, y) == x by {
        lemma_val_select(val, zero(), sum, x, y);
    }
    law_decode_is_attention(q, k, v, scale, sh, h, d);
    lemma_average_shifts(scores, decode_values::<S, T>(v, sh, h), top, at, d, n_kv as int);
    let row = |t: int| (h / heads_per_group as int * kv_stride + t) * 64;
    let score = |t: int|
        accumulate(
            zero(),
            |c: int| times(times(q[h * 64 + c].widened(), scale), k[row(t) + c].widened()),
            64,
        );
    let weight = |t: int| S::applied(Fun::Exp, minus(score(t), at));
    let weights = token_weights(scores, at);
    let values = token_values(scores, decode_values::<S, T>(v, sh, h), at, d);
    assert forall|t: int| 0 <= t < n_kv implies #[trigger] weights(t) == weight(t) by {
        law_decode_score_is_the_dot_product(q, k, scale, sh, h, t);
        lemma_accumulate_same(
            zero(),
            decode_score_terms(q, k, scale, sh, h, t),
            |c: int| times(times(q[h * 64 + c].widened(), scale), k[row(t) + c].widened()),
            64,
        );
    }
    lemma_accumulate_same(zero(), weights, weight, n_kv as int);
    let parted = |t: int| times(weight(t), v[row(t) + d].widened());
    assert forall|t: int| 0 <= t < n_kv implies #[trigger] values(t) == parted(t) by {
        assert(weights(t) == weight(t));
    }
    lemma_accumulate_same(zero(), values, parted, n_kv as int);
}

/// A query that finds no token gets zero, with a sink or without one.
pub proof fn law_empty_cache_gives_zero<S: Scalar>(
    val: spec_fn(S) -> real,
    queries: Seq<S>,
    k: Quantized<S>,
    v: Quantized<S>,
    sinks: Seq<S>,
    scale: S,
    dim: u32,
    repeat_count: u32,
    num_q_heads: u32,
    has_sinks: u32,
    window_size: u32,
    n_queries: u32,
    n_kv: u32,
    q: int,
    d: int,
)
    requires
        models_reals(val),
        0 <= q,
        0 <= d < dim,
    ensures
        val(
            flash_value::<S, S>(
                queries,
                k,
                v,
                sinks,
                scale,
                flash_shape(
                    dim,
                    0,
                    repeat_count,
                    num_q_heads,
                    has_sinks,
                    window_size,
                    n_queries,
                    n_kv,
                ),
                q * dim + d,
            ),
        ) == 0 as real,
{
    let sh = flash_shape(
        dim,
        0,
        repeat_count,
        num_q_heads,
        has_sinks,
        window_size,
        n_queries,
        n_kv,
    );
    lemma_row_major_inverse(q, d, dim as int);
    let st = flash_after::<S, S>(queries, k, v, sinks, scale, sh, q, 0);
    let o = st.o[d];
    lemma_val_constants(val, 0);
    assert(o == zero::<S>());
    lemma_val_select(val, zero(), st.l, over(o, st.l), o);
    if val(st.l) > 0 as real {
        lemma_val_over(val, o, st.l);
        let l = val(st.l);
        assert((0 as real) / l == 0 as real) by (nonlinear_arith)
            requires
                l > 0 as real,
        ;
    }
}

/// A head of a decode step over an empty cache gets zero.
pub proof fn law_empty_decode_gives_zero<S: Scalar, T: Element<S>>(
    q: Seq<T>,
    k: Seq<T>,
    v: Seq<T>,
    scale: S,
    kv_stride: u32,
    heads_per_group: u32,
    n_q_heads: u32,
    n_kv_heads: u32,
    h: int,
    d: int,
)
    requires
        ring::<S>(),
        0 <= h,
        0 <= d < 64,
    ensures
        decode_value::<S, T>(
            q,
            k,
            v,
            scale,
            decode_shape(0, kv_stride, heads_per_group, n_q_heads, n_kv_heads),
            h * 64 + d,
        ) == T::narrowed(zero()),
{
    let sh = decode_shape(0, kv_stride, heads_per_group, n_q_heads, n_kv_heads);
    lemma_ring_sums::<S>();
    lemma_row_major_inverse(h, d, 64);
    let parts = Seq::new(32, |sg: int| decode_part(q, k, v, scale, sh, h, sg));
    let f = |g: int| times(parts[g].o[d], part_weight(parts, g));
    assert forall|g: int| 0 <= g < 32 implies #[trigger] f(g) == zero::<S>() by {
        assert(rounds(0, 32) == 0);
        assert(parts[g].o[d] == zero::<S>());
        lemma_mul_zero(part_weight(parts, g));
    }
    lemma_sum_tail(f, 0, 32);
}

} // verus!
