//! Chunks of tokens and single steps: a chunk is its tokens, one step after the other.
//!
//! Between two steps the state goes through storage, so the laws here ask that storage
//! keeps every scalar, as it does where elements are scalars.
use vstd::prelude::*;

use crate::gated_delta::{
    chunk_token, chunk_tokens, lemma_row, lemma_value, read_of, row_after, row_tokens, state_row,
    state_value, step_state, step_token, step_y, stepped, y_value, DeltaShape, TokenView,
};
use crate::gated_delta_prep::{
    conv_stride, prep_step_state, prep_step_tokens, prep_step_y, prep_tokens, row_at,
};
use crate::layout::{lemma_row_major, lemma_row_major_inverse, lemma_split};
use crate::scalar::{Element, Scalar};

verus! {

/// Storage keeps every scalar.
pub open spec fn keeps_scalars<S: Scalar, T: Element<S>>() -> bool {
    &&& forall|a: S| #[trigger] T::narrowed(a).widened() == a
    &&& forall|v: T| T::narrowed(#[trigger] v.widened()) == v
}

/// Token `t` of every batch, of a buffer with `per` elements to a token.
pub open spec fn token_of<A>(x: Seq<A>, sh: DeltaShape, per: int, t: int) -> Seq<A> {
    Seq::new((sh.batch * per) as nat, |i: int| x[(i / per * sh.t + t) * per + i % per])
}

/// The shape of a single step.
pub open spec fn single(sh: DeltaShape) -> DeltaShape {
    DeltaShape { t: 1, ..sh }
}

/// The state after the first `n` tokens of a chunk, one step after the other.
pub open spec fn state_after_steps<S: Scalar, T: Element<S>>(
    q: Seq<T>,
    k: Seq<T>,
    v: Seq<T>,
    g: Seq<T>,
    beta: Seq<T>,
    state: Seq<T>,
    sh: DeltaShape,
    n: int,
) -> Seq<T>
    decreases n,
{
    if n <= 0 {
        state
    } else {
        let before = state_after_steps::<S, T>(q, k, v, g, beta, state, sh, n - 1);
        Seq::new(
            (sh.rows() * sh.dk) as nat,
            |i: int|
                step_state::<S, T>(
                    token_of(q, sh, sh.hk * sh.dk, n - 1),
                    token_of(k, sh, sh.hk * sh.dk, n - 1),
                    token_of(v, sh, sh.hv * sh.dv, n - 1),
                    token_of(g, sh, sh.hv as int, n - 1),
                    token_of(beta, sh, sh.hv as int, n - 1),
                    before,
                    single(sh),
                    i,
                ),
        )
    }
}

/// The state after the first `n` tokens of a fused chunk, one step after the other.
pub open spec fn prep_state_after_steps<S: Scalar, T: Element<S>>(
    conv_out: Seq<T>,
    a_log: Seq<T>,
    dt_bias: Seq<T>,
    a_raw: Seq<T>,
    b_raw: Seq<T>,
    q_norm_weight: Seq<T>,
    k_norm_weight: Seq<T>,
    state: Seq<T>,
    sh: DeltaShape,
    n: int,
) -> Seq<T>
    decreases n,
{
    if n <= 0 {
        state
    } else {
        let before = prep_state_after_steps::<S, T>(
            conv_out,
            a_log,
            dt_bias,
            a_raw,
            b_raw,
            q_norm_weight,
            k_norm_weight,
            state,
            sh,
            n - 1,
        );
        let tokens = prep_step_tokens::<S, T>(
            token_of(conv_out, sh, conv_stride(sh), n - 1),
            a_log,
            dt_bias,
            token_of(a_raw, sh, sh.hv as int, n - 1),
            token_of(b_raw, sh, sh.hv as int, n - 1),
            q_norm_weight,
            k_norm_weight,
            single(sh),
        );
        Seq::new(
            (sh.rows() * sh.dk) as nat,
            |i: int| prep_step_state(tokens, before, single(sh), i),
        )
    }
}

/// The state after `n` tokens of each row, stored after each.
spec fn folded<S: Scalar, T: Element<S>>(
    tokens: spec_fn(int, int) -> TokenView<S>,
    state: Seq<T>,
    sh: DeltaShape,
    n: int,
) -> Seq<T>
    decreases n,
{
    if n <= 0 {
        state
    } else {
        let before = folded(tokens, state, sh, n - 1);
        Seq::new(
            (sh.rows() * sh.dk) as nat,
            |i: int|
                T::narrowed(
                    stepped(
                        state_row::<S, T>(before, sh.dk as int, i / sh.dk as int),
                        tokens(i / sh.dk as int, n - 1),
                    )[i % sh.dk as int],
                ),
        )
    }
}

proof fn lemma_token_of<A>(x: Seq<A>, sh: DeltaShape, per: int, t: int, b: int, c: int)
    requires
        0 <= b < sh.batch,
        0 <= c < per,
    ensures
        token_of(x, sh, per, t)[b * per + c] == x[(b * sh.t + t) * per + c],
{
    lemma_row_major(b, sh.batch as int, c, per);
    lemma_row_major_inverse(b, c, per);
}

proof fn lemma_regroup(a: int, m: int, h: int, d: int, c: int)
    ensures
        (a * m + h) * d + c == a * (m * d) + (h * d + c),
{
    assert((a * m + h) * d + c == a * (m * d) + (h * d + c)) by (nonlinear_arith);
}

/// A row of state that was stored after each token is the row after the tokens.
proof fn lemma_folded_row<S: Scalar, T: Element<S>>(
    tokens: spec_fn(int, int) -> TokenView<S>,
    state: Seq<T>,
    sh: DeltaShape,
    r: int,
    n: int,
)
    requires
        sh.valid(),
        keeps_scalars::<S, T>(),
        0 <= r < sh.rows(),
        forall|t: int| 0 <= t < n ==> (#[trigger] tokens(r, t)).live,
    ensures
        state_row::<S, T>(folded(tokens, state, sh, n), sh.dk as int, r) == row_after(
            state_row::<S, T>(state, sh.dk as int, r),
            row_tokens(tokens, r),
            n,
        ),
    decreases n,
{
    let dk = sh.dk as int;
    if n > 0 {
        lemma_folded_row::<S, T>(tokens, state, sh, r, n - 1);
        let before = folded(tokens, state, sh, n - 1);
        let row = state_row::<S, T>(before, dk, r);
        let tok = tokens(r, n - 1);
        assert(row_tokens(tokens, r)(n - 1) == tok);
        assert forall|j: int| 0 <= j < dk implies #[trigger] state_row::<S, T>(
            folded(tokens, state, sh, n),
            dk,
            r,
        )[j] == stepped(row, tok)[j] by {
            lemma_row_major(r, sh.rows(), j, dk);
            lemma_row_major_inverse(r, j, dk);
        }
        assert(state_row::<S, T>(folded(tokens, state, sh, n), dk, r) =~= stepped(row, tok));
    }
}

/// What a chunk leaves is what its tokens leave one by one.
proof fn lemma_folded<S: Scalar, T: Element<S>>(
    tokens: spec_fn(int, int) -> TokenView<S>,
    state: Seq<T>,
    sh: DeltaShape,
)
    requires
        sh.valid(),
        keeps_scalars::<S, T>(),
        state.len() == sh.rows() * sh.dk,
        forall|r: int, t: int| (#[trigger] tokens(r, t)).live,
    ensures
        Seq::new((sh.rows() * sh.dk) as nat, |i: int| state_value(state, tokens, sh, i))
            =~= folded(tokens, state, sh, sh.t as int),
        forall|i: int|
            0 <= i < sh.values() ==> #[trigger] y_value(state, tokens, sh, i) == Some(
                T::narrowed(
                    read_of(
                        state_row::<S, T>(
                            folded(tokens, state, sh, sh.time_of_value(i)),
                            sh.dk as int,
                            sh.row_of_value(i),
                        ),
                        tokens(sh.row_of_value(i), sh.time_of_value(i)),
                    ),
                ),
            ),
{
    let dk = sh.dk as int;
    let last = folded(tokens, state, sh, sh.t as int);
    assert forall|i: int| 0 <= i < sh.rows() * sh.dk implies state_value(state, tokens, sh, i)
        == #[trigger] last[i] by {
        lemma_split(i, sh.rows(), dk);
        let r = i / dk;
        lemma_folded_row::<S, T>(tokens, state, sh, r, sh.t as int);
        assert(state_row::<S, T>(last, dk, r)[i % dk] == last[r * dk + i % dk].widened());
    }
    assert forall|i: int| 0 <= i < sh.values() implies #[trigger] y_value(state, tokens, sh, i)
        == Some(
        T::narrowed(
            read_of(
                state_row::<S, T>(
                    folded(tokens, state, sh, sh.time_of_value(i)),
                    dk,
                    sh.row_of_value(i),
                ),
                tokens(sh.row_of_value(i), sh.time_of_value(i)),
            ),
        ),
    ) by {
        lemma_value(sh, i);
        let r = sh.row_of_value(i);
        let t = sh.time_of_value(i);
        lemma_folded_row::<S, T>(tokens, state, sh, r, t);
        assert(row_tokens(tokens, r)(t) == tokens(r, t));
    }
}

/// What a row sees of token `t` in a chunk and in a step of that token alone.
proof fn lemma_step_token<S: Scalar, T: Element<S>>(
    q: Seq<T>,
    k: Seq<T>,
    v: Seq<T>,
    g: Seq<T>,
    beta: Seq<T>,
    sh: DeltaShape,
    r: int,
    t: int,
)
    requires
        sh.valid(),
        0 <= r < sh.rows(),
    ensures
        step_token::<S, T>(
            token_of(q, sh, sh.hk * sh.dk, t),
            token_of(k, sh, sh.hk * sh.dk, t),
            token_of(v, sh, sh.hv * sh.dv, t),
            token_of(g, sh, sh.hv as int, t),
            token_of(beta, sh, sh.hv as int, t),
            single(sh),
            r,
        ) == chunk_token::<S, T>(q, k, v, g, beta, sh, r, t),
{
    lemma_row(sh, r);
    let one = single(sh);
    let (b, h, d) = (sh.batch_of(r), sh.head_of(r), sh.dim_of(r));
    let (hk, dk, hv, dv) = (sh.hk as int, sh.dk as int, sh.hv as int, sh.dv as int);
    assert(one.batch_of(r) == b && one.head_of(r) == h && one.key_head(h) == sh.key_head(h));
    let kh = sh.key_head(h);
    let bt = b * sh.t + t;
    let step = step_token::<S, T>(
        token_of(q, sh, hk * dk, t),
        token_of(k, sh, hk * dk, t),
        token_of(v, sh, hv * dv, t),
        token_of(g, sh, hv, t),
        token_of(beta, sh, hv, t),
        one,
        r,
    );
    let chunk = chunk_token::<S, T>(q, k, v, g, beta, sh, r, t);
    assert forall|i: int| 0 <= i < dk implies #[trigger] step.q[i] == chunk.q[i] && step.k[i]
        == chunk.k[i] by {
        lemma_row_major(kh, hk, i, dk);
        lemma_regroup(b, hk, kh, dk, i);
        lemma_regroup(bt, hk, kh, dk, i);
        lemma_token_of(q, sh, hk * dk, t, b, kh * dk + i);
        lemma_token_of(k, sh, hk * dk, t, b, kh * dk + i);
    }
    assert(step.q =~= chunk.q);
    assert(step.k =~= chunk.k) by {
        assert forall|i: int| 0 <= i < dk implies #[trigger] step.k[i] == chunk.k[i] by {
            assert(step.q[i] == chunk.q[i]);
        }
    }
    lemma_row_major(h, hv, d, dv);
    lemma_regroup(b, hv, h, dv, d);
    lemma_regroup(bt, hv, h, dv, d);
    lemma_token_of(v, sh, hv * dv, t, b, h * dv + d);
    lemma_row_major_inverse(b * hv + h, d, dv);
    lemma_token_of(g, sh, hv, t, b, h);
    lemma_token_of(beta, sh, hv, t, b, h);
    assert(step =~= chunk);
}

proof fn lemma_steps_fold<S: Scalar, T: Element<S>>(
    q: Seq<T>,
    k: Seq<T>,
    v: Seq<T>,
    g: Seq<T>,
    beta: Seq<T>,
    state: Seq<T>,
    sh: DeltaShape,
    n: int,
)
    requires
        sh.valid(),
    ensures
        state_after_steps::<S, T>(q, k, v, g, beta, state, sh, n) == folded(
            chunk_tokens::<S, T>(q, k, v, g, beta, sh),
            state,
            sh,
            n,
        ),
    decreases n,
{
    if n > 0 {
        lemma_steps_fold::<S, T>(q, k, v, g, beta, state, sh, n - 1);
        let tokens = chunk_tokens::<S, T>(q, k, v, g, beta, sh);
        let a = state_after_steps::<S, T>(q, k, v, g, beta, state, sh, n);
        let b = folded(tokens, state, sh, n);
        assert forall|i: int| 0 <= i < sh.rows() * sh.dk implies #[trigger] a[i] == b[i] by {
            lemma_split(i, sh.rows(), sh.dk as int);
            lemma_step_token::<S, T>(q, k, v, g, beta, sh, i / sh.dk as int, n - 1);
        }
        assert(a =~= b);
    }
}

/// A chunk is its tokens, one step after the other: the state that it leaves is the state
/// after the steps, and each of its tokens reads what the step of that token reads.
pub proof fn law_chunk_is_its_steps<S: Scalar, T: Element<S>>(
    q: Seq<T>,
    k: Seq<T>,
    v: Seq<T>,
    g: Seq<T>,
    beta: Seq<T>,
    state: Seq<T>,
    sh: DeltaShape,
)
    requires
        sh.valid(),
        keeps_scalars::<S, T>(),
        state.len() == sh.rows() * sh.dk,
    ensures
        ({
            let tokens = chunk_tokens::<S, T>(q, k, v, g, beta, sh);
            &&& Seq::new((sh.rows() * sh.dk) as nat, |i: int| state_value(state, tokens, sh, i))
                =~= state_after_steps::<S, T>(q, k, v, g, beta, state, sh, sh.t as int)
            &&& forall|i: int|
                0 <= i < sh.values() ==> #[trigger] y_value(state, tokens, sh, i) == Some(
                    step_y::<S, T>(
                        token_of(q, sh, sh.hk * sh.dk, sh.time_of_value(i)),
                        token_of(k, sh, sh.hk * sh.dk, sh.time_of_value(i)),
                        token_of(v, sh, sh.hv * sh.dv, sh.time_of_value(i)),
                        token_of(g, sh, sh.hv as int, sh.time_of_value(i)),
                        token_of(beta, sh, sh.hv as int, sh.time_of_value(i)),
                        state_after_steps::<S, T>(
                            q,
                            k,
                            v,
                            g,
                            beta,
                            state,
                            sh,
                            sh.time_of_value(i),
                        ),
                        single(sh),
                        sh.row_of_value(i),
                    ),
                )
        }),
{
    let tokens = chunk_tokens::<S, T>(q, k, v, g, beta, sh);
    lemma_folded::<S, T>(tokens, state, sh);
    lemma_steps_fold::<S, T>(q, k, v, g, beta, state, sh, sh.t as int);
    assert forall|i: int| 0 <= i < sh.values() implies #[trigger] y_value(state, tokens, sh, i)
        == Some(
        step_y::<S, T>(
            token_of(q, sh, sh.hk * sh.dk, sh.time_of_value(i)),
            token_of(k, sh, sh.hk * sh.dk, sh.time_of_value(i)),
            token_of(v, sh, sh.hv * sh.dv, sh.time_of_value(i)),
            token_of(g, sh, sh.hv as int, sh.time_of_value(i)),
            token_of(beta, sh, sh.hv as int, sh.time_of_value(i)),
            state_after_steps::<S, T>(q, k, v, g, beta, state, sh, sh.time_of_value(i)),
            single(sh),
            sh.row_of_value(i),
        ),
    ) by {
        lemma_value(sh, i);
        let t = sh.time_of_value(i);
        lemma_steps_fold::<S, T>(q, k, v, g, beta, state, sh, t);
        lemma_step_token::<S, T>(q, k, v, g, beta, sh, sh.row_of_value(i), t);
    }
}

/// What a row sees of token `t` in a fused chunk and in a fused step of that token alone.
proof fn lemma_prep_step_token<S: Scalar, T: Element<S>>(
    conv_out: Seq<T>,
    a_log: Seq<T>,
    dt_bias: Seq<T>,
    a_raw: Seq<T>,
    b_raw: Seq<T>,
    q_norm_weight: Seq<T>,
    k_norm_weight: Seq<T>,
    sh: DeltaShape,
    r: int,
    t: int,
)
    requires
        sh.valid(),
        0 <= r < sh.rows(),
    ensures
        prep_step_tokens::<S, T>(
            token_of(conv_out, sh, conv_stride(sh), t),
            a_log,
            dt_bias,
            token_of(a_raw, sh, sh.hv as int, t),
            token_of(b_raw, sh, sh.hv as int, t),
            q_norm_weight,
            k_norm_weight,
            single(sh),
        )(r) == prep_tokens::<S, T>(
            conv_out,
            a_log,
            dt_bias,
            a_raw,
            b_raw,
            q_norm_weight,
            k_norm_weight,
            sh,
        )(r, t),
{
    lemma_row(sh, r);
    let one = single(sh);
    let (b, h, d) = (sh.batch_of(r), sh.head_of(r), sh.dim_of(r));
    let (hk, dk, hv, dv) = (sh.hk as int, sh.dk as int, sh.hv as int, sh.dv as int);
    assert(one.batch_of(r) == b && one.head_of(r) == h && one.key_head(h) == sh.key_head(h));
    let kh = sh.key_head(h) * dk;
    let bt = b * sh.t + t;
    let stride = conv_stride(sh);
    let cut = token_of(conv_out, sh, stride, t);
    lemma_row_major(h, hv, d, dv);
    lemma_row_major(sh.key_head(h), hk, 0, dk);
    assert(conv_stride(one) == stride);
    let (x, y) = (
        row_at::<S, T>(cut, b * stride + kh, dk),
        row_at::<S, T>(conv_out, bt * stride + kh, dk),
    );
    assert forall|i: int| 0 <= i < dk implies #[trigger] x[i] == y[i] by {
        lemma_row_major(sh.key_head(h), hk, i, dk);
        lemma_token_of(conv_out, sh, stride, t, b, kh + i);
        assert(b * stride + kh + i == b * stride + (kh + i));
        assert(bt * stride + kh + i == bt * stride + (kh + i));
    }
    assert(x =~= y);
    let (x, y) = (
        row_at::<S, T>(cut, b * stride + hk * dk + kh, dk),
        row_at::<S, T>(conv_out, bt * stride + hk * dk + kh, dk),
    );
    assert forall|i: int| 0 <= i < dk implies #[trigger] x[i] == y[i] by {
        lemma_row_major(sh.key_head(h), hk, i, dk);
        lemma_token_of(conv_out, sh, stride, t, b, hk * dk + kh + i);
        assert(b * stride + hk * dk + kh + i == b * stride + (hk * dk + kh + i));
        assert(bt * stride + hk * dk + kh + i == bt * stride + (hk * dk + kh + i));
    }
    assert(x =~= y);
    let at = 2 * (hk * dk) + h * dv + d;
    lemma_token_of(conv_out, sh, stride, t, b, at);
    assert(b * stride + 2 * (hk * dk) + h * dv + d == b * stride + at);
    assert(bt * stride + 2 * (hk * dk) + h * dv + d == bt * stride + at);
    lemma_token_of(a_raw, sh, hv, t, b, h);
    lemma_token_of(b_raw, sh, hv, t, b, h);
}

proof fn lemma_prep_steps_fold<S: Scalar, T: Element<S>>(
    conv_out: Seq<T>,
    a_log: Seq<T>,
    dt_bias: Seq<T>,
    a_raw: Seq<T>,
    b_raw: Seq<T>,
    q_norm_weight: Seq<T>,
    k_norm_weight: Seq<T>,
    state: Seq<T>,
    sh: DeltaShape,
    n: int,
)
    requires
        sh.valid(),
    ensures
        prep_state_after_steps::<S, T>(
            conv_out,
            a_log,
            dt_bias,
            a_raw,
            b_raw,
            q_norm_weight,
            k_norm_weight,
            state,
            sh,
            n,
        ) == folded(
            prep_tokens::<S, T>(
                conv_out,
                a_log,
                dt_bias,
                a_raw,
                b_raw,
                q_norm_weight,
                k_norm_weight,
                sh,
            ),
            state,
            sh,
            n,
        ),
    decreases n,
{
    if n > 0 {
        lemma_prep_steps_fold::<S, T>(
            conv_out,
            a_log,
            dt_bias,
            a_raw,
            b_raw,
            q_norm_weight,
            k_norm_weight,
            state,
            sh,
            n - 1,
        );
        let tokens = prep_tokens::<S, T>(
            conv_out,
            a_log,
            dt_bias,
            a_raw,
            b_raw,
            q_norm_weight,
            k_norm_weight,
            sh,
        );
        let a = prep_state_after_steps::<S, T>(
            conv_out,
            a_log,
            dt_bias,
            a_raw,
            b_raw,
            q_norm_weight,
            k_norm_weight,
            state,
            sh,
            n,
        );
        let b = folded(tokens, state, sh, n);
        assert forall|i: int| 0 <= i < sh.rows() * sh.dk implies #[trigger] a[i] == b[i] by {
            lemma_split(i, sh.rows(), sh.dk as int);
            lemma_prep_step_token::<S, T>(
                conv_out,
                a_log,
                dt_bias,
                a_raw,
                b_raw,
                q_norm_weight,
                k_norm_weight,
                sh,
                i / sh.dk as int,
                n - 1,
            );
        }
        assert(a =~= b);
    }
}

/// A fused chunk is its tokens, one fused step after the other.
pub proof fn law_prep_chunk_is_its_steps<S: Scalar, T: Element<S>>(
    conv_out: Seq<T>,
    a_log: Seq<T>,
    dt_bias: Seq<T>,
    a_raw: Seq<T>,
    b_raw: Seq<T>,
    q_norm_weight: Seq<T>,
    k_norm_weight: Seq<T>,
    state: Seq<T>,
    sh: DeltaShape,
)
    requires
        sh.valid(),
        keeps_scalars::<S, T>(),
        state.len() == sh.rows() * sh.dk,
    ensures
        ({
            let tokens = prep_tokens::<S, T>(
                conv_out,
                a_log,
                dt_bias,
                a_raw,
                b_raw,
                q_norm_weight,
                k_norm_weight,
                sh,
            );
            let after = |n: int|
                prep_state_after_steps::<S, T>(
                    conv_out,
                    a_log,
                    dt_bias,
                    a_raw,
                    b_raw,
                    q_norm_weight,
                    k_norm_weight,
                    state,
                    sh,
                    n,
                );
            let step = |t: int|
                prep_step_tokens::<S, T>(
                    token_of(conv_out, sh, conv_stride(sh), t),
                    a_log,
                    dt_bias,
                    token_of(a_raw, sh, sh.hv as int, t),
                    token_of(b_raw, sh, sh.hv as int, t),
                    q_norm_weight,
                    k_norm_weight,
                    single(sh),
                );
            &&& Seq::new((sh.rows() * sh.dk) as nat, |i: int| state_value(state, tokens, sh, i))
                =~= after(sh.t as int)
            &&& forall|i: int|
                0 <= i < sh.values() ==> #[trigger] y_value(state, tokens, sh, i) == Some(
                    prep_step_y(
                        step(sh.time_of_value(i)),
                        after(sh.time_of_value(i)),
                        single(sh),
                        sh.row_of_value(i),
                    ),
                )
        }),
{
    let tokens = prep_tokens::<S, T>(
        conv_out,
        a_log,
        dt_bias,
        a_raw,
        b_raw,
        q_norm_weight,
        k_norm_weight,
        sh,
    );
    lemma_folded::<S, T>(tokens, state, sh);
    lemma_prep_steps_fold::<S, T>(
        conv_out,
        a_log,
        dt_bias,
        a_raw,
        b_raw,
        q_norm_weight,
        k_norm_weight,
        state,
        sh,
        sh.t as int,
    );
    let after = |n: int|
        prep_state_after_steps::<S, T>(
            conv_out,
            a_log,
            dt_bias,
            a_raw,
            b_raw,
            q_norm_weight,
            k_norm_weight,
            state,
            sh,
            n,
        );
    let step = |t: int|
        prep_step_tokens::<S, T>(
            token_of(conv_out, sh, conv_stride(sh), t),
            a_log,
            dt_bias,
            token_of(a_raw, sh, sh.hv as int, t),
            token_of(b_raw, sh, sh.hv as int, t),
            q_norm_weight,
            k_norm_weight,
            single(sh),
        );
    assert forall|i: int| 0 <= i < sh.values() implies #[trigger] y_value(state, tokens, sh, i)
        == Some(
        prep_step_y(
            step(sh.time_of_value(i)),
            after(sh.time_of_value(i)),
            single(sh),
            sh.row_of_value(i),
        ),
    ) by {
        lemma_value(sh, i);
        let t = sh.time_of_value(i);
        lemma_prep_steps_fold::<S, T>(
            conv_out,
            a_log,
            dt_bias,
            a_raw,
            b_raw,
            q_norm_weight,
            k_norm_weight,
            state,
            sh,
            t,
        );
        lemma_prep_step_token::<S, T>(
            conv_out,
            a_log,
            dt_bias,
            a_raw,
            b_raw,
            q_norm_weight,
            k_norm_weight,
            sh,
            sh.row_of_value(i),
            t,
        );
    }
}

} // verus!
