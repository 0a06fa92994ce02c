//! The gated delta rule straight from a convolution's output: the queries and keys
//! are normalized per head, and the decay and the write strength are computed from
//! their raw projections, in the launch that runs the recurrence.
use vstd::prelude::*;

use crate::gated_delta::{
    chunk_token, chunk_tokens, delta_shape, lemma_key_head, lemma_row, lemma_value, read_of,
    row_after, row_tokens, run_rows, state_row, state_value, stepped, store_state, store_y,
    widen_row, y_value, DeltaShape, Token, TokenView,
};
use crate::lanes::{collect, simd_dot, simd_dotted};
use crate::layout::{flat, lemma_len_fits, lemma_mul_at_least, lemma_row_major, lemma_split};
use crate::scalar::{
    minus, one, over, plus, s_add, s_div, s_mul, s_one, s_sub, s_zero, times, zero, Element, Fun,
    Scalar,
};

verus! {

/// Elements of a convolution's output per token: queries, keys and values.
pub open spec fn conv_stride(sh: DeltaShape) -> int {
    2 * (sh.hk * sh.dk) + sh.hv * sh.dv
}

/// `rsqrt(mean(x^2) + 1e-6)`, over the lanes of a simdgroup.
pub open spec fn head_inv<S: Scalar>(x: Seq<S>) -> S {
    S::applied(
        Fun::Rsqrt,
        plus(over(simd_dot(x, x), S::natural(x.len() as u32)), S::rational(1, 1000000)),
    )
}

/// A head after its norm: `x * head_inv(x) * w`.
pub open spec fn head_normed<S: Scalar>(x: Seq<S>, w: Seq<S>) -> Seq<S> {
    Seq::new(x.len(), |i: int| times(times(x[i], head_inv(x)), w[i]))
}

/// `exp(-exp(a_log) * softplus(a_raw + dt_bias))`.
pub open spec fn decay_of<S: Scalar>(a_log: S, dt_bias: S, a_raw: S) -> S {
    let dt = S::applied(
        Fun::Log,
        plus(S::applied(Fun::Exp, plus(a_raw, dt_bias)), one()),
    );
    S::applied(Fun::Exp, minus(zero(), times(S::applied(Fun::Exp, a_log), dt)))
}

/// `sigmoid(b_raw)`.
pub open spec fn strength_of<S: Scalar>(b_raw: S) -> S {
    over(one(), plus(one(), S::applied(Fun::Exp, minus(zero(), b_raw))))
}

/// `n` widened elements from `start` on.
pub open spec fn row_at<S: Scalar, T: Element<S>>(x: Seq<T>, start: int, n: int) -> Seq<S> {
    Seq::new(n as nat, |i: int| x[start + i].widened())
}

/// What row `r` sees of token `bt` of the flattened tokens.
pub open spec fn prep_token_at<S: Scalar, T: Element<S>>(
    conv_out: Seq<T>,
    a_log: Seq<T>,
    dt_bias: Seq<T>,
    a_raw: Seq<T>,
    b_raw: Seq<T>,
    q_norm_weight: Seq<T>,
    k_norm_weight: Seq<T>,
    sh: DeltaShape,
    r: int,
    bt: int,
) -> TokenView<S> {
    let h = sh.head_of(r);
    let kh = sh.key_head(h) * sh.dk;
    let base = bt * conv_stride(sh);
    let dk = sh.dk as int;
    TokenView {
        q: head_normed(
            row_at::<S, T>(conv_out, base + kh, dk),
            row_at::<S, T>(q_norm_weight, kh, dk),
        ),
        k: head_normed(
            row_at::<S, T>(conv_out, base + sh.hk * sh.dk + kh, dk),
            row_at::<S, T>(k_norm_weight, kh, dk),
        ),
        v: conv_out[base + 2 * (sh.hk * sh.dk) + h * sh.dv + sh.dim_of(r)].widened(),
        g: decay_of(
            a_log[h].widened(),
            dt_bias[h].widened(),
            a_raw[bt * sh.hv + h].widened(),
        ),
        beta: strength_of(b_raw[bt * sh.hv + h].widened()),
        live: true,
    }
}

pub open spec fn prep_tokens<S: Scalar, T: Element<S>>(
    conv_out: Seq<T>,
    a_log: Seq<T>,
    dt_bias: Seq<T>,
    a_raw: Seq<T>,
    b_raw: Seq<T>,
    q_norm_weight: Seq<T>,
    k_norm_weight: Seq<T>,
    sh: DeltaShape,
) -> spec_fn(int, int) -> TokenView<S> {
    |r: int, t: int|
        prep_token_at(
            conv_out,
            a_log,
            dt_bias,
            a_raw,
            b_raw,
            q_norm_weight,
            k_norm_weight,
            sh,
            r,
            sh.batch_of(r) * sh.t + t,
        )
}

/// The lengths of the inputs.
pub open spec fn prep_fits<T>(
    conv_out: Seq<T>,
    a_log: Seq<T>,
    dt_bias: Seq<T>,
    a_raw: Seq<T>,
    b_raw: Seq<T>,
    q_norm_weight: Seq<T>,
    k_norm_weight: Seq<T>,
    sh: DeltaShape,
) -> bool {
    &&& conv_out.len() == (sh.batch * sh.t) * conv_stride(sh)
    &&& a_log.len() == sh.hv
    &&& dt_bias.len() == sh.hv
    &&& a_raw.len() == (sh.batch * sh.t) * sh.hv
    &&& b_raw.len() == a_raw.len()
    &&& q_norm_weight.len() == sh.hk * sh.dk
    &&& k_norm_weight.len() == sh.hk * sh.dk
}

fn normed_head<S: Scalar>(x: &Vec<S>, w: &Vec<S>) -> (r: Vec<S>)
    requires
        x@.len() == w@.len(),
        x@.len() % 32 == 0,
        x@.len() <= u32::MAX,
    ensures
        r@ == head_normed(x@, w@),
{
    let ssq = simd_dotted(x, x);
    let mean = s_div(&ssq, &S::from_u32(x.len() as u32));
    let inv = S::apply(Fun::Rsqrt, &s_add(&mean, &S::ratio(1, 1000000)));
    let n: usize = x.len();
    let r = collect(
        n,
        |i: usize| -> (v: S)
            requires
                i < n
            ensures
                v == times(times(x@[i as int], inv), w@[i as int])
            { s_mul(&s_mul(&x[i], &inv), &w[i]) },
        Ghost(|i: int, v: S| v == times(times(x@[i], inv), w@[i])),
    );
    assert(r@ =~= head_normed(x@, w@));
    r
}

fn decay<S: Scalar>(a_log: &S, dt_bias: &S, a_raw: &S) -> (g: S)
    ensures
        g == decay_of(*a_log, *dt_bias, *a_raw),
{
    let pre = S::apply(Fun::Exp, &s_add(a_raw, dt_bias));
    let dt = S::apply(Fun::Log, &s_add(&pre, &s_one()));
    let rate = s_mul(&S::apply(Fun::Exp, a_log), &dt);
    S::apply(Fun::Exp, &s_sub(&s_zero(), &rate))
}

fn strength<S: Scalar>(b_raw: &S) -> (beta: S)
    ensures
        beta == strength_of(*b_raw),
{
    let e = S::apply(Fun::Exp, &s_sub(&s_zero(), b_raw));
    s_div(&s_one(), &s_add(&s_one(), &e))
}

/// Prepares what row `r` sees of token `t`.
fn load_prep_token<S: Scalar, T: Element<S>>(
    conv_out: &[T],
    a_log: &[T],
    dt_bias: &[T],
    a_raw: &[T],
    b_raw: &[T],
    q_norm_weight: &[T],
    k_norm_weight: &[T],
    sh: DeltaShape,
    r: usize,
    t: usize,
) -> (tok: Token<S>)
    requires
        sh.valid(),
        sh.dk <= u32::MAX,
        prep_fits(
            conv_out@,
            a_log@,
            dt_bias@,
            a_raw@,
            b_raw@,
            q_norm_weight@,
            k_norm_weight@,
            sh,
        ),
        r < sh.rows(),
        t < sh.t,
    ensures
        tok@ == prep_token_at(
            conv_out@,
            a_log@,
            dt_bias@,
            a_raw@,
            b_raw@,
            q_norm_weight@,
            k_norm_weight@,
            sh,
            r as int,
            sh.batch_of(r as int) * sh.t + t,
        ),
        tok@.q.len() == sh.dk,
        tok@.k.len() == sh.dk,
{
    proof {
        lemma_row(sh, r as int);
        lemma_len_fits(conv_out);
        lemma_len_fits(a_raw);
        lemma_mul_at_least(sh.batch * sh.t, sh.hv as int);
    }
    let b: usize = r / sh.dv / sh.hv;
    let h: usize = r / sh.dv % sh.hv;
    let d: usize = r % sh.dv;
    proof {
        lemma_key_head(sh, h as int);
        lemma_row_major(b as int, sh.batch as int, t as int, sh.t as int);
    }
    let kh: usize = h / (sh.hv / sh.hk);
    let bt: usize = flat(b, t, sh.t, Ghost(sh.batch as int));
    let gb: usize = flat(bt, h, sh.hv, Ghost(sh.batch * sh.t));
    let ghost stride = conv_stride(sh);
    proof {
        lemma_row_major(kh as int, sh.hk as int, 0, sh.dk as int);
        lemma_row_major(h as int, sh.hv as int, d as int, sh.dv as int);
        lemma_row_major(bt as int, sh.batch * sh.t, 0, stride);
        assert(stride <= (bt + 1) * stride) by (nonlinear_arith)
            requires
                0 <= bt,
                0 <= stride,
        ;
    }
    let keys: usize = sh.hk * sh.dk;
    let head: usize = kh * sh.dk;
    let base: usize = bt * (2 * keys + sh.hv * sh.dv);
    let q = widen_row(conv_out, base + head, sh.dk);
    let k = widen_row(conv_out, base + keys + head, sh.dk);
    let qw = widen_row(q_norm_weight, head, sh.dk);
    let kw = widen_row(k_norm_weight, head, sh.dk);
    let tok = Token {
        q: normed_head(&q, &qw),
        k: normed_head(&k, &kw),
        v: conv_out[base + 2 * keys + h * sh.dv + d].widen(),
        g: decay(&a_log[h].widen(), &dt_bias[h].widen(), &a_raw[gb].widen()),
        beta: strength(&b_raw[gb].widen()),
        live: true,
    };
    assert(q@ =~= row_at::<S, T>(conv_out@, base + head, sh.dk as int));
    assert(k@ =~= row_at::<S, T>(conv_out@, base + keys + head, sh.dk as int));
    assert(qw@ =~= row_at::<S, T>(q_norm_weight@, head as int, sh.dk as int));
    assert(kw@ =~= row_at::<S, T>(k_norm_weight@, head as int, sh.dk as int));
    tok
}

/// The fused rule over a chunk of `t_len[0]` tokens.
pub fn mt_gated_delta_prep_chunk<S: Scalar, T: Element<S>>(
    conv_out: &[T],
    a_log: &[T],
    dt_bias: &[T],
    a_raw: &[T],
    b_raw: &[T],
    q_norm_weight: &[T],
    k_norm_weight: &[T],
    state_in: &[T],
    state_out: &mut Vec<T>,
    y: &mut Vec<T>,
    t_len: &[u32],
    dk: u32,
    dv: u32,
    hv: u32,
    hk: u32,
    batch: u32,
)
    requires
        t_len@.len() >= 1,
        delta_shape(batch, t_len@[0], hk, hv, dk, dv).valid(),
        prep_fits(
            conv_out@,
            a_log@,
            dt_bias@,
            a_raw@,
            b_raw@,
            q_norm_weight@,
            k_norm_weight@,
            delta_shape(batch, t_len@[0], hk, hv, dk, dv),
        ),
        state_in@.len() == delta_shape(batch, t_len@[0], hk, hv, dk, dv).rows() * dk,
        old(state_out)@.len() == state_in@.len(),
        old(y)@.len() == delta_shape(batch, t_len@[0], hk, hv, dk, dv).values(),
    ensures
        ({
            let sh = delta_shape(batch, t_len@[0], hk, hv, dk, dv);
            let tokens = prep_tokens::<S, T>(
                conv_out@,
                a_log@,
                dt_bias@,
                a_raw@,
                b_raw@,
                q_norm_weight@,
                k_norm_weight@,
                sh,
            );
            &&& final(state_out)@ =~= Seq::new(
                old(state_out)@.len(),
                |i: int| state_value(state_in@, tokens, sh, i),
            )
            &&& final(y)@.len() == old(y)@.len()
            &&& forall|i: int|
                0 <= i < final(y)@.len() ==> Some(#[trigger] final(y)@[i]) == y_value(
                    state_in@,
                    tokens,
                    sh,
                    i,
                )
        }),
{
    let sh = DeltaShape {
        batch: batch as usize,
        t: t_len[0] as usize,
        hk: hk as usize,
        hv: hv as usize,
        dk: dk as usize,
        dv: dv as usize,
    };
    let ghost tokens = prep_tokens::<S, T>(
        conv_out@,
        a_log@,
        dt_bias@,
        a_raw@,
        b_raw@,
        q_norm_weight@,
        k_norm_weight@,
        sh,
    );
    let rows = run_rows(
        state_in,
        sh,
        |r: usize, t: usize| -> (tok: Token<S>)
            requires
                r < sh.rows(),
                t < sh.t
            ensures
                tok@ == tokens(r as int, t as int),
                tok@.q.len() == sh.dk,
                tok@.k.len() == sh.dk
            {
                load_prep_token(
                    conv_out,
                    a_log,
                    dt_bias,
                    a_raw,
                    b_raw,
                    q_norm_weight,
                    k_norm_weight,
                    sh,
                    r,
                    t,
                )
            },
        Ghost(tokens),
    );
    store_state(&rows, state_out, sh, Ghost(state_in@), Ghost(tokens));
    store_y(&rows, y, sh, Ghost(state_in@), Ghost(tokens));
}

/// Element `i` of the state after one fused step.
pub open spec fn prep_step_state<S: Scalar, T: Element<S>>(
    tokens: spec_fn(int) -> TokenView<S>,
    state: Seq<T>,
    sh: DeltaShape,
    i: int,
) -> T {
    let r = i / sh.dk as int;
    T::narrowed(
        stepped(state_row::<S, T>(state, sh.dk as int, r), tokens(r))[i % sh.dk as int],
    )
}

/// Element `r` of what one fused step reads.
pub open spec fn prep_step_y<S: Scalar, T: Element<S>>(
    tokens: spec_fn(int) -> TokenView<S>,
    state: Seq<T>,
    sh: DeltaShape,
    r: int,
) -> T {
    T::narrowed(read_of(state_row::<S, T>(state, sh.dk as int, r), tokens(r)))
}

/// What each row sees of the one token of a fused step.
pub open spec fn prep_step_tokens<S: Scalar, T: Element<S>>(
    conv_out: Seq<T>,
    a_log: Seq<T>,
    dt_bias: Seq<T>,
    a_raw: Seq<T>,
    b_raw: Seq<T>,
    q_norm_weight: Seq<T>,
    k_norm_weight: Seq<T>,
    sh: DeltaShape,
) -> spec_fn(int) -> TokenView<S> {
    |r: int|
        prep_token_at(
            conv_out,
            a_log,
            dt_bias,
            a_raw,
            b_raw,
            q_norm_weight,
            k_norm_weight,
            sh,
            r,
            sh.batch_of(r),
        )
}

/// A fused chunk of one token is a fused step.
pub proof fn law_prep_chunk_of_one_is_step<S: Scalar, T: Element<S>>(
    conv_out: Seq<T>,
    a_log: Seq<T>,
    dt_bias: Seq<T>,
    a_raw: Seq<T>,
    b_raw: Seq<T>,
    q_norm_weight: Seq<T>,
    k_norm_weight: Seq<T>,
    state: Seq<T>,
    sh: DeltaShape,
)
    requires
        sh.valid(),
        sh.t == 1,
    ensures
        ({
            let chunk = prep_tokens::<S, T>(
                conv_out,
                a_log,
                dt_bias,
                a_raw,
                b_raw,
                q_norm_weight,
                k_norm_weight,
                sh,
            );
            let step = prep_step_tokens::<S, T>(
                conv_out,
                a_log,
                dt_bias,
                a_raw,
                b_raw,
                q_norm_weight,
                k_norm_weight,
                sh,
            );
            &&& sh.values() == sh.rows()
            &&& forall|i: int|
                0 <= i < sh.rows() * sh.dk ==> #[trigger] state_value(state, chunk, sh, i)
                    == prep_step_state(step, state, sh, i)
            &&& forall|i: int|
                0 <= i < sh.rows() ==> #[trigger] y_value(state, chunk, sh, i) == Some(
                    prep_step_y(step, state, sh, i),
                )
        }),
{
    let chunk = prep_tokens::<S, T>(
        conv_out,
        a_log,
        dt_bias,
        a_raw,
        b_raw,
        q_norm_weight,
        k_norm_weight,
        sh,
    );
    let step = prep_step_tokens::<S, T>(
        conv_out,
        a_log,
        dt_bias,
        a_raw,
        b_raw,
        q_norm_weight,
        k_norm_weight,
        sh,
    );
    assert(sh.batch * sh.t == sh.batch) by (nonlinear_arith)
        requires
            sh.t == 1,
    ;
    assert forall|r: int| 0 <= r < sh.rows() implies #[trigger] chunk(r, 0) == step(r) by {
        let b = sh.batch_of(r);
        assert(b * sh.t + 0 == b) by (nonlinear_arith)
            requires
                sh.t == 1,
        ;
    }
    assert forall|i: int| 0 <= i < sh.rows() * sh.dk implies #[trigger] state_value(
        state,
        chunk,
        sh,
        i,
    ) == prep_step_state(step, state, sh, i) by {
        lemma_split(i, sh.rows(), sh.dk as int);
        let r = i / sh.dk as int;
        reveal_with_fuel(row_after, 2);
        assert(row_tokens(chunk, r)(0) == chunk(r, 0));
    }
    assert forall|i: int| 0 <= i < sh.rows() implies #[trigger] y_value(state, chunk, sh, i)
        == Some(prep_step_y(step, state, sh, i)) by {
        lemma_value(sh, i);
        lemma_row(sh, i);
        assert(sh.row_of_value(i) == i);
        assert(sh.time_of_value(i) == 0);
        assert(row_tokens(chunk, i)(0) == chunk(i, 0));
    }
}

/// The fused rule for one token.
pub fn mt_gated_delta_prep_step<S: Scalar, T: Element<S>>(
    conv_out: &[T],
    a_log: &[T],
    dt_bias: &[T],
    a_raw: &[T],
    b_raw: &[T],
    q_norm_weight: &[T],
    k_norm_weight: &[T],
    state_in: &[T],
    state_out: &mut Vec<T>,
    y: &mut Vec<T>,
    dk: u32,
    dv: u32,
    hv: u32,
    hk: u32,
    batch: u32,
)
    requires
        delta_shape(batch, 1, hk, hv, dk, dv).valid(),
        prep_fits(
            conv_out@,
            a_log@,
            dt_bias@,
            a_raw@,
            b_raw@,
            q_norm_weight@,
            k_norm_weight@,
            delta_shape(batch, 1, hk, hv, dk, dv),
        ),
        state_in@.len() == delta_shape(batch, 1, hk, hv, dk, dv).rows() * dk,
        old(state_out)@.len() == state_in@.len(),
        old(y)@.len() == (batch * hv) * dv,
    ensures
        ({
            let sh = delta_shape(batch, 1, hk, hv, dk, dv);
            let tokens = prep_step_tokens::<S, T>(
                conv_out@,
                a_log@,
                dt_bias@,
                a_raw@,
                b_raw@,
                q_norm_weight@,
                k_norm_weight@,
                sh,
            );
            &&& final(state_out)@ =~= Seq::new(
                old(state_out)@.len(),
                |i: int| prep_step_state(tokens, state_in@, sh, i),
            )
            &&& final(y)@ =~= Seq::new(
                old(y)@.len(),
                |r: int| prep_step_y(tokens, state_in@, sh, r),
            )
        }),
{
    let one_token: [u32; 1] = [1];
    proof {
        law_prep_chunk_of_one_is_step::<S, T>(
            conv_out@,
            a_log@,
            dt_bias@,
            a_raw@,
            b_raw@,
            q_norm_weight@,
            k_norm_weight@,
            state_in@,
            delta_shape(batch, 1, hk, hv, dk, dv),
        );
    }
    mt_gated_delta_prep_chunk(
        conv_out,
        a_log,
        dt_bias,
        a_raw,
        b_raw,
        q_norm_weight,
        k_norm_weight,
        state_in,
        state_out,
        y,
        one_token.as_slice(),
        dk,
        dv,
        hv,
        hk,
        batch,
    );
}

/// The fused rule is the plain rule on prepared inputs: where the buffers hold, as
/// scalars, the normalized queries and keys, the values, the decays and the write
/// strengths, both see the same tokens.
pub proof fn law_fused_is_plain_on_prepared_inputs<S: Scalar>(
    conv_out: Seq<S>,
    a_log: Seq<S>,
    dt_bias: Seq<S>,
    a_raw: Seq<S>,
    b_raw: Seq<S>,
    q_norm_weight: Seq<S>,
    k_norm_weight: Seq<S>,
    q: Seq<S>,
    k: Seq<S>,
    v: Seq<S>,
    g: Seq<S>,
    beta: Seq<S>,
    sh: DeltaShape,
    r: int,
    t: int,
)
    requires
        sh.valid(),
        0 <= r < sh.rows(),
        0 <= t < sh.t,
        ({
            let bt = sh.batch_of(r) * sh.t + t;
            let h = sh.head_of(r);
            let tok = prep_token_at::<S, S>(
                conv_out,
                a_log,
                dt_bias,
                a_raw,
                b_raw,
                q_norm_weight,
                k_norm_weight,
                sh,
                r,
                bt,
            );
            &&& forall|i: int|
                0 <= i < sh.dk ==> #[trigger] q[(bt * sh.hk + sh.key_head(h)) * sh.dk + i]
                    == tok.q[i]
            &&& forall|i: int|
                0 <= i < sh.dk ==> #[trigger] k[(bt * sh.hk + sh.key_head(h)) * sh.dk + i]
                    == tok.k[i]
            &&& v[(bt * sh.hv + h) * sh.dv + sh.dim_of(r)] == tok.v
            &&& g[bt * sh.hv + h] == tok.g
            &&& beta[bt * sh.hv + h] == tok.beta
        }),
    ensures
        chunk_tokens::<S, S>(q, k, v, g, beta, sh)(r, t) == prep_tokens::<S, S>(
            conv_out,
            a_log,
            dt_bias,
            a_raw,
            b_raw,
            q_norm_weight,
            k_norm_weight,
            sh,
        )(r, t),
{
    assert(chunk_token::<S, S>(q, k, v, g, beta, sh, r, t) =~= prep_tokens::<S, S>(
        conv_out,
        a_log,
        dt_bias,
        a_raw,
        b_raw,
        q_norm_weight,
        k_norm_weight,
        sh,
    )(r, t));
}

} // verus!
