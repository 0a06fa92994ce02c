//! What the gated delta launches do to a single row, with every buffer read at its own
//! index.
//!
//! Row `d` of value head `h` in batch `b` reads key head `h / (hv / hk)`. The laws hold of
//! scalars that add in any order; where a state is stored and read again, elements are
//! scalars.
use vstd::prelude::*;

use crate::algebra::{law_simd_dot_is_the_dot_product, ring, sums_freely};
use crate::exact::{law_delta_is_the_rule, law_delta_without_gate_is_identity};
use crate::gated_delta::{
    chunk_token, chunk_tokens, delta_of, delta_shape, lemma_row, lemma_value, lemma_value_position,
    row_after, row_tokens, state_row, state_value, step_state, step_token, step_y, stepped, y_value,
    DeltaShape, TokenView,
};
use crate::gated_delta_prep::{head_normed, prep_tokens, row_at};
use crate::gated_delta_replay::{
    law_nothing_accepted_is_identity, law_replay_stops_at_accepted, record_tokens, replay_value,
    shape_d192_128_4_4, shape_d64_32_2_2, tape_view, TapeView,
};
use crate::gated_delta_steps::{
    keeps_scalars, law_chunk_is_its_steps, single, state_after_steps, token_of,
};
use crate::lanes::{accumulate, lemma_accumulate_same};
use crate::layout::{lemma_row_major, lemma_row_major_inverse, lemma_split};
use crate::scalar::{minus, one, over, plus, times, zero, Element, Fun, Scalar};

verus! {

proof fn lemma_row_place(sh: DeltaShape, b: int, h: int, d: int)
    requires
        sh.valid(),
        0 <= b < sh.batch,
        0 <= h < sh.hv,
        0 <= d < sh.dv,
    ensures
        ({
            let r = (b * sh.hv + h) * sh.dv + d;
            &&& 0 <= r < sh.rows()
            &&& r / sh.dv as int == b * sh.hv + h
            &&& sh.batch_of(r) == b
            &&& sh.head_of(r) == h
            &&& sh.dim_of(r) == d
        }),
{
    lemma_row_major(b, sh.batch as int, h, sh.hv as int);
    lemma_row_major(b * sh.hv + h, sh.batch * sh.hv, d, sh.dv as int);
    lemma_row_major_inverse(b * sh.hv + h, d, sh.dv as int);
    lemma_row_major_inverse(b, h, sh.hv as int);
}

/// A decode step decays the row of head `h`, reads it at the key of head `h / (hv / hk)`,
/// moves it along that key towards the row's value, and reads it at that head's query.
pub proof fn law_step_moves_its_row<S: Scalar, T: Element<S>>(
    q: Seq<T>,
    k: Seq<T>,
    v: Seq<T>,
    g: Seq<T>,
    beta: Seq<T>,
    state: Seq<T>,
    dk: u32,
    dv: u32,
    hv: u32,
    hk: u32,
    batch: u32,
    b: int,
    h: int,
    d: int,
    j: int,
)
    requires
        sums_freely::<S>(),
        delta_shape(batch, 1, hk, hv, dk, dv).valid(),
        0 <= b < batch,
        0 <= h < hv,
        0 <= d < dv,
        0 <= j < dk,
    ensures
        ({
            let n = b * hv + h;
            let r = n * dv + d;
            let at = (b * hk + h / (hv as int / hk as int)) * dk;
            let held = |i: int| times(state[r * dk + i].widened(), g[n].widened());
            let known = accumulate(
                zero(),
                |i: int| times(held(i), k[at + i].widened()),
                dk as int,
            );
            let moved = times(minus(v[r].widened(), known), beta[n].widened());
            let next = |i: int| plus(held(i), times(k[at + i].widened(), moved));
            let sh = delta_shape(batch, 1, hk, hv, dk, dv);
            &&& step_state::<S, T>(q, k, v, g, beta, state, sh, r * dk + j) == T::narrowed(next(j))
            &&& step_y::<S, T>(q, k, v, g, beta, state, sh, r) == T::narrowed(
                accumulate(zero(), |i: int| times(next(i), q[at + i].widened()), dk as int),
            )
        }),
{
    let sh = delta_shape(batch, 1, hk, hv, dk, dv);
    let n = b * hv + h;
    let r = n * dv + d;
    let at = (b * hk + h / (hv as int / hk as int)) * dk;
    let held = |i: int| times(state[r * dk + i].widened(), g[n].widened());
    let known = accumulate(zero(), |i: int| times(held(i), k[at + i].widened()), dk as int);
    let moved = times(minus(v[r].widened(), known), beta[n].widened());
    let next = |i: int| plus(held(i), times(k[at + i].widened(), moved));
    lemma_row_place(sh, b, h, d);
    lemma_row_major_inverse(r, j, dk as int);
    let row = state_row::<S, T>(state, dk as int, r);
    let tok = step_token::<S, T>(q, k, v, g, beta, sh, r);
    law_delta_is_the_rule(row, tok);
    lemma_accumulate_same(
        zero(),
        |i: int| times(times(row[i], tok.g), tok.k[i]),
        |i: int| times(held(i), k[at + i].widened()),
        dk as int,
    );
    assert(delta_of(row, tok) == moved);
    assert forall|i: int| 0 <= i < dk implies #[trigger] stepped(row, tok)[i] == next(i) by {}
    lemma_accumulate_same(
        zero(),
        |i: int| times(stepped(row, tok)[i], tok.q[i]),
        |i: int| times(next(i), q[at + i].widened()),
        dk as int,
    );
}

/// A chunk writes what its token `t` reads for head `h`, dimension `d` of batch `b` to
/// element `((b * t_len + t) * hv + h) * dv + d`: what a step on that token reads, from the
/// state that the steps on the tokens before it leave.
pub proof fn law_chunk_places_its_reads<S: Scalar, T: Element<S>>(
    q: Seq<T>,
    k: Seq<T>,
    v: Seq<T>,
    g: Seq<T>,
    beta: Seq<T>,
    state: Seq<T>,
    dk: u32,
    dv: u32,
    hv: u32,
    hk: u32,
    batch: u32,
    t_len: u32,
    b: int,
    t: int,
    h: int,
    d: int,
)
    requires
        keeps_scalars::<S, T>(),
        delta_shape(batch, t_len, hk, hv, dk, dv).valid(),
        state.len() == ((batch * hv) * dv) * dk,
        0 <= b < batch,
        0 <= t < t_len,
        0 <= h < hv,
        0 <= d < dv,
    ensures
        ({
            let sh = delta_shape(batch, t_len, hk, hv, dk, dv);
            y_value(
                state,
                chunk_tokens::<S, T>(q, k, v, g, beta, sh),
                sh,
                ((b * t_len + t) * hv + h) * dv + d,
            ) == Some(
                step_y::<S, T>(
                    token_of(q, sh, hk * dk, t),
                    token_of(k, sh, hk * dk, t),
                    token_of(v, sh, hv * dv, t),
                    token_of(g, sh, hv as int, t),
                    token_of(beta, sh, hv as int, t),
                    state_after_steps::<S, T>(q, k, v, g, beta, state, sh, t),
                    delta_shape(batch, 1, hk, hv, dk, dv),
                    (b * hv + h) * dv + d,
                ),
            )
        }),
{
    let sh = delta_shape(batch, t_len, hk, hv, dk, dv);
    law_chunk_is_its_steps::<S, T>(q, k, v, g, beta, state, sh);
    lemma_row_place(sh, b, h, d);
    lemma_value_position(sh, (b * hv + h) * dv + d, t);
    assert(single(sh) == delta_shape(batch, 1, hk, hv, dk, dv));
}

proof fn lemma_masked_rows<S: Scalar>(
    state: Seq<S>,
    a: spec_fn(int) -> TokenView<S>,
    c: spec_fn(int) -> TokenView<S>,
    t: int,
)
    requires
        ring::<S>(),
        forall|u: int|
            0 <= u < t ==> (#[trigger] c(u)).live && if a(u).live {
                c(u) == a(u)
            } else {
                c(u).g == one::<S>() && c(u).beta == zero::<S>()
            },
    ensures
        row_after(state, a, t) == row_after(state, c, t),
    decreases t,
{
    if t > 0 {
        lemma_masked_rows(state, a, c, t - 1);
        let before = row_after(state, c, t - 1);
        assert(c(t - 1).live);
        if !a(t - 1).live {
            law_delta_without_gate_is_identity(before, c(t - 1));
        }
    }
}

/// A token that the mask holds back does what a token with decay one and strength zero
/// does: the recording pass leaves the state of a plain chunk in which the entries
/// `(b * t_len + t) * hv + h` of the held-back tokens are replaced by these, and writes
/// what the tokens that pass read there.
pub proof fn law_held_back_token_does_nothing<S: Scalar>(
    q: Seq<S>,
    k: Seq<S>,
    v: Seq<S>,
    g: Seq<S>,
    beta: Seq<S>,
    state: Seq<S>,
    mask: Seq<u32>,
    has_mask: u32,
    sh: DeltaShape,
    b: int,
    h: int,
    d: int,
    other_g: Seq<S>,
    other_beta: Seq<S>,
)
    requires
        ring::<S>(),
        sh.valid(),
        0 <= b < sh.batch,
        0 <= h < sh.hv,
        0 <= d < sh.dv,
        forall|t: int|
            #![trigger mask[b * sh.t + t]]
            0 <= t < sh.t ==> {
                let at = (b * sh.t + t) * sh.hv + h;
                if has_mask == 0 || mask[b * sh.t + t] > 0 {
                    other_g[at] == g[at] && other_beta[at] == beta[at]
                } else {
                    other_g[at] == one::<S>() && other_beta[at] == zero::<S>()
                }
            },
    ensures
        forall|j: int|
            0 <= j < sh.dk ==> #[trigger] state_value(
                state,
                record_tokens::<S, S>(q, k, v, g, beta, mask, has_mask, sh),
                sh,
                ((b * sh.hv + h) * sh.dv + d) * sh.dk + j,
            ) == state_value(
                state,
                chunk_tokens::<S, S>(q, k, v, other_g, other_beta, sh),
                sh,
                ((b * sh.hv + h) * sh.dv + d) * sh.dk + j,
            ),
        forall|t: int|
            0 <= t < sh.t ==> #[trigger] y_value(
                state,
                record_tokens::<S, S>(q, k, v, g, beta, mask, has_mask, sh),
                sh,
                ((b * sh.t + t) * sh.hv + h) * sh.dv + d,
            ) == if has_mask == 0 || mask[b * sh.t + t] > 0 {
                y_value(
                    state,
                    chunk_tokens::<S, S>(q, k, v, other_g, other_beta, sh),
                    sh,
                    ((b * sh.t + t) * sh.hv + h) * sh.dv + d,
                )
            } else {
                None
            },
{
    let r = (b * sh.hv + h) * sh.dv + d;
    lemma_row_place(sh, b, h, d);
    let row = state_row::<S, S>(state, sh.dk as int, r);
    let taped = record_tokens::<S, S>(q, k, v, g, beta, mask, has_mask, sh);
    let plain = chunk_tokens::<S, S>(q, k, v, other_g, other_beta, sh);
    let a = row_tokens(taped, r);
    let c = row_tokens(plain, r);
    assert forall|u: int| 0 <= u < sh.t implies (#[trigger] c(u)).live && if a(u).live {
        c(u) == a(u)
    } else {
        c(u).g == one::<S>() && c(u).beta == zero::<S>()
    } by {
        let held = mask[b * sh.t + u];
    }
    assert forall|j: int| 0 <= j < sh.dk implies #[trigger] state_value(
        state,
        taped,
        sh,
        r * sh.dk + j,
    ) == state_value(state, plain, sh, r * sh.dk + j) by {
        lemma_row_major_inverse(r, j, sh.dk as int);
        lemma_masked_rows(row, a, c, sh.t as int);
    }
    assert forall|t: int| 0 <= t < sh.t implies #[trigger] y_value(
        state,
        taped,
        sh,
        ((b * sh.t + t) * sh.hv + h) * sh.dv + d,
    ) == if has_mask == 0 || mask[b * sh.t + t] > 0 {
        y_value(state, plain, sh, ((b * sh.t + t) * sh.hv + h) * sh.dv + d)
    } else {
        None
    } by {
        lemma_value_position(sh, r, t);
        lemma_masked_rows(row, a, c, t);
        assert(c(t).live);
        assert(a(t).live == (has_mask == 0 || mask[b * sh.t + t] > 0));
    }
}

proof fn lemma_same_replay<S: Scalar>(
    x: TapeView<S>,
    y: TapeView<S>,
    sh: DeltaShape,
    r: int,
    j: int,
    start: S,
    t: int,
)
    requires
        x.delta == y.delta,
        x.k == y.k,
        x.g == y.g,
        x.mask == y.mask,
        x.has_mask == y.has_mask,
        t <= x.accepted,
        t <= y.accepted,
    ensures
        x.replayed(sh, r, j, start, t) == y.replayed(sh, r, j, start, t),
    decreases t,
{
    if t > 0 {
        lemma_same_replay(x, y, sh, r, j, start, t - 1);
    }
}

/// Replaying with nothing accepted gives the snapshot; accepting one token more decays
/// the element by `g_log[(b * t_len + t) * hv + h]` and adds the token's key entry times
/// its recorded delta, unless the mask holds the token back; accepting more tokens than
/// there are changes nothing further.
pub proof fn law_replay_folds_one_more<S: Scalar>(
    delta_log: Seq<S>,
    k_log: Seq<S>,
    g_log: Seq<S>,
    state: Seq<S>,
    mask: Seq<u32>,
    has_mask: u32,
    sh: DeltaShape,
    b: int,
    h: int,
    d: int,
    j: int,
    accepted: u32,
)
    requires
        sh.valid(),
        0 <= b < sh.batch,
        0 <= h < sh.hv,
        0 <= d < sh.dv,
        0 <= j < sh.dk,
        accepted < u32::MAX,
    ensures
        ({
            let i = ((b * sh.hv + h) * sh.dv + d) * sh.dk + j;
            let after = |n: u32|
                replay_value::<S, S>(
                    tape_view(delta_log, k_log, g_log, mask, n, has_mask),
                    state,
                    sh,
                    i,
                );
            let n = (b * sh.t + accepted) * sh.hv + h;
            &&& after(0) == state[i]
            &&& after((accepted + 1) as u32) == if accepted < sh.t && (has_mask == 0
                || mask[b * sh.t + accepted] > 0) {
                plus(
                    times(after(accepted), g_log[n]),
                    times(k_log[n * sh.dk + j], delta_log[n * sh.dv + d]),
                )
            } else {
                after(accepted)
            }
        }),
{
    let r = (b * sh.hv + h) * sh.dv + d;
    let i = r * sh.dk + j;
    let start = state[i];
    lemma_row_place(sh, b, h, d);
    lemma_row_major_inverse(r, j, sh.dk as int);
    let none = tape_view(delta_log, k_log, g_log, mask, 0, has_mask);
    let less = tape_view(delta_log, k_log, g_log, mask, accepted, has_mask);
    let more = tape_view(delta_log, k_log, g_log, mask, (accepted + 1) as u32, has_mask);
    law_nothing_accepted_is_identity(none, sh, r, j, start, sh.t as int);
    if accepted < sh.t {
        law_replay_stops_at_accepted(less, sh, r, j, start, sh.t as int);
        law_replay_stops_at_accepted(more, sh, r, j, start, sh.t as int);
        lemma_same_replay(less, more, sh, r, j, start, accepted as int);
    } else {
        lemma_same_replay(less, more, sh, r, j, start, sh.t as int);
    }
}

/// Element `i` of a head of length `n` at `at` in `x`, normalized: over the root of the
/// mean of the head's squares and a millionth, times the weight at `wt`.
pub open spec fn head_over_root<S: Scalar>(
    x: Seq<S>,
    at: int,
    w: Seq<S>,
    wt: int,
    n: u32,
    i: int,
) -> S {
    let squares = accumulate(zero(), |c: int| times(x[at + c], x[at + c]), n as int);
    let root = S::applied(
        Fun::Rsqrt,
        plus(over(squares, S::natural(n)), S::rational(1, 1000000)),
    );
    times(times(x[at + i], root), w[wt + i])
}

proof fn lemma_prepared_head<S: Scalar>(
    x: Seq<S>,
    at: int,
    w: Seq<S>,
    wt: int,
    n: u32,
    made: Seq<S>,
    mt: int,
)
    requires
        sums_freely::<S>(),
        n % 32 == 0,
        forall|i: int|
            0 <= i < n ==> #[trigger] made[mt + i] == head_over_root(x, at, w, wt, n, i),
    ensures
        Seq::new(n as nat, |i: int| made[mt + i].widened()) =~= head_normed(
            row_at::<S, S>(x, at, n as int),
            row_at::<S, S>(w, wt, n as int),
        ),
{
    let row = row_at::<S, S>(x, at, n as int);
    law_simd_dot_is_the_dot_product(row, row);
    lemma_accumulate_same(
        zero(),
        |c: int| times(row[c], row[c]),
        |c: int| times(x[at + c], x[at + c]),
        n as int,
    );
}

/// A fused chunk is a plain chunk on the inputs it prepares. A token's convolution output
/// holds its queries, its keys and its values, in this order. Queries and keys are
/// normalized per key head; the decay is
/// `exp(-exp(a_log[h]) * log(1 + exp(a_raw + dt_bias[h])))` and the strength is
/// `1 / (1 + exp(-b_raw))`, with the raw numbers of token `b * t_len + t` and head `h`.
pub proof fn law_fused_chunk_prepares_its_inputs<S: Scalar>(
    conv_out: Seq<S>,
    a_log: Seq<S>,
    dt_bias: Seq<S>,
    a_raw: Seq<S>,
    b_raw: Seq<S>,
    q_norm_weight: Seq<S>,
    k_norm_weight: Seq<S>,
    state: Seq<S>,
    dk: u32,
    dv: u32,
    hv: u32,
    hk: u32,
    batch: u32,
    t_len: u32,
    q: Seq<S>,
    k: Seq<S>,
    v: Seq<S>,
    g: Seq<S>,
    beta: Seq<S>,
)
    requires
        sums_freely::<S>(),
        delta_shape(batch, t_len, hk, hv, dk, dv).valid(),
        forall|bt: int, c: int, i: int|
            0 <= bt < batch * t_len && 0 <= c < hk && 0 <= i < dk ==> #[trigger] q[(bt * hk + c)
                * dk + i] == head_over_root(
                conv_out,
                bt * (2 * (hk * dk) + hv * dv) + c * dk,
                q_norm_weight,
                c * dk,
                dk,
                i,
            ),
        forall|bt: int, c: int, i: int|
            0 <= bt < batch * t_len && 0 <= c < hk && 0 <= i < dk ==> #[trigger] k[(bt * hk + c)
                * dk + i] == head_over_root(
                conv_out,
                bt * (2 * (hk * dk) + hv * dv) + hk * dk + c * dk,
                k_norm_weight,
                c * dk,
                dk,
                i,
            ),
        forall|bt: int, h: int, d: int|
            0 <= bt < batch * t_len && 0 <= h < hv && 0 <= d < dv ==> #[trigger] v[(bt * hv + h)
                * dv + d] == conv_out[bt * (2 * (hk * dk) + hv * dv) + 2 * (hk * dk) + h * dv
                + d],
        forall|bt: int, h: int|
            0 <= bt < batch * t_len && 0 <= h < hv ==> {
                &&& #[trigger] g[bt * hv + h] == S::applied(
                    Fun::Exp,
                    minus(
                        zero(),
                        times(
                            S::applied(Fun::Exp, a_log[h]),
                            S::applied(
                                Fun::Log,
                                plus(
                                    S::applied(Fun::Exp, plus(a_raw[bt * hv + h], dt_bias[h])),
                                    one(),
                                ),
                            ),
                        ),
                    ),
                )
                &&& beta[bt * hv + h] == over(
                    one(),
                    plus(one(), S::applied(Fun::Exp, minus(zero(), b_raw[bt * hv + h]))),
                )
            },
    ensures
        ({
            let sh = delta_shape(batch, t_len, hk, hv, dk, dv);
            let fused = prep_tokens::<S, S>(
                conv_out,
                a_log,
                dt_bias,
                a_raw,
                b_raw,
                q_norm_weight,
                k_norm_weight,
                sh,
            );
            let plain = chunk_tokens::<S, S>(q, k, v, g, beta, sh);
            &&& forall|i: int|
                0 <= i < ((batch * hv) * dv) * dk ==> #[trigger] state_value(state, fused, sh, i)
                    == state_value(state, plain, sh, i)
            &&& forall|i: int|
                0 <= i < ((batch * t_len) * hv) * dv ==> #[trigger] y_value(state, fused, sh, i)
                    == y_value(state, plain, sh, i)
        }),
{
    let sh = delta_shape(batch, t_len, hk, hv, dk, dv);
    let fused = prep_tokens::<S, S>(
        conv_out,
        a_log,
        dt_bias,
        a_raw,
        b_raw,
        q_norm_weight,
        k_norm_weight,
        sh,
    );
    let plain = chunk_tokens::<S, S>(q, k, v, g, beta, sh);
    assert forall|r: int, t: int| 0 <= r < sh.rows() && 0 <= t < sh.t implies #[trigger] fused(
        r,
        t,
    ) == plain(r, t) by {
        lemma_row(sh, r);
        let b = sh.batch_of(r);
        let h = sh.head_of(r);
        let c = sh.key_head(h);
        let d = sh.dim_of(r);
        let bt = b * sh.t + t;
        lemma_row_major(b, sh.batch as int, t, sh.t as int);
        let base = bt * (2 * (hk * dk) + hv * dv);
        let mt = (bt * hk + c) * dk;
        assert forall|i: int| 0 <= i < dk implies #[trigger] q[mt + i] == head_over_root(
            conv_out,
            base + c * dk,
            q_norm_weight,
            c * dk,
            dk,
            i,
        ) by {
            let there = q[(bt * hk + c) * dk + i];
        }
        assert forall|i: int| 0 <= i < dk implies #[trigger] k[mt + i] == head_over_root(
            conv_out,
            base + hk * dk + c * dk,
            k_norm_weight,
            c * dk,
            dk,
            i,
        ) by {
            let there = k[(bt * hk + c) * dk + i];
        }
        lemma_prepared_head(conv_out, base + c * dk, q_norm_weight, c * dk, dk, q, mt);
        lemma_prepared_head(conv_out, base + hk * dk + c * dk, k_norm_weight, c * dk, dk, k, mt);
        let value = v[(bt * hv + h) * dv + d];
        let gate = g[bt * hv + h];
        assert(chunk_token::<S, S>(q, k, v, g, beta, sh, r, t) =~= fused(r, t));
    }
    assert forall|i: int| 0 <= i < sh.rows() * sh.dk implies #[trigger] state_value(
        state,
        fused,
        sh,
        i,
    ) == state_value(state, plain, sh, i) by {
        lemma_split(i, sh.rows(), sh.dk as int);
        let r = i / sh.dk as int;
        lemma_same_rows(
            state_row::<S, S>(state, sh.dk as int, r),
            row_tokens(fused, r),
            row_tokens(plain, r),
            sh.t as int,
        );
    }
    assert forall|i: int| 0 <= i < sh.values() implies #[trigger] y_value(state, fused, sh, i)
        == y_value(state, plain, sh, i) by {
        lemma_value(sh, i);
        let r = sh.row_of_value(i);
        lemma_same_rows(
            state_row::<S, S>(state, sh.dk as int, r),
            row_tokens(fused, r),
            row_tokens(plain, r),
            sh.time_of_value(i),
        );
        assert(fused(r, sh.time_of_value(i)) == plain(r, sh.time_of_value(i)));
    }
}

proof fn lemma_same_rows<S: Scalar>(
    state: Seq<S>,
    a: spec_fn(int) -> TokenView<S>,
    c: spec_fn(int) -> TokenView<S>,
    t: int,
)
    requires
        forall|u: int| 0 <= u < t ==> #[trigger] a(u) == c(u),
    ensures
        row_after(state, a, t) == row_after(state, c, t),
    decreases t,
{
    if t > 0 {
        lemma_same_rows(state, a, c, t - 1);
        assert(a(t - 1) == c(t - 1));
    }
}

/// The kernels of fixed extents are the general rule on four heads of 192-wide keys and
/// 128-wide values, and on two heads of 64-wide keys and 32-wide values.
pub proof fn law_fixed_extents(batch: u32, t: u32)
    ensures
        shape_d192_128_4_4(batch, t) == delta_shape(batch, t, 4, 4, 192, 128),
        shape_d64_32_2_2(batch, t) == delta_shape(batch, t, 2, 2, 64, 32),
{
}

} // verus!
