//! Rollback of the gated delta rule: the forward pass records how far each token
//! moved its rows, and the accepted prefix of that tape is folded onto a snapshot.
//!
//! The tape holds deltas `[batch, t, hv, dv]`, keys `[batch, t, hv, dk]`, one row
//! per value head, and decays `[batch, t, hv]`.
use vstd::prelude::*;

use crate::gated_delta::{
    chunk_fits, chunk_token, delta_of, delta_value, lemma_row, lemma_row_len, lemma_value_position,
    load_token, row_after, row_tokens, run_rows, state_row, state_value, store_delta, store_state,
    store_y, y_value, DeltaShape, Token, TokenView,
};
use crate::lanes::{collect, launch};
use crate::layout::{flat, flat3, lemma_len_fits, lemma_mul_at_least, lemma_row_major, lemma_split};
use crate::noise::{draw, src};
use crate::scalar::{plus, s_add, s_mul, times, Element, Scalar};

verus! {

/// The mask lets token `at` pass.
pub open spec fn passes(mask: Seq<u32>, has_mask: u32, at: int) -> bool {
    has_mask == 0 || mask[at] > 0
}

/// What row `r` sees of token `t`: a masked token is not live.
pub open spec fn record_token<S: Scalar, T: Element<S>>(
    q: Seq<T>,
    k: Seq<T>,
    v: Seq<T>,
    g: Seq<T>,
    beta: Seq<T>,
    mask: Seq<u32>,
    has_mask: u32,
    sh: DeltaShape,
    r: int,
    t: int,
) -> TokenView<S> {
    let tok = chunk_token(q, k, v, g, beta, sh, r, t);
    TokenView {
        q: tok.q,
        k: tok.k,
        v: tok.v,
        g: tok.g,
        beta: tok.beta,
        live: passes(mask, has_mask, sh.batch_of(r) * sh.t + t),
    }
}

pub open spec fn record_tokens<S: Scalar, T: Element<S>>(
    q: Seq<T>,
    k: Seq<T>,
    v: Seq<T>,
    g: Seq<T>,
    beta: Seq<T>,
    mask: Seq<u32>,
    has_mask: u32,
    sh: DeltaShape,
) -> spec_fn(int, int) -> TokenView<S> {
    |r: int, t: int| record_token(q, k, v, g, beta, mask, has_mask, sh, r, t)
}

/// The forward pass over `sh.t` tokens, recording the deltas.
pub fn record<S: Scalar, T: Element<S>>(
    q: &[T],
    k: &[T],
    v: &[T],
    g: &[T],
    beta: &[T],
    state_in: &[T],
    mask: &[u32],
    y: &mut Vec<T>,
    state_out: &mut Vec<T>,
    delta_log: &mut Vec<T>,
    has_mask: u32,
    sh: DeltaShape,
)
    requires
        sh.valid(),
        chunk_fits(q@, k@, v@, g@, beta@, sh),
        has_mask != 0 ==> mask@.len() >= sh.batch * sh.t,
        state_in@.len() == sh.rows() * sh.dk,
        old(state_out)@.len() == state_in@.len(),
        old(y)@.len() == v@.len(),
        old(delta_log)@.len() == v@.len(),
    ensures
        ({
            let tokens = record_tokens::<S, T>(q@, k@, v@, g@, beta@, mask@, has_mask, sh);
            &&& final(state_out)@ =~= Seq::new(
                old(state_out)@.len(),
                |i: int| state_value(state_in@, tokens, sh, i),
            )
            &&& final(y)@ =~= Seq::new(
                old(y)@.len(),
                |i: int|
                    match y_value(state_in@, tokens, sh, i) {
                        Some(v) => v,
                        None => old(y)@[i],
                    },
            )
            &&& final(delta_log)@ =~= Seq::new(
                old(delta_log)@.len(),
                |i: int|
                    match delta_value(state_in@, tokens, sh, i) {
                        Some(v) => v,
                        None => old(delta_log)@[i],
                    },
            )
        }),
{
    let ghost tokens = record_tokens::<S, T>(q@, k@, v@, g@, beta@, mask@, has_mask, sh);
    let rows = run_rows(
        state_in,
        sh,
        |r: usize, t: usize| -> (tok: Token<S>)
            requires
                r < sh.rows(),
                t < sh.t
            ensures
                tok@ == record_token(
                    q@,
                    k@,
                    v@,
                    g@,
                    beta@,
                    mask@,
                    has_mask,
                    sh,
                    r as int,
                    t as int,
                ),
                tok@.q.len() == sh.dk,
                tok@.k.len() == sh.dk
            {
                let loaded = load_token(q, k, v, g, beta, sh, r, t);
                proof {
                    lemma_row(sh, r as int);
                    lemma_len_fits(mask);
                }
                let b: usize = r / sh.dv / sh.hv;
                let live: bool = has_mask == 0 || mask[flat(b, t, sh.t, Ghost(sh.batch as int))]
                    > 0;
                Token {
                    q: loaded.q,
                    k: loaded.k,
                    v: loaded.v,
                    g: loaded.g,
                    beta: loaded.beta,
                    live,
                }
            },
        Ghost(tokens),
    );
    store_state(&rows, state_out, sh, Ghost(state_in@), Ghost(tokens));
    store_y(&rows, y, sh, Ghost(state_in@), Ghost(tokens));
    store_delta(&rows, delta_log, sh, Ghost(state_in@), Ghost(tokens));
}

/// A tape, as far as it is accepted.
#[verifier::ext_equal]
pub struct TapeView<T> {
    pub delta: Seq<T>,
    pub k: Seq<T>,
    pub g: Seq<T>,
    pub mask: Seq<u32>,
    pub has_mask: u32,
    pub accepted: int,
}

impl<T> TapeView<T> {
    /// Token `t` of batch `b` is folded in.
    pub open spec fn folds(self, sh: DeltaShape, b: int, t: int) -> bool {
        t < self.accepted && passes(self.mask, self.has_mask, b * sh.t + t)
    }

    /// Element `j` of row `r` after token `t`, if it was `old_value` before.
    pub open spec fn folded<S: Scalar>(self, sh: DeltaShape, r: int, j: int, t: int, old_value: S) -> S
        where T: Element<S>
    {
        let bt = sh.batch_of(r) * sh.t + t;
        let h = sh.head_of(r);
        if self.folds(sh, sh.batch_of(r), t) {
            plus(
                times(old_value, self.g[bt * sh.hv + h].widened()),
                times(
                    self.k[(bt * sh.hv + h) * sh.dk + j].widened(),
                    self.delta[(bt * sh.hv + h) * sh.dv + sh.dim_of(r)].widened(),
                ),
            )
        } else {
            old_value
        }
    }

    /// Element `j` of row `r` after `t` tokens of the tape, starting from `start`.
    pub open spec fn replayed<S: Scalar>(self, sh: DeltaShape, r: int, j: int, start: S, t: int) -> S
        where T: Element<S>
        decreases t,
    {
        if t <= 0 {
            start
        } else {
            self.folded(sh, r, j, t - 1, self.replayed(sh, r, j, start, t - 1))
        }
    }
}

/// The lengths of a tape.
pub open spec fn tape_fits<T>(tape: TapeView<T>, sh: DeltaShape) -> bool {
    &&& tape.delta.len() == sh.values()
    &&& tape.k.len() == ((sh.batch * sh.t) * sh.hv) * sh.dk
    &&& tape.g.len() == (sh.batch * sh.t) * sh.hv
    &&& tape.has_mask != 0 ==> tape.mask.len() >= sh.batch * sh.t
}

/// Element `i` of the state after the accepted prefix of a tape.
pub open spec fn replay_value<S: Scalar, T: Element<S>>(
    tape: TapeView<T>,
    state: Seq<T>,
    sh: DeltaShape,
    i: int,
) -> T {
    T::narrowed(
        tape.replayed::<S>(
            sh,
            i / sh.dk as int,
            i % sh.dk as int,
            state[i].widened(),
            sh.t as int,
        ),
    )
}

/// Folds the accepted prefix of a tape onto a snapshot.
pub fn replay<S: Scalar, T: Element<S>>(
    delta_log: &[T],
    k_log: &[T],
    g_log: &[T],
    state_in: &[T],
    mask: &[u32],
    state_out: &mut Vec<T>,
    accepted: u32,
    has_mask: u32,
    sh: DeltaShape,
)
    requires
        sh.valid(),
        tape_fits(tape_view(delta_log@, k_log@, g_log@, mask@, accepted, has_mask), sh),
        state_in@.len() == sh.rows() * sh.dk,
        old(state_out)@.len() == state_in@.len(),
    ensures
        final(state_out)@ =~= Seq::new(
            old(state_out)@.len(),
            |i: int|
                replay_value::<S, T>(
                    tape_view(delta_log@, k_log@, g_log@, mask@, accepted, has_mask),
                    state_in@,
                    sh,
                    i,
                ),
        ),
{
    let ghost tape = tape_view(delta_log@, k_log@, g_log@, mask@, accepted, has_mask);
    let ghost n = state_out@.len();
    launch(
        state_out,
        |i: usize| -> (v: T)
            requires
                i < n
            ensures
                v == replay_value::<S, T>(tape, state_in@, sh, i as int)
            {
                proof {
                    lemma_split(i as int, sh.rows(), sh.dk as int);
                }
                let start = state_in[i].widen();
                T::narrow(
                    &replay_element(
                        delta_log,
                        k_log,
                        g_log,
                        mask,
                        accepted,
                        has_mask,
                        sh,
                        i / sh.dk,
                        i % sh.dk,
                        start,
                    ),
                )
            },
        Ghost(|i: int| replay_value::<S, T>(tape, state_in@, sh, i)),
    );
}

pub open spec fn tape_view<T>(
    delta_log: Seq<T>,
    k_log: Seq<T>,
    g_log: Seq<T>,
    mask: Seq<u32>,
    accepted: u32,
    has_mask: u32,
) -> TapeView<T> {
    TapeView {
        delta: delta_log,
        k: k_log,
        g: g_log,
        mask,
        has_mask,
        accepted: accepted as int,
    }
}

/// Folds the tape onto element `j` of row `r`.
fn replay_element<S: Scalar, T: Element<S>>(
    delta_log: &[T],
    k_log: &[T],
    g_log: &[T],
    mask: &[u32],
    accepted: u32,
    has_mask: u32,
    sh: DeltaShape,
    r: usize,
    j: usize,
    start: S,
) -> (s: S)
    requires
        sh.valid(),
        tape_fits(tape_view(delta_log@, k_log@, g_log@, mask@, accepted, has_mask), sh),
        r < sh.rows(),
        j < sh.dk,
    ensures
        s == tape_view(delta_log@, k_log@, g_log@, mask@, accepted, has_mask).replayed(
            sh,
            r as int,
            j as int,
            start,
            sh.t as int,
        ),
{
    let ghost tape = tape_view(delta_log@, k_log@, g_log@, mask@, accepted, has_mask);
    let ghost first = start;
    proof {
        lemma_row(sh, r as int);
        lemma_len_fits(delta_log);
        lemma_len_fits(k_log);
        lemma_len_fits(g_log);
        lemma_mul_at_least(sh.batch * sh.t, sh.hv as int);
    }
    let b: usize = r / sh.dv / sh.hv;
    let h: usize = r / sh.dv % sh.hv;
    let d: usize = r % sh.dv;
    let mut s = start;
    let mut t: usize = 0;
    while t < sh.t
        invariant
            t <= sh.t,
            sh.valid(),
            tape == tape_view(delta_log@, k_log@, g_log@, mask@, accepted, has_mask),
            tape_fits(tape, sh),
            delta_log@.len() <= usize::MAX,
            k_log@.len() <= usize::MAX,
            g_log@.len() <= usize::MAX,
            sh.batch * sh.t <= (sh.batch * sh.t) * sh.hv,
            b == sh.batch_of(r as int),
            h == sh.head_of(r as int),
            d == sh.dim_of(r as int),
            b < sh.batch,
            h < sh.hv,
            d < sh.dv,
            j < sh.dk,
            s == tape.replayed(sh, r as int, j as int, first, t as int),
        decreases sh.t - t,
    {
        let bt: usize = flat(b, t, sh.t, Ghost(sh.batch as int));
        proof {
            lemma_row_major(b as int, sh.batch as int, t as int, sh.t as int);
        }
        let passed: bool = has_mask == 0 || mask[bt] > 0;
        let g = g_log[flat(bt, h, sh.hv, Ghost(sh.batch * sh.t))].widen();
        let delta = delta_log[flat3(bt, h, sh.hv, d, sh.dv, Ghost(sh.batch * sh.t))].widen();
        let k = k_log[flat3(bt, h, sh.hv, j, sh.dk, Ghost(sh.batch * sh.t))].widen();
        if t < accepted as usize && passed {
            s = s_add(&s_mul(&s, &g), &s_mul(&k, &delta));
        }
        t = t + 1;
    }
    s
}

/// The extents of 192-wide keys and 128-wide values on 4 heads.
pub open spec fn shape_d192_128_4_4(batch: u32, t: u32) -> DeltaShape {
    DeltaShape {
        batch: batch as usize,
        t: t as usize,
        hk: 4,
        hv: 4,
        dk: 192,
        dv: 128,
    }
}

/// Forward pass with the deltas recorded, for 192-wide keys and 128-wide values on
/// 4 heads.
pub fn gated_delta_step_record_d192_128_4_4<S: Scalar, T: Element<S>>(
    q: &[T],
    k: &[T],
    v: &[T],
    g: &[T],
    beta: &[T],
    state_in: &[T],
    mask: &[u32],
    y: &mut Vec<T>,
    state_out: &mut Vec<T>,
    delta_log: &mut Vec<T>,
    t_val: u32,
    has_mask: u32,
    batch: u32,
)
    requires
        chunk_fits(q@, k@, v@, g@, beta@, shape_d192_128_4_4(batch, t_val)),
        has_mask != 0 ==> mask@.len() >= batch * t_val,
        state_in@.len() == shape_d192_128_4_4(batch, t_val).rows() * 192,
        old(state_out)@.len() == state_in@.len(),
        old(y)@.len() == v@.len(),
        old(delta_log)@.len() == v@.len(),
    ensures
        ({
            let sh = shape_d192_128_4_4(batch, t_val);
            let tokens = record_tokens::<S, T>(q@, k@, v@, g@, beta@, mask@, has_mask, sh);
            &&& final(state_out)@ =~= Seq::new(
                old(state_out)@.len(),
                |i: int| state_value(state_in@, tokens, sh, i),
            )
            &&& final(y)@ =~= Seq::new(
                old(y)@.len(),
                |i: int|
                    match y_value(state_in@, tokens, sh, i) {
                        Some(v) => v,
                        None => old(y)@[i],
                    },
            )
            &&& final(delta_log)@ =~= Seq::new(
                old(delta_log)@.len(),
                |i: int|
                    match delta_value(state_in@, tokens, sh, i) {
                        Some(v) => v,
                        None => old(delta_log)@[i],
                    },
            )
        }),
{
    let sh = DeltaShape {
        batch: batch as usize,
        t: t_val as usize,
        hk: 4,
        hv: 4,
        dk: 192,
        dv: 128,
    };
    record(q, k, v, g, beta, state_in, mask, y, state_out, delta_log, has_mask, sh);
}

/// Replay of a tape of 192-wide keys and 128-wide values on 4 heads.
pub fn state_replay_d192_128_4_4<S: Scalar, T: Element<S>>(
    delta_log: &[T],
    k_log: &[T],
    g_log: &[T],
    state_in: &[T],
    mask: &[u32],
    state_out: &mut Vec<T>,
    t_log: u32,
    accepted: u32,
    has_mask: u32,
    batch: u32,
)
    requires
        tape_fits(
            tape_view(delta_log@, k_log@, g_log@, mask@, accepted, has_mask),
            shape_d192_128_4_4(batch, t_log),
        ),
        state_in@.len() == shape_d192_128_4_4(batch, t_log).rows() * 192,
        old(state_out)@.len() == state_in@.len(),
    ensures
        final(state_out)@ =~= Seq::new(
            old(state_out)@.len(),
            |i: int|
                replay_value::<S, T>(
                    tape_view(delta_log@, k_log@, g_log@, mask@, accepted, has_mask),
                    state_in@,
                    shape_d192_128_4_4(batch, t_log),
                    i,
                ),
        ),
{
    let sh = DeltaShape {
        batch: batch as usize,
        t: t_log as usize,
        hk: 4,
        hv: 4,
        dk: 192,
        dv: 128,
    };
    replay(delta_log, k_log, g_log, state_in, mask, state_out, accepted, has_mask, sh);
}

/// The extents of 64-wide keys and 32-wide values on 2 heads.
pub open spec fn shape_d64_32_2_2(batch: u32, t: u32) -> DeltaShape {
    DeltaShape {
        batch: batch as usize,
        t: t as usize,
        hk: 2,
        hv: 2,
        dk: 64,
        dv: 32,
    }
}

/// Forward pass with the deltas recorded, for 64-wide keys and 32-wide values on
/// 2 heads.
pub fn gated_delta_step_record_d64_32_2_2<S: Scalar, T: Element<S>>(
    q: &[T],
    k: &[T],
    v: &[T],
    g: &[T],
    beta: &[T],
    state_in: &[T],
    mask: &[u32],
    y: &mut Vec<T>,
    state_out: &mut Vec<T>,
    delta_log: &mut Vec<T>,
    t_val: u32,
    has_mask: u32,
    batch: u32,
)
    requires
        chunk_fits(q@, k@, v@, g@, beta@, shape_d64_32_2_2(batch, t_val)),
        has_mask != 0 ==> mask@.len() >= batch * t_val,
        state_in@.len() == shape_d64_32_2_2(batch, t_val).rows() * 64,
        old(state_out)@.len() == state_in@.len(),
        old(y)@.len() == v@.len(),
        old(delta_log)@.len() == v@.len(),
    ensures
        ({
            let sh = shape_d64_32_2_2(batch, t_val);
            let tokens = record_tokens::<S, T>(q@, k@, v@, g@, beta@, mask@, has_mask, sh);
            &&& final(state_out)@ =~= Seq::new(
                old(state_out)@.len(),
                |i: int| state_value(state_in@, tokens, sh, i),
            )
            &&& final(y)@ =~= Seq::new(
                old(y)@.len(),
                |i: int|
                    match y_value(state_in@, tokens, sh, i) {
                        Some(v) => v,
                        None => old(y)@[i],
                    },
            )
            &&& final(delta_log)@ =~= Seq::new(
                old(delta_log)@.len(),
                |i: int|
                    match delta_value(state_in@, tokens, sh, i) {
                        Some(v) => v,
                        None => old(delta_log)@[i],
                    },
            )
        }),
{
    let sh = DeltaShape {
        batch: batch as usize,
        t: t_val as usize,
        hk: 2,
        hv: 2,
        dk: 64,
        dv: 32,
    };
    record(q, k, v, g, beta, state_in, mask, y, state_out, delta_log, has_mask, sh);
}

/// Replay of a tape of 64-wide keys and 32-wide values on 2 heads.
pub fn state_replay_d64_32_2_2<S: Scalar, T: Element<S>>(
    delta_log: &[T],
    k_log: &[T],
    g_log: &[T],
    state_in: &[T],
    mask: &[u32],
    state_out: &mut Vec<T>,
    t_log: u32,
    accepted: u32,
    has_mask: u32,
    batch: u32,
)
    requires
        tape_fits(
            tape_view(delta_log@, k_log@, g_log@, mask@, accepted, has_mask),
            shape_d64_32_2_2(batch, t_log),
        ),
        state_in@.len() == shape_d64_32_2_2(batch, t_log).rows() * 64,
        old(state_out)@.len() == state_in@.len(),
    ensures
        final(state_out)@ =~= Seq::new(
            old(state_out)@.len(),
            |i: int|
                replay_value::<S, T>(
                    tape_view(delta_log@, k_log@, g_log@, mask@, accepted, has_mask),
                    state_in@,
                    shape_d64_32_2_2(batch, t_log),
                    i,
                ),
        ),
{
    let sh = DeltaShape {
        batch: batch as usize,
        t: t_log as usize,
        hk: 2,
        hv: 2,
        dk: 64,
        dv: 32,
    };
    replay(delta_log, k_log, g_log, state_in, mask, state_out, accepted, has_mask, sh);
}

/// The tape of the worked example: five tokens of one batch.
pub open spec fn sample_tape<S: Scalar>(mask: Seq<u32>, accepted: u32, has_mask: u32) -> TapeView<S> {
    tape_view(
        sample_seq(5 * 2 * 32, 0x21, 1, 2),
        sample_seq(5 * 2 * 64, 0x22, 2, 5),
        Seq::new(
            5 * 2,
            |i: int| plus(S::rational(9, 10), sample_seq::<S>(5 * 2, 0x23, 1, 10)[i]),
        ),
        mask,
        accepted,
        has_mask,
    )
}

pub open spec fn sample_seq<S: Scalar>(n: nat, seed: u64, num: i64, den: u64) -> Seq<S> {
    Seq::new(n, |i: int| draw(seed, S::rational(num, den), i))
}

/// The worked example: folds the first `accepted` of five tokens, as far as `mask`
/// lets them pass, onto a snapshot of two heads.
pub fn run_replay<S: Scalar>(accepted: usize, has_mask: bool, mask: &[u32]) -> (state: Vec<S>)
    requires
        has_mask ==> mask@.len() >= 5,
    ensures
        state@ =~= Seq::new(
            2 * 32 * 64,
            |i: int|
                replay_value::<S, S>(
                    sample_tape(mask@, accepted as u32, if has_mask { 1u32 } else { 0u32 }),
                    sample_seq(2 * 32 * 64, 0x24, 3, 10),
                    shape_d64_32_2_2(1, 5),
                    i,
                ),
        ),
{
    let delta_log: Vec<S> = src(5 * 2 * 32, 0x21, &S::ratio(1, 2));
    let k_log: Vec<S> = src(5 * 2 * 64, 0x22, &S::ratio(2, 5));
    let decay: Vec<S> = src(5 * 2, 0x23, &S::ratio(1, 10));
    let g_log: Vec<S> = collect(
        5 * 2,
        |i: usize| -> (v: S)
            requires
                i < 10
            ensures
                v == plus(S::rational(9, 10), decay@[i as int])
            { s_add(&S::ratio(9, 10), &decay[i]) },
        Ghost(|i: int, v: S| v == plus(S::rational(9, 10), decay@[i])),
    );
    let state_in: Vec<S> = src(2 * 32 * 64, 0x24, &S::ratio(3, 10));
    let mut state_out: Vec<S> = src(2 * 32 * 64, 0x24, &S::ratio(0, 1));
    let flag: u32 = if has_mask {
        1
    } else {
        0
    };
    assert(delta_log@ =~= sample_seq::<S>(5 * 2 * 32, 0x21, 1, 2));
    assert(k_log@ =~= sample_seq::<S>(5 * 2 * 64, 0x22, 2, 5));
    assert(decay@ =~= sample_seq::<S>(5 * 2, 0x23, 1, 10));
    assert(g_log@ =~= sample_tape::<S>(mask@, accepted as u32, flag).g);
    assert(state_in@ =~= sample_seq::<S>(2 * 32 * 64, 0x24, 3, 10));
    proof {
        let sh = shape_d64_32_2_2(1, 5);
        assert(sh.batch * sh.t == 5) by (nonlinear_arith)
            requires
                sh.batch == 1,
                sh.t == 5,
        ;
        assert(sh.batch * sh.hv == 2) by (nonlinear_arith)
            requires
                sh.batch == 1,
                sh.hv == 2,
        ;
        assert((sh.batch * sh.t) * sh.hv == 10);
        assert(sh.values() == 320);
        assert(((sh.batch * sh.t) * sh.hv) * sh.dk == 640);
        assert(sh.rows() == 64);
    }
    state_replay_d64_32_2_2(
        delta_log.as_slice(),
        k_log.as_slice(),
        g_log.as_slice(),
        state_in.as_slice(),
        mask,
        &mut state_out,
        5,
        accepted as u32,
        flag,
        1,
    );
    state_out
}

/// Nothing beyond the accepted prefix is folded.
pub proof fn law_replay_stops_at_accepted<S: Scalar, T: Element<S>>(
    tape: TapeView<T>,
    sh: DeltaShape,
    r: int,
    j: int,
    start: S,
    t: int,
)
    requires
        0 <= tape.accepted <= t,
    ensures
        tape.replayed(sh, r, j, start, t) == tape.replayed(sh, r, j, start, tape.accepted),
    decreases t,
{
    if t > tape.accepted {
        law_replay_stops_at_accepted(tape, sh, r, j, start, t - 1);
    }
}

/// A token that the mask holds back, or that is not accepted, leaves the state as
/// it is.
pub proof fn law_skipped_token_is_identity<S: Scalar, T: Element<S>>(
    tape: TapeView<T>,
    sh: DeltaShape,
    r: int,
    j: int,
    start: S,
    t: int,
)
    requires
        0 <= t,
        !tape.folds(sh, sh.batch_of(r), t),
    ensures
        tape.replayed(sh, r, j, start, t + 1) == tape.replayed(sh, r, j, start, t),
{
}

/// A tape of which nothing is accepted gives the snapshot back.
pub proof fn law_nothing_accepted_is_identity<S: Scalar, T: Element<S>>(
    tape: TapeView<T>,
    sh: DeltaShape,
    r: int,
    j: int,
    start: S,
    t: int,
)
    requires
        tape.accepted == 0,
        0 <= t,
    ensures
        tape.replayed(sh, r, j, start, t) == start,
{
    law_replay_stops_at_accepted(tape, sh, r, j, start, t);
}

/// Replaying a recorded tape re-creates the state that the forward pass had after
/// the accepted prefix.
///
/// The buffers hold scalars, so that what is stored is what was computed; the
/// tape's keys are those of the forward pass, one row per value head.
pub proof fn law_replay_recreates_state<S: Scalar>(
    q: Seq<S>,
    k: Seq<S>,
    v: Seq<S>,
    g: Seq<S>,
    beta: Seq<S>,
    state: Seq<S>,
    tape: TapeView<S>,
    sh: DeltaShape,
    r: int,
    j: int,
)
    requires
        sh.valid(),
        0 <= tape.accepted <= sh.t,
        tape.g == g,
        forall|i: int|
            0 <= i < sh.values() ==> match #[trigger] delta_value(
                state,
                record_tokens::<S, S>(q, k, v, g, beta, tape.mask, tape.has_mask, sh),
                sh,
                i,
            ) {
                Some(delta) => tape.delta[i] == delta,
                None => true,
            },
        forall|bt: int, h: int, i: int|
            0 <= bt < sh.batch * sh.t && 0 <= h < sh.hv && 0 <= i < sh.dk
                ==> #[trigger] tape.k[(bt * sh.hv + h) * sh.dk + i] == k[(bt * sh.hk
                + sh.key_head(h)) * sh.dk + i],
        0 <= r < sh.rows(),
        0 <= j < sh.dk,
    ensures
        tape.replayed(sh, r, j, state[r * sh.dk + j], sh.t as int) == row_after(
            state_row::<S, S>(state, sh.dk as int, r),
            row_tokens(
                record_tokens::<S, S>(q, k, v, g, beta, tape.mask, tape.has_mask, sh),
                r,
            ),
            tape.accepted,
        )[j],
{
    law_replay_stops_at_accepted(tape, sh, r, j, state[r * sh.dk + j], sh.t as int);
    lemma_replay_prefix(q, k, v, g, beta, state, tape, sh, r, j, tape.accepted);
}

proof fn lemma_replay_prefix<S: Scalar>(
    q: Seq<S>,
    k: Seq<S>,
    v: Seq<S>,
    g: Seq<S>,
    beta: Seq<S>,
    state: Seq<S>,
    tape: TapeView<S>,
    sh: DeltaShape,
    r: int,
    j: int,
    t: int,
)
    requires
        sh.valid(),
        0 <= t <= tape.accepted <= sh.t,
        tape.g == g,
        forall|i: int|
            0 <= i < sh.values() ==> match #[trigger] delta_value(
                state,
                record_tokens::<S, S>(q, k, v, g, beta, tape.mask, tape.has_mask, sh),
                sh,
                i,
            ) {
                Some(delta) => tape.delta[i] == delta,
                None => true,
            },
        forall|bt: int, h: int, i: int|
            0 <= bt < sh.batch * sh.t && 0 <= h < sh.hv && 0 <= i < sh.dk
                ==> #[trigger] tape.k[(bt * sh.hv + h) * sh.dk + i] == k[(bt * sh.hk
                + sh.key_head(h)) * sh.dk + i],
        0 <= r < sh.rows(),
        0 <= j < sh.dk,
    ensures
        tape.replayed(sh, r, j, state[r * sh.dk + j], t) == row_after(
            state_row::<S, S>(state, sh.dk as int, r),
            row_tokens(
                record_tokens::<S, S>(q, k, v, g, beta, tape.mask, tape.has_mask, sh),
                r,
            ),
            t,
        )[j],
    decreases t,
{
    let tokens = record_tokens::<S, S>(q, k, v, g, beta, tape.mask, tape.has_mask, sh);
    let row = state_row::<S, S>(state, sh.dk as int, r);
    if t > 0 {
        lemma_replay_prefix(q, k, v, g, beta, state, tape, sh, r, j, t - 1);
        lemma_row(sh, r);
        lemma_row_len(row, row_tokens(tokens, r), t - 1);
        let b = sh.batch_of(r);
        let h = sh.head_of(r);
        let bt = b * sh.t + (t - 1);
        let tok = row_tokens(tokens, r)(t - 1);
        lemma_row_major(b, sh.batch as int, t - 1, sh.t as int);
        let i = (bt * sh.hv + h) * sh.dv + sh.dim_of(r);
        lemma_value_position(sh, r, t - 1);
        if tok.live {
            assert(delta_value(state, tokens, sh, i) == Some(
                delta_of(row_after(row, row_tokens(tokens, r), t - 1), tok),
            ));
            assert(tape.k[(bt * sh.hv + h) * sh.dk + j] == tok.k[j]);
        }
    }
}

} // verus!
