//! What one step of the recurrent kernels does to a single channel, with every buffer read
//! at its own index.
use vstd::prelude::*;

use crate::algebra::{lemma_add_assoc, lemma_add_comm, lemma_sum_start, sums_freely};
use crate::exact::law_scan_total_is_the_sum;
use crate::lanes::{accumulate, lemma_accumulate_same};
use crate::layout::{lemma_row_major, lemma_row_major_inverse};
use crate::lstm::{cell_of, gate_sum, hidden_of, lstm_after, lstm_shape, lstm_value, LstmShape};
use crate::scalar::{minus, one, over, plus, times, zero, Element, Fun, Scalar};
use crate::ssm::{
    conv_value, entry_decay, group_scan_shape, group_scan_state, group_scan_terms, group_scan_value,
    head_decay, scan_shape, scan_state, scan_value, scanned,
};

verus! {

/// A step of a causal convolution is the bias and, over all taps, weight times input: the
/// last tap meets the new input, the taps before it the rows of the state in order.
pub proof fn law_last_tap_meets_the_input<S: Scalar, T: Element<S>>(
    x: Seq<T>,
    w: Seq<T>,
    b: Seq<T>,
    state: Seq<T>,
    n: int,
    taps: int,
    d: int,
)
    requires
        sums_freely::<S>(),
        taps >= 1,
    ensures
        conv_value::<S, T>(x, w, b, state, n, taps, d) == T::narrowed(
            accumulate(
                b[d].widened(),
                |k: int|
                    times(
                        w[k * n + d].widened(),
                        if k == taps - 1 {
                            x[d].widened()
                        } else {
                            state[k * n + d].widened()
                        },
                    ),
                taps,
            ),
        ),
{
    let f = |k: int| times(w[k * n + d].widened(), state[k * n + d].widened());
    let g = |k: int|
        times(
            w[k * n + d].widened(),
            if k == taps - 1 {
                x[d].widened()
            } else {
                state[k * n + d].widened()
            },
        );
    let bias = b[d].widened();
    let last = times(w[(taps - 1) * n + d].widened(), x[d].widened());
    lemma_accumulate_same(bias, f, g, taps - 1);
    lemma_sum_start(plus(bias, last), f, taps - 1);
    lemma_sum_start(bias, f, taps - 1);
    let rest = accumulate(zero(), f, taps - 1);
    lemma_add_assoc(bias, last, rest);
    lemma_add_comm(last, rest);
    lemma_add_assoc(bias, rest, last);
    assert(accumulate(bias, g, taps) == plus(accumulate(bias, g, taps - 1), g(taps - 1)));
}

/// A step of a scan with one decay per head: entry `n` of channel `d` of head `h` decays by
/// `exp(a[h] * dt[h])` and takes in `dt[h] * b[n]` of the channel's input, and the channel
/// is read out by `c` over all of its entries.
pub proof fn law_scan_steps_its_channel<S: Scalar, T: Element<S>>(
    x: Seq<T>,
    a: Seq<T>,
    b: Seq<T>,
    c: Seq<T>,
    dt: Seq<T>,
    state: Seq<S>,
    heads: u32,
    head_dim: u32,
    state_dim: u32,
    h: int,
    n: int,
    d: int,
)
    requires
        0 <= h < heads,
        0 <= n < state_dim,
        0 <= d < head_dim,
    ensures
        ({
            let sh = scan_shape(heads as int, head_dim, state_dim);
            let next = |e: int|
                plus(
                    times(
                        S::applied(Fun::Exp, times(a[h].widened(), dt[h].widened())),
                        state[(h * state_dim + e) * head_dim + d],
                    ),
                    times(
                        times(dt[h].widened(), b[e].widened()),
                        x[h * head_dim + d].widened(),
                    ),
                );
            &&& scan_state::<S, T>(
                x,
                b,
                dt,
                state,
                head_decay(a, dt),
                sh,
                (h * state_dim + n) * head_dim + d,
            ) == next(n)
            &&& scan_value::<S, T>(
                x,
                b,
                c,
                dt,
                state,
                head_decay(a, dt),
                sh,
                h * head_dim + d,
            ) == T::narrowed(
                accumulate(zero(), |e: int| times(c[e].widened(), next(e)), state_dim as int),
            )
        }),
{
    let sh = scan_shape(heads as int, head_dim, state_dim);
    lemma_row_major(h, heads as int, n, state_dim as int);
    lemma_row_major_inverse(h * state_dim + n, d, head_dim as int);
    lemma_row_major_inverse(h, n, state_dim as int);
    lemma_row_major_inverse(h, d, head_dim as int);
    let next = |e: int|
        plus(
            times(
                S::applied(Fun::Exp, times(a[h].widened(), dt[h].widened())),
                state[(h * state_dim + e) * head_dim + d],
            ),
            times(times(dt[h].widened(), b[e].widened()), x[h * head_dim + d].widened()),
        );
    lemma_accumulate_same(
        zero(),
        |e: int|
            times(
                c[e].widened(),
                scanned::<S, T>(x, b, dt, state, head_decay(a, dt), sh, h, e, d),
            ),
        |e: int| times(c[e].widened(), next(e)),
        state_dim as int,
    );
}

/// A step of a scan with one decay per channel and entry: entry `n` of channel `d` of head
/// `h` decays by `exp(-exp(a_log) * dt[h])`, with the `a_log` of row `h * head_dim + d`,
/// column `n`.
pub proof fn law_entry_scan_steps_its_channel<S: Scalar, T: Element<S>>(
    x: Seq<T>,
    a_log: Seq<T>,
    b: Seq<T>,
    c: Seq<T>,
    dt: Seq<T>,
    state: Seq<S>,
    heads: u32,
    head_dim: u32,
    state_dim: u32,
    h: int,
    n: int,
    d: int,
)
    requires
        0 <= h < heads,
        0 <= n < state_dim,
        0 <= d < head_dim,
    ensures
        ({
            let sh = scan_shape(heads as int, head_dim, state_dim);
            let rate = |e: int|
                minus(
                    zero(),
                    S::applied(
                        Fun::Exp,
                        a_log[(h * head_dim + d) * state_dim + e].widened(),
                    ),
                );
            let next = |e: int|
                plus(
                    times(
                        S::applied(Fun::Exp, times(rate(e), dt[h].widened())),
                        state[(h * state_dim + e) * head_dim + d],
                    ),
                    times(
                        times(dt[h].widened(), b[e].widened()),
                        x[h * head_dim + d].widened(),
                    ),
                );
            &&& scan_state::<S, T>(
                x,
                b,
                dt,
                state,
                entry_decay(a_log, dt, sh),
                sh,
                (h * state_dim + n) * head_dim + d,
            ) == next(n)
            &&& scan_value::<S, T>(
                x,
                b,
                c,
                dt,
                state,
                entry_decay(a_log, dt, sh),
                sh,
                h * head_dim + d,
            ) == T::narrowed(
                accumulate(zero(), |e: int| times(c[e].widened(), next(e)), state_dim as int),
            )
        }),
{
    let sh = scan_shape(heads as int, head_dim, state_dim);
    lemma_row_major(h, heads as int, n, state_dim as int);
    lemma_row_major_inverse(h * state_dim + n, d, head_dim as int);
    lemma_row_major_inverse(h, n, state_dim as int);
    lemma_row_major_inverse(h, d, head_dim as int);
    let rate = |e: int|
        minus(
            zero(),
            S::applied(Fun::Exp, a_log[(h * head_dim + d) * state_dim + e].widened()),
        );
    let next = |e: int|
        plus(
            times(
                S::applied(Fun::Exp, times(rate(e), dt[h].widened())),
                state[(h * state_dim + e) * head_dim + d],
            ),
            times(times(dt[h].widened(), b[e].widened()), x[h * head_dim + d].widened()),
        );
    lemma_accumulate_same(
        zero(),
        |e: int|
            times(
                c[e].widened(),
                scanned::<S, T>(
                    x,
                    b,
                    dt,
                    state,
                    entry_decay(a_log, dt, sh),
                    sh,
                    h,
                    e,
                    d,
                ),
            ),
        |e: int| times(c[e].widened(), next(e)),
        state_dim as int,
    );
}

/// A step of a grouped scan, for channel `d` of head `n` of the batch: it takes its decay
/// and its skip from head `n % n_heads`, and shares the matrices of group
/// `n / heads_per_group`.
pub proof fn law_grouped_scan_steps_its_channel<S: Scalar, T: Element<S>>(
    x: Seq<T>,
    a_log: Seq<T>,
    b_mat: Seq<T>,
    c_mat: Seq<T>,
    d_skip: Seq<T>,
    dt: Seq<T>,
    state: Seq<T>,
    n_total: u32,
    dh: u32,
    ds: u32,
    n_heads: u32,
    heads_per_group: u32,
    n: int,
    d: int,
    s: int,
)
    requires
        sums_freely::<S>(),
        ds % 32 == 0,
        0 <= n < n_total,
        0 <= d < dh,
        0 <= s < ds,
    ensures
        ({
            let sh = group_scan_shape(n_total as int, dh, ds, n_heads, heads_per_group);
            let head = n % n_heads as int;
            let group = n / heads_per_group as int;
            let rate = minus(zero(), S::applied(Fun::Exp, a_log[head].widened()));
            let next = |e: int|
                plus(
                    times(
                        S::applied(Fun::Exp, times(rate, dt[n].widened())),
                        state[(n * dh + d) * ds + e].widened(),
                    ),
                    times(
                        times(x[n * dh + d].widened(), dt[n].widened()),
                        b_mat[group * ds + e].widened(),
                    ),
                );
            &&& group_scan_state::<S, T>(
                x,
                a_log,
                b_mat,
                dt,
                state,
                sh,
                (n * dh + d) * ds + s,
            ) == T::narrowed(next(s))
            &&& group_scan_value::<S, T>(
                x,
                a_log,
                b_mat,
                c_mat,
                d_skip,
                dt,
                state,
                sh,
                n * dh + d,
            ) == T::narrowed(
                plus(
                    accumulate(
                        zero(),
                        |e: int| times(next(e), c_mat[group * ds + e].widened()),
                        ds as int,
                    ),
                    times(x[n * dh + d].widened(), d_skip[head].widened()),
                ),
            )
        }),
{
    let sh = group_scan_shape(n_total as int, dh, ds, n_heads, heads_per_group);
    let head = n % n_heads as int;
    let group = n / heads_per_group as int;
    lemma_row_major(n, n_total as int, d, dh as int);
    lemma_row_major_inverse(n * dh + d, s, ds as int);
    lemma_row_major_inverse(n, d, dh as int);
    let rate = minus(zero(), S::applied(Fun::Exp, a_log[head].widened()));
    let next = |e: int|
        plus(
            times(
                S::applied(Fun::Exp, times(rate, dt[n].widened())),
                state[(n * dh + d) * ds + e].widened(),
            ),
            times(
                times(x[n * dh + d].widened(), dt[n].widened()),
                b_mat[group * ds + e].widened(),
            ),
        );
    let f = group_scan_terms::<S, T>(x, a_log, b_mat, c_mat, dt, state, sh, n, d);
    law_scan_total_is_the_sum(f, ds as int / 32);
    lemma_accumulate_same(
        zero(),
        f,
        |e: int| times(next(e), c_mat[group * ds + e].widened()),
        ds as int,
    );
}

/// What row `r` of the gates is before its activation, of the input at time `t` and the
/// hidden state `h(s)`: bias, input weights and recurrent weights of that row.
pub open spec fn gate_input<S: Scalar, T: Element<S>>(
    x: Seq<T>,
    w_ih: Seq<T>,
    w_hh: Seq<T>,
    bias: Seq<S>,
    input_dim: u32,
    hidden: u32,
    h: spec_fn(int, int) -> S,
    s: int,
    t: int,
    r: int,
) -> S {
    let fed = accumulate(
        bias[r],
        |k: int| times(w_ih[r * input_dim + k].widened(), x[t * input_dim + k].widened()),
        input_dim as int,
    );
    accumulate(fed, |m: int| times(w_hh[r * hidden + m].widened(), h(s, m)), hidden as int)
}

/// `h` and `c` are the hidden and the cell states after each step of a layer: step `s`
/// reads the input of time `at(s)`. Before step zero all are zero. The gates are, in
/// blocks of `hidden` rows, input, forget, candidate and output.
pub open spec fn is_run<S: Scalar, T: Element<S>>(
    x: Seq<T>,
    w_ih: Seq<T>,
    w_hh: Seq<T>,
    bias: Seq<S>,
    input_dim: u32,
    hidden: u32,
    steps: int,
    at: spec_fn(int) -> int,
    h: spec_fn(int, int) -> S,
    c: spec_fn(int, int) -> S,
) -> bool {
    &&& forall|j: int| #[trigger] h(-1, j) == zero::<S>() && c(-1, j) == zero::<S>()
    &&& forall|s: int, j: int|
        #![trigger h(s, j)]
        0 <= s < steps && 0 <= j < hidden ==> {
            let gate = |r: int|
                gate_input::<S, T>(
                    x,
                    w_ih,
                    w_hh,
                    bias,
                    input_dim,
                    hidden,
                    h,
                    s - 1,
                    at(s),
                    r,
                );
            let open = |v: S|
                over(one(), plus(one(), S::applied(Fun::Exp, minus(zero(), v))));
            let bent = |v: S|
                minus(
                    over(
                        S::rational(2, 1),
                        plus(
                            one(),
                            S::applied(Fun::Exp, minus(zero(), times(S::rational(2, 1), v))),
                        ),
                    ),
                    one(),
                );
            &&& c(s, j) == plus(
                times(open(gate(hidden + j)), c(s - 1, j)),
                times(open(gate(j)), bent(gate(2 * hidden + j))),
            )
            &&& h(s, j) == times(open(gate(3 * hidden + j)), bent(c(s, j)))
        }
}

proof fn lemma_gate<S: Scalar, T: Element<S>>(
    x: Seq<T>,
    w_ih: Seq<T>,
    w_hh: Seq<T>,
    bias: Seq<S>,
    sh: LstmShape,
    input_dim: u32,
    hidden: u32,
    state: Seq<S>,
    h: spec_fn(int, int) -> S,
    s: int,
    t: int,
    r: int,
)
    requires
        sh.input_dim == input_dim,
        sh.hidden == hidden,
        forall|m: int| 0 <= m < hidden ==> #[trigger] state[m] == h(s, m),
    ensures
        gate_sum::<S, T>(x, w_ih, w_hh, bias, sh, state, t, r) == gate_input::<S, T>(
            x,
            w_ih,
            w_hh,
            bias,
            input_dim,
            hidden,
            h,
            s,
            t,
            r,
        ),
{
    let f = |k: int| times(w_ih[r * sh.input_dim + k].widened(), x[t * sh.input_dim + k].widened());
    let g = |k: int| times(w_ih[r * input_dim + k].widened(), x[t * input_dim + k].widened());
    lemma_accumulate_same(bias[r], f, g, input_dim as int);
    lemma_accumulate_same(
        accumulate(bias[r], f, input_dim as int),
        |m: int| times(w_hh[r * sh.hidden + m].widened(), state[m]),
        |m: int| times(w_hh[r * hidden + m].widened(), h(s, m)),
        hidden as int,
    );
}

proof fn lemma_run<S: Scalar, T: Element<S>>(
    x: Seq<T>,
    w_ih: Seq<T>,
    w_hh: Seq<T>,
    bias: Seq<S>,
    sh: LstmShape,
    input_dim: u32,
    hidden: u32,
    at: spec_fn(int) -> int,
    h: spec_fn(int, int) -> S,
    c: spec_fn(int, int) -> S,
    steps: int,
    n: int,
)
    requires
        sh.input_dim == input_dim,
        sh.hidden == hidden,
        is_run::<S, T>(x, w_ih, w_hh, bias, input_dim, hidden, steps, at, h, c),
        forall|s: int| 0 <= s < steps ==> #[trigger] at(s) == sh.time(s),
        0 <= n <= steps,
    ensures
        ({
            let state = lstm_after::<S, T>(x, w_ih, w_hh, bias, sh, n);
            forall|j: int|
                0 <= j < hidden ==> #[trigger] state.h[j] == h(n - 1, j) && state.c[j] == c(
                    n - 1,
                    j,
                )
        }),
    decreases n,
{
    if n == 0 {
        assert forall|j: int| 0 <= j < hidden implies #[trigger] h(-1, j) == zero::<S>() && c(
            -1,
            j,
        ) == zero::<S>() by {}
    } else {
        lemma_run::<S, T>(
            x,
            w_ih,
            w_hh,
            bias,
            sh,
            input_dim,
            hidden,
            at,
            h,
            c,
            steps,
            n - 1,
        );
        let s = n - 1;
        let st = lstm_after::<S, T>(x, w_ih, w_hh, bias, sh, s);
        let state = lstm_after::<S, T>(x, w_ih, w_hh, bias, sh, n);
        let t = sh.time(s);
        assert(at(s) == t);
        assert forall|j: int| 0 <= j < hidden implies #[trigger] state.h[j] == h(s, j)
            && state.c[j] == c(s, j) by {
            assert(st.h[j] == h(s - 1, j));
            assert forall|r: int| #[trigger]
                gate_sum::<S, T>(x, w_ih, w_hh, bias, sh, st.h, t, r) == gate_input::<S, T>(
                    x,
                    w_ih,
                    w_hh,
                    bias,
                    input_dim,
                    hidden,
                    h,
                    s - 1,
                    t,
                    r,
                ) by {
                lemma_gate::<S, T>(
                    x,
                    w_ih,
                    w_hh,
                    bias,
                    sh,
                    input_dim,
                    hidden,
                    st.h,
                    h,
                    s - 1,
                    t,
                    r,
                );
            }
            let hidden_state = h(s, j);
            assert(cell_of::<S, T>(x, w_ih, w_hh, bias, sh, st, t, j) == c(s, j));
            assert(hidden_of::<S, T>(x, w_ih, w_hh, bias, sh, st, t, j) == h(s, j));
        }
    }
}

/// A layer writes, for the input of time `t`, the hidden state after the step that read it:
/// step `t` of a forward pass, step `seq_len - 1 - t` of a reverse one, to the columns from
/// `out_offset` on of row `t`. It leaves the other columns alone.
pub proof fn law_layer_writes_its_run<S: Scalar, T: Element<S>>(
    x: Seq<T>,
    w_ih: Seq<T>,
    w_hh: Seq<T>,
    bias: Seq<S>,
    seq_len: u32,
    input_dim: u32,
    hidden: u32,
    reverse: u32,
    out_stride: u32,
    out_offset: u32,
    h: spec_fn(int, int) -> S,
    c: spec_fn(int, int) -> S,
    t: int,
    column: int,
)
    requires
        is_run::<S, T>(
            x,
            w_ih,
            w_hh,
            bias,
            input_dim,
            hidden,
            seq_len as int,
            |s: int|
                if reverse > 0 {
                    seq_len - 1 - s
                } else {
                    s
                },
            h,
            c,
        ),
        0 <= t < seq_len,
        0 <= column < out_stride,
    ensures
        lstm_value::<S, T>(
            x,
            w_ih,
            w_hh,
            bias,
            lstm_shape(seq_len, input_dim, hidden, reverse),
            out_stride as int,
            out_offset as int,
            t * out_stride + column,
        ) == if out_offset <= column < out_offset + hidden {
            let step = if reverse > 0 {
                seq_len - 1 - t
            } else {
                t
            };
            Some(T::narrowed(h(step, column - out_offset)))
        } else {
            None
        },
{
    let sh = lstm_shape(seq_len, input_dim, hidden, reverse);
    let at = |s: int|
        if reverse > 0 {
            seq_len - 1 - s
        } else {
            s
        };
    lemma_row_major_inverse(t, column, out_stride as int);
    let n = sh.time(t) + 1;
    lemma_run::<S, T>(
        x,
        w_ih,
        w_hh,
        bias,
        sh,
        input_dim,
        hidden,
        at,
        h,
        c,
        seq_len as int,
        n,
    );
    let j = column - out_offset;
    let state = lstm_after::<S, T>(x, w_ih, w_hh, bias, sh, n);
    if 0 <= j < hidden {
        assert(state.h[j] == h(n - 1, j));
    }
}

} // verus!
