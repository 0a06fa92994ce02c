//! State-space model steps: the selective scan for one token, and the causal
//! convolution that goes before it.
use vstd::prelude::*;

use crate::lanes::{
    accumulate, accumulated, collect, lane_sum, lane_summed, launch, lemma_accumulate_same,
    pack_terms,
};
use crate::layout::{
    flat, flat3, lemma_factors, lemma_len_fits, lemma_row_major, lemma_row_major_inverse,
    lemma_split,
};
use crate::qgemv::lemma_block;
use crate::scalar::{
    minus, plus, s_add, s_mul, s_sub, s_zero, times, zero, Element, Fun, Scalar,
};

verus! {

/// The convolution at channel `d`: `x` meets the last tap, the state the others.
pub open spec fn conv_value<S: Scalar, T: Element<S>>(
    x: Seq<T>,
    w: Seq<T>,
    b: Seq<T>,
    state: Seq<T>,
    n: int,
    taps: int,
    d: int,
) -> T {
    T::narrowed(
        accumulate(
            plus(b[d].widened(), times(w[(taps - 1) * n + d].widened(), x[d].widened())),
            |k: int| times(w[k * n + d].widened(), state[k * n + d].widened()),
            taps - 1,
        ),
    )
}

/// The state after `inputs` in turn.
pub open spec fn streamed<T>(state: Seq<T>, inputs: Seq<Seq<T>>, n: int) -> Seq<T>
    decreases inputs.len(),
{
    if inputs.len() == 0 {
        state
    } else {
        streamed(state, inputs.drop_last(), n).skip(n) + inputs.last()
    }
}

/// Row `t` of what a convolution sees: first the rows of the state that it starts
/// from, then its inputs.
pub open spec fn history<T>(
    state: Seq<T>,
    inputs: Seq<Seq<T>>,
    n: int,
    taps: int,
    t: int,
    d: int,
) -> T {
    if t < taps - 1 {
        state[t * n + d]
    } else {
        inputs[t - (taps - 1)][d]
    }
}

proof fn lemma_streamed<T>(
    state: Seq<T>,
    inputs: Seq<Seq<T>>,
    n: int,
    taps: int,
    k: int,
    d: int,
)
    requires
        taps >= 2,
        state.len() == (taps - 1) * n,
        forall|t: int| 0 <= t < inputs.len() ==> (#[trigger] inputs[t]).len() == n,
        0 <= k < taps - 1,
        0 <= d < n,
    ensures
        streamed(state, inputs, n).len() == state.len(),
        streamed(state, inputs, n)[k * n + d] == history(
            state,
            inputs,
            n,
            taps,
            inputs.len() + k,
            d,
        ),
    decreases inputs.len(),
{
    if inputs.len() > 0 {
        let before = inputs.drop_last();
        let held = streamed(state, before, n);
        let last = inputs.last();
        assert(last == inputs[inputs.len() - 1]);
        assert forall|t: int| 0 <= t < before.len() implies (#[trigger] before[t]).len() == n by {
            assert(before[t] == inputs[t]);
        }
        lemma_row_major(k, taps - 1, d, n);
        assert((taps - 2) * n + n == (taps - 1) * n) by (nonlinear_arith);
        if k < taps - 2 {
            lemma_streamed(state, before, n, taps, k + 1, d);
            lemma_row_major(k + 1, taps - 1, d, n);
            assert((k + 1) * n == k * n + n) by (nonlinear_arith);
            lemma_row_major(k, taps - 2, d, n);
            assert(streamed(state, inputs, n)[k * n + d] == held[(k + 1) * n + d]);
        } else {
            lemma_streamed(state, before, n, taps, 0, d);
            assert(streamed(state, inputs, n)[k * n + d] == last[d]);
        }
    }
}

/// Step by step, a convolution meets each output with the input of its step and the
/// `taps - 1` before it.
pub proof fn law_streaming_is_the_convolution<S: Scalar, T: Element<S>>(
    w: Seq<T>,
    b: Seq<T>,
    state: Seq<T>,
    inputs: Seq<Seq<T>>,
    x: Seq<T>,
    n: int,
    taps: int,
    d: int,
)
    requires
        taps >= 2,
        state.len() == (taps - 1) * n,
        forall|t: int| 0 <= t < inputs.len() ==> (#[trigger] inputs[t]).len() == n,
        0 <= d < n,
    ensures
        conv_value::<S, T>(x, w, b, streamed(state, inputs, n), n, taps, d) == T::narrowed(
            accumulate(
                plus(b[d].widened(), times(w[(taps - 1) * n + d].widened(), x[d].widened())),
                |k: int|
                    times(
                        w[k * n + d].widened(),
                        history(state, inputs, n, taps, inputs.len() + k, d).widened(),
                    ),
                taps - 1,
            ),
        ),
{
    let held = streamed(state, inputs, n);
    let f = |k: int| times(w[k * n + d].widened(), held[k * n + d].widened());
    let g = |k: int|
        times(
            w[k * n + d].widened(),
            history(state, inputs, n, taps, inputs.len() + k, d).widened(),
        );
    assert forall|k: int| 0 <= k < taps - 1 implies #[trigger] f(k) == g(k) by {
        lemma_streamed(state, inputs, n, taps, k, d);
    }
    let start: S = plus(b[d].widened(), times(w[(taps - 1) * n + d].widened(), x[d].widened()));
    lemma_accumulate_same(start, f, g, taps - 1);
}

/// One step of a causal convolution over `kernel_size` inputs, of which `state` holds
/// the last ones: it drops the oldest and takes in `x`.
pub fn conv1d_causal_step<S: Scalar, T: Element<S>>(
    x: &[T],
    w: &[T],
    b: &[T],
    state: &mut Vec<T>,
    y: &mut Vec<T>,
    n_channels: u32,
    kernel_size: u32,
)
    requires
        kernel_size >= 2,
        x@.len() == n_channels,
        b@.len() == n_channels,
        w@.len() == kernel_size * n_channels,
        old(state)@.len() == (kernel_size - 1) * n_channels,
        old(y)@.len() == n_channels,
    ensures
        final(y)@ =~= Seq::new(
            n_channels as nat,
            |d: int|
                conv_value::<S, T>(
                    x@,
                    w@,
                    b@,
                    old(state)@,
                    n_channels as int,
                    kernel_size as int,
                    d,
                ),
        ),
        final(state)@ =~= old(state)@.skip(n_channels as int) + x@,
{
    let n: usize = n_channels as usize;
    let taps: usize = kernel_size as usize;
    let ghost before = state@;
    proof {
        lemma_len_fits(w);
    }
    launch(
        y,
        |d: usize| -> (r: T)
            requires
                d < n
            ensures
                r == conv_value::<S, T>(x@, w@, b@, before, n as int, taps as int, d as int)
            {
                let last: usize = flat(taps - 1, d, n, Ghost(taps as int));
                let start = s_add(&b[d].widen(), &s_mul(&w[last].widen(), &x[d].widen()));
                let acc = accumulated(
                    start,
                    |k: usize| -> (v: S)
                        requires
                            k < taps - 1
                        ensures
                            v == times(
                                w@[k * n + d].widened(),
                                before[k * n + d].widened(),
                            )
                        {
                            let at: usize = flat(k, d, n, Ghost(taps as int));
                            proof {
                                lemma_row_major(k as int, taps - 1, d as int, n as int);
                            }
                            s_mul(&w[at].widen(), &state[at].widen())
                        },
                    taps - 1,
                    Ghost(|k: int| times(w@[k * n + d].widened(), before[k * n + d].widened())),
                );
                T::narrow(&acc)
            },
        Ghost(|d: int| conv_value::<S, T>(x@, w@, b@, before, n as int, taps as int, d)),
    );
    let len: usize = state.len();
    proof {
        assert((taps - 1) * n == (taps - 2) * n + n) by (nonlinear_arith);
        assert(0 <= (taps - 2) * n) by (nonlinear_arith)
            requires
                taps >= 2,
        ;
    }
    let kept: usize = len - n;
    let shifted = collect(
        len,
        |i: usize| -> (r: T)
            requires
                i < len
            ensures
                r == (before.skip(n as int) + x@)[i as int]
            {
                if i < kept {
                    state[i + n].copied()
                } else {
                    x[i - kept].copied()
                }
            },
        Ghost(|i: int, r: T| r == (before.skip(n as int) + x@)[i]),
    );
    *state = shifted;
}

/// Extents of a scan.
#[derive(Clone, Copy)]
pub struct ScanShape {
    pub n_heads: usize,
    pub head_dim: usize,
    pub state_dim: usize,
}

impl ScanShape {
    /// Where entry `n` of the state of channel `d` of head `h` is.
    pub open spec fn at(self, h: int, n: int, d: int) -> int {
        (h * self.state_dim + n) * self.head_dim + d
    }
}

/// Entry `n` of the state of channel `d` of head `h`, after the step.
pub open spec fn scanned<S: Scalar, T: Element<S>>(
    x: Seq<T>,
    b: Seq<T>,
    dt: Seq<T>,
    state: Seq<S>,
    decay: spec_fn(int, int, int) -> S,
    sh: ScanShape,
    h: int,
    n: int,
    d: int,
) -> S {
    plus(
        times(decay(h, n, d), state[sh.at(h, n, d)]),
        times(
            times(dt[h].widened(), b[n].widened()),
            x[h * sh.head_dim + d].widened(),
        ),
    )
}

/// Element `i` of the state, after the step.
pub open spec fn scan_state<S: Scalar, T: Element<S>>(
    x: Seq<T>,
    b: Seq<T>,
    dt: Seq<T>,
    state: Seq<S>,
    decay: spec_fn(int, int, int) -> S,
    sh: ScanShape,
    i: int,
) -> S {
    let row = i / sh.head_dim as int;
    scanned(
        x,
        b,
        dt,
        state,
        decay,
        sh,
        row / sh.state_dim as int,
        row % sh.state_dim as int,
        i % sh.head_dim as int,
    )
}

/// Output `i`: the state of its channel, read out by `c`.
pub open spec fn scan_value<S: Scalar, T: Element<S>>(
    x: Seq<T>,
    b: Seq<T>,
    c: Seq<T>,
    dt: Seq<T>,
    state: Seq<S>,
    decay: spec_fn(int, int, int) -> S,
    sh: ScanShape,
    i: int,
) -> T {
    let h = i / sh.head_dim as int;
    let d = i % sh.head_dim as int;
    T::narrowed(
        accumulate(
            zero(),
            |n: int|
                times(c[n].widened(), scanned(x, b, dt, state, decay, sh, h, n, d)),
            sh.state_dim as int,
        ),
    )
}

/// The lengths of the buffers.
pub open spec fn scan_fits<S, T>(
    x: Seq<T>,
    b: Seq<T>,
    c: Seq<T>,
    dt: Seq<T>,
    state: Seq<S>,
    y: Seq<T>,
    sh: ScanShape,
) -> bool {
    &&& dt.len() == sh.n_heads
    &&& x.len() == sh.n_heads * sh.head_dim
    &&& y.len() == x.len()
    &&& b.len() == sh.state_dim
    &&& c.len() == sh.state_dim
    &&& state.len() == (sh.n_heads * sh.state_dim) * sh.head_dim
}

fn scan<S: Scalar, T: Element<S>, F: Fn(usize, usize, usize) -> S>(
    x: &[T],
    b: &[T],
    c: &[T],
    dt: &[T],
    h: &mut Vec<S>,
    y: &mut Vec<T>,
    sh: ScanShape,
    f: F,
    decay: Ghost<spec_fn(int, int, int) -> S>,
)
    requires
        scan_fits(x@, b@, c@, dt@, old(h)@, old(y)@, sh),
        forall|h: usize, n: usize, d: usize|
            h < sh.n_heads && n < sh.state_dim && d < sh.head_dim ==> call_requires(f, (h, n, d)),
        forall|h: usize, n: usize, d: usize, r: S|
            h < sh.n_heads && n < sh.state_dim && d < sh.head_dim && call_ensures(f, (h, n, d), r)
                ==> r == (decay@)(h as int, n as int, d as int),
    ensures
        final(h)@ =~= Seq::new(
            old(h)@.len(),
            |i: int| scan_state::<S, T>(x@, b@, dt@, old(h)@, decay@, sh, i),
        ),
        final(y)@ =~= Seq::new(
            old(y)@.len(),
            |i: int| scan_value::<S, T>(x@, b@, c@, dt@, old(h)@, decay@, sh, i),
        ),
{
    let ghost before = h@;
    let len: usize = h.len();
    proof {
        lemma_len_fits(x);
    }
    let next = collect(
        len,
        |i: usize| -> (r: S)
            requires
                i < len
            ensures
                r == scan_state::<S, T>(x@, b@, dt@, before, decay@, sh, i as int)
            {
                proof {
                    lemma_factors(sh.n_heads * sh.state_dim, sh.head_dim as int);
                    lemma_split(i as int, sh.n_heads * sh.state_dim, sh.head_dim as int);
                    let row = i as int / sh.head_dim as int;
                    lemma_factors(sh.n_heads as int, sh.state_dim as int);
                    lemma_split(row, sh.n_heads as int, sh.state_dim as int);
                }
                let row: usize = i / sh.head_dim;
                let d: usize = i % sh.head_dim;
                let head: usize = row / sh.state_dim;
                let n: usize = row % sh.state_dim;
                let at: usize = flat(head, d, sh.head_dim, Ghost(sh.n_heads as int));
                let old_part = s_mul(&f(head, n, d), &h[i]);
                let new_part = s_mul(&s_mul(&dt[head].widen(), &b[n].widen()), &x[at].widen());
                s_add(&old_part, &new_part)
            },
        Ghost(|i: int, r: S| r == scan_state::<S, T>(x@, b@, dt@, before, decay@, sh, i)),
    );
    let ghost size = y@.len();
    launch(
        y,
        |i: usize| -> (r: T)
            requires
                i < size
            ensures
                r == scan_value::<S, T>(x@, b@, c@, dt@, before, decay@, sh, i as int)
            {
                proof {
                    lemma_factors(sh.n_heads as int, sh.head_dim as int);
                    lemma_split(i as int, sh.n_heads as int, sh.head_dim as int);
                }
                let head: usize = i / sh.head_dim;
                let d: usize = i % sh.head_dim;
                let acc = accumulated(
                    s_zero::<S>(),
                    |n: usize| -> (v: S)
                        requires
                            n < sh.state_dim
                        ensures
                            v == times(
                                c@[n as int].widened(),
                                scanned::<S, T>(
                                    x@,
                                    b@,
                                    dt@,
                                    before,
                                    decay@,
                                    sh,
                                    head as int,
                                    n as int,
                                    d as int,
                                ),
                            )
                        {
                            let at: usize = flat3(
                                head,
                                n,
                                sh.state_dim,
                                d,
                                sh.head_dim,
                                Ghost(sh.n_heads as int),
                            );
                            proof {
                                lemma_row_major_inverse(
                                    head * sh.state_dim + n,
                                    d as int,
                                    sh.head_dim as int,
                                );
                                lemma_row_major_inverse(
                                    head as int,
                                    n as int,
                                    sh.state_dim as int,
                                );
                            }
                            s_mul(&c[n].widen(), &next[at])
                        },
                    sh.state_dim,
                    Ghost(
                        |n: int|
                            times(
                                c@[n].widened(),
                                scanned::<S, T>(
                                    x@,
                                    b@,
                                    dt@,
                                    before,
                                    decay@,
                                    sh,
                                    head as int,
                                    n,
                                    d as int,
                                ),
                            ),
                    ),
                );
                T::narrow(&acc)
            },
        Ghost(|i: int| scan_value::<S, T>(x@, b@, c@, dt@, before, decay@, sh, i)),
    );
    *h = next;
}

pub open spec fn scan_shape(n_heads: int, head_dim: u32, state_dim: u32) -> ScanShape {
    ScanShape {
        n_heads: n_heads as usize,
        head_dim: head_dim as usize,
        state_dim: state_dim as usize,
    }
}

/// One decay per head: `exp(a * dt)`.
pub open spec fn head_decay<S: Scalar, T: Element<S>>(
    a: Seq<T>,
    dt: Seq<T>,
) -> spec_fn(int, int, int) -> S {
    |h: int, n: int, d: int| S::applied(Fun::Exp, times(a[h].widened(), dt[h].widened()))
}

/// One token of a selective scan with one decay per head. `h` is
/// `[n_heads, state_dim, head_dim]`.
pub fn ssm_step<S: Scalar, T: Element<S>>(
    x: &[T],
    a: &[T],
    b: &[T],
    c: &[T],
    dt: &[T],
    h: &mut Vec<S>,
    y: &mut Vec<T>,
    head_dim: u32,
    state_dim: u32,
)
    requires
        scan_fits(
            x@,
            b@,
            c@,
            dt@,
            old(h)@,
            old(y)@,
            scan_shape(dt@.len() as int, head_dim, state_dim),
        ),
        a@.len() == dt@.len(),
    ensures
        final(h)@ =~= Seq::new(
            old(h)@.len(),
            |i: int|
                scan_state::<S, T>(
                    x@,
                    b@,
                    dt@,
                    old(h)@,
                    head_decay(a@, dt@),
                    scan_shape(dt@.len() as int, head_dim, state_dim),
                    i,
                ),
        ),
        final(y)@ =~= Seq::new(
            old(y)@.len(),
            |i: int|
                scan_value::<S, T>(
                    x@,
                    b@,
                    c@,
                    dt@,
                    old(h)@,
                    head_decay(a@, dt@),
                    scan_shape(dt@.len() as int, head_dim, state_dim),
                    i,
                ),
        ),
{
    let sh = ScanShape {
        n_heads: dt.len(),
        head_dim: head_dim as usize,
        state_dim: state_dim as usize,
    };
    scan(
        x,
        b,
        c,
        dt,
        h,
        y,
        sh,
        |h: usize, n: usize, d: usize| -> (r: S)
            requires
                h < sh.n_heads
            ensures
                r == head_decay::<S, T>(a@, dt@)(h as int, n as int, d as int)
            { S::apply(Fun::Exp, &s_mul(&a[h].widen(), &dt[h].widen())) },
        Ghost(head_decay(a@, dt@)),
    );
}

/// One decay per channel and state entry: `exp(-exp(a_log) * dt)`.
pub open spec fn entry_decay<S: Scalar, T: Element<S>>(
    a_log: Seq<T>,
    dt: Seq<T>,
    sh: ScanShape,
) -> spec_fn(int, int, int) -> S {
    |h: int, n: int, d: int|
        S::applied(
            Fun::Exp,
            times(
                minus(
                    zero(),
                    S::applied(
                        Fun::Exp,
                        a_log[(h * sh.head_dim + d) * sh.state_dim + n].widened(),
                    ),
                ),
                dt[h].widened(),
            ),
        )
}

/// One token of a selective scan with one decay per channel and state entry: `a_log`
/// is `[n_heads * head_dim, state_dim]`.
pub fn ssm_step_a2d<S: Scalar, T: Element<S>>(
    x: &[T],
    a_log: &[T],
    b: &[T],
    c: &[T],
    dt: &[T],
    h: &mut Vec<S>,
    y: &mut Vec<T>,
    head_dim: u32,
    state_dim: u32,
)
    requires
        scan_fits(
            x@,
            b@,
            c@,
            dt@,
            old(h)@,
            old(y)@,
            scan_shape(dt@.len() as int, head_dim, state_dim),
        ),
        a_log@.len() == (dt@.len() * head_dim) * state_dim,
    ensures
        final(h)@ =~= Seq::new(
            old(h)@.len(),
            |i: int|
                scan_state::<S, T>(
                    x@,
                    b@,
                    dt@,
                    old(h)@,
                    entry_decay(
                        a_log@,
                        dt@,
                        scan_shape(dt@.len() as int, head_dim, state_dim),
                    ),
                    scan_shape(dt@.len() as int, head_dim, state_dim),
                    i,
                ),
        ),
        final(y)@ =~= Seq::new(
            old(y)@.len(),
            |i: int|
                scan_value::<S, T>(
                    x@,
                    b@,
                    c@,
                    dt@,
                    old(h)@,
                    entry_decay(
                        a_log@,
                        dt@,
                        scan_shape(dt@.len() as int, head_dim, state_dim),
                    ),
                    scan_shape(dt@.len() as int, head_dim, state_dim),
                    i,
                ),
        ),
{
    let sh = ScanShape {
        n_heads: dt.len(),
        head_dim: head_dim as usize,
        state_dim: state_dim as usize,
    };
    proof {
        lemma_len_fits(a_log);
    }
    scan(
        x,
        b,
        c,
        dt,
        h,
        y,
        sh,
        |h: usize, n: usize, d: usize| -> (r: S)
            requires
                h < sh.n_heads && n < sh.state_dim && d < sh.head_dim
            ensures
                r == entry_decay::<S, T>(a_log@, dt@, sh)(h as int, n as int, d as int)
            {
                let at: usize = flat3(
                    h,
                    d,
                    sh.head_dim,
                    n,
                    sh.state_dim,
                    Ghost(sh.n_heads as int),
                );
                let a = s_sub(&s_zero(), &S::apply(Fun::Exp, &a_log[at].widen()));
                S::apply(Fun::Exp, &s_mul(&a, &dt[h].widen()))
            },
        Ghost(entry_decay(a_log@, dt@, sh)),
    );
}

/// Extents of a grouped scan.
#[derive(Clone, Copy)]
pub struct GroupScanShape {
    /// Heads over all of the batch.
    pub n_total: usize,
    pub dh: usize,
    pub ds: usize,
    pub n_heads: usize,
    pub heads_per_group: usize,
}

impl GroupScanShape {
    pub open spec fn valid(self) -> bool {
        &&& self.ds % 32 == 0
        &&& self.n_heads > 0
        &&& self.heads_per_group > 0
        &&& self.n_total % self.heads_per_group == 0
    }

    pub open spec fn groups(self) -> int {
        self.n_total as int / self.heads_per_group as int
    }

    pub open spec fn at(self, n: int, d: int, s: int) -> int {
        (n * self.dh + d) * self.ds + s
    }

    /// Where entry `s` of the group of head `n` is in `b_mat` and `c_mat`.
    pub open spec fn group_at(self, n: int, s: int) -> int {
        n / self.heads_per_group as int * self.ds + s
    }
}

/// Entry `s` of the state of channel `d` of head `n`, after the step.
pub open spec fn group_scanned<S: Scalar, T: Element<S>>(
    x: Seq<T>,
    a_log: Seq<T>,
    b_mat: Seq<T>,
    dt: Seq<T>,
    state: Seq<T>,
    sh: GroupScanShape,
    n: int,
    d: int,
    s: int,
) -> S {
    let a = minus(
        zero::<S>(),
        S::applied(Fun::Exp, a_log[n % sh.n_heads as int].widened()),
    );
    plus(
        times(
            S::applied(Fun::Exp, times(a, dt[n].widened())),
            state[sh.at(n, d, s)].widened(),
        ),
        times(
            times(x[n * sh.dh + d].widened(), dt[n].widened()),
            b_mat[sh.group_at(n, s)].widened(),
        ),
    )
}

/// Element `i` of the state, after the step.
pub open spec fn group_scan_state<S: Scalar, T: Element<S>>(
    x: Seq<T>,
    a_log: Seq<T>,
    b_mat: Seq<T>,
    dt: Seq<T>,
    state: Seq<T>,
    sh: GroupScanShape,
    i: int,
) -> T {
    let row = i / sh.ds as int;
    T::narrowed(
        group_scanned::<S, T>(
            x,
            a_log,
            b_mat,
            dt,
            state,
            sh,
            row / sh.dh as int,
            row % sh.dh as int,
            i % sh.ds as int,
        ),
    )
}

/// What state entry `s` adds to output channel `d` of head `n`.
pub open spec fn group_scan_terms<S: Scalar, T: Element<S>>(
    x: Seq<T>,
    a_log: Seq<T>,
    b_mat: Seq<T>,
    c_mat: Seq<T>,
    dt: Seq<T>,
    state: Seq<T>,
    sh: GroupScanShape,
    n: int,
    d: int,
) -> spec_fn(int) -> S {
    |s: int|
        times(
            group_scanned::<S, T>(x, a_log, b_mat, dt, state, sh, n, d, s),
            c_mat[sh.group_at(n, s)].widened(),
        )
}

/// The sum over the state by the 32 lanes of a simdgroup, each over its own entries.
pub open spec fn simd_total<S: Scalar>(term: spec_fn(int) -> S, per: int) -> S {
    lane_sum(Seq::new(32, |l: int| accumulate(zero(), pack_terms(term, per, l), per)))
}

/// Output `i`.
pub open spec fn group_scan_value<S: Scalar, T: Element<S>>(
    x: Seq<T>,
    a_log: Seq<T>,
    b_mat: Seq<T>,
    c_mat: Seq<T>,
    d_skip: Seq<T>,
    dt: Seq<T>,
    state: Seq<T>,
    sh: GroupScanShape,
    i: int,
) -> T {
    let n = i / sh.dh as int;
    let d = i % sh.dh as int;
    T::narrowed(
        plus(
            simd_total(
                group_scan_terms::<S, T>(x, a_log, b_mat, c_mat, dt, state, sh, n, d),
                sh.ds as int / 32,
            ),
            times(x[i].widened(), d_skip[n % sh.n_heads as int].widened()),
        ),
    )
}

/// The lengths of the buffers.
pub open spec fn group_scan_fits<T>(
    x: Seq<T>,
    a_log: Seq<T>,
    b_mat: Seq<T>,
    c_mat: Seq<T>,
    d_skip: Seq<T>,
    dt: Seq<T>,
    state_in: Seq<T>,
    state_out: Seq<T>,
    out: Seq<T>,
    sh: GroupScanShape,
) -> bool {
    &&& sh.valid()
    &&& x.len() == sh.n_total * sh.dh
    &&& out.len() == x.len()
    &&& a_log.len() == sh.n_heads
    &&& d_skip.len() == sh.n_heads
    &&& dt.len() == sh.n_total
    &&& b_mat.len() == sh.groups() * sh.ds
    &&& c_mat.len() == b_mat.len()
    &&& state_in.len() == (sh.n_total * sh.dh) * sh.ds
    &&& state_out.len() == state_in.len()
}

pub open spec fn group_scan_shape(
    n_total: int,
    dh: u32,
    ds: u32,
    n_heads: u32,
    heads_per_group: u32,
) -> GroupScanShape {
    GroupScanShape {
        n_total: n_total as usize,
        dh: dh as usize,
        ds: ds as usize,
        n_heads: n_heads as usize,
        heads_per_group: heads_per_group as usize,
    }
}

proof fn lemma_group(sh: GroupScanShape, n: int)
    requires
        sh.valid(),
        0 <= n < sh.n_total,
    ensures
        0 <= n / sh.heads_per_group as int,
        sh.groups() > n / sh.heads_per_group as int,
{
    lemma_block(n, sh.n_total as int, sh.heads_per_group as int);
}

/// Entry `s` of the state of channel `d` of head `n`, after the step.
fn group_scan_entry<S: Scalar, T: Element<S>>(
    x: &[T],
    a_log: &[T],
    b_mat: &[T],
    dt: &[T],
    state_in: &[T],
    sh: GroupScanShape,
    n: usize,
    d: usize,
    s: usize,
) -> (r: S)
    requires
        sh.valid(),
        x@.len() == sh.n_total * sh.dh,
        a_log@.len() == sh.n_heads,
        dt@.len() == sh.n_total,
        b_mat@.len() == sh.groups() * sh.ds,
        state_in@.len() == (sh.n_total * sh.dh) * sh.ds,
        n < sh.n_total,
        d < sh.dh,
        s < sh.ds,
    ensures
        r == group_scanned::<S, T>(
            x@,
            a_log@,
            b_mat@,
            dt@,
            state_in@,
            sh,
            n as int,
            d as int,
            s as int,
        ),
{
    proof {
        lemma_group(sh, n as int);
        lemma_len_fits(x);
        lemma_len_fits(b_mat);
        lemma_len_fits(state_in);
    }
    let a = s_sub(&s_zero(), &S::apply(Fun::Exp, &a_log[n % sh.n_heads].widen()));
    let da = S::apply(Fun::Exp, &s_mul(&a, &dt[n].widen()));
    let x_at: usize = flat(n, d, sh.dh, Ghost(sh.n_total as int));
    let b_at: usize = flat(n / sh.heads_per_group, s, sh.ds, Ghost(sh.groups()));
    let s_at: usize = flat3(n, d, sh.dh, s, sh.ds, Ghost(sh.n_total as int));
    let db = s_mul(&s_mul(&x[x_at].widen(), &dt[n].widen()), &b_mat[b_at].widen());
    s_add(&s_mul(&da, &state_in[s_at].widen()), &db)
}

/// One token of a selective scan in which heads share input and output vectors by
/// groups, with a skip connection. The state is `[n_total, dh, ds]`.
pub fn mt_ssm_step<S: Scalar, T: Element<S>>(
    x: &[T],
    a_log: &[T],
    b_mat: &[T],
    c_mat: &[T],
    d_skip: &[T],
    dt: &[T],
    state_in: &[T],
    state_out: &mut Vec<T>,
    out: &mut Vec<T>,
    dh: u32,
    ds: u32,
    n_heads: u32,
    heads_per_group: u32,
)
    requires
        group_scan_fits(
            x@,
            a_log@,
            b_mat@,
            c_mat@,
            d_skip@,
            dt@,
            state_in@,
            old(state_out)@,
            old(out)@,
            group_scan_shape(dt@.len() as int, dh, ds, n_heads, heads_per_group),
        ),
    ensures
        final(state_out)@ =~= Seq::new(
            old(state_out)@.len(),
            |i: int|
                group_scan_state::<S, T>(
                    x@,
                    a_log@,
                    b_mat@,
                    dt@,
                    state_in@,
                    group_scan_shape(dt@.len() as int, dh, ds, n_heads, heads_per_group),
                    i,
                ),
        ),
        final(out)@ =~= Seq::new(
            old(out)@.len(),
            |i: int|
                group_scan_value::<S, T>(
                    x@,
                    a_log@,
                    b_mat@,
                    c_mat@,
                    d_skip@,
                    dt@,
                    state_in@,
                    group_scan_shape(dt@.len() as int, dh, ds, n_heads, heads_per_group),
                    i,
                ),
        ),
{
    let sh = GroupScanShape {
        n_total: dt.len(),
        dh: dh as usize,
        ds: ds as usize,
        n_heads: n_heads as usize,
        heads_per_group: heads_per_group as usize,
    };
    proof {
        lemma_len_fits(c_mat);
    }
    let ghost states = state_out@.len();
    launch(
        state_out,
        |i: usize| -> (r: T)
            requires
                i < states
            ensures
                r == group_scan_state::<S, T>(x@, a_log@, b_mat@, dt@, state_in@, sh, i as int)
            {
                proof {
                    lemma_factors(sh.n_total * sh.dh, sh.ds as int);
                    lemma_factors(sh.n_total as int, sh.dh as int);
                    lemma_split(i as int, sh.n_total * sh.dh, sh.ds as int);
                    lemma_split(i as int / sh.ds as int, sh.n_total as int, sh.dh as int);
                }
                let row: usize = i / sh.ds;
                let v = group_scan_entry::<S, T>(
                    x,
                    a_log,
                    b_mat,
                    dt,
                    state_in,
                    sh,
                    row / sh.dh,
                    row % sh.dh,
                    i % sh.ds,
                );
                T::narrow(&v)
            },
        Ghost(
            |i: int| group_scan_state::<S, T>(x@, a_log@, b_mat@, dt@, state_in@, sh, i),
        ),
    );
    let per: usize = sh.ds / 32;
    let ghost size = out@.len();
    launch(
        out,
        |i: usize| -> (r: T)
            requires
                i < size
            ensures
                r == group_scan_value::<S, T>(
                    x@,
                    a_log@,
                    b_mat@,
                    c_mat@,
                    d_skip@,
                    dt@,
                    state_in@,
                    sh,
                    i as int,
                )
            {
                proof {
                    lemma_factors(sh.n_total as int, sh.dh as int);
                    lemma_split(i as int, sh.n_total as int, sh.dh as int);
                }
                let n: usize = i / sh.dh;
                let d: usize = i % sh.dh;
                let ghost term = group_scan_terms::<S, T>(
                    x@,
                    a_log@,
                    b_mat@,
                    c_mat@,
                    dt@,
                    state_in@,
                    sh,
                    n as int,
                    d as int,
                );
                proof {
                    lemma_group(sh, n as int);
                }
                let parts = collect(
                    32,
                    |l: usize| -> (v: S)
                        requires
                            l < 32
                        ensures
                            v == accumulate(
                                zero(),
                                pack_terms(term, per as int, l as int),
                                per as int,
                            )
                        {
                            accumulated(
                                s_zero::<S>(),
                                |k: usize| -> (v: S)
                                    requires
                                        k < per
                                    ensures
                                        v == pack_terms(term, per as int, l as int)(k as int)
                                    {
                                        let s: usize = flat(l, k, per, Ghost(32));
                                        let at: usize = flat(
                                            n / sh.heads_per_group,
                                            s,
                                            sh.ds,
                                            Ghost(sh.groups()),
                                        );
                                        let v = group_scan_entry::<S, T>(
                                            x,
                                            a_log,
                                            b_mat,
                                            dt,
                                            state_in,
                                            sh,
                                            n,
                                            d,
                                            s,
                                        );
                                        s_mul(&v, &c_mat[at].widen())
                                    },
                                per,
                                Ghost(pack_terms(term, per as int, l as int)),
                            )
                        },
                    Ghost(
                        |l: int, v: S|
                            v == accumulate(zero(), pack_terms(term, per as int, l), per as int),
                    ),
                );
                assert(parts@ =~= Seq::new(
                    32,
                    |l: int| accumulate(zero(), pack_terms(term, per as int, l), per as int),
                ));
                let total = lane_summed(&parts);
                let skip = s_mul(&x[i].widen(), &d_skip[n % sh.n_heads].widen());
                T::narrow(&s_add(&total, &skip))
            },
        Ghost(
            |i: int|
                group_scan_value::<S, T>(
                    x@,
                    a_log@,
                    b_mat@,
                    c_mat@,
                    d_skip@,
                    dt@,
                    state_in@,
                    sh,
                    i,
                ),
        ),
    );
}

} // verus!
