//! A whole LSTM layer in one direction.
//!
//! `x` is `[seq_len, input_dim]`, `w_ih` `[4 * hidden, input_dim]`, `w_hh`
//! `[4 * hidden, hidden]` and `bias` `[4 * hidden]`, with the gates in the order input,
//! forget, cell, output. The hidden states go to columns `out_offset` and on of `out`,
//! which is `[seq_len, out_stride]`: two launches, one of them in reverse, fill both
//! halves of a bidirectional layer.
use vstd::prelude::*;

use crate::lanes::{accumulate, accumulated, collect, launch_some};
use crate::layout::{
    flat, lemma_factors, lemma_len_fits, lemma_row_major, lemma_row_major_inverse, lemma_split,
};
use crate::scalar::{
    minus, one, over, plus, s_add, s_div, s_mul, s_one, s_sub, s_zero, times, zero, Element, Fun,
    Scalar,
};

verus! {

#[derive(Clone, Copy)]
pub struct LstmShape {
    pub seq_len: usize,
    pub input_dim: usize,
    pub hidden: usize,
    pub reverse: bool,
}

impl LstmShape {
    /// The time step that comes `step`-th.
    pub open spec fn time(self, step: int) -> int {
        if self.reverse {
            self.seq_len - 1 - step
        } else {
            step
        }
    }

    pub fn time_of(self, step: usize) -> (t: usize)
        requires
            step < self.seq_len,
        ensures
            t == self.time(step as int),
            t < self.seq_len,
    {
        if self.reverse {
            self.seq_len - 1 - step
        } else {
            step
        }
    }
}

/// `1 / (1 + exp(-v))`.
pub open spec fn logistic<S: Scalar>(v: S) -> S {
    over(one(), plus(one(), S::applied(Fun::Exp, minus(zero(), v))))
}

/// `2 / (1 + exp(-2 * v)) - 1`.
pub open spec fn tanh_of<S: Scalar>(v: S) -> S {
    minus(
        over(
            S::rational(2, 1),
            plus(one(), S::applied(Fun::Exp, minus(zero(), times(S::rational(2, 1), v)))),
        ),
        one(),
    )
}

/// What gate row `r` is before its activation, at time `t` and after hidden state `h`.
pub open spec fn gate_sum<S: Scalar, T: Element<S>>(
    x: Seq<T>,
    w_ih: Seq<T>,
    w_hh: Seq<T>,
    bias: Seq<S>,
    sh: LstmShape,
    h: Seq<S>,
    t: int,
    r: int,
) -> S {
    accumulate(
        accumulate(
            bias[r],
            |k: int|
                times(
                    w_ih[r * sh.input_dim + k].widened(),
                    x[t * sh.input_dim + k].widened(),
                ),
            sh.input_dim as int,
        ),
        |m: int| times(w_hh[r * sh.hidden + m].widened(), h[m]),
        sh.hidden as int,
    )
}

/// Hidden and cell state.
#[verifier::ext_equal]
pub struct LstmState<S> {
    pub h: Seq<S>,
    pub c: Seq<S>,
}

/// The cell of unit `j` after time `t`.
pub open spec fn cell_of<S: Scalar, T: Element<S>>(
    x: Seq<T>,
    w_ih: Seq<T>,
    w_hh: Seq<T>,
    bias: Seq<S>,
    sh: LstmShape,
    st: LstmState<S>,
    t: int,
    j: int,
) -> S {
    let i = logistic(gate_sum(x, w_ih, w_hh, bias, sh, st.h, t, j));
    let f = logistic(gate_sum(x, w_ih, w_hh, bias, sh, st.h, t, sh.hidden + j));
    let g = tanh_of(gate_sum(x, w_ih, w_hh, bias, sh, st.h, t, 2 * sh.hidden + j));
    plus(times(f, st.c[j]), times(i, g))
}

/// The hidden state of unit `j` after time `t`.
pub open spec fn hidden_of<S: Scalar, T: Element<S>>(
    x: Seq<T>,
    w_ih: Seq<T>,
    w_hh: Seq<T>,
    bias: Seq<S>,
    sh: LstmShape,
    st: LstmState<S>,
    t: int,
    j: int,
) -> S {
    let o = logistic(gate_sum(x, w_ih, w_hh, bias, sh, st.h, t, 3 * sh.hidden + j));
    times(o, tanh_of(cell_of(x, w_ih, w_hh, bias, sh, st, t, j)))
}

/// The state after `steps` time steps.
pub open spec fn lstm_after<S: Scalar, T: Element<S>>(
    x: Seq<T>,
    w_ih: Seq<T>,
    w_hh: Seq<T>,
    bias: Seq<S>,
    sh: LstmShape,
    steps: int,
) -> LstmState<S>
    decreases steps,
{
    if steps <= 0 {
        LstmState {
            h: Seq::new(sh.hidden as nat, |j: int| zero()),
            c: Seq::new(sh.hidden as nat, |j: int| zero()),
        }
    } else {
        let st = lstm_after(x, w_ih, w_hh, bias, sh, steps - 1);
        let t = sh.time(steps - 1);
        LstmState {
            h: Seq::new(
                sh.hidden as nat,
                |j: int| hidden_of(x, w_ih, w_hh, bias, sh, st, t, j),
            ),
            c: Seq::new(
                sh.hidden as nat,
                |j: int| cell_of(x, w_ih, w_hh, bias, sh, st, t, j),
            ),
        }
    }
}

/// What the launch writes to element `i` of the output, if anything.
pub open spec fn lstm_value<S: Scalar, T: Element<S>>(
    x: Seq<T>,
    w_ih: Seq<T>,
    w_hh: Seq<T>,
    bias: Seq<S>,
    sh: LstmShape,
    out_stride: int,
    out_offset: int,
    i: int,
) -> Option<T> {
    let t = i / out_stride;
    let j = i % out_stride - out_offset;
    if 0 <= j < sh.hidden {
        Some(T::narrowed(lstm_after(x, w_ih, w_hh, bias, sh, sh.time(t) + 1).h[j]))
    } else {
        None
    }
}

/// The lengths of the inputs.
pub open spec fn lstm_fits<S, T>(
    x: Seq<T>,
    w_ih: Seq<T>,
    w_hh: Seq<T>,
    bias: Seq<S>,
    sh: LstmShape,
) -> bool {
    &&& sh.hidden <= 1024
    &&& x.len() == sh.seq_len * sh.input_dim
    &&& w_ih.len() == (4 * sh.hidden) * sh.input_dim
    &&& w_hh.len() == (4 * sh.hidden) * sh.hidden
    &&& bias.len() == 4 * sh.hidden
}

pub open spec fn lstm_shape(
    seq_len: u32,
    input_dim: u32,
    hidden: u32,
    reverse: u32,
) -> LstmShape {
    LstmShape {
        seq_len: seq_len as usize,
        input_dim: input_dim as usize,
        hidden: hidden as usize,
        reverse: reverse > 0,
    }
}

fn logistic_of<S: Scalar>(v: &S) -> (r: S)
    ensures
        r == logistic(*v),
{
    s_div(&s_one(), &s_add(&s_one(), &S::apply(Fun::Exp, &s_sub(&s_zero(), v))))
}

fn hyperbolic<S: Scalar>(v: &S) -> (r: S)
    ensures
        r == tanh_of(*v),
{
    let two = S::ratio(2, 1);
    let e = S::apply(Fun::Exp, &s_sub(&s_zero(), &s_mul(&two, v)));
    s_sub(&s_div(&two, &s_add(&s_one(), &e)), &s_one())
}

fn gate_sum_of<S: Scalar, T: Element<S>>(
    x: &[T],
    w_ih: &[T],
    w_hh: &[T],
    bias: &[S],
    sh: LstmShape,
    h: &Vec<S>,
    t: usize,
    r: usize,
) -> (g: S)
    requires
        lstm_fits(x@, w_ih@, w_hh@, bias@, sh),
        h@.len() == sh.hidden,
        t < sh.seq_len,
        r < 4 * sh.hidden,
    ensures
        g == gate_sum(x@, w_ih@, w_hh@, bias@, sh, h@, t as int, r as int),
{
    let ghost rows = 4 * sh.hidden;
    proof {
        lemma_len_fits(x);
        lemma_len_fits(w_ih);
        lemma_len_fits(w_hh);
    }
    let from_input = accumulated(
        bias[r].dup(),
        |k: usize| -> (v: S)
            requires
                k < sh.input_dim
            ensures
                v == times(
                    w_ih@[r * sh.input_dim + k].widened(),
                    x@[t * sh.input_dim + k].widened(),
                )
            {
                let w_at: usize = flat(r, k, sh.input_dim, Ghost(rows));
                let x_at: usize = flat(t, k, sh.input_dim, Ghost(sh.seq_len as int));
                s_mul(&w_ih[w_at].widen(), &x[x_at].widen())
            },
        sh.input_dim,
        Ghost(
            |k: int|
                times(
                    w_ih@[r * sh.input_dim + k].widened(),
                    x@[t * sh.input_dim + k].widened(),
                ),
        ),
    );
    accumulated(
        from_input,
        |m: usize| -> (v: S)
            requires
                m < sh.hidden
            ensures
                v == times(w_hh@[r * sh.hidden + m].widened(), h@[m as int])
            {
                let at: usize = flat(r, m, sh.hidden, Ghost(rows));
                s_mul(&w_hh[at].widen(), &h[m])
            },
        sh.hidden,
        Ghost(|m: int| times(w_hh@[r * sh.hidden + m].widened(), h@[m])),
    )
}

/// Runs the layer over the whole sequence.
pub fn ffai_lstm<S: Scalar, T: Element<S>>(
    x: &[T],
    w_ih: &[T],
    w_hh: &[T],
    bias: &[S],
    out: &mut Vec<T>,
    seq_len: u32,
    input_dim: u32,
    hidden: u32,
    reverse: u32,
    out_stride: u32,
    out_offset: u32,
)
    requires
        lstm_fits(x@, w_ih@, w_hh@, bias@, lstm_shape(seq_len, input_dim, hidden, reverse)),
        out_offset + hidden <= out_stride,
        old(out)@.len() == seq_len * out_stride,
    ensures
        final(out)@ =~= Seq::new(
            old(out)@.len(),
            |i: int|
                match lstm_value::<S, T>(
                    x@,
                    w_ih@,
                    w_hh@,
                    bias@,
                    lstm_shape(seq_len, input_dim, hidden, reverse),
                    out_stride as int,
                    out_offset as int,
                    i,
                ) {
                    Some(v) => v,
                    None => old(out)@[i],
                },
        ),
{
    let sh = LstmShape {
        seq_len: seq_len as usize,
        input_dim: input_dim as usize,
        hidden: hidden as usize,
        reverse: reverse > 0,
    };
    let mut h: Vec<S> = collect(
        sh.hidden,
        |j: usize| -> (r: S)
            ensures
                r == zero::<S>()
            { s_zero() },
        Ghost(|j: int, r: S| r == zero::<S>()),
    );
    let mut c: Vec<S> = collect(
        sh.hidden,
        |j: usize| -> (r: S)
            ensures
                r == zero::<S>()
            { s_zero() },
        Ghost(|j: int, r: S| r == zero::<S>()),
    );
    let mut hs: Vec<Vec<S>> = Vec::new();
    let ghost mut st = lstm_after(x@, w_ih@, w_hh@, bias@, sh, 0);
    let mut step: usize = 0;
    assert(h@ =~= st.h);
    assert(c@ =~= st.c);
    while step < sh.seq_len
        invariant
            step <= sh.seq_len,
            lstm_fits(x@, w_ih@, w_hh@, bias@, sh),
            st == lstm_after(x@, w_ih@, w_hh@, bias@, sh, step as int),
            h@ == st.h,
            c@ == st.c,
            h@.len() == sh.hidden,
            c@.len() == sh.hidden,
            hs@.len() == step,
            forall|s: int|
                0 <= s < step ==> (#[trigger] hs@[s])@ == lstm_after(
                    x@,
                    w_ih@,
                    w_hh@,
                    bias@,
                    sh,
                    s + 1,
                ).h,
        decreases sh.seq_len - step,
    {
        let t: usize = sh.time_of(step);
        let n: usize = sh.hidden;
        let next_c: Vec<S> = collect(
            n,
            |j: usize| -> (r: S)
                requires
                    j < n
                ensures
                    r == cell_of(x@, w_ih@, w_hh@, bias@, sh, st, t as int, j as int)
                {
                    let i = logistic_of(&gate_sum_of(x, w_ih, w_hh, bias, sh, &h, t, j));
                    let f = logistic_of(&gate_sum_of(x, w_ih, w_hh, bias, sh, &h, t, n + j));
                    let g = hyperbolic(&gate_sum_of(x, w_ih, w_hh, bias, sh, &h, t, 2 * n + j));
                    s_add(&s_mul(&f, &c[j]), &s_mul(&i, &g))
                },
            Ghost(
                |j: int, r: S| r == cell_of(x@, w_ih@, w_hh@, bias@, sh, st, t as int, j),
            ),
        );
        let next_h: Vec<S> = collect(
            n,
            |j: usize| -> (r: S)
                requires
                    j < n
                ensures
                    r == hidden_of(x@, w_ih@, w_hh@, bias@, sh, st, t as int, j as int)
                {
                    let o = logistic_of(&gate_sum_of(x, w_ih, w_hh, bias, sh, &h, t, 3 * n + j));
                    s_mul(&o, &hyperbolic(&next_c[j]))
                },
            Ghost(
                |j: int, r: S| r == hidden_of(x@, w_ih@, w_hh@, bias@, sh, st, t as int, j),
            ),
        );
        let kept = collect(
            n,
            |j: usize| -> (r: S)
                requires
                    j < n
                ensures
                    r == next_h@[j as int]
                { next_h[j].dup() },
            Ghost(|j: int, r: S| r == next_h@[j]),
        );
        proof {
            let after = lstm_after(x@, w_ih@, w_hh@, bias@, sh, step + 1);
            assert(next_h@ =~= after.h);
            assert(next_c@ =~= after.c);
            assert(kept@ =~= after.h);
            st = after;
        }
        h = next_h;
        c = next_c;
        hs.push(kept);
        step = step + 1;
    }
    let stride: usize = out_stride as usize;
    let offset: usize = out_offset as usize;
    let ghost size = out@.len();
    launch_some(
        out,
        |i: usize| -> (r: Option<T>)
            requires
                i < size
            ensures
                r == lstm_value::<S, T>(
                    x@,
                    w_ih@,
                    w_hh@,
                    bias@,
                    sh,
                    stride as int,
                    offset as int,
                    i as int,
                )
            {
                proof {
                    lemma_factors(sh.seq_len as int, stride as int);
                    lemma_split(i as int, sh.seq_len as int, stride as int);
                }
                let col: usize = i % stride;
                if col >= offset && col - offset < sh.hidden {
                    let row = &hs[sh.time_of(i / stride)];
                    proof {
                        assert(row@ == lstm_after(
                            x@,
                            w_ih@,
                            w_hh@,
                            bias@,
                            sh,
                            sh.time(i as int / stride as int) + 1,
                        ).h);
                    }
                    Some(T::narrow(&row[col - offset]))
                } else {
                    None
                }
            },
        Ghost(
            |i: int|
                lstm_value::<S, T>(
                    x@,
                    w_ih@,
                    w_hh@,
                    bias@,
                    sh,
                    stride as int,
                    offset as int,
                    i,
                ),
        ),
    );
}

/// The rows of `x` in reverse order.
pub open spec fn reversed_rows<T>(x: Seq<T>, rows: int, cols: int) -> Seq<T> {
    Seq::new(x.len(), |i: int| x[(rows - 1 - i / cols) * cols + i % cols])
}

/// Of two launches side by side in an output of twice the width, each element is
/// written by one and only one.
pub proof fn law_two_directions_fill_the_output<S: Scalar, T: Element<S>>(
    x: Seq<T>,
    w_ih: Seq<T>,
    w_hh: Seq<T>,
    bias: Seq<S>,
    back_w_ih: Seq<T>,
    back_w_hh: Seq<T>,
    back_bias: Seq<S>,
    sh: LstmShape,
    i: int,
)
    requires
        sh.hidden > 0,
    ensures
        ({
            let width = 2 * sh.hidden as int;
            let forth = LstmShape { reverse: false, ..sh };
            let back = LstmShape { reverse: true, ..sh };
            let first = lstm_value::<S, T>(x, w_ih, w_hh, bias, forth, width, 0, i);
            let second = lstm_value::<S, T>(
                x,
                back_w_ih,
                back_w_hh,
                back_bias,
                back,
                width,
                sh.hidden as int,
                i,
            );
            (first is Some) != (second is Some)
        }),
{
    vstd::arithmetic::div_mod::lemma_mod_bound(i, 2 * sh.hidden as int);
}

/// A reverse pass is a forward pass over the reversed sequence.
pub proof fn law_reverse_is_forward_on_reversed<S: Scalar, T: Element<S>>(
    x: Seq<T>,
    w_ih: Seq<T>,
    w_hh: Seq<T>,
    bias: Seq<S>,
    sh: LstmShape,
    steps: int,
)
    requires
        lstm_fits(x, w_ih, w_hh, bias, sh),
        sh.reverse,
        0 <= steps <= sh.seq_len,
    ensures
        lstm_after(x, w_ih, w_hh, bias, sh, steps) == lstm_after(
            reversed_rows(x, sh.seq_len as int, sh.input_dim as int),
            w_ih,
            w_hh,
            bias,
            LstmShape { reverse: false, ..sh },
            steps,
        ),
    decreases steps,
{
    let flipped = reversed_rows(x, sh.seq_len as int, sh.input_dim as int);
    let fw = LstmShape { reverse: false, ..sh };
    if steps > 0 {
        law_reverse_is_forward_on_reversed(x, w_ih, w_hh, bias, sh, steps - 1);
        let st = lstm_after(x, w_ih, w_hh, bias, sh, steps - 1);
        let t = sh.time(steps - 1);
        assert forall|r: int| #[trigger]
            gate_sum(x, w_ih, w_hh, bias, sh, st.h, t, r) == gate_sum(
                flipped,
                w_ih,
                w_hh,
                bias,
                fw,
                st.h,
                steps - 1,
                r,
            ) by {
            lemma_same_input(x, flipped, w_ih, bias[r], sh, t, steps - 1, r, sh.input_dim as int);
        }
        let a = lstm_after(x, w_ih, w_hh, bias, sh, steps);
        let b = lstm_after(flipped, w_ih, w_hh, bias, fw, steps);
        assert forall|j: int| 0 <= j < sh.hidden implies a.h[j] == b.h[j] && a.c[j] == b.c[j] by {
            assert(gate_sum(x, w_ih, w_hh, bias, sh, st.h, t, j) == gate_sum(
                flipped,
                w_ih,
                w_hh,
                bias,
                fw,
                st.h,
                steps - 1,
                j,
            ));
        }
        assert(a.h =~= b.h);
        assert(a.c =~= b.c);
    }
}

proof fn lemma_same_input<S: Scalar, T: Element<S>>(
    x: Seq<T>,
    flipped: Seq<T>,
    w_ih: Seq<T>,
    start: S,
    sh: LstmShape,
    t: int,
    step: int,
    r: int,
    k: int,
)
    requires
        x.len() == sh.seq_len * sh.input_dim,
        flipped == reversed_rows(x, sh.seq_len as int, sh.input_dim as int),
        t == sh.seq_len - 1 - step,
        0 <= step < sh.seq_len,
        0 <= k <= sh.input_dim,
    ensures
        accumulate(
            start,
            |k: int|
                times(w_ih[r * sh.input_dim + k].widened(), x[t * sh.input_dim + k].widened()),
            k,
        ) == accumulate(
            start,
            |k: int|
                times(
                    w_ih[r * sh.input_dim + k].widened(),
                    flipped[step * sh.input_dim + k].widened(),
                ),
            k,
        ),
    decreases k,
{
    if k > 0 {
        lemma_same_input(x, flipped, w_ih, start, sh, t, step, r, k - 1);
        lemma_row_major(
            step,
            sh.seq_len as int,
            k - 1,
            sh.input_dim as int,
        );
        lemma_row_major_inverse(step, k - 1, sh.input_dim as int);
    }
}

} // verus!
