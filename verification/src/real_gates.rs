//! The ranges of gates when scalars stand for real numbers.
use vstd::prelude::*;

use crate::fused_gate_activation::clipped;
use crate::lstm::{
    cell_of, gate_sum, hidden_of, logistic, lstm_after, tanh_of, LstmShape, LstmState,
};
use crate::real_model::{
    lemma_val_constants, lemma_val_exp, lemma_val_max, lemma_val_min, lemma_val_over,
    lemma_val_plus, lemma_val_rational, models_reals,
};
use crate::scalar::{minus, one, over, plus, times, zero, Element, Fun, Op, Scalar};

verus! {

proof fn lemma_reciprocal(c: real, e: real)
    requires
        c > 0 as real,
        e > 0 as real,
    ensures
        c / (1 as real + e) > 0 as real,
        c / (1 as real + e) < c,
{
    let d = 1 as real + e;
    let q = c / d;
    assert(q * d == c) by (nonlinear_arith)
        requires
            q == c / d,
            d > 0 as real,
    ;
    assert(q > 0 as real) by (nonlinear_arith)
        requires
            q * d == c,
            d > 0 as real,
            c > 0 as real,
    ;
    assert(q < c) by (nonlinear_arith)
        requires
            q * d == c,
            d > 1 as real,
            q > 0 as real,
    ;
}

/// A gate lies strictly between zero and one.
pub proof fn law_gate_is_a_share<S: Scalar>(val: spec_fn(S) -> real, v: S)
    requires
        models_reals(val),
    ensures
        val(logistic(v)) > 0 as real,
        val(logistic(v)) < 1 as real,
{
    lemma_val_constants(val, 0);
    let e = S::applied(Fun::Exp, minus(zero(), v));
    lemma_val_exp(val, minus(zero(), v), minus(zero(), v));
    lemma_val_plus(val, one(), e);
    lemma_val_over(val, one(), plus(one(), e));
    lemma_reciprocal(1 as real, val(e));
}

/// A candidate lies strictly between minus one and one.
pub proof fn law_candidate_is_bounded<S: Scalar>(val: spec_fn(S) -> real, v: S)
    requires
        models_reals(val),
    ensures
        val(tanh_of(v)) > -(1 as real),
        val(tanh_of(v)) < 1 as real,
{
    lemma_val_constants(val, 0);
    let two = S::rational(2, 1);
    lemma_val_rational(val, 2, 1);
    assert(val(two) == 2 as real) by {
        let x = 2i64 as real;
        assert(x / (1u64 as real) == x) by (nonlinear_arith);
    }
    let x = minus(zero(), times(two, v));
    let e = S::applied(Fun::Exp, x);
    lemma_val_exp(val, x, x);
    lemma_val_plus(val, one(), e);
    lemma_val_over(val, two, plus(one(), e));
    lemma_val_plus(val, over(two, plus(one(), e)), one());
    lemma_reciprocal(2 as real, val(e));
}

/// Every hidden state of an LSTM lies between minus one and one.
pub proof fn law_hidden_state_is_bounded<S: Scalar, T: Element<S>>(
    val: spec_fn(S) -> real,
    x: Seq<T>,
    w_ih: Seq<T>,
    w_hh: Seq<T>,
    bias: Seq<S>,
    sh: LstmShape,
    steps: int,
    j: int,
)
    requires
        models_reals(val),
        0 <= j < sh.hidden,
    ensures
        val(lstm_after(x, w_ih, w_hh, bias, sh, steps).h[j]) > -(1 as real),
        val(lstm_after(x, w_ih, w_hh, bias, sh, steps).h[j]) < 1 as real,
{
    lemma_val_constants(val, 0);
    if steps > 0 {
        let st: LstmState<S> = lstm_after(x, w_ih, w_hh, bias, sh, steps - 1);
        let t = sh.time(steps - 1);
        let gate = gate_sum(x, w_ih, w_hh, bias, sh, st.h, t, 3 * sh.hidden + j);
        let cell = cell_of(x, w_ih, w_hh, bias, sh, st, t, j);
        assert(lstm_after(x, w_ih, w_hh, bias, sh, steps).h[j] == hidden_of(
            x,
            w_ih,
            w_hh,
            bias,
            sh,
            st,
            t,
            j,
        ));
        law_gate_is_a_share(val, gate);
        law_candidate_is_bounded(val, cell);
        lemma_val_plus(val, logistic(gate), tanh_of(cell));
        let o = val(logistic(gate));
        let c = val(tanh_of(cell));
        assert(o * c < 1 as real) by (nonlinear_arith)
            requires
                (0 as real) < o,
                o < 1 as real,
                c < 1 as real,
        ;
        assert(o * c > -(1 as real)) by (nonlinear_arith)
            requires
                (0 as real) < o,
                o < 1 as real,
                c > -(1 as real),
        ;
    }
}

/// A clipped value lies between -7 and 7, and a value that does so already is kept.
pub proof fn law_clip_holds_its_bounds<S: Scalar>(val: spec_fn(S) -> real, v: S)
    requires
        models_reals(val),
    ensures
        -(7 as real) <= val(clipped(v)),
        val(clipped(v)) <= 7 as real,
        -(7 as real) <= val(v) && val(v) <= 7 as real ==> val(clipped(v)) == val(v),
{
    let low = S::rational((-7) as i64, 1);
    let high = S::rational(7, 1);
    lemma_val_rational(val, (-7) as i64, 1);
    lemma_val_rational(val, 7, 1);
    assert(val(low) == -(7 as real) && val(high) == 7 as real) by {
        let a = ((-7) as i64) as real;
        let b = 7i64 as real;
        assert(a / (1u64 as real) == a) by (nonlinear_arith);
        assert(b / (1u64 as real) == b) by (nonlinear_arith);
    }
    let raised = S::combined(Op::Max, v, low);
    lemma_val_max(val, v, low);
    lemma_val_min(val, raised, high);
}

} // verus!
