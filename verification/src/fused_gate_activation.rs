//! Gated activation of a feed-forward layer: `act(gate) * up`.
//!
//! `gate_up` is `[rows, 2 * hidden]`, each row its gate values and then its up values;
//! `out` is `[rows, hidden]`.
use vstd::prelude::*;

use crate::lanes::launch;
use crate::layout::{flat3, lemma_len_fits, lemma_split};
use crate::scalar::{
    one, plus, s_add, s_mul, s_one, times, Element, Fun, Op, Scalar,
};

verus! {

#[derive(Clone, Copy, PartialEq, Eq, Structural, Debug)]
pub enum Activation {
    Silu,
    Gelu,
    Swiglu,
}

/// `v`, brought between -7 and 7.
pub open spec fn clipped<S: Scalar>(v: S) -> S {
    S::combined(Op::Min, S::combined(Op::Max, v, S::rational((-7) as i64, 1)), S::rational(7, 1))
}

/// What gate `g` makes of `u`.
pub open spec fn gated<S: Scalar>(act: Activation, g: S, u: S) -> S {
    match act {
        Activation::Silu => times(S::applied(Fun::Silu, g), u),
        Activation::Gelu => times(S::applied(Fun::Gelu, g), u),
        Activation::Swiglu => {
            let gc = clipped(g);
            let s = S::applied(Fun::Sigmoid, times(S::rational(1702, 1000), gc));
            times(times(gc, s), plus(clipped(u), one()))
        },
    }
}

/// Element `i` of the output.
pub open spec fn gate_value<S: Scalar, T: Element<S>>(
    gate_up: Seq<T>,
    hidden: int,
    act: Activation,
    i: int,
) -> T {
    let row = i / hidden;
    let col = i % hidden;
    T::narrowed(
        gated(
            act,
            gate_up[row * 2 * hidden + col].widened(),
            gate_up[row * 2 * hidden + hidden + col].widened(),
        ),
    )
}

fn clip<S: Scalar>(v: &S) -> (r: S)
    ensures
        r == clipped(*v),
{
    S::combine(Op::Min, &S::combine(Op::Max, v, &S::ratio(-7, 1)), &S::ratio(7, 1))
}

fn gate<S: Scalar>(act: Activation, g: &S, u: &S) -> (r: S)
    ensures
        r == gated(act, *g, *u),
{
    match act {
        Activation::Silu => s_mul(&S::apply(Fun::Silu, g), u),
        Activation::Gelu => s_mul(&S::apply(Fun::Gelu, g), u),
        Activation::Swiglu => {
            let gc = clip(g);
            let s = S::apply(Fun::Sigmoid, &s_mul(&S::ratio(1702, 1000), &gc));
            s_mul(&s_mul(&gc, &s), &s_add(&clip(u), &s_one()))
        },
    }
}

/// The lengths of both buffers.
pub open spec fn gate_fits<T>(gate_up: Seq<T>, out: Seq<T>, hidden: int) -> bool {
    &&& hidden > 0
    &&& out.len() % (hidden as nat) == 0
    &&& gate_up.len() == 2 * out.len()
}

fn fused_gate<S: Scalar, T: Element<S>>(
    gate_up: &[T],
    out: &mut Vec<T>,
    hidden: u32,
    act: Activation,
)
    requires
        gate_fits(gate_up@, old(out)@, hidden as int),
    ensures
        final(out)@ =~= Seq::new(
            old(out)@.len(),
            |i: int| gate_value::<S, T>(gate_up@, hidden as int, act, i),
        ),
{
    let n: usize = hidden as usize;
    let ghost size = out@.len();
    let ghost rows = size as int / n as int;
    proof {
        lemma_len_fits(gate_up);
        vstd::arithmetic::div_mod::lemma_fundamental_div_mod(size as int, n as int);
        assert((rows * 2) * n == 2 * size) by (nonlinear_arith)
            requires
                size == n * rows,
        ;
        assert(rows * n == size) by (nonlinear_arith)
            requires
                size == n * rows,
        ;
    }
    launch(
        out,
        |i: usize| -> (r: T)
            requires
                i < size
            ensures
                r == gate_value::<S, T>(gate_up@, hidden as int, act, i as int)
            {
                proof {
                    lemma_split(i as int, rows, n as int);
                }
                let row: usize = i / n;
                let col: usize = i % n;
                assert((row * 2 + 1) * n == row * 2 * n + n) by (nonlinear_arith);
                let g: usize = flat3(row, 0, 2, col, n, Ghost(rows));
                let u: usize = flat3(row, 1, 2, col, n, Ghost(rows));
                T::narrow(&gate(act, &gate_up[g].widen(), &gate_up[u].widen()))
            },
        Ghost(|i: int| gate_value::<S, T>(gate_up@, hidden as int, act, i)),
    );
}

/// `silu(gate) * up`.
pub fn ffai_fused_gate_silu<S: Scalar, T: Element<S>>(gate_up: &[T], out: &mut Vec<T>, hidden: u32)
    requires
        gate_fits(gate_up@, old(out)@, hidden as int),
    ensures
        final(out)@ =~= Seq::new(
            old(out)@.len(),
            |i: int| gate_value::<S, T>(gate_up@, hidden as int, Activation::Silu, i),
        ),
{
    fused_gate::<S, T>(gate_up, out, hidden, Activation::Silu);
}

/// `gelu(gate) * up`.
pub fn ffai_fused_gate_gelu<S: Scalar, T: Element<S>>(gate_up: &[T], out: &mut Vec<T>, hidden: u32)
    requires
        gate_fits(gate_up@, old(out)@, hidden as int),
    ensures
        final(out)@ =~= Seq::new(
            old(out)@.len(),
            |i: int| gate_value::<S, T>(gate_up@, hidden as int, Activation::Gelu, i),
        ),
{
    fused_gate::<S, T>(gate_up, out, hidden, Activation::Gelu);
}

/// `gate * sigmoid(1.702 * gate) * (up + 1)`, with both sides clipped first.
pub fn ffai_fused_gate_swiglu<S: Scalar, T: Element<S>>(
    gate_up: &[T],
    out: &mut Vec<T>,
    hidden: u32,
)
    requires
        gate_fits(gate_up@, old(out)@, hidden as int),
    ensures
        final(out)@ =~= Seq::new(
            old(out)@.len(),
            |i: int| gate_value::<S, T>(gate_up@, hidden as int, Activation::Swiglu, i),
        ),
{
    fused_gate::<S, T>(gate_up, out, hidden, Activation::Swiglu);
}

} // verus!
