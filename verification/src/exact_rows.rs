//! Which elements the simple row kernels read: gathered rows, dense products and fused
//! gates.
use vstd::prelude::*;

use crate::algebra::{law_group_sum_is_the_sum, sums_freely};
use crate::fused_gate_activation::{gate_value, Activation};
use crate::gather::gathered;
use crate::gemv::{dense_out, dense_terms};
use crate::lanes::{accumulate, lemma_accumulate_same};
use crate::layout::lemma_row_major_inverse;
use crate::real_model::{
    lemma_val_max, lemma_val_min, lemma_val_plus, lemma_val_rational, models_reals,
};
use crate::scalar::{one, plus, times, zero, Element, Fun, Op, Scalar};

verus! {

/// Gathered row `r` is the row of the table that index `r` names.
pub proof fn law_gather_copies_rows<T>(
    table: Seq<T>,
    indices: Seq<u32>,
    dim: int,
    r: int,
    d: int,
)
    requires
        0 <= r,
        0 <= d < dim,
    ensures
        gathered(table, indices, dim, r * dim + d) == table[indices[r] * dim + d],
{
    lemma_row_major_inverse(r, d, dim);
}

/// Element `r` of a dense product sums matrix row `r` times the vector, over all columns
/// that make whole groups of `per`; elements from `rows` on are kept.
pub proof fn law_product_meets_its_row<S: Scalar, T: Element<S>>(
    mat: Seq<T>,
    vec: Seq<T>,
    before: Seq<T>,
    k: int,
    rows: int,
    per: int,
    width: int,
    r: int,
)
    requires
        sums_freely::<S>(),
        0 <= k,
        0 < per,
        0 < width,
        0 <= r < before.len(),
    ensures
        dense_out::<S, T>(mat, vec, before, k, rows, per, width)[r] == if r < rows {
            T::narrowed(
                accumulate(
                    zero(),
                    |c: int| times(mat[r * k + c].widened(), vec[c].widened()),
                    k - k % per,
                ),
            )
        } else {
            before[r]
        },
{
    let f = dense_terms::<S, T>(mat, vec, k, r);
    vstd::arithmetic::div_mod::lemma_fundamental_div_mod(k, per);
    vstd::arithmetic::div_mod::lemma_div_pos_is_pos(k, per);
    assert((k / per) * per == per * (k / per)) by (nonlinear_arith);
    law_group_sum_is_the_sum(f, per, width, k / per);
    lemma_accumulate_same(
        zero(),
        f,
        |c: int| times(mat[r * k + c].widened(), vec[c].widened()),
        k - k % per,
    );
}

/// Element `c` of row `r` takes its gate from element `c` of the first half of input row
/// `r` and its value from element `c` of the second half. The plain gates multiply the
/// value by its activated gate.
pub proof fn law_gate_takes_both_halves<S: Scalar, T: Element<S>>(
    gate_up: Seq<T>,
    hidden: int,
    r: int,
    c: int,
)
    requires
        0 <= r,
        0 <= c < hidden,
    ensures
        ({
            let row = r * (2 * hidden);
            let (g, u): (S, S) = (
                gate_up[row + c].widened(),
                gate_up[row + hidden + c].widened(),
            );
            let i = r * hidden + c;
            &&& gate_value::<S, T>(gate_up, hidden, Activation::Silu, i) == T::narrowed(
                times(S::applied(Fun::Silu, g), u),
            )
            &&& gate_value::<S, T>(gate_up, hidden, Activation::Gelu, i) == T::narrowed(
                times(S::applied(Fun::Gelu, g), u),
            )
        }),
{
    lemma_row_major_inverse(r, c, hidden);
    assert(r * 2 * hidden == r * (2 * hidden)) by (nonlinear_arith);
}

/// `x`, held between `-7` and `7`.
pub open spec fn held(x: real) -> real {
    if x < -(7 as real) {
        -(7 as real)
    } else if x > 7 as real {
        7 as real
    } else {
        x
    }
}

/// The clipped gate: with `g` and `u` both halves held between `-7` and `7`, the
/// output is `g` times the sigmoid of `1.702 g`, times `u + 1`.
pub proof fn law_clipped_gate<S: Scalar>(
    val: spec_fn(S) -> real,
    gate_up: Seq<S>,
    hidden: int,
    r: int,
    c: int,
    sigmoid: spec_fn(real) -> real,
)
    requires
        models_reals(val),
        forall|a: S| #[trigger] val(S::applied(Fun::Sigmoid, a)) == sigmoid(val(a)),
        0 <= r,
        0 <= c < hidden,
    ensures
        ({
            let row = r * (2 * hidden);
            let g = held(val(gate_up[row + c]));
            let u = held(val(gate_up[row + hidden + c]));
            val(
                gate_value::<S, S>(gate_up, hidden, Activation::Swiglu, r * hidden + c),
            ) == (g * sigmoid((1702 as real / 1000 as real) * g)) * (u + 1 as real)
        }),
{
    lemma_row_major_inverse(r, c, hidden);
    assert(r * 2 * hidden == r * (2 * hidden)) by (nonlinear_arith);
    let row = r * (2 * hidden);
    let (g, u) = (gate_up[row + c], gate_up[row + hidden + c]);
    lemma_val_rational(val, 1, 1);
    let gc = lemma_held(val, g);
    let uc = lemma_held(val, u);
    let steep = S::rational(1702, 1000);
    lemma_val_rational(val, 1702, 1000);
    lemma_val_plus(val, steep, gc);
    let s = S::applied(Fun::Sigmoid, times(steep, gc));
    lemma_val_plus(val, gc, s);
    lemma_val_plus(val, uc, one());
    lemma_val_plus(val, times(gc, s), plus(uc, one()));
}

proof fn lemma_held<S: Scalar>(val: spec_fn(S) -> real, v: S) -> (clipped: S)
    requires
        models_reals(val),
    ensures
        clipped == S::combined(
            Op::Min,
            S::combined(Op::Max, v, S::rational((-7) as i64, 1)),
            S::rational(7, 1),
        ),
        val(clipped) == held(val(v)),
{
    lemma_val_rational(val, (-7) as i64, 1);
    lemma_val_rational(val, 7, 1);
    let floor = S::rational((-7) as i64, 1);
    let up = S::combined(Op::Max, v, floor);
    lemma_val_max(val, v, floor);
    lemma_val_min(val, up, S::rational(7, 1));
    S::combined(Op::Min, up, S::rational(7, 1))
}

} // verus!
