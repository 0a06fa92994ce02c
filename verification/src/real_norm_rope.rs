//! What the fused norm and rotary embedding is for: each row is normalized and turned by
//! its own position, as if it were alone.
use vstd::prelude::*;

use crate::lanes::lane_sum;
use crate::layout::{lemma_row_major_inverse, same_run};
use crate::real_model::{lemma_val_constants, lemma_val_over, lemma_val_plus, models_reals};
use crate::real_norm::inverts_roots;
use crate::real_rotation::{lemma_total_pairs, lemma_total_same, lies_between, total, turns};
use crate::rms_norm_rope::{norm_rope_value, pair_inv, pair_squares};
use crate::rope::{turned_first, turned_second};
use crate::scalar::{over, plus, times, zero, Element, Fun, Scalar};

verus! {

/// Row `p` of one launch and row `q` of another are turned alike where they hold the same
/// numbers and stand at the same position, `offset` and the place in their own sequence
/// together. In a batch each sequence starts anew, all heads of a token stand at one
/// position, and a later offset is a later token.
pub proof fn law_row_is_turned_by_its_position<S: Scalar, T: Element<S>>(
    a_x: Seq<T>,
    a_offset: u32,
    a_heads: u32,
    a_len: u32,
    p: int,
    b_x: Seq<T>,
    b_offset: u32,
    b_heads: u32,
    b_len: u32,
    q: int,
    w: Seq<T>,
    inv_freqs: Seq<S>,
    eps: S,
    axis: u32,
    c: int,
)
    requires
        axis % 2 == 0,
        0 <= c < axis,
        0 <= p,
        0 <= q,
        0 < a_heads,
        0 < b_heads,
        0 < a_len,
        0 < b_len,
        a_offset + a_len <= 0x1_0000_0000,
        b_offset + b_len <= 0x1_0000_0000,
        a_offset + (p / a_heads as int) % (a_len as int) == b_offset + (q / b_heads as int) % (
        b_len as int),
        same_run(a_x, p * axis, b_x, q * axis, axis as int),
    ensures
        norm_rope_value::<S, T>(
            a_x,
            w,
            inv_freqs,
            eps,
            axis,
            a_offset,
            a_heads,
            a_len,
            p * axis + c,
        ) == norm_rope_value::<S, T>(
            b_x,
            w,
            inv_freqs,
            eps,
            axis,
            b_offset,
            b_heads,
            b_len,
            q * axis + c,
        ),
{
    let half = axis as int / 2;
    lemma_row_major_inverse(p, c, axis as int);
    lemma_row_major_inverse(q, c, axis as int);
    let f = Seq::new(half as nat, |t: int| pair_squares::<S, T>(a_x, p * axis, half, t));
    let g = Seq::new(half as nat, |t: int| pair_squares::<S, T>(b_x, q * axis, half, t));
    assert forall|t: int| 0 <= t < half implies #[trigger] f[t] == g[t] by {
        assert(a_x[p * axis + t] == b_x[q * axis + t]);
        assert(a_x[p * axis + (t + half)] == b_x[q * axis + (t + half)]);
        assert(p * axis + t + half == p * axis + (t + half));
        assert(q * axis + t + half == q * axis + (t + half));
    }
    assert(f =~= g);
    let t = if c < half {
        c
    } else {
        c - half
    };
    assert(a_x[p * axis + t] == b_x[q * axis + t]);
    assert(a_x[p * axis + (t + half)] == b_x[q * axis + (t + half)]);
    assert(p * axis + t + half == p * axis + (t + half));
    assert(q * axis + t + half == q * axis + (t + half));
}

/// Two sequences of a batch that hold the same come out the same: row `r` and the row
/// `n_heads * seq_len` further on.
pub proof fn law_sequences_are_turned_alike<S: Scalar, T: Element<S>>(
    x: Seq<T>,
    w: Seq<T>,
    inv_freqs: Seq<S>,
    eps: S,
    axis: u32,
    offset: u32,
    n_heads: u32,
    seq_len: u32,
    r: int,
    c: int,
)
    requires
        axis % 2 == 0,
        0 <= c < axis,
        0 <= r,
        0 < n_heads,
        0 < seq_len,
        offset + seq_len <= 0x1_0000_0000,
        same_run(x, r * axis, x, (r + n_heads * seq_len) * axis, axis as int),
    ensures
        norm_rope_value::<S, T>(
            x,
            w,
            inv_freqs,
            eps,
            axis,
            offset,
            n_heads,
            seq_len,
            r * axis + c,
        ) == norm_rope_value::<S, T>(
            x,
            w,
            inv_freqs,
            eps,
            axis,
            offset,
            n_heads,
            seq_len,
            (r + n_heads * seq_len) * axis + c,
        ),
{
    let h = n_heads as int;
    let s = seq_len as int;
    let far = r + n_heads * seq_len;
    assert(0 <= h * s) by (nonlinear_arith)
        requires
            0 < h,
            0 < s,
    ;
    vstd::arithmetic::div_mod::lemma_fundamental_div_mod(r, h);
    let (i, j) = (r / h, r % h);
    assert(far == h * (i + s) + j) by (nonlinear_arith)
        requires
            far == r + h * s,
            r == h * i + j,
    ;
    vstd::arithmetic::div_mod::lemma_fundamental_div_mod_converse(far, h, i + s, j);
    vstd::arithmetic::div_mod::lemma_mod_add_multiples_vanish(i, s);
    law_row_is_turned_by_its_position::<S, T>(
        x,
        offset,
        n_heads,
        seq_len,
        r,
        x,
        offset,
        n_heads,
        seq_len,
        far,
        w,
        inv_freqs,
        eps,
        axis,
        c,
    );
}

proof fn lemma_lanes_total<S: Scalar>(val: spec_fn(S) -> real, parts: Seq<S>)
    requires
        models_reals(val),
        0 < parts.len(),
    ensures
        val(lane_sum(parts)) == total(|i: int| val(parts[i]), parts.len() as int),
    decreases parts.len(),
{
    let f = |i: int| val(parts[i]);
    let n = parts.len() as int;
    if n > 1 {
        let front = parts.drop_last();
        lemma_lanes_total(val, front);
        lemma_val_plus(val, lane_sum(front), parts.last());
        lemma_total_same(|i: int| val(front[i]), f, n - 1);
    } else {
        reveal_with_fuel(total, 2);
    }
}

/// Cosine and sine depend on the number alone.
pub proof fn lemma_same_turn<S: Scalar>(val: spec_fn(S) -> real, a: S, b: S)
    requires
        models_reals(val),
        turns(val),
        val(a) == val(b),
    ensures
        val(S::applied(Fun::Cos, a)) == val(S::applied(Fun::Cos, b)),
        val(S::applied(Fun::Sin, a)) == val(S::applied(Fun::Sin, b)),
{
    lemma_val_constants(val, 0);
    reveal(turns);
    let o = zero::<S>();
    assert(lies_between(val, b, o, a));
    let (x, y) = (val(S::applied(Fun::Cos, b)), val(S::applied(Fun::Sin, b)));
    assert(x * 1real == x && y * 1real == y && x * 0real == 0real && y * 0real == 0real)
        by (nonlinear_arith);
}

/// The inverse norm of a row: positive, and with the mean of the squares of the row and
/// `eps` its square is one.
proof fn lemma_row_norm<S: Scalar>(
    val: spec_fn(S) -> real,
    x: Seq<S>,
    eps: S,
    axis: u32,
    r: int,
)
    requires
        models_reals(val),
        inverts_roots(val),
        0 < axis,
        axis % 2 == 0,
        total(|c: int| val(x[r * axis + c]) * val(x[r * axis + c]), axis as int) / (axis as real)
            + val(eps) > 0 as real,
    ensures
        ({
            let g = val(pair_inv::<S, S>(x, axis, eps, r));
            let squares = total(
                |c: int| val(x[r * axis + c]) * val(x[r * axis + c]),
                axis as int,
            );
            &&& g > 0 as real
            &&& g * g * (squares / (axis as real) + val(eps)) == 1 as real
        }),
{
    let half = axis as int / 2;
    let start = r * axis;
    let f = |c: int| val(x[start + c]) * val(x[start + c]);
    let parts = Seq::new(half as nat, |t: int| pair_squares::<S, S>(x, start, half, t));
    lemma_lanes_total(val, parts);
    lemma_total_pairs(f, half, half);
    let pairs = |i: int| f(i) + f(half + i);
    let got = |i: int| val(parts[i]);
    assert forall|t: int| 0 <= t < half implies #[trigger] got(t) == pairs(t) by {
        let (a, b) = (x[start + t], x[start + t + half]);
        lemma_val_plus(val, a, a);
        lemma_val_plus(val, b, b);
        lemma_val_plus(val, times(a, a), times(b, b));
        assert(start + t + half == start + (half + t));
    }
    lemma_total_same(got, pairs, half);
    let s = lane_sum(parts);
    let n = S::natural(axis);
    lemma_val_constants(val, axis);
    lemma_val_over(val, s, n);
    lemma_val_plus(val, over(s, n), eps);
    reveal(inverts_roots);
    let m = plus(over(s, n), eps);
    assert(val(S::applied(Fun::Rsqrt, m)) > 0 as real);
}

/// Pair `t` of row `r`, the elements `t` and `t + axis / 2`, is the normalized pair turned
/// by `inv_freqs[t]` times the position `offset + (r / n_heads) % seq_len`. The norm
/// multiplies by `g`, the inverse root of the mean of the squares of the row and `eps`.
pub proof fn law_pair_is_normed_and_turned<S: Scalar>(
    val: spec_fn(S) -> real,
    x: Seq<S>,
    w: Seq<S>,
    inv_freqs: Seq<S>,
    eps: S,
    axis: u32,
    offset: u32,
    n_heads: u32,
    seq_len: u32,
    r: int,
    t: int,
    angle: S,
    g: real,
)
    requires
        models_reals(val),
        inverts_roots(val),
        turns(val),
        axis % 2 == 0,
        0 <= t < axis as int / 2,
        0 <= r,
        0 < n_heads,
        0 < seq_len,
        offset + seq_len <= 0x1_0000_0000,
        total(|c: int| val(x[r * axis + c]) * val(x[r * axis + c]), axis as int) / (axis as real)
            + val(eps) > 0 as real,
        val(angle) == ((offset + (r / n_heads as int) % (seq_len as int)) as real) * val(
            inv_freqs[t],
        ),
        g > 0 as real,
        g * g * (total(|c: int| val(x[r * axis + c]) * val(x[r * axis + c]), axis as int) / (
        axis as real) + val(eps)) == 1 as real,
    ensures
        ({
            let half = axis as int / 2;
            let a = val(x[r * axis + t]) * val(w[t]) * g;
            let b = val(x[r * axis + t + half]) * val(w[t + half]) * g;
            let (cos_t, sin_t) = (
                val(S::applied(Fun::Cos, angle)),
                val(S::applied(Fun::Sin, angle)),
            );
            &&& val(
                norm_rope_value::<S, S>(
                    x,
                    w,
                    inv_freqs,
                    eps,
                    axis,
                    offset,
                    n_heads,
                    seq_len,
                    r * axis + t,
                ),
            ) == a * cos_t - b * sin_t
            &&& val(
                norm_rope_value::<S, S>(
                    x,
                    w,
                    inv_freqs,
                    eps,
                    axis,
                    offset,
                    n_heads,
                    seq_len,
                    r * axis + t + half,
                ),
            ) == a * sin_t + b * cos_t
        }),
{
    let half = axis as int / 2;
    lemma_row_norm(val, x, eps, axis, r);
    lemma_row_major_inverse(r, t, axis as int);
    lemma_row_major_inverse(r, t + half, axis as int);
    assert(r * axis + t + half == r * axis + (t + half));
    let scale = pair_inv::<S, S>(x, axis, eps, r);
    let squares = total(|c: int| val(x[r * axis + c]) * val(x[r * axis + c]), axis as int);
    lemma_one_root(squares / (axis as real) + val(eps), g, val(scale));
    let place = (r / n_heads as int) % (seq_len as int);
    let pos = (offset + place) as u32;
    let theta = times(S::natural(pos), inv_freqs[t]);
    lemma_val_constants(val, pos);
    lemma_val_plus(val, S::natural(pos), inv_freqs[t]);
    lemma_same_turn(val, theta, angle);
    let (x1, x2) = (x[r * axis + t], x[r * axis + t + half]);
    let (w1, w2) = (w[t], w[t + half]);
    lemma_val_plus(val, x1, w1);
    lemma_val_plus(val, x2, w2);
    lemma_val_plus(val, times(x1, w1), scale);
    lemma_val_plus(val, times(x2, w2), scale);
    let a = times(times(x1, w1), scale);
    let b = times(times(x2, w2), scale);
    let (c, s) = (S::applied(Fun::Cos, theta), S::applied(Fun::Sin, theta));
    lemma_val_plus(val, a, c);
    lemma_val_plus(val, b, s);
    lemma_val_plus(val, a, s);
    lemma_val_plus(val, b, c);
    lemma_val_plus(val, times(a, c), times(b, s));
    lemma_val_plus(val, times(a, s), times(b, c));
    assert(norm_rope_value::<S, S>(
        x,
        w,
        inv_freqs,
        eps,
        axis,
        offset,
        n_heads,
        seq_len,
        r * axis + t,
    ) == turned_first(a, b, c, s));
    assert(norm_rope_value::<S, S>(
        x,
        w,
        inv_freqs,
        eps,
        axis,
        offset,
        n_heads,
        seq_len,
        r * axis + t + half,
    ) == turned_second(a, b, c, s));
}

/// A positive number has one positive inverse root.
pub proof fn lemma_one_root(v: real, p: real, q: real)
    requires
        v > 0 as real,
        p > 0 as real,
        q > 0 as real,
        p * p * v == 1 as real,
        q * q * v == 1 as real,
    ensures
        p == q,
{
    assert((p - q) * ((p + q) * v) == p * p * v - q * q * v) by (nonlinear_arith);
    let w = (p + q) * v;
    assert(w > 0 as real) by (nonlinear_arith)
        requires
            w == (p + q) * v,
            p > 0 as real,
            q > 0 as real,
            v > 0 as real,
    ;
    assert(p - q == 0 as real) by (nonlinear_arith)
        requires
            (p - q) * w == 0 as real,
            w > 0 as real,
    ;
}

} // verus!
