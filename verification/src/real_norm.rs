//! What the norms do when scalars stand for real numbers: they do not see how long a row
//! is.
use vstd::prelude::*;

use crate::gated_delta_prep::row_at;
use crate::gated_rms_norm_block_scaled_qgemv::{gated_inner, gated_inv};
use crate::lanes::{
    accumulate, group_sum, lane_dot, lane_sum, pack_terms, rounds, simd_dot, strided,
};
use crate::layout::{lemma_row_major, lemma_row_major_inverse, lemma_split};
use crate::norm::{gate_of, inv_of, quad, quad_inv, squares};
use crate::qgemv::{pack_of, q_terms, q_value, words_in_blocks};
use crate::quant::Quantized;
use crate::real_model::{lemma_val_constants, lemma_val_over, lemma_val_plus, models_reals};
use crate::scalar::{over, plus, times, zero, Element, Fun, Scalar};

verus! {

/// The inverse square root of a positive number is positive, and its square is the
/// inverse.
#[verifier::opaque]
pub open spec fn inverts_roots<S: Scalar>(val: spec_fn(S) -> real) -> bool {
    forall|a: S|
        val(a) > 0 as real ==> #[trigger] val(S::applied(Fun::Rsqrt, a)) > 0 as real && val(
            S::applied(Fun::Rsqrt, a),
        ) * val(S::applied(Fun::Rsqrt, a)) * val(a) == 1 as real
}

/// `scaled` is `y` with every element of row `row` multiplied by `c`.
pub open spec fn scales_row<S: Scalar>(
    y: Seq<S>,
    scaled: Seq<S>,
    dv: int,
    row: int,
    c: S,
) -> bool {
    &&& scaled.len() == y.len()
    &&& forall|i: int|
        0 <= i < y.len() ==> #[trigger] scaled[i] == if i / dv == row {
            times(c, y[i])
        } else {
            y[i]
        }
}

/// A sum of scaled terms is the scaled sum.
proof fn lemma_sum_scales<S: Scalar>(
    val: spec_fn(S) -> real,
    k: real,
    start: S,
    f: spec_fn(int) -> S,
    from: S,
    g: spec_fn(int) -> S,
    n: int,
)
    requires
        models_reals(val),
        val(start) == k * val(from),
        forall|i: int| 0 <= i < n ==> #[trigger] val(f(i)) == k * val(g(i)),
    ensures
        val(accumulate(start, f, n)) == k * val(accumulate(from, g, n)),
    decreases n,
{
    if n > 0 {
        lemma_sum_scales(val, k, start, f, from, g, n - 1);
        let x = accumulate(start, f, n - 1);
        let y = accumulate(from, g, n - 1);
        lemma_val_plus(val, x, f(n - 1));
        lemma_val_plus(val, y, g(n - 1));
        assert(val(f(n - 1)) == k * val(g(n - 1)));
        lemma_spread(k, val(y), val(g(n - 1)));
    }
}

proof fn lemma_spread(k: real, a: real, b: real)
    ensures
        k * (a + b) == k * a + k * b,
{
    assert(k * (a + b) == k * a + k * b) by (nonlinear_arith);
}

/// The lanes of a group add up to as much more as each of them holds.
proof fn lemma_lanes_scale<S: Scalar>(val: spec_fn(S) -> real, k: real, a: Seq<S>, b: Seq<S>)
    requires
        models_reals(val),
        a.len() == b.len(),
        0 < a.len(),
        forall|i: int| 0 <= i < a.len() ==> val(#[trigger] a[i]) == k * val(b[i]),
    ensures
        val(lane_sum(a)) == k * val(lane_sum(b)),
    decreases a.len(),
{
    if a.len() > 1 {
        assert forall|i: int| 0 <= i < a.drop_last().len() implies val(
            #[trigger] a.drop_last()[i],
        ) == k * val(b.drop_last()[i]) by {
            assert(a.drop_last()[i] == a[i]);
        }
        lemma_lanes_scale(val, k, a.drop_last(), b.drop_last());
        lemma_val_plus(val, lane_sum(a.drop_last()), a.last());
        lemma_val_plus(val, lane_sum(b.drop_last()), b.last());
        assert(val(a[a.len() - 1]) == k * val(b[a.len() - 1]));
        lemma_spread(k, val(lane_sum(b.drop_last())), val(b.last()));
    } else {
        assert(val(a[0]) == k * val(b[0]));
    }
}

proof fn lemma_threads_agree<S: Scalar>(
    val: spec_fn(S) -> real,
    f: spec_fn(int) -> S,
    g: spec_fn(int) -> S,
    per: int,
    t: int,
    width: int,
    n: int,
    count: int,
)
    requires
        models_reals(val),
        0 <= per,
        0 <= t,
        0 < width,
        forall|i: int| 0 <= i < n * per ==> #[trigger] val(f(i)) == val(g(i)),
    ensures
        val(strided(f, per, t, width, n, count)) == val(strided(g, per, t, width, n, count)),
    decreases count,
{
    if count > 0 {
        lemma_threads_agree(val, f, g, per, t, width, n, count - 1);
        let d = (count - 1) * width + t;
        if d < n {
            assert(0 <= d) by (nonlinear_arith)
                requires
                    d == (count - 1) * width + t,
                    0 < count,
                    0 <= t,
                    0 < width,
            ;
            assert forall|i: int| 0 <= i < per implies #[trigger] val(pack_terms(f, per, d)(i))
                == 1real * val(pack_terms(g, per, d)(i)) by {
                assert(0 <= d * per + i < n * per) by (nonlinear_arith)
                    requires
                        0 <= d < n,
                        0 <= i < per,
                ;
                assert(val(f(d * per + i)) == val(g(d * per + i)));
            }
            lemma_sum_scales(
                val,
                1real,
                strided(f, per, t, width, n, count - 1),
                pack_terms(f, per, d),
                strided(g, per, t, width, n, count - 1),
                pack_terms(g, per, d),
                per,
            );
        }
    }
}

/// Groups that add up terms of equal value add up to the same value.
proof fn lemma_groups_agree<S: Scalar>(
    val: spec_fn(S) -> real,
    f: spec_fn(int) -> S,
    g: spec_fn(int) -> S,
    per: int,
    width: int,
    n: int,
)
    requires
        models_reals(val),
        0 <= per,
        0 < width,
        forall|i: int| 0 <= i < n * per ==> #[trigger] val(f(i)) == val(g(i)),
    ensures
        val(group_sum(f, per, width, n)) == val(group_sum(g, per, width, n)),
{
    let count = rounds(n, width);
    let a = Seq::new(width as nat, |t: int| strided(f, per, t, width, n, count));
    let b = Seq::new(width as nat, |t: int| strided(g, per, t, width, n, count));
    assert forall|t: int| 0 <= t < a.len() implies val(#[trigger] a[t]) == 1real * val(b[t]) by {
        lemma_threads_agree(val, f, g, per, t, width, n, count);
    }
    lemma_lanes_scale(val, 1real, a, b);
}

/// A sum of squares is at least each of them.
proof fn lemma_sum_reaches<S: Scalar>(
    val: spec_fn(S) -> real,
    f: spec_fn(int) -> S,
    n: int,
    i: int,
)
    requires
        models_reals(val),
        0 <= n,
        forall|j: int| 0 <= j < n ==> #[trigger] val(f(j)) >= 0 as real,
    ensures
        val(accumulate(zero(), f, n)) >= 0 as real,
        0 <= i < n ==> val(accumulate(zero(), f, n)) >= val(f(i)),
    decreases n,
{
    lemma_val_constants(val, 0);
    if n > 0 {
        lemma_sum_reaches(val, f, n - 1, i);
        lemma_val_plus(val, accumulate(zero(), f, n - 1), f(n - 1));
        assert(val(f(n - 1)) >= 0 as real);
    }
}

proof fn lemma_lanes_reach<S: Scalar>(val: spec_fn(S) -> real, parts: Seq<S>, i: int)
    requires
        models_reals(val),
        0 < parts.len(),
        forall|j: int| 0 <= j < parts.len() ==> val(#[trigger] parts[j]) >= 0 as real,
    ensures
        val(lane_sum(parts)) >= 0 as real,
        0 <= i < parts.len() ==> val(lane_sum(parts)) >= val(parts[i]),
    decreases parts.len(),
{
    if parts.len() > 1 {
        let front = parts.drop_last();
        assert forall|j: int| 0 <= j < front.len() implies val(#[trigger] front[j])
            >= 0 as real by {
            assert(front[j] == parts[j]);
        }
        lemma_lanes_reach(val, front, i);
        lemma_val_plus(val, lane_sum(front), parts.last());
        assert(val(parts[parts.len() - 1]) >= 0 as real);
    } else {
        assert(val(parts[0]) >= 0 as real);
    }
}

proof fn lemma_square(x: real)
    ensures
        x * x >= 0 as real,
        x != 0 as real ==> x * x > 0 as real,
{
    assert(x * x >= 0 as real) by (nonlinear_arith);
    assert(x != 0 as real ==> x * x > 0 as real) by (nonlinear_arith);
}

/// The sum of the squares of a row with a nonzero element is positive.
proof fn lemma_row_is_positive<S: Scalar>(val: spec_fn(S) -> real, row: Seq<S>, d: int)
    requires
        models_reals(val),
        row.len() % 32 == 0,
        0 <= d < row.len(),
        val(row[d]) != 0 as real,
    ensures
        val(simd_dot(row, row)) > 0 as real,
{
    let per = row.len() as int / 32;
    let l = d / per;
    let i = d % per;
    lemma_split(d, 32, per);
    let parts = Seq::new(32, |l: int| lane_dot(row, row, l, per));
    assert forall|j: int| 0 <= j < parts.len() implies val(#[trigger] parts[j]) >= 0 as real by {
        lemma_lane_reaches(val, row, j, per, 0);
    }
    lemma_lane_reaches(val, row, l, per, i);
    lemma_lanes_reach(val, parts, l);
    assert(l * per + i == d);
    lemma_square(val(row[d]));
}

proof fn lemma_lane_reaches<S: Scalar>(
    val: spec_fn(S) -> real,
    row: Seq<S>,
    l: int,
    per: int,
    i: int,
)
    requires
        models_reals(val),
        0 <= per,
    ensures
        val(lane_dot(row, row, l, per)) >= 0 as real,
        0 <= i < per ==> val(lane_dot(row, row, l, per)) >= val(row[l * per + i]) * val(
            row[l * per + i],
        ),
{
    let f = |i: int| times(row[l * per + i], row[l * per + i]);
    assert forall|j: int| 0 <= j < per implies #[trigger] val(f(j)) >= 0 as real by {
        lemma_val_plus(val, row[l * per + j], row[l * per + j]);
        lemma_square(val(row[l * per + j]));
    }
    lemma_sum_reaches(val, f, per, i);
    lemma_val_plus(val, row[l * per + i], row[l * per + i]);
}

/// The sum of the squares of a row grows with the square of its scale.
proof fn lemma_row_scales<S: Scalar>(
    val: spec_fn(S) -> real,
    row: Seq<S>,
    scaled: Seq<S>,
    c: S,
)
    requires
        models_reals(val),
        row.len() % 32 == 0,
        scaled.len() == row.len(),
        forall|d: int| 0 <= d < row.len() ==> #[trigger] scaled[d] == times(c, row[d]),
    ensures
        val(simd_dot(scaled, scaled)) == (val(c) * val(c)) * val(simd_dot(row, row)),
{
    let per = row.len() as int / 32;
    let k = val(c) * val(c);
    let a = Seq::new(32, |l: int| lane_dot(scaled, scaled, l, per));
    let b = Seq::new(32, |l: int| lane_dot(row, row, l, per));
    lemma_val_constants(val, 0);
    assert forall|l: int| 0 <= l < a.len() implies val(#[trigger] a[l]) == k * val(b[l]) by {
        let f = |i: int| times(scaled[l * per + i], scaled[l * per + i]);
        let g = |i: int| times(row[l * per + i], row[l * per + i]);
        assert forall|i: int| 0 <= i < per implies #[trigger] val(f(i)) == k * val(g(i)) by {
            let d = l * per + i;
            lemma_row_major(l, 32, i, per);
            assert(scaled[d] == times(c, row[d]));
            lemma_val_plus(val, scaled[d], scaled[d]);
            lemma_val_plus(val, row[d], row[d]);
            lemma_val_plus(val, c, row[d]);
            lemma_square_of_product(val(c), val(row[d]));
        }
        assert(k * 0real == 0real) by (nonlinear_arith);
        lemma_sum_scales(val, k, zero(), f, zero(), g, per);
    }
    lemma_lanes_scale(val, k, a, b);
}

proof fn lemma_square_of_product(c: real, x: real)
    ensures
        (c * x) * (c * x) == (c * c) * (x * x),
{
    assert((c * x) * (c * x) == (c * c) * (x * x)) by (nonlinear_arith);
}

/// Where one number is the square of `c` times another, its inverse root is the other's
/// over `c`.
proof fn lemma_roots(c: real, v: real, p: real, q: real)
    requires
        c > 0 as real,
        v > 0 as real,
        p > 0 as real,
        q > 0 as real,
        p * p * v == 1 as real,
        q * q * ((c * c) * v) == 1 as real,
    ensures
        c * q == p,
{
    let u = c * q;
    assert(u > 0 as real) by (nonlinear_arith)
        requires
            u == c * q,
            c > 0 as real,
            q > 0 as real,
    ;
    assert(u * u * v == q * q * ((c * c) * v)) by (nonlinear_arith)
        requires
            u == c * q,
    ;
    assert((u - p) * ((u + p) * v) == u * u * v - p * p * v) by (nonlinear_arith);
    let w = (u + p) * v;
    assert(w > 0 as real) by (nonlinear_arith)
        requires
            w == (u + p) * v,
            u > 0 as real,
            p > 0 as real,
            v > 0 as real,
    ;
    assert(u - p == 0 as real) by (nonlinear_arith)
        requires
            (u - p) * w == 0 as real,
            w > 0 as real,
    ;
}

/// The inverse norm of a scaled sum of squares is that of the sum over the scale.
proof fn lemma_inverse_scales<S: Scalar>(
    val: spec_fn(S) -> real,
    s: S,
    t: S,
    n: u32,
    eps: S,
    c: S,
)
    requires
        models_reals(val),
        inverts_roots(val),
        val(eps) == 0 as real,
        n > 0,
        val(c) > 0 as real,
        val(s) > 0 as real,
        val(t) == (val(c) * val(c)) * val(s),
    ensures
        val(c) * val(inv_of(t, n, eps)) == val(inv_of(s, n, eps)),
{
    lemma_val_constants(val, n);
    let count = S::natural(n);
    lemma_val_over(val, s, count);
    lemma_val_over(val, t, count);
    lemma_val_plus(val, over(s, count), eps);
    lemma_val_plus(val, over(t, count), eps);
    let m = plus(over(s, count), eps);
    let o = plus(over(t, count), eps);
    let x = val(s);
    let k = val(c) * val(c);
    let z = val(count);
    assert(x / z > 0 as real) by (nonlinear_arith)
        requires
            x > 0 as real,
            z > 0 as real,
    ;
    assert((k * x) / z == k * (x / z)) by (nonlinear_arith)
        requires
            z > 0 as real,
    ;
    lemma_square(val(c));
    assert(k * (x / z) > 0 as real) by (nonlinear_arith)
        requires
            k > 0 as real,
            x / z > 0 as real,
    ;
    reveal(inverts_roots);
    lemma_roots(
        val(c),
        val(m),
        val(S::applied(Fun::Rsqrt, m)),
        val(S::applied(Fun::Rsqrt, o)),
    );
}

/// The inverse norm of a scaled row is that of the row over the scale.
proof fn lemma_inv_scales<S: Scalar>(
    val: spec_fn(S) -> real,
    y: Seq<S>,
    scaled: Seq<S>,
    eps: S,
    hv: u32,
    dv: u32,
    row: int,
    c: S,
    d: int,
)
    requires
        models_reals(val),
        inverts_roots(val),
        val(eps) == 0 as real,
        dv > 0,
        dv % 32 == 0,
        y.len() == hv * dv,
        0 <= row < hv,
        scales_row(y, scaled, dv as int, row, c),
        val(c) > 0 as real,
        0 <= d < dv,
        val(y[row * dv + d]) != 0 as real,
    ensures
        val(c) * val(gated_inv(scaled, dv, eps, row)) == val(gated_inv(y, dv, eps, row)),
{
    let a = row_at::<S, S>(y, row * dv, dv as int);
    let b = row_at::<S, S>(scaled, row * dv, dv as int);
    assert forall|i: int| 0 <= i < a.len() implies #[trigger] b[i] == times(c, a[i]) by {
        lemma_row_major(row, hv as int, i, dv as int);
        lemma_row_major_inverse(row, i, dv as int);
    }
    assert(a[d] == y[row * dv + d]);
    lemma_row_is_positive(val, a, d);
    lemma_row_scales(val, a, b, c);
    lemma_inverse_scales(val, simd_dot(a, a), simd_dot(b, b), dv, eps, c);
}

proof fn lemma_scale_cancels<S: Scalar>(
    val: spec_fn(S) -> real,
    x: S,
    c: S,
    p: S,
    q: S,
    w: S,
    g: S,
)
    requires
        models_reals(val),
        val(c) * val(q) == val(p),
    ensures
        val(times(times(times(times(c, x), q), w), g)) == val(times(times(times(x, p), w), g)),
{
    let y = times(c, x);
    lemma_val_plus(val, c, x);
    lemma_val_plus(val, x, p);
    lemma_val_plus(val, y, q);
    let a = val(c);
    let b = val(x);
    let e = val(q);
    assert((a * b) * e == b * (a * e)) by (nonlinear_arith);
    lemma_val_plus(val, times(x, p), w);
    lemma_val_plus(val, times(y, q), w);
    lemma_val_plus(val, times(times(x, p), w), g);
    lemma_val_plus(val, times(times(y, q), w), g);
}

/// With an `eps` of zero, a row of `y` that is not all zero may be scaled by any positive
/// number: the activations stay what they were, and so does every row of the output.
pub proof fn law_row_scale_cancels<S: Scalar, T: Element<S>>(
    val: spec_fn(S) -> real,
    y: Seq<S>,
    scaled: Seq<S>,
    z: Seq<T>,
    norm_weight: Seq<T>,
    eps: S,
    hv: u32,
    dv: u32,
    row: int,
    c: S,
)
    requires
        models_reals(val),
        inverts_roots(val),
        val(eps) == 0 as real,
        dv > 0,
        dv % 32 == 0,
        y.len() == hv * dv,
        0 <= row < hv,
        scales_row(y, scaled, dv as int, row, c),
        val(c) > 0 as real,
        exists|d: int| 0 <= d < dv && val(#[trigger] y[row * dv + d]) != 0 as real,
    ensures
        forall|i: int|
            0 <= i < hv * dv ==> val(
                #[trigger] gated_inner::<S, T>(scaled, z, norm_weight, eps, hv, dv)[i],
            ) == val(gated_inner::<S, T>(y, z, norm_weight, eps, hv, dv)[i]),
        forall|q: Quantized<S>, width: int, r: int|
            0 < width && 0 < q.block && q.cols == hv * dv && words_in_blocks(q) ==> val(
                #[trigger] q_value::<S, S>(
                    q,
                    gated_inner::<S, T>(scaled, z, norm_weight, eps, hv, dv),
                    width,
                    r,
                ),
            ) == val(
                q_value::<S, S>(
                    q,
                    gated_inner::<S, T>(y, z, norm_weight, eps, hv, dv),
                    width,
                    r,
                ),
            ),
{
    let after = gated_inner::<S, T>(scaled, z, norm_weight, eps, hv, dv);
    let before = gated_inner::<S, T>(y, z, norm_weight, eps, hv, dv);
    let d = choose|d: int| 0 <= d < dv && val(#[trigger] y[row * dv + d]) != 0 as real;
    assert forall|i: int| 0 <= i < hv * dv implies val(#[trigger] after[i]) == val(
        before[i],
    ) by {
        let r = i / dv as int;
        lemma_split(i, hv as int, dv as int);
        let p = gated_inv(y, dv, eps, r);
        let q = gated_inv(scaled, dv, eps, r);
        let w = norm_weight[i % dv as int].widened();
        let g = gate_of::<S>(z[i].widened());
        if r == row {
            lemma_inv_scales(val, y, scaled, eps, hv, dv, row, c, d);
            lemma_scale_cancels(val, y[i], c, p, q, w, g);
        } else {
            let a = row_at::<S, S>(y, r * dv, dv as int);
            let b = row_at::<S, S>(scaled, r * dv, dv as int);
            assert forall|j: int| 0 <= j < dv implies #[trigger] a[j] == b[j] by {
                lemma_row_major(r, hv as int, j, dv as int);
                lemma_row_major_inverse(r, j, dv as int);
            }
            assert(a =~= b);
        }
    }
    assert forall|q: Quantized<S>, width: int, r: int|
        0 < width && 0 < q.block && q.cols == hv * dv && words_in_blocks(q) implies val(
        #[trigger] q_value::<S, S>(q, after, width, r),
    ) == val(q_value::<S, S>(q, before, width, r)) by {
        let f = q_terms(q, after, r);
        let g = q_terms(q, before, r);
        let per = pack_of(q.codes);
        let n = q.cols as int / per;
        assert(n * per <= q.cols) by (nonlinear_arith)
            requires
                n == q.cols as int / per,
                per > 0,
        ;
        assert forall|i: int| 0 <= i < n * per implies #[trigger] val(f(i)) == val(g(i)) by {
            let w = q.weight(r, i, i / q.block as int);
            lemma_val_plus(val, w, after[i]);
            lemma_val_plus(val, w, before[i]);
        }
        lemma_groups_agree(val, f, g, per, width, n);
    }
}

proof fn lemma_spread_four(k: real, a: real, b: real, c: real, d: real)
    ensures
        k * (a + b + c + d) == k * a + k * b + k * c + k * d,
{
    lemma_spread(k, a, b);
    lemma_spread(k, a + b, c);
    lemma_spread(k, a + b + c, d);
}

/// What the four squares of a thread come to.
proof fn lemma_quad_value<S: Scalar>(
    val: spec_fn(S) -> real,
    y: Seq<S>,
    start: int,
    n: int,
    t: int,
)
    requires
        models_reals(val),
    ensures
        val(quad::<S, S>(y, start, n, t)) == if 4 * t + 3 < n {
            val(y[start + 4 * t]) * val(y[start + 4 * t]) + val(y[start + 4 * t + 1]) * val(
                y[start + 4 * t + 1],
            ) + val(y[start + 4 * t + 2]) * val(y[start + 4 * t + 2]) + val(y[start + 4 * t + 3])
                * val(y[start + 4 * t + 3])
        } else {
            0 as real
        },
{
    lemma_val_constants(val, 0);
    let (a, b) = (y[start + 4 * t], y[start + 4 * t + 1]);
    let (c, d) = (y[start + 4 * t + 2], y[start + 4 * t + 3]);
    lemma_val_plus(val, a, a);
    lemma_val_plus(val, b, b);
    lemma_val_plus(val, c, c);
    lemma_val_plus(val, d, d);
    let ab = plus(times(a, a), times(b, b));
    let abc = plus(ab, times(c, c));
    lemma_val_plus(val, times(a, a), times(b, b));
    lemma_val_plus(val, ab, times(c, c));
    lemma_val_plus(val, abc, times(d, d));
    let sq = squares::<S, S>(y, start);
    assert(sq(4 * t) == times(a, a));
    assert(sq(4 * t + 1) == times(b, b)) by {
        assert(start + (4 * t + 1) == start + 4 * t + 1);
    }
    assert(sq(4 * t + 2) == times(c, c)) by {
        assert(start + (4 * t + 2) == start + 4 * t + 2);
    }
    assert(sq(4 * t + 3) == times(d, d)) by {
        assert(start + (4 * t + 3) == start + 4 * t + 3);
    }
}

/// The four squares of a thread grow with the square of the scale.
proof fn lemma_quad_scales<S: Scalar>(
    val: spec_fn(S) -> real,
    y: Seq<S>,
    scaled: Seq<S>,
    start: int,
    n: int,
    c: S,
    t: int,
)
    requires
        models_reals(val),
        0 <= t,
        forall|d: int| 0 <= d < n ==> #[trigger] scaled[start + d] == times(c, y[start + d]),
    ensures
        val(quad::<S, S>(scaled, start, n, t)) == (val(c) * val(c)) * val(
            quad::<S, S>(y, start, n, t),
        ),
{
    let k = val(c) * val(c);
    lemma_quad_value(val, y, start, n, t);
    lemma_quad_value(val, scaled, start, n, t);
    if 4 * t + 3 < n {
        let (i, j) = (start + 4 * t, start + 4 * t + 1);
        let (l, m) = (start + 4 * t + 2, start + 4 * t + 3);
        assert(scaled[start + (4 * t)] == times(c, y[start + (4 * t)]));
        assert(scaled[start + (4 * t + 1)] == times(c, y[start + (4 * t + 1)]));
        assert(scaled[start + (4 * t + 2)] == times(c, y[start + (4 * t + 2)]));
        assert(scaled[start + (4 * t + 3)] == times(c, y[start + (4 * t + 3)]));
        lemma_val_plus(val, c, y[i]);
        lemma_val_plus(val, c, y[j]);
        lemma_val_plus(val, c, y[l]);
        lemma_val_plus(val, c, y[m]);
        lemma_square_of_product(val(c), val(y[i]));
        lemma_square_of_product(val(c), val(y[j]));
        lemma_square_of_product(val(c), val(y[l]));
        lemma_square_of_product(val(c), val(y[m]));
        lemma_spread_four(
            k,
            val(y[i]) * val(y[i]),
            val(y[j]) * val(y[j]),
            val(y[l]) * val(y[l]),
            val(y[m]) * val(y[m]),
        );
    } else {
        lemma_spread(k, 0 as real, 0 as real);
    }
}

/// The four squares of a thread are not negative, and positive where one of its elements
/// is not zero.
proof fn lemma_quad_reaches<S: Scalar>(
    val: spec_fn(S) -> real,
    y: Seq<S>,
    start: int,
    n: int,
    t: int,
    d: int,
)
    requires
        models_reals(val),
    ensures
        val(quad::<S, S>(y, start, n, t)) >= 0 as real,
        4 * t + 3 < n && 4 * t <= d <= 4 * t + 3 && val(y[start + d]) != 0 as real ==> val(
            quad::<S, S>(y, start, n, t),
        ) > 0 as real,
{
    lemma_quad_value(val, y, start, n, t);
    lemma_square(val(y[start + 4 * t]));
    lemma_square(val(y[start + 4 * t + 1]));
    lemma_square(val(y[start + 4 * t + 2]));
    lemma_square(val(y[start + 4 * t + 3]));
    if 4 * t <= d <= 4 * t + 3 {
        assert(start + d == start + 4 * t || start + d == start + 4 * t + 1 || start + d == start
            + 4 * t + 2 || start + d == start + 4 * t + 3);
    }
}

/// With an `eps` of zero, the inverse norm of a row that four elements to each thread give
/// undoes a positive scale of the row, where thread `t` owns an element `d` that is not
/// zero.
pub proof fn law_quad_norm_undoes_a_scale<S: Scalar>(
    val: spec_fn(S) -> real,
    y: Seq<S>,
    scaled: Seq<S>,
    start: int,
    n: u32,
    eps: S,
    tpg: int,
    c: S,
    t: int,
    d: int,
)
    requires
        models_reals(val),
        inverts_roots(val),
        val(eps) == 0 as real,
        n > 0,
        0 <= t < tpg,
        forall|e: int| 0 <= e < n ==> #[trigger] scaled[start + e] == times(c, y[start + e]),
        val(c) > 0 as real,
        4 * t + 3 < n,
        4 * t <= d <= 4 * t + 3,
        val(y[start + d]) != 0 as real,
    ensures
        val(c) * val(quad_inv::<S, S>(scaled, start, n, eps, tpg)) == val(
            quad_inv::<S, S>(y, start, n, eps, tpg),
        ),
{
    let a = Seq::new(tpg as nat, |t: int| quad::<S, S>(scaled, start, n as int, t));
    let b = Seq::new(tpg as nat, |t: int| quad::<S, S>(y, start, n as int, t));
    let k = val(c) * val(c);
    assert forall|s: int| 0 <= s < a.len() implies val(#[trigger] a[s]) == k * val(b[s]) by {
        lemma_quad_scales(val, y, scaled, start, n as int, c, s);
    }
    assert forall|s: int| 0 <= s < b.len() implies val(#[trigger] b[s]) >= 0 as real by {
        lemma_quad_reaches(val, y, start, n as int, s, d);
    }
    lemma_quad_reaches(val, y, start, n as int, t, d);
    lemma_lanes_reach(val, b, t);
    lemma_lanes_scale(val, k, a, b);
    lemma_inverse_scales(val, lane_sum(b), lane_sum(a), n, eps, c);
}

} // verus!
