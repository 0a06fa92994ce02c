//! What the rotary embeddings do when scalars stand for real numbers: the dot product of
//! two turned heads sees only how far apart their positions lie.
use vstd::prelude::*;

use crate::layout::{lemma_row_major, lemma_row_major_inverse};
use crate::real_model::{lemma_val_constants, lemma_val_plus, models_reals};
use crate::rope::{
    banded_frequency, base_frequency, llama_angle, llama_turned, ramp_of, ramped_frequency, turned,
    turned_first, turned_second, yarn_angle, yarn_turned,
};
use crate::scalar::{minus, times, Fun, Scalar};

verus! {

/// `cos(d) = cos(a) * cos(b) + sin(a) * sin(b)` and
/// `sin(d) = sin(a) * cos(b) - cos(a) * sin(b)`.
pub open spec fn lies_between<S: Scalar>(val: spec_fn(S) -> real, a: S, b: S, d: S) -> bool {
    let cos_a = val(S::applied(Fun::Cos, a));
    let sin_a = val(S::applied(Fun::Sin, a));
    let cos_b = val(S::applied(Fun::Cos, b));
    let sin_b = val(S::applied(Fun::Sin, b));
    &&& val(S::applied(Fun::Cos, d)) == cos_a * cos_b + sin_a * sin_b
    &&& val(S::applied(Fun::Sin, d)) == sin_a * cos_b - cos_a * sin_b
}

/// Cosine and sine of a difference follow the addition laws, and those of zero are one
/// and zero.
#[verifier::opaque]
pub open spec fn turns<S: Scalar>(val: spec_fn(S) -> real) -> bool {
    &&& forall|a: S, b: S, d: S|
        val(d) == val(a) - val(b) ==> #[trigger] lies_between(val, a, b, d)
    &&& forall|a: S| val(a) == 0 as real ==> #[trigger] val(S::applied(Fun::Cos, a)) == 1 as real
    &&& forall|a: S| val(a) == 0 as real ==> #[trigger] val(S::applied(Fun::Sin, a)) == 0 as real
}

/// `f(0) + .. + f(n - 1)`.
pub open spec fn total(f: spec_fn(int) -> real, n: int) -> real
    decreases n,
{
    if n <= 0 {
        0 as real
    } else {
        total(f, n - 1) + f(n - 1)
    }
}

/// The dot product of heads `h` of `x` and of `y`.
pub open spec fn head_dot<S>(
    val: spec_fn(S) -> real,
    x: Seq<S>,
    y: Seq<S>,
    head_dim: int,
    h: int,
) -> real {
    total(|c: int| val(x[h * head_dim + c]) * val(y[h * head_dim + c]), head_dim)
}

/// The products that the turns of a pair enter in.
spec fn cosine_part<S>(val: spec_fn(S) -> real, ca: S, sa: S, cb: S, sb: S) -> real {
    val(ca) * val(cb) + val(sa) * val(sb)
}

spec fn sine_part<S>(val: spec_fn(S) -> real, ca: S, sa: S, cb: S, sb: S) -> real {
    val(sa) * val(cb) - val(ca) * val(sb)
}

/// Sums of equal terms are equal.
pub proof fn lemma_total_same(f: spec_fn(int) -> real, g: spec_fn(int) -> real, n: int)
    requires
        forall|i: int| 0 <= i < n ==> #[trigger] f(i) == g(i),
    ensures
        total(f, n) == total(g, n),
    decreases n,
{
    if n > 0 {
        lemma_total_same(f, g, n - 1);
    }
}

/// A sum over two halves is the sum over pairs.
pub proof fn lemma_total_pairs(f: spec_fn(int) -> real, half: int, n: int)
    requires
        0 <= n <= half,
    ensures
        total(f, half + n) == total(f, half) + total(|i: int| f(half + i), n),
        total(f, n) + total(|i: int| f(half + i), n) == total(|i: int| f(i) + f(half + i), n),
    decreases n,
{
    if n > 0 {
        lemma_total_pairs(f, half, n - 1);
    }
}

/// Products of products, sorted.
proof fn lemma_sorted(x: real, c: real, y: real, s: real)
    ensures
        (x * c) * (y * s) == (x * y) * (c * s),
{
    assert((x * c) * (y * s) == (x * y) * (c * s)) by (nonlinear_arith);
}

proof fn lemma_times_sum(p: real, q: real, k: real)
    ensures
        (p + q) * k == p * k + q * k,
        (p - q) * k == p * k - q * k,
        k * (p + q) == k * p + k * q,
        k * (p - q) == k * p - k * q,
{
    assert((p + q) * k == p * k + q * k) by (nonlinear_arith);
    assert((p - q) * k == p * k - q * k) by (nonlinear_arith);
    assert(k * (p + q) == k * p + k * q) by (nonlinear_arith);
    assert(k * (p - q) == k * p - k * q) by (nonlinear_arith);
}

/// The dot product of two turned pairs.
proof fn lemma_pair(
    a: real,
    b: real,
    x: real,
    y: real,
    ca: real,
    sa: real,
    cb: real,
    sb: real,
)
    ensures
        (a * ca - b * sa) * (x * cb - y * sb) + (a * sa + b * ca) * (x * sb + y * cb) == (a * x
            + b * y) * (ca * cb + sa * sb) + (a * y - b * x) * (sa * cb - ca * sb),
{
    let first = x * cb - y * sb;
    let second = x * sb + y * cb;
    lemma_times_sum(a * ca, b * sa, first);
    lemma_times_sum(x * cb, y * sb, a * ca);
    lemma_times_sum(x * cb, y * sb, b * sa);
    lemma_times_sum(a * sa, b * ca, second);
    lemma_times_sum(x * sb, y * cb, a * sa);
    lemma_times_sum(x * sb, y * cb, b * ca);
    lemma_sorted(a, ca, x, cb);
    lemma_sorted(a, ca, y, sb);
    lemma_sorted(b, sa, x, cb);
    lemma_sorted(b, sa, y, sb);
    lemma_sorted(a, sa, x, sb);
    lemma_sorted(a, sa, y, cb);
    lemma_sorted(b, ca, x, sb);
    lemma_sorted(b, ca, y, cb);
    let c = ca * cb + sa * sb;
    let s = sa * cb - ca * sb;
    lemma_times_sum(a * x, b * y, c);
    lemma_times_sum(a * y, b * x, s);
    lemma_times_sum(ca * cb, sa * sb, a * x);
    lemma_times_sum(ca * cb, sa * sb, b * y);
    lemma_times_sum(sa * cb, ca * sb, a * y);
    lemma_times_sum(sa * cb, ca * sb, b * x);
}

/// What pair `i` of head `h` adds to the dot product.
proof fn lemma_turned_pair<S: Scalar>(
    val: spec_fn(S) -> real,
    qk: Seq<S>,
    half: int,
    n_heads: int,
    cosine: spec_fn(int) -> S,
    sine: spec_fn(int) -> S,
    h: int,
    i: int,
)
    requires
        models_reals(val),
        0 <= i < half,
        0 <= h < n_heads,
        qk.len() == n_heads * (2 * half),
    ensures
        ({
            let j = h * (2 * half) + i;
            let a = val(qk[j]);
            let b = val(qk[j + half]);
            &&& 0 <= j
            &&& j + half < qk.len()
            &&& val(turned::<S, S>(qk, half, cosine, sine)[j]) == a * val(cosine(i)) - b * val(
                sine(i),
            )
            &&& val(turned::<S, S>(qk, half, cosine, sine)[j + half]) == a * val(sine(i)) + b
                * val(cosine(i))
        }),
{
    let j = h * (2 * half) + i;
    lemma_row_major(h, n_heads, i, 2 * half);
    lemma_row_major(h, n_heads, half + i, 2 * half);
    lemma_row_major_inverse(h, i, 2 * half);
    lemma_row_major_inverse(h, half + i, 2 * half);
    assert(j + half == h * (2 * half) + (half + i));
    let a = qk[j];
    let b = qk[j + half];
    let c = cosine(i);
    let s = sine(i);
    lemma_val_plus(val, a, c);
    lemma_val_plus(val, b, s);
    lemma_val_plus(val, a, s);
    lemma_val_plus(val, b, c);
    lemma_val_plus(val, times(a, c), times(b, s));
    lemma_val_plus(val, times(a, s), times(b, c));
    assert(turned::<S, S>(qk, half, cosine, sine)[j] == turned_first(a, b, c, s));
    assert(turned::<S, S>(qk, half, cosine, sine)[j + half] == turned_second(a, b, c, s));
}

/// The dot product of two turned heads, pair by pair.
proof fn lemma_head_dot<S: Scalar>(
    val: spec_fn(S) -> real,
    a: Seq<S>,
    b: Seq<S>,
    half: int,
    n_heads: int,
    ca: spec_fn(int) -> S,
    sa: spec_fn(int) -> S,
    cb: spec_fn(int) -> S,
    sb: spec_fn(int) -> S,
    h: int,
)
    requires
        models_reals(val),
        0 < half,
        0 <= h < n_heads,
        a.len() == n_heads * (2 * half),
        b.len() == a.len(),
    ensures
        head_dot(
            val,
            turned::<S, S>(a, half, ca, sa),
            turned::<S, S>(b, half, cb, sb),
            2 * half,
            h,
        ) == total(
            |i: int|
                {
                    let j = h * (2 * half) + i;
                    (val(a[j]) * val(b[j]) + val(a[j + half]) * val(b[j + half])) * cosine_part(
                        val,
                        ca(i),
                        sa(i),
                        cb(i),
                        sb(i),
                    ) + (val(a[j]) * val(b[j + half]) - val(a[j + half]) * val(b[j]))
                        * sine_part(val, ca(i), sa(i), cb(i), sb(i))
                },
            half,
        ),
{
    let x = turned::<S, S>(a, half, ca, sa);
    let y = turned::<S, S>(b, half, cb, sb);
    let f = |c: int| val(x[h * (2 * half) + c]) * val(y[h * (2 * half) + c]);
    let pairs = |i: int| f(i) + f(half + i);
    let parts = |i: int|
        {
            let j = h * (2 * half) + i;
            (val(a[j]) * val(b[j]) + val(a[j + half]) * val(b[j + half])) * cosine_part(
                val,
                ca(i),
                sa(i),
                cb(i),
                sb(i),
            ) + (val(a[j]) * val(b[j + half]) - val(a[j + half]) * val(b[j])) * sine_part(
                val,
                ca(i),
                sa(i),
                cb(i),
                sb(i),
            )
        };
    lemma_total_pairs(f, half, half);
    assert forall|i: int| 0 <= i < half implies #[trigger] pairs(i) == parts(i) by {
        let j = h * (2 * half) + i;
        lemma_turned_pair(val, a, half, n_heads, ca, sa, h, i);
        lemma_turned_pair(val, b, half, n_heads, cb, sb, h, i);
        assert(h * (2 * half) + (half + i) == j + half);
        lemma_pair(
            val(a[j]),
            val(a[j + half]),
            val(b[j]),
            val(b[j + half]),
            val(ca(i)),
            val(sa(i)),
            val(cb(i)),
            val(sb(i)),
        );
    }
    lemma_total_same(pairs, parts, half);
}

/// Heads whose pairs lie equally far apart have the same dot product.
proof fn lemma_same_distance<S: Scalar>(
    val: spec_fn(S) -> real,
    a: Seq<S>,
    b: Seq<S>,
    half: int,
    n_heads: int,
    ca: spec_fn(int) -> S,
    sa: spec_fn(int) -> S,
    cb: spec_fn(int) -> S,
    sb: spec_fn(int) -> S,
    da: spec_fn(int) -> S,
    ta: spec_fn(int) -> S,
    db: spec_fn(int) -> S,
    tb: spec_fn(int) -> S,
    h: int,
)
    requires
        models_reals(val),
        0 < half,
        0 <= h < n_heads,
        a.len() == n_heads * (2 * half),
        b.len() == a.len(),
        forall|i: int|
            0 <= i < half ==> #[trigger] cosine_part(val, ca(i), sa(i), cb(i), sb(i))
                == cosine_part(val, da(i), ta(i), db(i), tb(i)),
        forall|i: int|
            0 <= i < half ==> #[trigger] sine_part(val, ca(i), sa(i), cb(i), sb(i)) == sine_part(
                val,
                da(i),
                ta(i),
                db(i),
                tb(i),
            ),
    ensures
        head_dot(
            val,
            turned::<S, S>(a, half, ca, sa),
            turned::<S, S>(b, half, cb, sb),
            2 * half,
            h,
        ) == head_dot(
            val,
            turned::<S, S>(a, half, da, ta),
            turned::<S, S>(b, half, db, tb),
            2 * half,
            h,
        ),
{
    lemma_head_dot(val, a, b, half, n_heads, ca, sa, cb, sb, h);
    lemma_head_dot(val, a, b, half, n_heads, da, ta, db, tb, h);
    let f = |i: int|
        {
            let j = h * (2 * half) + i;
            (val(a[j]) * val(b[j]) + val(a[j + half]) * val(b[j + half])) * cosine_part(
                val,
                ca(i),
                sa(i),
                cb(i),
                sb(i),
            ) + (val(a[j]) * val(b[j + half]) - val(a[j + half]) * val(b[j])) * sine_part(
                val,
                ca(i),
                sa(i),
                cb(i),
                sb(i),
            )
        };
    let g = |i: int|
        {
            let j = h * (2 * half) + i;
            (val(a[j]) * val(b[j]) + val(a[j + half]) * val(b[j + half])) * cosine_part(
                val,
                da(i),
                ta(i),
                db(i),
                tb(i),
            ) + (val(a[j]) * val(b[j + half]) - val(a[j + half]) * val(b[j])) * sine_part(
                val,
                da(i),
                ta(i),
                db(i),
                tb(i),
            )
        };
    lemma_total_same(f, g, half);
}

/// Angles that grow with the position lie apart by the distance of the positions.
proof fn lemma_angles<S: Scalar>(
    val: spec_fn(S) -> real,
    frequency: S,
    m: u32,
    n: u32,
    shift: u32,
)
    requires
        models_reals(val),
        turns(val),
        m + shift <= u32::MAX,
        n + shift <= u32::MAX,
    ensures
        ({
            let a = times(S::natural((m + shift) as u32), frequency);
            let b = times(S::natural((n + shift) as u32), frequency);
            let c = times(S::natural(m), frequency);
            let d = times(S::natural(n), frequency);
            let apart = minus(c, d);
            lies_between(val, a, b, apart) && lies_between(val, c, d, apart)
        }),
{
    let ms = (m + shift) as u32;
    let ns = (n + shift) as u32;
    lemma_val_constants(val, ms);
    lemma_val_constants(val, ns);
    lemma_val_constants(val, m);
    lemma_val_constants(val, n);
    lemma_val_plus(val, S::natural(ms), frequency);
    lemma_val_plus(val, S::natural(ns), frequency);
    lemma_val_plus(val, S::natural(m), frequency);
    lemma_val_plus(val, S::natural(n), frequency);
    let a = times(S::natural(ms), frequency);
    let b = times(S::natural(ns), frequency);
    let c = times(S::natural(m), frequency);
    let d = times(S::natural(n), frequency);
    lemma_val_plus(val, c, d);
    let f = val(frequency);
    let x = m as real;
    let y = n as real;
    let s = shift as real;
    assert(ms as real == x + s);
    assert(ns as real == y + s);
    lemma_times_sum(x, s, f);
    lemma_times_sum(y, s, f);
    reveal(turns);
    assert(lies_between(val, a, b, minus(c, d)));
    assert(lies_between(val, c, d, minus(c, d)));
}

/// The turns of the pairs at `position`, each by its frequency.
spec fn waves<S: Scalar>(
    fun: Fun,
    position: u32,
    frequency: spec_fn(int) -> S,
) -> spec_fn(int) -> S {
    |i: int| S::applied(fun, times(S::natural(position), frequency(i)))
}

/// The turns of the pairs at `position`, scaled by `gain`.
spec fn loud_waves<S: Scalar>(
    fun: Fun,
    position: u32,
    frequency: spec_fn(int) -> S,
    gain: S,
) -> spec_fn(int) -> S {
    |i: int| times(S::applied(fun, times(S::natural(position), frequency(i))), gain)
}

/// A gain enters both parts by its square.
proof fn lemma_gain<S: Scalar>(val: spec_fn(S) -> real, ca: S, sa: S, cb: S, sb: S, gain: S)
    requires
        models_reals(val),
    ensures
        cosine_part(val, times(ca, gain), times(sa, gain), times(cb, gain), times(sb, gain)) == (
        val(gain) * val(gain)) * cosine_part(val, ca, sa, cb, sb),
        sine_part(val, times(ca, gain), times(sa, gain), times(cb, gain), times(sb, gain)) == (
        val(gain) * val(gain)) * sine_part(val, ca, sa, cb, sb),
{
    lemma_val_plus(val, ca, gain);
    lemma_val_plus(val, sa, gain);
    lemma_val_plus(val, cb, gain);
    lemma_val_plus(val, sb, gain);
    let a = val(ca);
    let b = val(sa);
    let c = val(cb);
    let d = val(sb);
    let g = val(gain);
    lemma_sorted(a, g, c, g);
    lemma_sorted(b, g, d, g);
    lemma_sorted(b, g, c, g);
    lemma_sorted(a, g, d, g);
    lemma_times_sum(a * c, b * d, g * g);
    lemma_times_sum(b * c, a * d, g * g);
}

/// Positions enter a dot product of turned heads by their distance alone: moving both by
/// `shift` changes nothing.
pub proof fn law_llama_sees_the_distance<S: Scalar>(
    val: spec_fn(S) -> real,
    a: Seq<S>,
    b: Seq<S>,
    half: u32,
    n_heads: int,
    m: u32,
    n: u32,
    shift: u32,
    theta_base: S,
    scale_factor: S,
    low_freq_factor: S,
    high_freq_factor: S,
    original_max_position: S,
    h: int,
)
    requires
        models_reals(val),
        turns(val),
        0 < half,
        a.len() == n_heads * (2 * half),
        b.len() == a.len(),
        0 <= h < n_heads,
        m + shift <= u32::MAX,
        n + shift <= u32::MAX,
    ensures
        ({
            let at = |qk: Seq<S>, position: u32|
                llama_turned::<S, S>(
                    qk,
                    half,
                    position,
                    theta_base,
                    scale_factor,
                    low_freq_factor,
                    high_freq_factor,
                    original_max_position,
                );
            head_dot(
                val,
                at(a, (m + shift) as u32),
                at(b, (n + shift) as u32),
                2 * half as int,
                h,
            ) == head_dot(val, at(a, m), at(b, n), 2 * half as int, h)
        }),
{
    let frequency = |i: int|
        banded_frequency(
            base_frequency(i as u32, half, theta_base),
            scale_factor,
            low_freq_factor,
            high_freq_factor,
            original_max_position,
        );
    let ms = (m + shift) as u32;
    let ns = (n + shift) as u32;
    assert forall|i: int| 0 <= i < half implies #[trigger] cosine_part(
        val,
        waves(Fun::Cos, ms, frequency)(i),
        waves(Fun::Sin, ms, frequency)(i),
        waves(Fun::Cos, ns, frequency)(i),
        waves(Fun::Sin, ns, frequency)(i),
    ) == cosine_part(
        val,
        waves(Fun::Cos, m, frequency)(i),
        waves(Fun::Sin, m, frequency)(i),
        waves(Fun::Cos, n, frequency)(i),
        waves(Fun::Sin, n, frequency)(i),
    ) by {
        lemma_angles(val, frequency(i), m, n, shift);
    }
    assert forall|i: int| 0 <= i < half implies #[trigger] sine_part(
        val,
        waves(Fun::Cos, ms, frequency)(i),
        waves(Fun::Sin, ms, frequency)(i),
        waves(Fun::Cos, ns, frequency)(i),
        waves(Fun::Sin, ns, frequency)(i),
    ) == sine_part(
        val,
        waves(Fun::Cos, m, frequency)(i),
        waves(Fun::Sin, m, frequency)(i),
        waves(Fun::Cos, n, frequency)(i),
        waves(Fun::Sin, n, frequency)(i),
    ) by {
        lemma_angles(val, frequency(i), m, n, shift);
    }
    lemma_same_distance(
        val,
        a,
        b,
        half as int,
        n_heads,
        waves(Fun::Cos, ms, frequency),
        waves(Fun::Sin, ms, frequency),
        waves(Fun::Cos, ns, frequency),
        waves(Fun::Sin, ns, frequency),
        waves(Fun::Cos, m, frequency),
        waves(Fun::Sin, m, frequency),
        waves(Fun::Cos, n, frequency),
        waves(Fun::Sin, n, frequency),
        h,
    );
    assert forall|position: u32, qk: Seq<S>| #[trigger]
        llama_turned::<S, S>(
            qk,
            half,
            position,
            theta_base,
            scale_factor,
            low_freq_factor,
            high_freq_factor,
            original_max_position,
        ) == turned::<S, S>(
            qk,
            half as int,
            waves(Fun::Cos, position, frequency),
            waves(Fun::Sin, position, frequency),
        ) by {
        let angle = |i: int|
            llama_angle(
                i as u32,
                half,
                position,
                theta_base,
                scale_factor,
                low_freq_factor,
                high_freq_factor,
                original_max_position,
            );
        assert((|i: int| S::applied(Fun::Cos, angle(i))) =~= waves(
            Fun::Cos,
            position,
            frequency,
        ));
        assert((|i: int| S::applied(Fun::Sin, angle(i))) =~= waves(
            Fun::Sin,
            position,
            frequency,
        ));
    }
}

/// At position zero nothing turns.
pub proof fn law_llama_starts_unturned<S: Scalar>(
    val: spec_fn(S) -> real,
    qk: Seq<S>,
    half: u32,
    theta_base: S,
    scale_factor: S,
    low_freq_factor: S,
    high_freq_factor: S,
    original_max_position: S,
    j: int,
)
    requires
        models_reals(val),
        turns(val),
        0 <= j < qk.len(),
    ensures
        val(
            llama_turned::<S, S>(
                qk,
                half,
                0,
                theta_base,
                scale_factor,
                low_freq_factor,
                high_freq_factor,
                original_max_position,
            )[j],
        ) == val(qk[j]),
{
    let c = j % (2 * half as int);
    let i = if c < half {
        c
    } else {
        c - half
    };
    let angle = llama_angle(
        i as u32,
        half,
        0,
        theta_base,
        scale_factor,
        low_freq_factor,
        high_freq_factor,
        original_max_position,
    );
    lemma_no_angle(
        val,
        banded_frequency(
            base_frequency(i as u32, half, theta_base),
            scale_factor,
            low_freq_factor,
            high_freq_factor,
            original_max_position,
        ),
    );
    let cos_t = S::applied(Fun::Cos, angle);
    let sin_t = S::applied(Fun::Sin, angle);
    if c < half {
        lemma_unturned(val, qk[j], qk[j + half], cos_t, sin_t);
    } else {
        lemma_unturned(val, qk[j - half], qk[j], cos_t, sin_t);
    }
}

proof fn lemma_no_angle<S: Scalar>(val: spec_fn(S) -> real, frequency: S)
    requires
        models_reals(val),
        turns(val),
    ensures
        val(S::applied(Fun::Cos, times(S::natural(0), frequency))) == 1 as real,
        val(S::applied(Fun::Sin, times(S::natural(0), frequency))) == 0 as real,
{
    lemma_val_constants(val, 0);
    lemma_val_plus(val, S::natural(0), frequency);
    let f = val(frequency);
    assert(0real * f == 0real) by (nonlinear_arith);
    reveal(turns);
}

proof fn lemma_unturned<S: Scalar>(val: spec_fn(S) -> real, a: S, b: S, cos_t: S, sin_t: S)
    requires
        models_reals(val),
        val(cos_t) == 1 as real,
        val(sin_t) == 0 as real,
    ensures
        val(turned_first(a, b, cos_t, sin_t)) == val(a),
        val(turned_second(a, b, cos_t, sin_t)) == val(b),
{
    lemma_val_plus(val, a, cos_t);
    lemma_val_plus(val, b, sin_t);
    lemma_val_plus(val, a, sin_t);
    lemma_val_plus(val, b, cos_t);
    lemma_val_plus(val, times(a, cos_t), times(b, sin_t));
    lemma_val_plus(val, times(a, sin_t), times(b, cos_t));
    let x = val(a);
    let y = val(b);
    assert(x * 1real == x && y * 1real == y && x * 0real == 0real && y * 0real == 0real)
        by (nonlinear_arith);
}

/// As [`law_llama_sees_the_distance`], with a frequency ramp.
pub proof fn law_yarn_sees_the_distance<S: Scalar>(
    val: spec_fn(S) -> real,
    a: Seq<S>,
    b: Seq<S>,
    half: u32,
    n_heads: int,
    m: u32,
    n: u32,
    shift: u32,
    theta_base: S,
    factor: S,
    low: S,
    high: S,
    attn_factor: S,
    h: int,
)
    requires
        models_reals(val),
        turns(val),
        0 < half,
        a.len() == n_heads * (2 * half),
        b.len() == a.len(),
        0 <= h < n_heads,
        m + shift <= u32::MAX,
        n + shift <= u32::MAX,
    ensures
        ({
            let at = |qk: Seq<S>, position: u32|
                yarn_turned::<S, S>(
                    qk,
                    half,
                    position,
                    theta_base,
                    factor,
                    low,
                    high,
                    attn_factor,
                );
            head_dot(
                val,
                at(a, (m + shift) as u32),
                at(b, (n + shift) as u32),
                2 * half as int,
                h,
            ) == head_dot(val, at(a, m), at(b, n), 2 * half as int, h)
        }),
{
    let frequency = |i: int|
        ramped_frequency(
            base_frequency(i as u32, half, theta_base),
            factor,
            ramp_of(i as u32, low, high),
        );
    let ms = (m + shift) as u32;
    let ns = (n + shift) as u32;
    assert forall|i: int| 0 <= i < half implies #[trigger] cosine_part(
        val,
        loud_waves(Fun::Cos, ms, frequency, attn_factor)(i),
        loud_waves(Fun::Sin, ms, frequency, attn_factor)(i),
        loud_waves(Fun::Cos, ns, frequency, attn_factor)(i),
        loud_waves(Fun::Sin, ns, frequency, attn_factor)(i),
    ) == cosine_part(
        val,
        loud_waves(Fun::Cos, m, frequency, attn_factor)(i),
        loud_waves(Fun::Sin, m, frequency, attn_factor)(i),
        loud_waves(Fun::Cos, n, frequency, attn_factor)(i),
        loud_waves(Fun::Sin, n, frequency, attn_factor)(i),
    ) by {
        lemma_loud_pair(val, frequency, m, n, shift, attn_factor, i);
    }
    assert forall|i: int| 0 <= i < half implies #[trigger] sine_part(
        val,
        loud_waves(Fun::Cos, ms, frequency, attn_factor)(i),
        loud_waves(Fun::Sin, ms, frequency, attn_factor)(i),
        loud_waves(Fun::Cos, ns, frequency, attn_factor)(i),
        loud_waves(Fun::Sin, ns, frequency, attn_factor)(i),
    ) == sine_part(
        val,
        loud_waves(Fun::Cos, m, frequency, attn_factor)(i),
        loud_waves(Fun::Sin, m, frequency, attn_factor)(i),
        loud_waves(Fun::Cos, n, frequency, attn_factor)(i),
        loud_waves(Fun::Sin, n, frequency, attn_factor)(i),
    ) by {
        lemma_loud_pair(val, frequency, m, n, shift, attn_factor, i);
    }
    lemma_same_distance(
        val,
        a,
        b,
        half as int,
        n_heads,
        loud_waves(Fun::Cos, ms, frequency, attn_factor),
        loud_waves(Fun::Sin, ms, frequency, attn_factor),
        loud_waves(Fun::Cos, ns, frequency, attn_factor),
        loud_waves(Fun::Sin, ns, frequency, attn_factor),
        loud_waves(Fun::Cos, m, frequency, attn_factor),
        loud_waves(Fun::Sin, m, frequency, attn_factor),
        loud_waves(Fun::Cos, n, frequency, attn_factor),
        loud_waves(Fun::Sin, n, frequency, attn_factor),
        h,
    );
    assert forall|position: u32, qk: Seq<S>| #[trigger]
        yarn_turned::<S, S>(
            qk,
            half,
            position,
            theta_base,
            factor,
            low,
            high,
            attn_factor,
        ) == turned::<S, S>(
            qk,
            half as int,
            loud_waves(Fun::Cos, position, frequency, attn_factor),
            loud_waves(Fun::Sin, position, frequency, attn_factor),
        ) by {
        let angle = |i: int|
            yarn_angle(i as u32, half, position, theta_base, factor, low, high);
        assert((|i: int| times(S::applied(Fun::Cos, angle(i)), attn_factor)) =~= loud_waves(
            Fun::Cos,
            position,
            frequency,
            attn_factor,
        ));
        assert((|i: int| times(S::applied(Fun::Sin, angle(i)), attn_factor)) =~= loud_waves(
            Fun::Sin,
            position,
            frequency,
            attn_factor,
        ));
    }
}

proof fn lemma_loud_pair<S: Scalar>(
    val: spec_fn(S) -> real,
    frequency: spec_fn(int) -> S,
    m: u32,
    n: u32,
    shift: u32,
    gain: S,
    i: int,
)
    requires
        models_reals(val),
        turns(val),
        m + shift <= u32::MAX,
        n + shift <= u32::MAX,
    ensures
        ({
            let ms = (m + shift) as u32;
            let ns = (n + shift) as u32;
            let cos_ms = loud_waves(Fun::Cos, ms, frequency, gain)(i);
            let sin_ms = loud_waves(Fun::Sin, ms, frequency, gain)(i);
            let cos_ns = loud_waves(Fun::Cos, ns, frequency, gain)(i);
            let sin_ns = loud_waves(Fun::Sin, ns, frequency, gain)(i);
            let cos_m = loud_waves(Fun::Cos, m, frequency, gain)(i);
            let sin_m = loud_waves(Fun::Sin, m, frequency, gain)(i);
            let cos_n = loud_waves(Fun::Cos, n, frequency, gain)(i);
            let sin_n = loud_waves(Fun::Sin, n, frequency, gain)(i);
            &&& cosine_part(val, cos_ms, sin_ms, cos_ns, sin_ns) == cosine_part(
                val,
                cos_m,
                sin_m,
                cos_n,
                sin_n,
            )
            &&& sine_part(val, cos_ms, sin_ms, cos_ns, sin_ns) == sine_part(
                val,
                cos_m,
                sin_m,
                cos_n,
                sin_n,
            )
        }),
{
    let ms = (m + shift) as u32;
    let ns = (n + shift) as u32;
    lemma_angles(val, frequency(i), m, n, shift);
    lemma_gain(
        val,
        waves(Fun::Cos, ms, frequency)(i),
        waves(Fun::Sin, ms, frequency)(i),
        waves(Fun::Cos, ns, frequency)(i),
        waves(Fun::Sin, ns, frequency)(i),
        gain,
    );
    lemma_gain(
        val,
        waves(Fun::Cos, m, frequency)(i),
        waves(Fun::Sin, m, frequency)(i),
        waves(Fun::Cos, n, frequency)(i),
        waves(Fun::Sin, n, frequency)(i),
        gain,
    );
}

} // verus!
