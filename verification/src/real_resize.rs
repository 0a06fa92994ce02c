//! Which pixels a resized image mixes, and in which shares.
use vstd::prelude::*;

use crate::layout::{lemma_row_major, lemma_row_major_inverse};
use crate::real_geometry::{floors, is_whole, whole_below};
use crate::real_model::{
    lemma_val_constants, lemma_val_over, lemma_val_plus, lemma_val_select, models_reals,
};
use crate::resize_normalize::{
    coordinate, first_tap, last_of, mixed, pixel_of, resize_value, second_tap, share, source_at,
};
use crate::scalar::{below, minus, one, over, plus, times, zero, Scalar};

verus! {

/// The centre of output pixel `o` lies in the source a share `w` after the centre of pixel
/// `n`: output and source pixels divide the same length, and what lies before the first
/// or after the last centre is taken there.
pub open spec fn lies_after(o: u32, src: u32, target: u32, n: u32, w: real) -> bool {
    let ends = 2 * (src - 1);
    let twice = (2 as real) * ((n as real) + w);
    let centre = ((2 * o + 1) as real) * (src as real) - (target as real);
    &&& n < src
    &&& 0real <= w < 1real
    &&& twice * (target as real) == if centre < 0 as real {
        0 as real
    } else if centre > (ends as real) * (target as real) {
        (ends as real) * (target as real)
    } else {
        centre
    }
}

proof fn lemma_centre(o: real, s: real, src: real, target: real, half: real, raw: real)
    requires
        s * target == src,
        half * (2 as real) == 1 as real,
        raw == (o + half) * s - half,
    ensures
        ((2 as real) * raw) * target == ((2 as real) * o + (1 as real)) * src - target,
{
    let lead = (2 as real) * o + (1 as real);
    let moved = o + half;
    assert((2 as real) * moved == lead);
    let product = moved * s;
    assert(((2 as real) * product) * target == ((2 as real) * moved) * (s * target))
        by (nonlinear_arith)
        requires
            product == moved * s,
    ;
    assert(((2 as real) * raw) * target == ((2 as real) * product) * target - ((2 as real) * half)
        * target) by (nonlinear_arith)
        requires
            raw == product - half,
    ;
    assert((1 as real) * target == target);
}

proof fn lemma_scaled_order(a: real, b: real, t: real)
    requires
        t > 0 as real,
    ensures
        a * t < b * t ==> a < b,
        a * t == b * t ==> a == b,
        a * t > b * t ==> a > b,
{
    assert(a <= b ==> a * t <= b * t) by (nonlinear_arith)
        requires
            t > 0 as real,
    ;
    assert(b <= a ==> b * t <= a * t) by (nonlinear_arith)
        requires
            t > 0 as real,
    ;
    assert(a < b ==> a * t < b * t) by (nonlinear_arith)
        requires
            t > 0 as real,
    ;
    assert(b < a ==> b * t < a * t) by (nonlinear_arith)
        requires
            t > 0 as real,
    ;
}

proof fn lemma_axis<S: Scalar>(
    val: spec_fn(S) -> real,
    o: u32,
    src: u32,
    target: u32,
    n: u32,
    w: real,
)
    requires
        models_reals(val),
        floors(val),
        0 < target,
        lies_after(o, src, target, n, w),
    ensures
        pixel_of(first_tap::<S>(o, src, target), src) == Some(n),
        pixel_of(second_tap::<S>(o, src, target), src) == Some(
            if n + 1 < src {
                (n + 1) as u32
            } else {
                (src - 1) as u32
            },
        ),
        val(share::<S>(o, src, target)) == w,
{
    reveal(floors);
    let t = target as real;
    let half = S::rational(1, 2);
    let scale = over(S::natural(src), S::natural(target));
    lemma_val_constants(val, src);
    lemma_val_constants(val, target);
    lemma_val_constants(val, o);
    lemma_val_over(val, S::natural(src), S::natural(target));
    let s = val(scale);
    assert(s * t == src as real) by (nonlinear_arith)
        requires
            s == (src as real) / t,
            t > 0 as real,
    ;
    let moved = plus(S::natural(o), half);
    let scaled = times(moved, scale);
    let raw: S = minus(scaled, half);
    lemma_val_plus(val, S::natural(o), half);
    lemma_val_plus(val, moved, scale);
    lemma_val_plus(val, scaled, half);
    lemma_centre(o as real, s, src as real, t, val(half), val(raw));
    let centre = ((2 * o + 1) as real) * (src as real) - t;
    assert(((2 as real) * val(raw)) * t == centre);
    let ends = (2 * (src - 1)) as real;
    lemma_val_plus(val, S::natural(src), one());
    assert(val(last_of::<S>(src)) == (src - 1) as real);
    lemma_val_select(val, raw, zero(), zero(), raw);
    let low = S::chosen(below(raw, zero()), zero(), raw);
    lemma_val_select(val, last_of(src), low, last_of(src), low);
    let at = coordinate::<S>(o, src, target);
    let u = (n as real) + w;
    assert((0 as real) * t == 0 as real);
    lemma_scaled_order((2 as real) * val(raw), 0 as real, t);
    lemma_scaled_order((2 as real) * val(raw), ends, t);
    lemma_scaled_order((2 as real) * u, 0 as real, t);
    lemma_scaled_order((2 as real) * u, ends, t);
    lemma_scaled_order((2 as real) * u, (2 as real) * val(raw), t);
    assert(ends >= 0 as real);
    assert(ends * t >= 0 as real) by (nonlinear_arith)
        requires
            ends >= 0 as real,
            t > 0 as real,
    ;
    assert(val(at) == u);
    assert(whole_below(val(at), n as int));
    let first = first_tap::<S>(o, src, target);
    assert(is_whole(val(first), n));
    let next = plus(first, one());
    lemma_val_plus(val, first, one());
    lemma_val_select(val, last_of(src), next, last_of(src), next);
    let second = second_tap::<S>(o, src, target);
    if n + 1 < src {
        assert(is_whole(val(second), (n + 1) as u32));
    } else {
        assert(is_whole(val(second), (src - 1) as u32));
    }
    lemma_val_plus(val, at, first);
}

proof fn lemma_mixed<S: Scalar>(val: spec_fn(S) -> real, a: S, b: S, w: S)
    requires
        models_reals(val),
    ensures
        val(mixed(a, b, w)) == val(a) * ((1 as real) - val(w)) + val(b) * val(w),
{
    lemma_val_constants(val, 0);
    lemma_val_plus(val, one(), w);
    lemma_val_plus(val, a, minus(one(), w));
    lemma_val_plus(val, b, w);
    lemma_val_plus(val, times(a, minus(one(), w)), times(b, w));
}

/// An output pixel mixes the four source pixels around it by how far its centre lies from
/// theirs, and is then brought to the channel's mean and deviation: the number written is
/// how many deviations the mix lies above the mean. The source holds its channels pixel by
/// pixel, the output plane by plane.
pub proof fn law_output_mixes_the_pixels_around<S: Scalar>(
    val: spec_fn(S) -> real,
    input: Seq<S>,
    mean: Seq<S>,
    std: Seq<S>,
    src_w: u32,
    src_h: u32,
    target_w: u32,
    target_h: u32,
    c: int,
    oy: u32,
    ox: u32,
    y: u32,
    wy: real,
    x: u32,
    wx: real,
)
    requires
        models_reals(val),
        floors(val),
        0 <= c < 3,
        oy < target_h,
        ox < target_w,
        lies_after(oy, src_h, target_h, y, wy),
        lies_after(ox, src_w, target_w, x, wx),
        val(std[c]) != 0 as real,
    ensures
        ({
            let below = if y + 1 < src_h {
                y + 1
            } else {
                src_h - 1
            };
            let right = if x + 1 < src_w {
                x + 1
            } else {
                src_w - 1
            };
            let top = val(input[(y * src_w + x) * 3 + c]) * ((1 as real) - wx) + val(
                input[(y * src_w + right) * 3 + c],
            ) * wx;
            let bottom = val(input[(below * src_w + x) * 3 + c]) * ((1 as real) - wx) + val(
                input[(below * src_w + right) * 3 + c],
            ) * wx;
            val(std[c]) * val(
                resize_value::<S, S>(
                    input,
                    mean,
                    std,
                    src_w,
                    src_h,
                    target_w,
                    target_h,
                    (c * target_h + oy) * target_w + ox,
                ),
            ) == top * ((1 as real) - wy) + bottom * wy - val(mean[c])
        }),
{
    lemma_row_major(c, 3, oy as int, target_h as int);
    lemma_row_major_inverse(c * target_h + oy, ox as int, target_w as int);
    lemma_row_major_inverse(c, oy as int, target_h as int);
    lemma_axis(val, ox, src_w, target_w, x, wx);
    lemma_axis(val, oy, src_h, target_h, y, wy);
    let y1 = if y + 1 < src_h {
        (y + 1) as u32
    } else {
        (src_h - 1) as u32
    };
    let x1 = if x + 1 < src_w {
        (x + 1) as u32
    } else {
        (src_w - 1) as u32
    };
    let sx = share::<S>(ox, src_w, target_w);
    let sy = share::<S>(oy, src_h, target_h);
    let (a, b) = (
        source_at::<S, S>(input, src_w, y, x, c),
        source_at::<S, S>(input, src_w, y, x1, c),
    );
    let (d, e) = (
        source_at::<S, S>(input, src_w, y1, x, c),
        source_at::<S, S>(input, src_w, y1, x1, c),
    );
    let top = mixed(a, b, sx);
    let bottom = mixed(d, e, sx);
    lemma_mixed(val, a, b, sx);
    lemma_mixed(val, d, e, sx);
    lemma_mixed(val, top, bottom, sy);
    let mix = mixed(top, bottom, sy);
    lemma_val_plus(val, mix, mean[c]);
    let above = minus(mix, mean[c]);
    lemma_val_over(val, above, std[c]);
    let (p, q) = (val(above), val(std[c]));
    assert(q * (p / q) == p) by (nonlinear_arith)
        requires
            q != 0 as real,
    ;
}

} // verus!
