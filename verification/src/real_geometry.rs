//! What the kernels that turn pairs and resample images do when scalars stand for real
//! numbers.
use vstd::prelude::*;

use crate::algebra::{
    lemma_add_zero, lemma_mul_one, lemma_mul_zero, lemma_ring_sums, lemma_sub_self, ring,
};
use crate::real_model::{
    lemma_val_constants, lemma_val_over, lemma_val_plus, lemma_val_select, models_reals,
};
use crate::resize_normalize::{
    axis_reads_inside, coordinate, first_tap, last_of, pixel_of, reads_inside, second_tap, share,
};
use crate::rope::{turned_first, turned_second};
use crate::scalar::{below, minus, one, over, plus, times, zero, Fun, Scalar};

verus! {

/// A turn by an angle of zero changes nothing.
pub proof fn law_no_turn_is_identity<S: Scalar>(a: S, b: S)
    requires
        ring::<S>(),
    ensures
        turned_first(a, b, one(), zero()) == a,
        turned_second(a, b, one(), zero()) == b,
{
    lemma_ring_sums::<S>();
    lemma_mul_one(a);
    lemma_mul_one(b);
    lemma_mul_zero(a);
    lemma_mul_zero(b);
    lemma_sub_self(a);
    lemma_add_zero(b);
}

/// A turn keeps the length of a pair.
pub proof fn law_turn_keeps_length<S: Scalar>(
    val: spec_fn(S) -> real,
    a: S,
    b: S,
    cos_t: S,
    sin_t: S,
)
    requires
        models_reals(val),
        val(cos_t) * val(cos_t) + val(sin_t) * val(sin_t) == 1 as real,
    ensures
        ({
            let first = val(turned_first(a, b, cos_t, sin_t));
            let second = val(turned_second(a, b, cos_t, sin_t));
            first * first + second * second == val(a) * val(a) + val(b) * val(b)
        }),
{
    lemma_val_plus(val, a, cos_t);
    lemma_val_plus(val, b, sin_t);
    lemma_val_plus(val, a, sin_t);
    lemma_val_plus(val, b, cos_t);
    lemma_val_plus(val, times(a, cos_t), times(b, sin_t));
    lemma_val_plus(val, times(a, sin_t), times(b, cos_t));
    let x = val(a);
    let y = val(b);
    let c = val(cos_t);
    let s = val(sin_t);
    let p = x * c;
    let q = y * s;
    let u = x * s;
    let w = y * c;
    lemma_square_of_difference(p, q);
    lemma_square_of_sum(u, w);
    lemma_products(x, c, y, s);
    lemma_products(x, c, x, c);
    lemma_products(x, s, x, s);
    lemma_products(y, c, y, c);
    lemma_products(y, s, y, s);
    lemma_whole_share(x * x, c * c, s * s);
    lemma_whole_share(y * y, c * c, s * s);
}

proof fn lemma_square_of_difference(p: real, q: real)
    ensures
        (p - q) * (p - q) == p * p - (p * q + p * q) + q * q,
{
    assert((p - q) * (p - q) == p * p - (p * q + p * q) + q * q) by (nonlinear_arith);
}

proof fn lemma_square_of_sum(p: real, q: real)
    ensures
        (p + q) * (p + q) == p * p + (p * q + p * q) + q * q,
{
    assert((p + q) * (p + q) == p * p + (p * q + p * q) + q * q) by (nonlinear_arith);
}

/// Products of products, sorted.
proof fn lemma_products(x: real, c: real, y: real, s: real)
    ensures
        (x * c) * (y * s) == (x * s) * (y * c),
        (x * c) * (y * s) == (x * y) * (c * s),
{
    assert((x * c) * (y * s) == (x * s) * (y * c)) by (nonlinear_arith);
    assert((x * c) * (y * s) == (x * y) * (c * s)) by (nonlinear_arith);
}

/// Two shares that make a whole.
proof fn lemma_whole_share(r: real, a: real, b: real)
    requires
        a + b == 1 as real,
    ensures
        r * a + r * b == r,
{
    assert(r * a + r * b == r) by (nonlinear_arith)
        requires
            a + b == 1 as real,
    ;
}

/// `n` is the whole number below `x`.
pub open spec fn whole_below(x: real, n: int) -> bool {
    (n as real) <= x < ((n + 1) as real)
}

/// `x` is the whole number `n`.
pub open spec fn is_whole(x: real, n: u32) -> bool {
    x == n as real
}

/// The floor is the whole number below, and a whole number is its own index.
#[verifier::opaque]
pub open spec fn floors<S: Scalar>(val: spec_fn(S) -> real) -> bool {
    &&& forall|a: S, n: int|
        #[trigger] whole_below(val(a), n) ==> val(S::applied(Fun::Floor, a)) == n as real
    &&& forall|a: S, n: u32|
        #[trigger] is_whole(val(a), n) ==> S::resolved(S::to_index(a)) == Some(n)
}

/// A number between zero and a whole number has a whole number below.
proof fn lemma_whole_below(x: real, top: int) -> (n: int)
    requires
        (0 as real) <= x <= (top as real),
        0 <= top,
    ensures
        whole_below(x, n),
        0 <= n <= top,
    decreases top,
{
    if x == top as real {
        top
    } else if top > 0 && x < ((top - 1) as real) {
        lemma_whole_below(x, top - 1)
    } else if top > 0 {
        top - 1
    } else {
        0
    }
}

/// A coordinate lies between the first and the last pixel.
proof fn lemma_coordinate<S: Scalar>(val: spec_fn(S) -> real, o: u32, src: u32, target: u32)
    requires
        models_reals(val),
        src > 0,
    ensures
        (0 as real) <= val(coordinate::<S>(o, src, target)) <= ((src - 1) as real),
        val(last_of::<S>(src)) == (src - 1) as real,
{
    lemma_val_constants(val, src);
    lemma_val_plus(val, S::natural(src), one());
    let half = S::rational(1, 2);
    let scale = over(S::natural(src), S::natural(target));
    let raw: S = minus(times(plus(S::natural(o), half), scale), half);
    lemma_val_select(val, raw, zero(), zero(), raw);
    let low = S::chosen(below(raw, zero()), zero(), raw);
    lemma_val_select(val, last_of(src), low, last_of(src), low);
}

/// However an image is resized, every output pixel lies between pixels of the source.
pub proof fn law_resize_reads_inside<S: Scalar>(val: spec_fn(S) -> real, src: u32, target: u32)
    requires
        models_reals(val),
        floors(val),
        src > 0,
    ensures
        axis_reads_inside::<S>(src, target),
{
    reveal(floors);
    lemma_val_constants(val, 0);
    assert forall|o: u32| o < target implies #[trigger] reads_inside::<S>(o, src, target) by {
        lemma_coordinate(val, o, src, target);
        let at = coordinate::<S>(o, src, target);
        let n = lemma_whole_below(val(at), src - 1);
        let first = first_tap::<S>(o, src, target);
        assert(val(first) == n as real);
        assert(is_whole(val(first), n as u32));
        let next = plus(first, one());
        lemma_val_plus(val, first, one());
        lemma_val_select(val, last_of(src), next, last_of(src), next);
        let second = second_tap::<S>(o, src, target);
        if n + 1 > src - 1 {
            assert(is_whole(val(second), (src - 1) as u32));
        } else {
            assert(is_whole(val(second), (n + 1) as u32));
        }
    }
}

/// An image that keeps its size is sampled at its own pixels.
pub proof fn law_same_size_reads_the_pixel<S: Scalar>(val: spec_fn(S) -> real, o: u32, size: u32)
    requires
        models_reals(val),
        floors(val),
        o < size,
    ensures
        pixel_of(first_tap::<S>(o, size, size), size) == Some(o),
        val(share::<S>(o, size, size)) == 0 as real,
{
    reveal(floors);
    lemma_val_constants(val, size);
    lemma_val_constants(val, o);
    let half = S::rational(1, 2);
    let scale = over(S::natural(size), S::natural(size));
    lemma_val_over(val, S::natural(size), S::natural(size));
    let w = size as real;
    assert(w / w == 1 as real) by (nonlinear_arith)
        requires
            w != 0 as real,
    ;
    let moved = plus(S::natural(o), half);
    lemma_val_plus(val, S::natural(o), half);
    lemma_val_plus(val, moved, scale);
    let m = val(moved);
    assert(m * (1 as real) == m) by (nonlinear_arith);
    let scaled = times(moved, scale);
    lemma_val_plus(val, scaled, half);
    let raw: S = minus(scaled, half);
    assert(val(raw) == o as real);
    lemma_val_select(val, raw, zero(), zero(), raw);
    lemma_val_plus(val, S::natural(size), one());
    lemma_val_select(val, last_of(size), raw, last_of(size), raw);
    let at = coordinate::<S>(o, size, size);
    assert(val(at) == o as real);
    assert(whole_below(val(at), o as int));
    let first = first_tap::<S>(o, size, size);
    assert(is_whole(val(first), o));
    lemma_val_plus(val, at, first);
}

} // verus!
