//! Bilinear resize of an image, with its channels normalized and laid out as planes.
//!
//! `input` is `[src_h, src_w, 3]`, interleaved; `out` is `[3, target_h, target_w]`. Pixels
//! are taken at their centers, and coordinates outside the source are brought to its
//! edge.
use vstd::prelude::*;

use crate::lanes::launch;
use crate::layout::{flat3, lemma_factors, lemma_len_fits, lemma_split};
use crate::scalar::{
    above, below, minus, one, over, plus, s_add, s_div, s_gt, s_lt, s_mul, s_one, s_sub, s_zero,
    times, zero, Element, Fun, Scalar,
};

verus! {

/// The last coordinate of an axis.
pub open spec fn last_of<S: Scalar>(src: u32) -> S {
    minus(S::natural(src), one())
}

/// `v`, brought down to the last coordinate.
pub open spec fn capped<S: Scalar>(v: S, src: u32) -> S {
    S::chosen(above(v, last_of(src)), last_of(src), v)
}

/// Where output coordinate `o` lies in the source.
pub open spec fn coordinate<S: Scalar>(o: u32, src: u32, target: u32) -> S {
    let scale = over(S::natural(src), S::natural(target));
    let half = S::rational(1, 2);
    let raw = minus(times(plus(S::natural(o), half), scale), half);
    capped(S::chosen(below(raw, zero()), zero(), raw), src)
}

/// The coordinate of the pixel before it.
pub open spec fn first_tap<S: Scalar>(o: u32, src: u32, target: u32) -> S {
    S::applied(Fun::Floor, coordinate(o, src, target))
}

/// The coordinate of the pixel after it.
pub open spec fn second_tap<S: Scalar>(o: u32, src: u32, target: u32) -> S {
    capped(plus(first_tap(o, src, target), one()), src)
}

/// How far it lies towards the pixel after it.
pub open spec fn share<S: Scalar>(o: u32, src: u32, target: u32) -> S {
    minus(coordinate(o, src, target), first_tap(o, src, target))
}

/// The pixel that a coordinate stands for, where it is one of the source.
pub open spec fn pixel_of<S: Scalar>(v: S, src: u32) -> Option<u32> {
    match S::resolved(S::to_index(v)) {
        Some(p) => if p < src {
            Some(p)
        } else {
            None
        },
        None => None,
    }
}

/// Output coordinate `o` has both pixels in the source.
pub open spec fn reads_inside<S: Scalar>(o: u32, src: u32, target: u32) -> bool {
    &&& pixel_of(first_tap::<S>(o, src, target), src) is Some
    &&& pixel_of(second_tap::<S>(o, src, target), src) is Some
}

/// Every output coordinate of an axis has both pixels in the source.
pub open spec fn axis_reads_inside<S: Scalar>(src: u32, target: u32) -> bool {
    forall|o: u32| o < target ==> #[trigger] reads_inside::<S>(o, src, target)
}

/// The value at a pixel.
pub open spec fn source_at<S: Scalar, T: Element<S>>(
    input: Seq<T>,
    src_w: u32,
    y: u32,
    x: u32,
    c: int,
) -> S {
    input[(y * src_w + x) * 3 + c].widened()
}

/// `a` and `b`, mixed.
pub open spec fn mixed<S: Scalar>(a: S, b: S, w: S) -> S {
    plus(times(a, minus(one(), w)), times(b, w))
}

/// Element `i` of the output.
pub open spec fn resize_value<S: Scalar, T: Element<S>>(
    input: Seq<T>,
    mean: Seq<S>,
    std: Seq<S>,
    src_w: u32,
    src_h: u32,
    target_w: u32,
    target_h: u32,
    i: int,
) -> T {
    let ox = (i % target_w as int) as u32;
    let row = i / target_w as int;
    let oy = (row % target_h as int) as u32;
    let c = row / target_h as int;
    let x0 = pixel_of(first_tap::<S>(ox, src_w, target_w), src_w)->0;
    let x1 = pixel_of(second_tap::<S>(ox, src_w, target_w), src_w)->0;
    let y0 = pixel_of(first_tap::<S>(oy, src_h, target_h), src_h)->0;
    let y1 = pixel_of(second_tap::<S>(oy, src_h, target_h), src_h)->0;
    let wx = share::<S>(ox, src_w, target_w);
    let wy = share::<S>(oy, src_h, target_h);
    let top = mixed(
        source_at(input, src_w, y0, x0, c),
        source_at(input, src_w, y0, x1, c),
        wx,
    );
    let bot = mixed(
        source_at(input, src_w, y1, x0, c),
        source_at(input, src_w, y1, x1, c),
        wx,
    );
    T::narrowed(over(minus(mixed(top, bot, wy), mean[c]), std[c]))
}

/// What one output coordinate of an axis reads.
pub struct Tap<S> {
    pub first: u32,
    pub second: u32,
    pub share: S,
}

impl<S: Scalar> Tap<S> {
    pub open spec fn serves(self, o: int, src: u32, target: u32) -> bool {
        &&& self.first < src
        &&& self.second < src
        &&& pixel_of(first_tap::<S>(o as u32, src, target), src) == Some(self.first)
        &&& pixel_of(second_tap::<S>(o as u32, src, target), src) == Some(self.second)
        &&& self.share == share::<S>(o as u32, src, target)
    }
}

fn cap<S: Scalar>(v: &S, src: u32) -> (r: S)
    ensures
        r == capped(*v, src),
{
    let last = s_sub(&S::from_u32(src), &s_one());
    S::select(&s_gt(v, &last), &last, v)
}

fn pixel<S: Scalar>(v: &S, src: u32) -> (p: Option<u32>)
    ensures
        p == pixel_of(*v, src),
{
    match S::resolve(&S::trunc(v)) {
        Some(p) => if p < src {
            Some(p)
        } else {
            None
        },
        None => None,
    }
}

/// What output coordinate `o` reads, if both pixels are in the source.
fn tap<S: Scalar>(o: u32, src: u32, target: u32) -> (t: Option<Tap<S>>)
    ensures
        t is Some <==> reads_inside::<S>(o, src, target),
        t matches Some(t) ==> t.serves(o as int, src, target),
{
    let scale = s_div(&S::from_u32(src), &S::from_u32(target));
    let half: S = S::ratio(1, 2);
    let raw = s_sub(&s_mul(&s_add(&S::from_u32(o), &half), &scale), &half);
    let low = S::select(&s_lt(&raw, &s_zero()), &s_zero(), &raw);
    let at = cap(&low, src);
    let first = S::apply(Fun::Floor, &at);
    let second = cap(&s_add(&first, &s_one()), src);
    match (pixel(&first, src), pixel(&second, src)) {
        (Some(a), Some(b)) => Some(Tap { first: a, second: b, share: s_sub(&at, &first) }),
        _ => None,
    }
}

/// What every output coordinate of an axis reads, if all pixels are in the source.
fn axis_taps<S: Scalar>(src: u32, target: u32) -> (taps: Option<Vec<Tap<S>>>)
    ensures
        taps is Some <==> axis_reads_inside::<S>(src, target),
        taps matches Some(v) ==> v@.len() == target && forall|o: int|
            0 <= o < target ==> (#[trigger] v@[o]).serves(o, src, target),
{
    let mut v: Vec<Tap<S>> = Vec::new();
    let mut o: u32 = 0;
    while o < target
        invariant
            o <= target,
            v@.len() == o,
            forall|p: int| 0 <= p < o ==> (#[trigger] v@[p]).serves(p, src, target),
            forall|p: u32| p < o ==> #[trigger] reads_inside::<S>(p, src, target),
        decreases target - o,
    {
        match tap::<S>(o, src, target) {
            Some(t) => {
                v.push(t);
            },
            None => {
                return None;
            },
        }
        o = o + 1;
    }
    Some(v)
}

fn mix<S: Scalar>(a: &S, b: &S, w: &S) -> (r: S)
    ensures
        r == mixed(*a, *b, *w),
{
    s_add(&s_mul(a, &s_sub(&s_one(), w)), &s_mul(b, w))
}

fn load_source<S: Scalar, T: Element<S>>(
    input: &[T],
    src_w: u32,
    src_h: u32,
    y: u32,
    x: u32,
    c: usize,
) -> (v: S)
    requires
        input@.len() == (src_h * src_w) * 3,
        y < src_h,
        x < src_w,
        c < 3,
    ensures
        v == source_at::<S, T>(input@, src_w, y, x, c as int),
{
    proof {
        lemma_len_fits(input);
    }
    let at: usize = flat3(y as usize, x as usize, src_w as usize, c, 3, Ghost(src_h as int));
    input[at].widen()
}

/// Resizes and normalizes an image. The arithmetic decides which pixels are read: where
/// one of them would lie outside the source, nothing is written and the result is
/// `false`.
pub fn ffai_resize_normalize<S: Scalar, T: Element<S>>(
    input: &[T],
    mean: &[S],
    std: &[S],
    out: &mut Vec<T>,
    src_w: &[u32],
    src_h: &[u32],
    target_w: &[u32],
    target_h: &[u32],
) -> (done: bool)
    requires
        src_w@.len() >= 1,
        src_h@.len() >= 1,
        target_w@.len() >= 1,
        target_h@.len() >= 1,
        mean@.len() >= 3,
        std@.len() >= 3,
        input@.len() == (src_h@[0] * src_w@[0]) * 3,
        old(out)@.len() == (3 * target_h@[0]) * target_w@[0],
    ensures
        done == (axis_reads_inside::<S>(src_w@[0], target_w@[0]) && axis_reads_inside::<S>(
            src_h@[0],
            target_h@[0],
        )),
        done ==> final(out)@ =~= Seq::new(
            old(out)@.len(),
            |i: int|
                resize_value(
                    input@,
                    mean@,
                    std@,
                    src_w@[0],
                    src_h@[0],
                    target_w@[0],
                    target_h@[0],
                    i,
                ),
        ),
        !done ==> final(out)@ == old(out)@,
{
    let sw: u32 = src_w[0];
    let sh: u32 = src_h[0];
    let tw: u32 = target_w[0];
    let th: u32 = target_h[0];
    let xs = match axis_taps::<S>(sw, tw) {
        Some(v) => v,
        None => {
            return false;
        },
    };
    let ys = match axis_taps::<S>(sh, th) {
        Some(v) => v,
        None => {
            return false;
        },
    };
    let ghost size = out@.len();
    launch(
        out,
        |i: usize| -> (r: T)
            requires
                i < size
            ensures
                r == resize_value(input@, mean@, std@, sw, sh, tw, th, i as int)
            {
                proof {
                    lemma_factors(3 * th, tw as int);
                    lemma_factors(3, th as int);
                    lemma_split(i as int, 3 * th, tw as int);
                    lemma_split(i as int / tw as int, 3, th as int);
                }
                let ox: usize = i % tw as usize;
                let row: usize = i / tw as usize;
                let oy: usize = row % th as usize;
                let c: usize = row / th as usize;
                let tx = &xs[ox];
                let ty = &ys[oy];
                assert(tx.serves(ox as int, sw, tw));
                assert(ty.serves(oy as int, sh, th));
                let p00: S = load_source(input, sw, sh, ty.first, tx.first, c);
                let p01: S = load_source(input, sw, sh, ty.first, tx.second, c);
                let p10: S = load_source(input, sw, sh, ty.second, tx.first, c);
                let p11: S = load_source(input, sw, sh, ty.second, tx.second, c);
                let top = mix(&p00, &p01, &tx.share);
                let bot = mix(&p10, &p11, &tx.share);
                let v = mix(&top, &bot, &ty.share);
                T::narrow(&s_div(&s_sub(&v, &mean[c]), &std[c]))
            },
        Ghost(|i: int| resize_value(input@, mean@, std@, sw, sh, tw, th, i)),
    );
    true
}

} // verus!
