//! Root-mean-square norms.
use vstd::prelude::*;

use crate::lanes::{collect, group_sum, group_summed, lane_sum, lane_summed};
use crate::layout::lemma_len_fits;
use crate::scalar::{
    minus, one, over, plus, s_add, s_div, s_mul, s_one, s_sub, s_zero, times, zero, Element, Fun,
    Scalar,
};

verus! {

/// `rsqrt(ssq / n + eps)`.
pub open spec fn inv_of<S: Scalar>(ssq: S, n: u32, eps: S) -> S {
    S::applied(Fun::Rsqrt, plus(over(ssq, S::natural(n)), eps))
}

pub fn inv<S: Scalar>(ssq: &S, n: u32, eps: &S) -> (r: S)
    ensures
        r == inv_of(*ssq, n, *eps),
{
    S::apply(Fun::Rsqrt, &s_add(&s_div(ssq, &S::from_u32(n)), eps))
}

/// `z / (1 + exp(-z))`.
pub open spec fn gate_of<S: Scalar>(z: S) -> S {
    over(z, plus(one(), S::applied(Fun::Exp, minus(zero(), z))))
}

pub fn gate<S: Scalar>(z: &S) -> (r: S)
    ensures
        r == gate_of(*z),
{
    let e = S::apply(Fun::Exp, &s_sub(&s_zero(), z));
    s_div(z, &s_add(&s_one(), &e))
}

/// The squares of the elements from `start` on.
pub open spec fn squares<S: Scalar, T: Element<S>>(x: Seq<T>, start: int) -> spec_fn(int) -> S {
    |d: int| times(x[start + d].widened(), x[start + d].widened())
}

/// The inverse norm of a vector by a group of `width` threads.
pub open spec fn group_inv<S: Scalar, T: Element<S>>(x: Seq<T>, n: u32, eps: S, width: int) -> S {
    inv_of(group_sum(squares::<S, T>(x, 0), 1, width, n as int), n, eps)
}

/// The vector `x * w * inverse norm`.
pub open spec fn group_normed<S: Scalar, T: Element<S>>(
    x: Seq<T>,
    w: Seq<T>,
    n: u32,
    eps: S,
    width: int,
) -> Seq<S> {
    Seq::new(
        n as nat,
        |i: int| times(times(x[i].widened(), w[i].widened()), group_inv::<S, T>(x, n, eps, width)),
    )
}

pub fn group_norm<S: Scalar, T: Element<S>>(
    x: &[T],
    w: &[T],
    n: u32,
    eps: &S,
    width: usize,
) -> (r: Vec<S>)
    requires
        width > 0,
        x@.len() == n,
        w@.len() == n,
    ensures
        r@ == group_normed::<S, T>(x@, w@, n, *eps, width as int),
{
    proof {
        lemma_len_fits(x);
    }
    let len: usize = n as usize;
    let ssq = group_summed(
        |d: usize| -> (v: S)
            requires
                d < len
            ensures
                v == squares::<S, T>(x@, 0)(d as int)
            {
                let v: S = x[d].widen();
                s_mul(&v, &v)
            },
        1,
        width,
        len,
        Ghost(squares::<S, T>(x@, 0)),
    );
    let scale = inv(&ssq, n, eps);
    let r = collect(
        len,
        |i: usize| -> (v: S)
            requires
                i < len
            ensures
                v == times(times(x@[i as int].widened(), w@[i as int].widened()), scale)
            { s_mul(&s_mul(&x[i].widen(), &w[i].widen()), &scale) },
        Ghost(|i: int, v: S| v == times(times(x@[i].widened(), w@[i].widened()), scale)),
    );
    assert(r@ =~= group_normed::<S, T>(x@, w@, n, *eps, width as int));
    r
}

/// What thread `t` adds to the squares of the row at `start`: it owns four
/// consecutive elements, and adds nothing if they are not all in the row.
pub open spec fn quad<S: Scalar, T: Element<S>>(x: Seq<T>, start: int, n: int, t: int) -> S {
    let sq = squares::<S, T>(x, start);
    if 4 * t + 3 < n {
        plus(plus(plus(sq(4 * t), sq(4 * t + 1)), sq(4 * t + 2)), sq(4 * t + 3))
    } else {
        zero()
    }
}

/// The inverse norm of the row at `start`, four elements to each of `tpg` threads.
pub open spec fn quad_inv<S: Scalar, T: Element<S>>(
    x: Seq<T>,
    start: int,
    n: u32,
    eps: S,
    tpg: int,
) -> S {
    inv_of(lane_sum(Seq::new(tpg as nat, |t: int| quad::<S, T>(x, start, n as int, t))), n, eps)
}

/// A thread writes column `c` of the row.
pub open spec fn quad_covers(n: int, tpg: int, c: int) -> bool {
    c / 4 < tpg && c / 4 * 4 + 3 < n
}

fn quad_part<S: Scalar, T: Element<S>>(x: &[T], start: usize, n: usize, t: usize) -> (r: S)
    requires
        start + n <= x@.len(),
        4 * t <= usize::MAX - 3,
    ensures
        r == quad::<S, T>(x@, start as int, n as int, t as int),
{
    proof {
        lemma_len_fits(x);
    }
    if 4 * t + 3 < n {
        let at: usize = start + 4 * t;
        let a: S = x[at].widen();
        let b: S = x[at + 1].widen();
        let c: S = x[at + 2].widen();
        let d: S = x[at + 3].widen();
        let ab = s_add(&s_mul(&a, &a), &s_mul(&b, &b));
        let abc = s_add(&ab, &s_mul(&c, &c));
        s_add(&abc, &s_mul(&d, &d))
    } else {
        s_zero()
    }
}

pub fn quad_scale<S: Scalar, T: Element<S>>(
    x: &[T],
    start: usize,
    n: u32,
    eps: &S,
    tpg: usize,
) -> (r: S)
    requires
        tpg > 0,
        4 * tpg <= usize::MAX,
        start + n <= x@.len(),
    ensures
        r == quad_inv::<S, T>(x@, start as int, n, *eps, tpg as int),
{
    let parts = collect(
        tpg,
        |t: usize| -> (v: S)
            requires
                t < tpg
            ensures
                v == quad::<S, T>(x@, start as int, n as int, t as int)
            { quad_part(x, start, n as usize, t) },
        Ghost(|t: int, v: S| v == quad::<S, T>(x@, start as int, n as int, t)),
    );
    assert(parts@ =~= Seq::new(
        tpg as nat,
        |t: int| quad::<S, T>(x@, start as int, n as int, t),
    ));
    inv(&lane_summed(&parts), n, eps)
}

} // verus!
