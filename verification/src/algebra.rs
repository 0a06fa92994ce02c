//! Laws of arithmetic that a type of scalars may keep, and what they make of sums that
//! many threads share.
//!
//! Floats keep none of these laws exactly. They say what the kernels compute up to
//! rounding: with exact arithmetic the order in which a group of threads adds is of no
//! consequence.
use vstd::prelude::*;

use crate::lanes::{
    accumulate, group_sum, halves_evenly, lane_dot, lane_sum, lemma_accumulate_append, lemma_accumulate_same,
    lemma_rounds, pack_terms, rounds, simd_dot, strided, tree,
};
use crate::scalar::{minus, one, over, plus, times, zero, Fun, Scalar};

verus! {

/// Sums may be added in any order.
#[verifier::opaque]
pub open spec fn sums_freely<S: Scalar>() -> bool {
    &&& forall|a: S, b: S| #[trigger] plus(a, b) == plus(b, a)
    &&& forall|a: S, b: S, c: S| #[trigger] plus(plus(a, b), c) == plus(a, plus(b, c))
    &&& forall|a: S| #[trigger] plus(zero(), a) == a
}

pub proof fn lemma_add_comm<S: Scalar>(a: S, b: S)
    requires
        sums_freely::<S>(),
    ensures
        plus(a, b) == plus(b, a),
{
    reveal(sums_freely);
}

pub proof fn lemma_add_assoc<S: Scalar>(a: S, b: S, c: S)
    requires
        sums_freely::<S>(),
    ensures
        plus(plus(a, b), c) == plus(a, plus(b, c)),
{
    reveal(sums_freely);
}

pub proof fn lemma_add_zero<S: Scalar>(a: S)
    requires
        sums_freely::<S>(),
    ensures
        plus(zero(), a) == a,
        plus(a, zero()) == a,
{
    reveal(sums_freely);
}

/// What a sum starts with can be added at the end.
pub proof fn lemma_sum_start<S: Scalar>(start: S, f: spec_fn(int) -> S, n: int)
    requires
        sums_freely::<S>(),
    ensures
        accumulate(start, f, n) == plus(start, accumulate(zero(), f, n)),
    decreases n,
{
    if n <= 0 {
        lemma_add_zero(start);
    } else {
        lemma_sum_start(start, f, n - 1);
        lemma_add_assoc(start, accumulate(zero(), f, n - 1), f(n - 1));
    }
}

/// Two sums, added term by term.
pub proof fn lemma_sum_of_sums<S: Scalar>(f: spec_fn(int) -> S, g: spec_fn(int) -> S, n: int)
    requires
        sums_freely::<S>(),
    ensures
        accumulate(zero(), |i: int| plus(f(i), g(i)), n) == plus(
            accumulate(zero(), f, n),
            accumulate(zero(), g, n),
        ),
    decreases n,
{
    if n <= 0 {
        lemma_add_zero(zero::<S>());
    } else {
        lemma_sum_of_sums(f, g, n - 1);
        let a = accumulate(zero(), f, n - 1);
        let b = accumulate(zero(), g, n - 1);
        let c = f(n - 1);
        let d = g(n - 1);
        lemma_add_assoc(a, b, plus(c, d));
        lemma_add_assoc(b, c, d);
        lemma_add_comm(b, c);
        lemma_add_assoc(c, b, d);
        lemma_add_assoc(a, c, plus(b, d));
    }
}

/// Terms that are zero add nothing.
pub proof fn lemma_sum_tail<S: Scalar>(f: spec_fn(int) -> S, n: int, m: int)
    requires
        sums_freely::<S>(),
        0 <= n <= m,
        forall|i: int| n <= i < m ==> #[trigger] f(i) == zero::<S>(),
    ensures
        accumulate(zero(), f, m) == accumulate(zero(), f, n),
    decreases m,
{
    if m > n {
        lemma_sum_tail(f, n, m - 1);
        lemma_add_zero(accumulate(zero(), f, n));
    }
}

/// The lanes of a group, added in order.
pub proof fn lemma_lane_sum<S: Scalar>(parts: Seq<S>)
    requires
        sums_freely::<S>(),
        parts.len() >= 1,
    ensures
        lane_sum(parts) == accumulate(zero(), |i: int| parts[i], parts.len() as int),
    decreases parts.len(),
{
    let f = |i: int| parts[i];
    if parts.len() == 1 {
        lemma_add_zero(parts[0]);
        assert(accumulate(zero(), f, 0) == zero::<S>());
        assert(accumulate(zero(), f, 1) == plus(accumulate(zero(), f, 0), f(0)));
    } else {
        let front = parts.drop_last();
        lemma_lane_sum(front);
        lemma_accumulate_same(zero(), |i: int| front[i], f, parts.len() - 1);
    }
}

/// The sum of a pack.
pub open spec fn pack_sum<S: Scalar>(term: spec_fn(int) -> S, per: int) -> spec_fn(int) -> S {
    |d: int| accumulate(zero(), pack_terms(term, per, d), per)
}

/// The sum of a pack, where there is one.
pub open spec fn pack_sum_below<S: Scalar>(
    term: spec_fn(int) -> S,
    per: int,
    n: int,
) -> spec_fn(int) -> S {
    |d: int|
        if d < n {
            pack_sum(term, per)(d)
        } else {
            zero()
        }
}

/// Packs, summed one after the other.
proof fn lemma_packs<S: Scalar>(term: spec_fn(int) -> S, per: int, n: int)
    requires
        sums_freely::<S>(),
        0 <= per,
        0 <= n,
    ensures
        accumulate(zero(), pack_sum(term, per), n) == accumulate(zero(), term, n * per),
    decreases n,
{
    if n > 0 {
        lemma_packs(term, per, n - 1);
        assert(n * per == (n - 1) * per + per) by (nonlinear_arith);
        assert(0 <= (n - 1) * per) by (nonlinear_arith)
            requires
                0 <= per,
                n > 0,
        ;
        let tail = pack_terms(term, per, n - 1);
        lemma_accumulate_append(zero(), term, tail, (n - 1) * per, per);
        lemma_sum_start(accumulate(zero(), term, (n - 1) * per), tail, per);
    }
}

/// What the threads of a group found after `count` rounds.
proof fn lemma_threads<S: Scalar>(
    term: spec_fn(int) -> S,
    per: int,
    width: int,
    n: int,
    count: int,
)
    requires
        sums_freely::<S>(),
        0 < width,
        0 <= count,
    ensures
        accumulate(zero(), |t: int| strided(term, per, t, width, n, count), width) == accumulate(
            zero(),
            pack_sum_below(term, per, n),
            count * width,
        ),
    decreases count,
{
    let after = |t: int| strided(term, per, t, width, n, count);
    let packs = pack_sum_below(term, per, n);
    if count == 0 {
        assert(count * width == 0) by (nonlinear_arith)
            requires
                count == 0,
        ;
        lemma_sum_tail(after, 0, width);
    } else {
        lemma_threads(term, per, width, n, count - 1);
        let base = (count - 1) * width;
        assert(count * width == base + width) by (nonlinear_arith)
            requires
                base == (count - 1) * width,
        ;
        assert(0 <= base) by (nonlinear_arith)
            requires
                base == (count - 1) * width,
                count >= 1,
                width > 0,
        ;
        let before = |t: int| strided(term, per, t, width, n, count - 1);
        let new = |t: int| packs(base + t);
        assert forall|t: int| 0 <= t < width implies #[trigger] after(t) == plus(
            before(t),
            new(t),
        ) by {
            let d = base + t;
            if d < n {
                lemma_sum_start(before(t), pack_terms(term, per, d), per);
            } else {
                lemma_add_zero(before(t));
            }
        }
        lemma_accumulate_same(zero(), after, |t: int| plus(before(t), new(t)), width);
        lemma_sum_of_sums(before, new, width);
        lemma_accumulate_append(zero(), packs, new, base, width);
        lemma_sum_start(accumulate(zero(), packs, base), new, width);
    }
}

/// A group of threads adds up all terms, whatever its width: what they find is the sum
/// from the first term to the last.
pub proof fn law_group_sum_is_the_sum<S: Scalar>(
    term: spec_fn(int) -> S,
    per: int,
    width: int,
    n: int,
)
    requires
        sums_freely::<S>(),
        0 <= per,
        0 < width,
        0 <= n,
    ensures
        group_sum(term, per, width, n) == accumulate(zero(), term, n * per),
{
    let count = rounds(n, width);
    let f = |t: int| strided(term, per, t, width, n, count);
    let parts = Seq::new(width as nat, f);
    lemma_lane_sum(parts);
    lemma_accumulate_same(zero(), |i: int| parts[i], f, width);
    lemma_rounds(n, width);
    vstd::arithmetic::div_mod::lemma_fundamental_div_mod(n, width);
    vstd::arithmetic::div_mod::lemma_div_pos_is_pos(n, width);
    assert(n <= count * width) by (nonlinear_arith)
        requires
            n == width * (n / width) + n % width,
            0 <= n % width < width,
            count == n / width + if n % width == 0 {
                0int
            } else {
                1
            },
    ;
    lemma_threads(term, per, width, n, count);
    lemma_sum_tail(pack_sum_below(term, per, n), n, count * width);
    lemma_accumulate_same(zero(), pack_sum_below(term, per, n), pack_sum(term, per), n);
    lemma_packs(term, per, n);
}

/// The dot product of a simdgroup is the sum of all products.
pub proof fn law_simd_dot_is_the_dot_product<S: Scalar>(a: Seq<S>, b: Seq<S>)
    requires
        sums_freely::<S>(),
        a.len() % 32 == 0,
    ensures
        simd_dot(a, b) == accumulate(
            zero(),
            |i: int| times(a[i], b[i]),
            a.len() as int,
        ),
{
    let per = a.len() as int / 32;
    let term = |i: int| times(a[i], b[i]);
    let parts = Seq::new(32, |l: int| lane_dot(a, b, l, per));
    lemma_lane_sum(parts);
    assert forall|l: int| 0 <= l < 32 implies #[trigger] parts[l] == pack_sum(term, per)(l) by {
        lemma_accumulate_same(
            zero(),
            |i: int| times(a[l * per + i], b[l * per + i]),
            pack_terms(term, per, l),
            per,
        );
    }
    lemma_accumulate_same(zero(), |i: int| parts[i], pack_sum(term, per), 32);
    lemma_packs(term, per, 32);
}

/// A tree adds up the same as a walk from the first lane to the last.
pub proof fn law_tree_sum_is_the_sum<S: Scalar>(parts: Seq<S>)
    requires
        sums_freely::<S>(),
        halves_evenly(parts.len() as int),
    ensures
        tree(parts, |upper: S, lower: S| plus(upper, lower)) == accumulate(
            zero(),
            |i: int| parts[i],
            parts.len() as int,
        ),
    decreases parts.len(),
{
    let join = |upper: S, lower: S| plus(upper, lower);
    let f = |i: int| parts[i];
    if parts.len() == 1 {
        lemma_add_zero(parts[0]);
        assert(accumulate(zero(), f, 0) == zero::<S>());
        assert(accumulate(zero(), f, 1) == plus(accumulate(zero(), f, 0), f(0)));
    } else {
        let h = parts.len() as int / 2;
        let half = Seq::new(h as nat, |i: int| join(parts[i + h], parts[i]));
        law_tree_sum_is_the_sum(half);
        let lower = f;
        let upper = |i: int| parts[i + h];
        lemma_accumulate_same(
            zero(),
            |i: int| half[i],
            |i: int| plus(upper(i), lower(i)),
            h,
        );
        lemma_sum_of_sums(upper, lower, h);
        lemma_accumulate_append(zero(), f, upper, h, h);
        lemma_sum_start(accumulate(zero(), f, h), upper, h);
        lemma_add_comm(accumulate(zero(), lower, h), accumulate(zero(), upper, h));
    }
}

/// The laws of a commutative ring.
#[verifier::opaque]
pub open spec fn ring<S: Scalar>() -> bool {
    &&& sums_freely::<S>()
    &&& forall|a: S, b: S| #[trigger] times(a, b) == times(b, a)
    &&& forall|a: S, b: S, c: S| #[trigger] times(times(a, b), c) == times(a, times(b, c))
    &&& forall|a: S, b: S, c: S|
        #[trigger] times(plus(a, b), c) == plus(times(a, c), times(b, c))
    &&& forall|a: S| #[trigger] times(one(), a) == a
    &&& forall|a: S| #[trigger] times(zero(), a) == zero::<S>()
    &&& forall|a: S, b: S| #[trigger] plus(minus(a, b), b) == a
}

pub proof fn lemma_ring_sums<S: Scalar>()
    requires
        ring::<S>(),
    ensures
        sums_freely::<S>(),
{
    reveal(ring);
}

pub proof fn lemma_mul_comm<S: Scalar>(a: S, b: S)
    requires
        ring::<S>(),
    ensures
        times(a, b) == times(b, a),
{
    reveal(ring);
}

pub proof fn lemma_mul_assoc<S: Scalar>(a: S, b: S, c: S)
    requires
        ring::<S>(),
    ensures
        times(times(a, b), c) == times(a, times(b, c)),
{
    reveal(ring);
}

pub proof fn lemma_distribute<S: Scalar>(a: S, b: S, c: S)
    requires
        ring::<S>(),
    ensures
        times(plus(a, b), c) == plus(times(a, c), times(b, c)),
        times(c, plus(a, b)) == plus(times(c, a), times(c, b)),
{
    reveal(ring);
}

pub proof fn lemma_mul_one<S: Scalar>(a: S)
    requires
        ring::<S>(),
    ensures
        times(one(), a) == a,
        times(a, one()) == a,
{
    reveal(ring);
}

pub proof fn lemma_mul_zero<S: Scalar>(a: S)
    requires
        ring::<S>(),
    ensures
        times(zero(), a) == zero::<S>(),
        times(a, zero()) == zero::<S>(),
{
    reveal(ring);
}

pub proof fn lemma_sub_add<S: Scalar>(a: S, b: S)
    requires
        ring::<S>(),
    ensures
        plus(minus(a, b), b) == a,
{
    reveal(ring);
}

/// Nothing is left of what is taken from itself.
pub proof fn lemma_sub_self<S: Scalar>(a: S)
    requires
        ring::<S>(),
    ensures
        minus(a, a) == zero::<S>(),
        minus(a, zero()) == a,
{
    lemma_ring_sums::<S>();
    // Zero has an opposite, and so has everything.
    let n = minus(zero(), a);
    lemma_sub_add(zero(), a);
    lemma_sub_add(a, a);
    lemma_add_comm(n, a);
    lemma_add_assoc(minus(a, a), a, n);
    lemma_add_zero(minus(a, a));
    lemma_sub_add(a, zero());
    lemma_add_zero(minus(a, zero()));
}

/// A factor of every term is a factor of the sum.
pub proof fn lemma_sum_scaled<S: Scalar>(f: spec_fn(int) -> S, c: S, n: int)
    requires
        ring::<S>(),
    ensures
        accumulate(zero(), |i: int| times(f(i), c), n) == times(accumulate(zero(), f, n), c),
    decreases n,
{
    if n <= 0 {
        lemma_mul_zero(c);
    } else {
        lemma_sum_scaled(f, c, n - 1);
        lemma_distribute(accumulate(zero(), f, n - 1), f(n - 1), c);
    }
}

/// Powers multiply as exponents add, and a common power cancels in a quotient.
#[verifier::opaque]
pub open spec fn exponential<S: Scalar>() -> bool {
    &&& forall|a: S, b: S, c: S|
        #[trigger] times(
            S::applied(Fun::Exp, minus(a, b)),
            S::applied(Fun::Exp, minus(b, c)),
        ) == S::applied(Fun::Exp, minus(a, c))
    &&& forall|a: S, b: S, x: S|
        #[trigger] over(
            times(a, S::applied(Fun::Exp, x)),
            times(b, S::applied(Fun::Exp, x)),
        ) == over(a, b)
}

pub proof fn lemma_exp_shift<S: Scalar>(a: S, b: S, c: S)
    requires
        exponential::<S>(),
    ensures
        times(S::applied(Fun::Exp, minus(a, b)), S::applied(Fun::Exp, minus(b, c)))
            == S::applied(Fun::Exp, minus(a, c)),
{
    reveal(exponential);
}

pub proof fn lemma_exp_cancel<S: Scalar>(a: S, b: S, x: S)
    requires
        exponential::<S>(),
    ensures
        over(times(a, S::applied(Fun::Exp, x)), times(b, S::applied(Fun::Exp, x))) == over(a, b),
{
    reveal(exponential);
}

} // verus!
