//! Which token is drawn, as far as values add up, or only keep their order.
use vstd::prelude::*;

use crate::lanes::{
    accumulate, halves_evenly, lemma_rounds, pack_terms, rounds, strided, tree,
};
use crate::real_logits::{
    decides, first_to_reach, law_draw_takes_the_first_to_reach,
    law_larger_target_is_drawn_later, none_reaches,
};
use crate::real_model::models_reals;
use crate::real_rotation::{lemma_total_pairs, lemma_total_same, total};
use crate::sampling::{cold, largest, sampled, total_of, walk, warm_logits, weights_of};
use crate::scalar::{minus, one, over, plus, times, zero, Element, Fun, Scalar};

verus! {

/// The weights that the tokens are drawn by at temperature `temp`.
pub open spec fn draw_weights<S: Scalar, T: Element<S>>(
    inp: Seq<T>,
    temp: S,
    n: u32,
) -> spec_fn(int) -> S {
    let logit = warm_logits::<S, T>(inp, over(one(), temp));
    weights_of(logit, largest(logit, n as int))
}

/// What the cumulated weights have to reach.
pub open spec fn draw_target<S: Scalar, T: Element<S>>(
    inp: Seq<T>,
    temp: S,
    uniform: S,
    n: u32,
) -> S {
    times(uniform, total_of(draw_weights::<S, T>(inp, temp, n), n as int))
}

/// Values keep their order, as rounded ones do: sums of what is not negative are not
/// negative, products with what is not negative grow, and an exponential is not negative.
#[verifier::opaque]
pub open spec fn orderly<S: Scalar>(val: spec_fn(S) -> real) -> bool {
    &&& val(zero()) == 0 as real
    &&& forall|a: S, b: S|
        val(a) >= 0 as real && val(b) >= 0 as real ==> #[trigger] val(plus(a, b)) >= 0 as real
    &&& forall|a: S, b: S, c: S|
        val(a) <= val(b) && val(c) >= 0 as real ==> #[trigger] val(times(a, c))
            <= #[trigger] val(times(b, c))
    &&& forall|a: S| #[trigger] val(S::applied(Fun::Exp, a)) >= 0 as real
}

/// Real numbers keep their order.
pub proof fn law_reals_are_orderly<S: Scalar>(val: spec_fn(S) -> real)
    requires
        models_reals(val),
    ensures
        orderly(val),
{
    reveal(models_reals);
    reveal(orderly);
    assert(val(zero()) == (0i64 as real) / (1u64 as real));
    assert forall|a: S, b: S, c: S| val(a) <= val(b) && val(c) >= 0 as real implies
        #[trigger] val(times(a, c)) <= #[trigger] val(times(b, c)) by {
        let (x, y, z) = (val(a), val(b), val(c));
        assert(x * z <= y * z) by (nonlinear_arith)
            requires
                x <= y,
                z >= 0 as real,
        ;
    }
}

/// The sampled token does not fall where the product of the draw and the total does not.
pub proof fn law_sampled_token_grows_with_the_target<S: Scalar, T: Element<S>>(
    val: spec_fn(S) -> real,
    holds: spec_fn(S::Cond) -> bool,
    inp: Seq<T>,
    before_low: S::Index,
    before_high: S::Index,
    temp: S,
    low: S,
    high: S,
    n: u32,
)
    requires
        decides(val, holds),
        0 < n,
        val(temp) >= val(cold::<S>()),
        val(draw_target::<S, T>(inp, temp, low, n)) <= val(
            draw_target::<S, T>(inp, temp, high, n),
        ),
    ensures
        exists|a: u32, b: u32|
            a <= b < n && sampled::<S, T>(inp, before_low, temp, low, n)
                == #[trigger] S::position(a) && sampled::<S, T>(inp, before_high, temp, high, n)
                == #[trigger] S::position(b),
{
    law_larger_target_is_drawn_later(
        val,
        holds,
        draw_weights::<S, T>(inp, temp, n),
        draw_target::<S, T>(inp, temp, low, n),
        draw_target::<S, T>(inp, temp, high, n),
        n,
    );
    reveal(decides);
}

/// The sampled token never falls as the uniform draw grows, whether arithmetic is exact or
/// rounded in order.
pub proof fn law_sampled_token_grows_with_the_draw<S: Scalar, T: Element<S>>(
    val: spec_fn(S) -> real,
    holds: spec_fn(S::Cond) -> bool,
    inp: Seq<T>,
    before_low: S::Index,
    before_high: S::Index,
    temp: S,
    low: S,
    high: S,
    n: u32,
)
    requires
        decides(val, holds),
        orderly(val),
        0 < n,
        val(temp) >= val(cold::<S>()),
        val(low) <= val(high),
    ensures
        exists|a: u32, b: u32|
            a <= b < n && sampled::<S, T>(inp, before_low, temp, low, n)
                == #[trigger] S::position(a) && sampled::<S, T>(inp, before_high, temp, high, n)
                == #[trigger] S::position(b),
{
    let weight = draw_weights::<S, T>(inp, temp, n);
    assert forall|i: int| val(#[trigger] weight(i)) >= 0 as real by {
        reveal(orderly);
    }
    lemma_total_not_negative(val, weight, n as int);
    assert(val(times(low, total_of(weight, n as int))) <= val(
        times(high, total_of(weight, n as int)),
    )) by {
        reveal(orderly);
    }
    law_sampled_token_grows_with_the_target::<S, T>(
        val,
        holds,
        inp,
        before_low,
        before_high,
        temp,
        low,
        high,
        n,
    );
}

proof fn lemma_strided_not_negative<S: Scalar>(
    val: spec_fn(S) -> real,
    f: spec_fn(int) -> S,
    t: int,
    n: int,
    count: int,
)
    requires
        orderly(val),
        forall|i: int| val(#[trigger] f(i)) >= 0 as real,
    ensures
        val(strided(f, 1, t, 256, n, count)) >= 0 as real,
    decreases count,
{
    reveal(orderly);
    if count > 0 {
        lemma_strided_not_negative(val, f, t, n, count - 1);
        let pos = (count - 1) * 256 + t;
        let sum = strided(f, 1, t, 256, n, count - 1);
        if pos < n {
            let w = pack_terms(f, 1, pos);
            assert(accumulate(sum, w, 0) == sum);
            assert(accumulate(sum, w, 1) == plus(sum, w(0)));
        }
    }
}

proof fn lemma_tree_not_negative<S: Scalar>(val: spec_fn(S) -> real, parts: Seq<S>)
    requires
        orderly(val),
        halves_evenly(parts.len() as int),
        forall|i: int| 0 <= i < parts.len() ==> val(#[trigger] parts[i]) >= 0 as real,
    ensures
        val(tree(parts, |upper: S, lower: S| plus(upper, lower))) >= 0 as real,
    decreases parts.len(),
{
    let join = |upper: S, lower: S| plus(upper, lower);
    if parts.len() > 1 {
        let h = parts.len() as int / 2;
        let half = Seq::new(h as nat, |i: int| join(parts[i + h], parts[i]));
        assert forall|i: int| 0 <= i < half.len() implies val(#[trigger] half[i]) >= 0 as real by {
            reveal(orderly);
            assert(val(parts[i + h]) >= 0 as real && val(parts[i]) >= 0 as real);
        }
        lemma_tree_not_negative(val, half);
    } else {
        assert(tree(parts, join) == parts[0]);
    }
}

/// A sum of weights that are not negative is not negative.
proof fn lemma_total_not_negative<S: Scalar>(
    val: spec_fn(S) -> real,
    weight: spec_fn(int) -> S,
    n: int,
)
    requires
        orderly(val),
        forall|i: int| val(#[trigger] weight(i)) >= 0 as real,
    ensures
        val(total_of(weight, n)) >= 0 as real,
{
    let parts = Seq::new(256, |t: int| strided(weight, 1, t, 256, n, rounds(n, 256)));
    assert forall|i: int| 0 <= i < parts.len() implies val(#[trigger] parts[i]) >= 0 as real by {
        lemma_strided_not_negative(val, weight, i, n, rounds(n, 256));
    }
    reveal_with_fuel(halves_evenly, 9);
    assert(halves_evenly(256));
    lemma_tree_not_negative(val, parts);
}

/// Adding what has the value zero changes no value.
#[verifier::opaque]
pub open spec fn zero_adds_nothing<S: Scalar>(val: spec_fn(S) -> real) -> bool {
    &&& val(zero()) == 0 as real
    &&& forall|a: S, b: S| val(b) == 0 as real ==> #[trigger] val(plus(a, b)) == val(a)
}

/// A token of weight zero is never the first at which a positive target is reached.
pub proof fn law_weightless_token_is_not_first<S: Scalar>(
    val: spec_fn(S) -> real,
    weight: spec_fn(int) -> S,
    target: S,
    j: int,
)
    requires
        zero_adds_nothing(val),
        0 <= j,
        val(weight(j)) == 0 as real,
        val(target) > 0 as real,
    ensures
        !first_to_reach(val, weight, target, j),
{
    reveal(zero_adds_nothing);
    let before = accumulate(zero(), weight, j);
    assert(accumulate(zero(), weight, j + 1) == plus(before, weight(j)));
    if j > 0 && first_to_reach(val, weight, target, j) {
        assert(val(accumulate(zero(), weight, (j - 1) + 1)) < val(target));
    }
}

/// A token of weight zero, as one at negative infinity has, is never sampled: where the
/// target is positive and the weights reach it, the sampled token has a weight. This holds
/// of rounded sums too.
pub proof fn law_reached_token_has_weight<S: Scalar, T: Element<S>>(
    val: spec_fn(S) -> real,
    holds: spec_fn(S::Cond) -> bool,
    inp: Seq<T>,
    before: S::Index,
    temp: S,
    uniform: S,
    n: u32,
)
    requires
        decides(val, holds),
        zero_adds_nothing(val),
        0 < n,
        val(temp) >= val(cold::<S>()),
        val(draw_target::<S, T>(inp, temp, uniform, n)) > 0 as real,
        !none_reaches(
            val,
            draw_weights::<S, T>(inp, temp, n),
            draw_target::<S, T>(inp, temp, uniform, n),
            n as int,
        ),
    ensures
        exists|p: u32|
            p < n && sampled::<S, T>(inp, before, temp, uniform, n) == #[trigger] S::position(p)
                && val(draw_weights::<S, T>(inp, temp, n)(p as int)) != 0 as real,
{
    let weight = draw_weights::<S, T>(inp, temp, n);
    let target = draw_target::<S, T>(inp, temp, uniform, n);
    law_draw_takes_the_first_to_reach(val, holds, weight, target, n, n as int);
    let found = walk(weight, target, n, n as int).found;
    let j = choose|j: int|
        0 <= j < n && #[trigger] first_to_reach(val, weight, target, j) && found
            == S::position(j as u32);
    if val(weight(j)) == 0 as real {
        law_weightless_token_is_not_first(val, weight, target, j);
    }
    reveal(decides);
    let p = j as u32;
    assert(sampled::<S, T>(inp, before, temp, uniform, n) == S::position(p));
}

/// Values add up and multiply.
#[verifier::opaque]
pub open spec fn adds_up<S: Scalar>(val: spec_fn(S) -> real) -> bool {
    &&& val(zero()) == 0 as real
    &&& forall|a: S, b: S| #[trigger] val(plus(a, b)) == val(a) + val(b)
    &&& forall|a: S, b: S| #[trigger] val(times(a, b)) == val(a) * val(b)
}

/// The value of a sum is the sum of the values.
pub proof fn lemma_accumulated<S: Scalar>(val: spec_fn(S) -> real, f: spec_fn(int) -> S, n: int)
    requires
        adds_up(val),
    ensures
        val(accumulate(zero(), f, n)) == total(|i: int| val(f(i)), n),
    decreases n,
{
    reveal(adds_up);
    if n > 0 {
        lemma_accumulated(val, f, n - 1);
    }
}

proof fn lemma_tree_total<S: Scalar>(val: spec_fn(S) -> real, parts: Seq<S>)
    requires
        adds_up(val),
        halves_evenly(parts.len() as int),
    ensures
        val(tree(parts, |upper: S, lower: S| plus(upper, lower))) == total(
            |i: int| val(parts[i]),
            parts.len() as int,
        ),
    decreases parts.len(),
{
    let join = |upper: S, lower: S| plus(upper, lower);
    let f = |i: int| val(parts[i]);
    if parts.len() > 1 {
        let h = parts.len() as int / 2;
        let half = Seq::new(h as nat, |i: int| join(parts[i + h], parts[i]));
        lemma_tree_total(val, half);
        lemma_total_pairs(f, h, h);
        let pairs = |i: int| f(i) + f(h + i);
        let halves = |i: int| val(half[i]);
        assert forall|i: int| 0 <= i < h implies #[trigger] halves(i) == pairs(i) by {
            reveal(adds_up);
            assert(half[i] == plus(parts[i + h], parts[i]));
        }
        lemma_total_same(halves, pairs, h);
    } else {
        reveal_with_fuel(total, 2);
        assert(tree(parts, join) == parts[0]);
    }
}

/// One more position adds its weight to the thread that visits it, and to no other.
proof fn lemma_next_position<S: Scalar>(
    val: spec_fn(S) -> real,
    f: spec_fn(int) -> S,
    t: int,
    n: int,
    count: int,
)
    requires
        adds_up(val),
        0 <= t < 256,
        0 <= n,
        0 <= count,
    ensures
        val(strided(f, 1, t, 256, n + 1, count)) == val(strided(f, 1, t, 256, n, count)) + if t
            == n % 256 && n / 256 < count {
            val(f(n))
        } else {
            0 as real
        },
    decreases count,
{
    reveal(adds_up);
    if count > 0 {
        lemma_next_position(val, f, t, n, count - 1);
        let pos = (count - 1) * 256 + t;
        let w = pack_terms(f, 1, pos);
        let long = strided(f, 1, t, 256, n + 1, count - 1);
        let short = strided(f, 1, t, 256, n, count - 1);
        assert(accumulate(long, w, 0) == long);
        assert(accumulate(long, w, 1) == plus(long, w(0)));
        assert(accumulate(short, w, 0) == short);
        assert(accumulate(short, w, 1) == plus(short, w(0)));
        assert(w(0) == f(pos));
    }
}

/// A sum with one term other than zero is that term.
proof fn lemma_one_term(f: spec_fn(int) -> real, g: spec_fn(int) -> real, n: int, at: int)
    requires
        0 <= at,
        forall|i: int| 0 <= i < n && i != at ==> #[trigger] f(i) == g(i),
    ensures
        total(f, n) == total(g, n) + if at < n {
            f(at) - g(at)
        } else {
            0 as real
        },
    decreases n,
{
    if n > 0 {
        lemma_one_term(f, g, n - 1, at);
    }
}

proof fn lemma_empty_stride<S: Scalar>(
    val: spec_fn(S) -> real,
    f: spec_fn(int) -> S,
    t: int,
    count: int,
)
    requires
        adds_up(val),
        0 <= t,
    ensures
        val(strided(f, 1, t, 256, 0, count)) == 0 as real,
    decreases count,
{
    reveal(adds_up);
    if count > 0 {
        lemma_empty_stride(val, f, t, count - 1);
    }
}

/// All threads together visit every position once.
proof fn lemma_threads_total<S: Scalar>(
    val: spec_fn(S) -> real,
    f: spec_fn(int) -> S,
    n: int,
    count: int,
)
    requires
        adds_up(val),
        0 <= n <= count * 256,
    ensures
        total(|t: int| val(strided(f, 1, t, 256, n, count)), 256) == total(
            |i: int| val(f(i)),
            n,
        ),
    decreases n,
{
    let now = |t: int| val(strided(f, 1, t, 256, n, count));
    if n > 0 {
        lemma_threads_total(val, f, n - 1, count);
        let then = |t: int| val(strided(f, 1, t, 256, n - 1, count));
        let at = (n - 1) % 256;
        assert forall|t: int| 0 <= t < 256 && t != at implies #[trigger] now(t) == then(t) by {
            lemma_next_position(val, f, t, n - 1, count);
        }
        lemma_next_position(val, f, at, n - 1, count);
        lemma_one_term(now, then, 256, at);
    } else {
        let none = |t: int| 0 as real;
        assert forall|t: int| 0 <= t < 256 implies #[trigger] now(t) == none(t) by {
            lemma_empty_stride(val, f, t, count);
        }
        lemma_total_same(now, none, 256);
        lemma_total_of_nothing(256);
    }
}

proof fn lemma_total_of_nothing(n: int)
    ensures
        total(|t: int| 0 as real, n) == 0 as real,
    decreases n,
{
    if n > 0 {
        lemma_total_of_nothing(n - 1);
    }
}

/// The total that a draw is scaled by has the value of the sum from the left.
pub proof fn law_total_is_the_sum<S: Scalar>(
    val: spec_fn(S) -> real,
    weight: spec_fn(int) -> S,
    n: int,
)
    requires
        adds_up(val),
        0 <= n,
    ensures
        val(total_of(weight, n)) == val(accumulate(zero(), weight, n)),
{
    let count = rounds(n, 256);
    let parts = Seq::new(256, |t: int| strided(weight, 1, t, 256, n, count));
    reveal_with_fuel(halves_evenly, 9);
    assert(halves_evenly(256));
    lemma_tree_total(val, parts);
    lemma_rounds(n, 256);
    lemma_threads_total(val, weight, n, count);
    lemma_total_same(
        |t: int| val(parts[t]),
        |t: int| val(strided(weight, 1, t, 256, n, count)),
        256,
    );
    lemma_accumulated(val, weight, n);
}

proof fn lemma_sum_holds_one<S: Scalar>(
    val: spec_fn(S) -> real,
    f: spec_fn(int) -> S,
    n: int,
    i: int,
)
    requires
        adds_up(val),
        forall|j: int| 0 <= j < n ==> val(#[trigger] f(j)) >= 0 as real,
    ensures
        val(accumulate(zero(), f, n)) >= 0 as real,
        0 <= i < n ==> val(accumulate(zero(), f, n)) >= val(f(i)),
    decreases n,
{
    reveal(adds_up);
    if n > 0 {
        lemma_sum_holds_one(val, f, n - 1, i);
        assert(val(f(n - 1)) >= 0 as real);
    }
}

/// A token of weight zero, as one at negative infinity has, is never sampled: where sums
/// are exact, no weight is negative and one is positive, every draw above zero and up to
/// one samples a token of positive weight.
pub proof fn law_sampled_token_has_weight<S: Scalar, T: Element<S>>(
    val: spec_fn(S) -> real,
    holds: spec_fn(S::Cond) -> bool,
    inp: Seq<T>,
    before: S::Index,
    temp: S,
    uniform: S,
    n: u32,
)
    requires
        decides(val, holds),
        adds_up(val),
        val(temp) >= val(cold::<S>()),
        0real < val(uniform) <= 1real,
        forall|i: int|
            0 <= i < n ==> val(#[trigger] draw_weights::<S, T>(inp, temp, n)(i)) >= 0 as real,
        exists|i: int|
            0 <= i < n && val(#[trigger] draw_weights::<S, T>(inp, temp, n)(i)) > 0 as real,
    ensures
        exists|p: u32|
            p < n && sampled::<S, T>(inp, before, temp, uniform, n) == #[trigger] S::position(p)
                && val(draw_weights::<S, T>(inp, temp, n)(p as int)) > 0 as real,
        (forall|a: u32, b: u32|
            #[trigger] S::position(a) == #[trigger] S::position(b) ==> a == b) ==> forall|j: u32|
            j < n && val(draw_weights::<S, T>(inp, temp, n)(j as int)) == 0 as real ==> sampled::<
                S,
                T,
            >(inp, before, temp, uniform, n) != #[trigger] S::position(j),
{
    let weight = draw_weights::<S, T>(inp, temp, n);
    let target = draw_target::<S, T>(inp, temp, uniform, n);
    let i = choose|i: int| 0 <= i < n && val(#[trigger] weight(i)) > 0 as real;
    lemma_sum_holds_one(val, weight, n as int, i);
    law_total_is_the_sum(val, weight, n as int);
    let sum = val(accumulate(zero(), weight, n as int));
    let u = val(uniform);
    assert(zero_adds_nothing(val)) by {
        reveal(adds_up);
        reveal(zero_adds_nothing);
    }
    assert(val(target) == u * sum) by {
        reveal(adds_up);
    }
    lemma_share(u, sum);
    assert(accumulate(zero(), weight, (n - 1) + 1) == accumulate(zero(), weight, n as int));
    law_reached_token_has_weight::<S, T>(val, holds, inp, before, temp, uniform, n);
}

/// A token that a filter took out is never sampled, where the exponential of negative
/// infinity has the value zero.
pub proof fn law_masked_token_is_not_sampled<S: Scalar, T: Element<S>>(
    val: spec_fn(S) -> real,
    holds: spec_fn(S::Cond) -> bool,
    inp: Seq<T>,
    before: S::Index,
    temp: S,
    uniform: S,
    n: u32,
    j: u32,
)
    requires
        decides(val, holds),
        adds_up(val),
        val(temp) >= val(cold::<S>()),
        0real < val(uniform) <= 1real,
        forall|i: int|
            0 <= i < n ==> val(#[trigger] draw_weights::<S, T>(inp, temp, n)(i)) >= 0 as real,
        exists|i: int|
            0 <= i < n && val(#[trigger] draw_weights::<S, T>(inp, temp, n)(i)) > 0 as real,
        forall|a: u32, b: u32|
            #[trigger] S::position(a) == #[trigger] S::position(b) ==> a == b,
        j < n,
        inp[j as int].widened() == S::lowest(),
        val(
            S::applied(
                Fun::Exp,
                minus(
                    times(S::lowest(), over(one(), temp)),
                    largest(warm_logits::<S, T>(inp, over(one(), temp)), n as int),
                ),
            ),
        ) == 0 as real,
    ensures
        sampled::<S, T>(inp, before, temp, uniform, n) != S::position(j),
{
    law_sampled_token_has_weight::<S, T>(val, holds, inp, before, temp, uniform, n);
    assert(val(draw_weights::<S, T>(inp, temp, n)(j as int)) == 0 as real);
}

proof fn lemma_share(u: real, sum: real)
    requires
        0real < u <= 1real,
        sum > 0 as real,
    ensures
        0real < u * sum <= sum,
{
    assert(0real < u * sum <= sum) by (nonlinear_arith)
        requires
            0real < u <= 1real,
            sum > 0 as real,
    ;
}

} // verus!
