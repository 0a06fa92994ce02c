//! Scalars that stand for real numbers, and what the kernels that compare and select do
//! with them.
use vstd::prelude::*;

use crate::lanes::{accumulate, lane_max, lemma_rounds, rounds, visited};
use crate::logits_min_p::{floor_masked, group_max, max_visit, weight_of};
use crate::logits_processors::{penalized, penalized_by, tempered};
use crate::logits_topk::topk_masked;
use crate::scalar::{below, minus, one, over, plus, times, zero, Element, Fun, Op, Rel, Scalar};

verus! {

/// `val` gives each scalar a real number: sums and products are exact, a comparison
/// selects by it, and the exponential is positive and grows.
#[verifier::opaque]
pub open spec fn models_reals<S: Scalar>(val: spec_fn(S) -> real) -> bool {
    &&& forall|a: S, b: S| #[trigger] val(plus(a, b)) == val(a) + val(b)
    &&& forall|a: S, b: S| #[trigger] val(minus(a, b)) == val(a) - val(b)
    &&& forall|a: S, b: S| #[trigger] val(times(a, b)) == val(a) * val(b)
    &&& forall|a: S, b: S|
        val(b) != 0 as real ==> #[trigger] val(over(a, b)) == val(a) / val(b)
    &&& forall|a: S, b: S|
        #[trigger] val(S::combined(Op::Max, a, b)) == if val(a) < val(b) {
            val(b)
        } else {
            val(a)
        }
    &&& forall|a: S, b: S|
        #[trigger] val(S::combined(Op::Min, a, b)) == if val(b) < val(a) {
            val(b)
        } else {
            val(a)
        }
    &&& forall|num: i64, den: u64|
        den > 0 ==> #[trigger] val(S::rational(num, den)) == (num as real) / (den as real)
    &&& forall|n: u32| #[trigger] val(S::natural(n)) == n as real
    &&& forall|a: S, b: S, x: S, y: S|
        #[trigger] S::chosen(S::related(Rel::Less, a, b), x, y) == if val(a) < val(b) {
            x
        } else {
            y
        }
    &&& forall|a: S, b: S, x: S, y: S|
        #[trigger] S::chosen(S::related(Rel::AtLeast, a, b), x, y) == if val(a) >= val(b) {
            x
        } else {
            y
        }
    &&& forall|a: S| #[trigger] val(S::applied(Fun::Exp, a)) > 0 as real
    &&& forall|a: S| val(a) == 0 as real ==> #[trigger] val(S::applied(Fun::Exp, a)) == 1 as real
    &&& forall|a: S, b: S|
        val(a) <= val(b) ==> #[trigger] val(S::applied(Fun::Exp, a)) <= #[trigger] val(
            S::applied(Fun::Exp, b),
        )
}

pub proof fn lemma_val_plus<S: Scalar>(val: spec_fn(S) -> real, a: S, b: S)
    requires
        models_reals(val),
    ensures
        val(plus(a, b)) == val(a) + val(b),
        val(minus(a, b)) == val(a) - val(b),
        val(times(a, b)) == val(a) * val(b),
{
    reveal(models_reals);
}

pub proof fn lemma_val_over<S: Scalar>(val: spec_fn(S) -> real, a: S, b: S)
    requires
        models_reals(val),
        val(b) != 0 as real,
    ensures
        val(over(a, b)) == val(a) / val(b),
{
    reveal(models_reals);
}

pub proof fn lemma_val_max<S: Scalar>(val: spec_fn(S) -> real, a: S, b: S)
    requires
        models_reals(val),
    ensures
        val(S::combined(Op::Max, a, b)) == if val(a) < val(b) {
            val(b)
        } else {
            val(a)
        },
{
    reveal(models_reals);
}

pub proof fn lemma_val_min<S: Scalar>(val: spec_fn(S) -> real, a: S, b: S)
    requires
        models_reals(val),
    ensures
        val(S::combined(Op::Min, a, b)) == if val(b) < val(a) {
            val(b)
        } else {
            val(a)
        },
{
    reveal(models_reals);
}

pub proof fn lemma_val_rational<S: Scalar>(val: spec_fn(S) -> real, num: i64, den: u64)
    requires
        models_reals(val),
        den > 0,
    ensures
        val(S::rational(num, den)) == (num as real) / (den as real),
{
    reveal(models_reals);
}

pub proof fn lemma_val_constants<S: Scalar>(val: spec_fn(S) -> real, n: u32)
    requires
        models_reals(val),
    ensures
        val(zero()) == 0 as real,
        val(one()) == 1 as real,
        val(S::rational(1, 2)) * (2 as real) == 1 as real,
        val(S::natural(n)) == n as real,
{
    reveal(models_reals);
    assert(val(S::rational(1, 2)) == (1i64 as real) / (2u64 as real));
}

/// A comparison selects.
pub proof fn lemma_val_select<S: Scalar>(val: spec_fn(S) -> real, a: S, b: S, x: S, y: S)
    requires
        models_reals(val),
    ensures
        S::chosen(below(a, b), x, y) == if val(a) < val(b) {
            x
        } else {
            y
        },
        S::chosen(S::related(Rel::AtLeast, a, b), x, y) == if val(a) >= val(b) {
            x
        } else {
            y
        },
{
    reveal(models_reals);
}

pub proof fn lemma_val_exp<S: Scalar>(val: spec_fn(S) -> real, a: S, b: S)
    requires
        models_reals(val),
    ensures
        val(S::applied(Fun::Exp, a)) > 0 as real,
        val(a) == 0 as real ==> val(S::applied(Fun::Exp, a)) == 1 as real,
        val(a) <= val(b) ==> val(S::applied(Fun::Exp, a)) <= val(S::applied(Fun::Exp, b)),
{
    reveal(models_reals);
}

/// Sums of terms that are no smaller are no smaller.
pub proof fn lemma_sum_at_least<S: Scalar>(
    val: spec_fn(S) -> real,
    f: spec_fn(int) -> S,
    g: spec_fn(int) -> S,
    n: int,
)
    requires
        models_reals(val),
        forall|i: int| 0 <= i < n ==> #[trigger] val(f(i)) >= val(g(i)),
    ensures
        val(accumulate(zero(), f, n)) >= val(accumulate(zero(), g, n)),
    decreases n,
{
    if n > 0 {
        lemma_sum_at_least(val, f, g, n - 1);
        lemma_val_plus(val, accumulate(zero(), f, n - 1), f(n - 1));
        lemma_val_plus(val, accumulate(zero(), g, n - 1), g(n - 1));
        assert(val(f(n - 1)) >= val(g(n - 1)));
    }
}

/// The top-k filter keeps a logit that reaches the threshold as it is, and takes every
/// other one out.
pub proof fn law_topk_keeps_or_drops<S: Scalar, T: Element<S>>(
    val: spec_fn(S) -> real,
    v: T,
    threshold: S,
)
    requires
        models_reals(val),
    ensures
        topk_masked(v, threshold) == T::narrowed(
            if val(v.widened()) >= val(threshold) {
                v.widened()
            } else {
                S::lowest()
            },
        ),
{
    lemma_val_select(val, v.widened(), threshold, v.widened(), S::lowest());
}

/// A temperature divides, and a temperature of one changes nothing.
pub proof fn law_temperature_divides<S: Scalar>(val: spec_fn(S) -> real, v: S, temperature: S)
    requires
        models_reals(val),
        val(temperature) != 0 as real,
    ensures
        val(tempered::<S, S>(v, temperature)) == val(v) / val(temperature),
        val(temperature) == 1 as real ==> val(tempered::<S, S>(v, temperature)) == val(v),
{
    lemma_val_constants(val, 0);
    lemma_val_over(val, one(), temperature);
    lemma_val_plus(val, v, over(one(), temperature));
    let x = val(v);
    let t = val(temperature);
    assert(x * ((1 as real) / t) == x / t) by (nonlinear_arith)
        requires
            t != 0 as real,
    ;
    assert(t == 1 as real ==> x / t == x) by (nonlinear_arith);
}

/// A penalty above one brings every logit down or leaves it at zero, and a penalty of
/// one changes nothing.
pub proof fn law_penalty_brings_down<S: Scalar>(val: spec_fn(S) -> real, v: S, penalty: S)
    requires
        models_reals(val),
        val(penalty) >= 1 as real,
    ensures
        val(penalized::<S, S>(v, penalty)) <= val(v),
        val(penalty) == 1 as real ==> val(penalized::<S, S>(v, penalty)) == val(v),
{
    lemma_val_constants(val, 0);
    lemma_val_select(val, zero(), v, over(v, penalty), times(v, penalty));
    lemma_val_over(val, v, penalty);
    lemma_val_plus(val, v, penalty);
    let x = val(v);
    let p = val(penalty);
    if x > 0 as real {
        assert(x / p <= x) by (nonlinear_arith)
            requires
                x > 0 as real,
                p >= 1 as real,
        ;
        assert(p == 1 as real ==> x / p == x) by (nonlinear_arith);
    } else {
        assert(x * p <= x) by (nonlinear_arith)
            requires
                x <= 0 as real,
                p >= 1 as real,
        ;
        assert(p == 1 as real ==> x * p == x) by (nonlinear_arith);
    }
}

/// A penalty of one leaves every logit at its value, whichever tokens occurred and however
/// often.
pub proof fn law_penalty_of_one_changes_nothing<S: Scalar>(
    val: spec_fn(S) -> real,
    logits: Seq<S>,
    token_ids: Seq<u32>,
    penalty: S,
    k: int,
)
    requires
        models_reals(val),
        val(penalty) == 1 as real,
        k <= token_ids.len(),
        forall|j: int| 0 <= j < token_ids.len() ==> #[trigger] token_ids[j] < logits.len(),
    ensures
        penalized_by(logits, token_ids, penalty, k).len() == logits.len(),
        forall|i: int|
            0 <= i < logits.len() ==> val(
                #[trigger] penalized_by(logits, token_ids, penalty, k)[i],
            ) == val(logits[i]),
    decreases k,
{
    if k > 0 {
        law_penalty_of_one_changes_nothing(val, logits, token_ids, penalty, k - 1);
        let before = penalized_by(logits, token_ids, penalty, k - 1);
        law_penalty_brings_down(val, before[token_ids[k - 1] as int], penalty);
    }
}

/// What a thread keeps is at least everything that it visited, and one of it where it
/// visited anything above what it started with.
proof fn lemma_visited_max<S: Scalar>(
    val: spec_fn(S) -> real,
    logit: spec_fn(int) -> S,
    t: int,
    width: int,
    n: int,
    count: int,
)
    requires
        models_reals(val),
        0 <= t < width,
        0 <= count,
    ensures
        ({
            let m = visited(S::lowest(), max_visit(logit), t, width, n, count);
            &&& val(m) >= val(S::lowest())
            &&& forall|c: int|
                0 <= c < count && c * width + t < n ==> val(m) >= #[trigger] val(
                    logit(c * width + t),
                )
            &&& val(m) == val(S::lowest()) || exists|i: int|
                0 <= i < n && val(m) == #[trigger] val(logit(i))
        }),
    decreases count,
{
    if count > 0 {
        lemma_visited_max(val, logit, t, width, n, count - 1);
        let before = visited(S::lowest(), max_visit(logit), t, width, n, count - 1);
        let pos = (count - 1) * width + t;
        assert(0 <= pos) by (nonlinear_arith)
            requires
                pos == (count - 1) * width + t,
                count >= 1,
                0 <= t < width,
        ;
        let m = visited(S::lowest(), max_visit(logit), t, width, n, count);
        if pos < n {
            lemma_val_max(val, before, logit(pos));
        }
        assert forall|c: int| 0 <= c < count && c * width + t < n implies val(m)
            >= #[trigger] val(logit(c * width + t)) by {
            if c < count - 1 {
                assert(val(before) >= val(logit(c * width + t)));
            } else {
                assert(c * width + t == pos);
            }
        }
        if val(m) != val(S::lowest()) {
            if pos < n && val(m) == val(logit(pos)) {
            } else {
                assert(val(m) == val(before));
            }
        }
    }
}

/// The largest of the lanes.
proof fn lemma_lane_max<S: Scalar>(val: spec_fn(S) -> real, parts: Seq<S>)
    requires
        models_reals(val),
        parts.len() >= 1,
    ensures
        forall|t: int| 0 <= t < parts.len() ==> val(lane_max(parts)) >= val(#[trigger] parts[t]),
        exists|t: int| 0 <= t < parts.len() && val(lane_max(parts)) == val(#[trigger] parts[t]),
    decreases parts.len(),
{
    if parts.len() > 1 {
        let front = parts.drop_last();
        lemma_lane_max(val, front);
        lemma_val_max(val, lane_max(front), parts.last());
        let t = choose|t: int|
            0 <= t < front.len() && val(lane_max(front)) == val(#[trigger] front[t]);
        assert(front[t] == parts[t]);
        let last = parts.len() - 1;
        assert(parts[last] == parts.last());
        assert forall|t: int| 0 <= t < parts.len() implies val(lane_max(parts)) >= val(
            #[trigger] parts[t],
        ) by {
            if t < last {
                assert(parts[t] == front[t]);
            }
        }
    } else {
        assert(lane_max(parts) == parts[0]);
    }
}

/// The maximum that a group of threads finds is the largest logit of the row.
pub proof fn law_group_max_is_the_largest<S: Scalar>(
    val: spec_fn(S) -> real,
    logit: spec_fn(int) -> S,
    width: int,
    n: int,
)
    requires
        models_reals(val),
        0 < width,
        0 < n,
        forall|i: int| 0 <= i < n ==> val(S::lowest()) <= val(#[trigger] logit(i)),
    ensures
        forall|i: int|
            0 <= i < n ==> val(group_max(logit, width, n)) >= val(#[trigger] logit(i)),
        exists|i: int| 0 <= i < n && val(group_max(logit, width, n)) == val(#[trigger] logit(i)),
{
    let count = rounds(n, width);
    let f = |t: int| visited(S::lowest(), max_visit(logit), t, width, n, count);
    let parts = Seq::new(width as nat, f);
    let top = group_max(logit, width, n);
    lemma_lane_max(val, parts);
    assert forall|i: int| 0 <= i < n implies val(top) >= val(#[trigger] logit(i)) by {
        let c = i / width;
        let t = i % width;
        vstd::arithmetic::div_mod::lemma_fundamental_div_mod(i, width);
        vstd::arithmetic::div_mod::lemma_div_pos_is_pos(i, width);
        assert(c * width + t == i) by (nonlinear_arith)
            requires
                i == width * c + t,
        ;
        lemma_round_holds(i, n, width);
        lemma_visited_max(val, logit, t, width, n, count);
        assert(val(parts[t]) >= val(logit(c * width + t)));
    }
    let t = choose|t: int| 0 <= t < parts.len() && val(top) == val(#[trigger] parts[t]);
    lemma_visited_max(val, logit, t, width, n, count);
    if val(top) == val(S::lowest()) {
        assert(val(logit(0)) <= val(top));
        assert(val(top) == val(logit(0)));
    }
}

/// A position below `n` is visited in one of the rounds.
pub proof fn lemma_round_holds(i: int, n: int, width: int)
    requires
        0 <= i < n,
        0 < width,
    ensures
        0 <= i / width < rounds(n, width),
        0 <= i % width < width,
{
    lemma_rounds(n, width);
    vstd::arithmetic::div_mod::lemma_fundamental_div_mod(i, width);
    vstd::arithmetic::div_mod::lemma_fundamental_div_mod(n, width);
    vstd::arithmetic::div_mod::lemma_div_pos_is_pos(i, width);
    vstd::arithmetic::div_mod::lemma_mod_bound(i, width);
    vstd::arithmetic::div_mod::lemma_mod_bound(n, width);
    let a = i / width;
    let b = n / width;
    let ra = i % width;
    let rb = n % width;
    if rb == 0 {
        assert(a < b) by (nonlinear_arith)
            requires
                i == width * a + ra,
                n == width * b + rb,
                i < n,
                rb == 0,
                0 <= ra,
                0 < width,
        ;
    } else {
        assert(a < b + 1) by (nonlinear_arith)
            requires
                i == width * a + ra,
                n == width * b + rb,
                i < n,
                0 <= ra,
                rb < width,
                0 < width,
        ;
    }
}

/// A filter by a floor of at most one keeps the largest logit.
pub proof fn law_floor_keeps_the_largest<S: Scalar, T: Element<S>>(
    val: spec_fn(S) -> real,
    v: T,
    top: S,
    floor: S,
)
    requires
        models_reals(val),
        val(v.widened()) == val(top),
        val(floor) <= 1 as real,
    ensures
        floor_masked(v, top, floor) == T::narrowed(v.widened()),
{
    let w: S = v.widened();
    lemma_val_plus(val, w, top);
    lemma_val_exp(val, minus(w, top), minus(w, top));
    lemma_val_select(val, weight_of(w, top), floor, w, S::lowest());
}

/// A filter by a floor that keeps a logit keeps every larger one.
pub proof fn law_floor_keeps_upwards<S: Scalar, T: Element<S>>(
    val: spec_fn(S) -> real,
    v: T,
    larger: T,
    top: S,
    floor: S,
)
    requires
        models_reals(val),
        val(v.widened()) <= val(larger.widened()),
        val(weight_of(v.widened(), top)) >= val(floor),
    ensures
        floor_masked(v, top, floor) == T::narrowed(v.widened()),
        floor_masked(larger, top, floor) == T::narrowed(larger.widened()),
{
    let a: S = v.widened();
    let b: S = larger.widened();
    lemma_val_plus(val, a, top);
    lemma_val_plus(val, b, top);
    lemma_val_exp(val, minus(a, top), minus(b, top));
    lemma_val_select(val, weight_of(a, top), floor, a, S::lowest());
    lemma_val_select(val, weight_of(b, top), floor, b, S::lowest());
}

} // verus!
