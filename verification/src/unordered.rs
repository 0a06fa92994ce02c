//! What the kernels do where a comparison does not hold, as none does with something that
//! is not a number: which side each choice falls to.
use vstd::prelude::*;

use crate::layout::lemma_row_major_inverse;
use crate::logits_min_p::{group_max, min_p_value, row_logits};
use crate::logits_processors::penalized;
use crate::logits_top_p::{floor_of, row_top, top_p_value};
use crate::logits_topk::topk_masked;
use crate::rope::ramp_of;
use crate::sampling::sampled;
use crate::scalar::{minus, one, over, times, zero, Element, Fun, Rel, Scalar};

verus! {

/// A choice takes its first side where its condition holds, and its second side where it
/// does not.
#[verifier::opaque]
pub open spec fn chooses<S: Scalar>(holds: spec_fn(S::Cond) -> bool) -> bool {
    &&& forall|c: S::Cond, a: S, b: S|
        #[trigger] S::chosen(c, a, b) == if holds(c) {
            a
        } else {
            b
        }
    &&& forall|c: S::Cond, i: S::Index, j: S::Index|
        #[trigger] S::chosen_index(c, i, j) == if holds(c) {
            i
        } else {
            j
        }
}

/// A logit stays where it is known to be at least the threshold, and is taken out
/// otherwise.
pub proof fn law_threshold_must_be_reached<S: Scalar, T: Element<S>>(
    holds: spec_fn(S::Cond) -> bool,
    v: T,
    threshold: S,
)
    requires
        chooses::<S>(holds),
    ensures
        topk_masked::<S, T>(v, threshold) == T::narrowed(
            if holds(S::related(Rel::AtLeast, v.widened(), threshold)) {
                v.widened()
            } else {
                S::lowest()
            },
        ),
{
    reveal(chooses);
}

/// A logit stays where its weight is known to be at least `min_p`, and is taken out
/// otherwise.
pub proof fn law_share_must_be_reached<S: Scalar, T: Element<S>>(
    holds: spec_fn(S::Cond) -> bool,
    inp: Seq<T>,
    n: int,
    min_p: S,
    lsize: int,
    r: int,
    c: int,
)
    requires
        chooses::<S>(holds),
        0 <= r,
        0 <= c < n,
    ensures
        ({
            let v: S = inp[r * n + c].widened();
            let top = group_max(row_logits::<S, T>(inp, n, r), lsize, n);
            let weight = S::applied(Fun::Exp, minus(v, top));
            min_p_value::<S, T>(inp, n, min_p, lsize, r * n + c) == T::narrowed(
                if holds(S::related(Rel::AtLeast, weight, min_p)) {
                    v
                } else {
                    S::lowest()
                },
            )
        }),
{
    reveal(chooses);
    lemma_row_major_inverse(r, c, n);
}

/// A logit stays where its weight is known to be at least the floor of its row, and is
/// taken out otherwise.
pub proof fn law_floor_must_be_reached<S: Scalar, T: Element<S>>(
    holds: spec_fn(S::Cond) -> bool,
    inp: Seq<T>,
    n: int,
    top_p: S,
    lsize: int,
    r: int,
    c: int,
)
    requires
        chooses::<S>(holds),
        0 <= r,
        0 <= c < n,
    ensures
        ({
            let v: S = inp[r * n + c].widened();
            let row = row_logits::<S, T>(inp, n, r);
            let weight = S::applied(Fun::Exp, minus(v, row_top(row, lsize, n)));
            top_p_value::<S, T>(inp, n, top_p, lsize, r * n + c) == T::narrowed(
                if holds(S::related(Rel::AtLeast, weight, floor_of(row, top_p, lsize, n))) {
                    v
                } else {
                    S::lowest()
                },
            )
        }),
{
    reveal(chooses);
    lemma_row_major_inverse(r, c, n);
}

/// A penalty divides a logit that is known to be above zero, and multiplies every other.
pub proof fn law_only_positive_logits_are_divided<S: Scalar, T: Element<S>>(
    holds: spec_fn(S::Cond) -> bool,
    v: T,
    penalty: S,
)
    requires
        chooses::<S>(holds),
    ensures
        penalized::<S, T>(v, penalty) == T::narrowed(
            if holds(S::related(Rel::Less, zero(), v.widened())) {
                over(v.widened(), penalty)
            } else {
                times(v.widened(), penalty)
            },
        ),
{
    reveal(chooses);
}

/// A temperature that is neither below the limit nor at least the limit leaves the index
/// as it was.
pub proof fn law_unordered_temperature_draws_nothing<S: Scalar, T: Element<S>>(
    holds: spec_fn(S::Cond) -> bool,
    inp: Seq<T>,
    before: S::Index,
    temp: S,
    uniform: S,
    n: u32,
)
    requires
        chooses::<S>(holds),
        !holds(S::related(Rel::Less, temp, S::rational(1, 10000000))),
        !holds(S::related(Rel::AtLeast, temp, S::rational(1, 10000000))),
    ensures
        sampled::<S, T>(inp, before, temp, uniform, n) == before,
{
    reveal(chooses);
}

/// The ramp is zero where its share is known to be below zero, one where it is known to be
/// above one, and the share itself otherwise.
pub proof fn law_ramp_passes_what_it_cannot_place<S: Scalar>(
    holds: spec_fn(S::Cond) -> bool,
    i: u32,
    low: S,
    high: S,
)
    requires
        chooses::<S>(holds),
    ensures
        ({
            let share = over(minus(S::natural(i), low), minus(high, low));
            ramp_of(i, low, high) == if holds(S::related(Rel::Less, share, zero())) {
                zero()
            } else if holds(S::related(Rel::Less, one(), share)) {
                one()
            } else {
                share
            }
        }),
{
    reveal(chooses);
}

} // verus!
