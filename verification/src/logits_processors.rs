//! Transforms of logits before a token is drawn: temperature and repetition penalty.
use vstd::prelude::*;

use crate::lanes::launch;
use crate::scalar::{
    above, one, over, s_div, s_gt, s_mul, s_one, s_zero, times, zero, Element, Scalar,
};

verus! {

/// A logit at a temperature.
pub open spec fn tempered<S: Scalar, T: Element<S>>(v: T, temperature: S) -> T {
    T::narrowed(times(v.widened(), over(one(), temperature)))
}

/// Divides every logit by the temperature.
pub fn logits_temperature<S: Scalar, T: Element<S>>(inp: &[T], out: &mut Vec<T>, temperature: &S)
    requires
        inp@.len() == old(out)@.len(),
    ensures
        final(out)@ =~= Seq::new(old(out)@.len(), |i: int| tempered(inp@[i], *temperature)),
{
    let inv_t = s_div(&s_one(), temperature);
    launch(
        out,
        |i: usize| -> (r: T)
            requires
                i < inp@.len()
            ensures
                r == tempered(inp@[i as int], *temperature)
            { T::narrow(&s_mul(&inp[i].widen(), &inv_t)) },
        Ghost(|i: int| tempered(inp@[i], *temperature)),
    );
}

/// A logit brought down: divided where it is positive, multiplied where it is not.
pub open spec fn penalized<S: Scalar, T: Element<S>>(v: T, penalty: S) -> T {
    let w: S = v.widened();
    T::narrowed(S::chosen(above(w, zero()), over(w, penalty), times(w, penalty)))
}

/// The logits after the first `k` tokens were penalized, one by one.
pub open spec fn penalized_by<S: Scalar, T: Element<S>>(
    logits: Seq<T>,
    token_ids: Seq<u32>,
    penalty: S,
    k: int,
) -> Seq<T>
    decreases k,
{
    if k <= 0 {
        logits
    } else {
        let before = penalized_by(logits, token_ids, penalty, k - 1);
        let tok = token_ids[k - 1] as int;
        before.update(tok, penalized(before[tok], penalty))
    }
}

/// Penalizes the logits of the tokens that occurred, in place.
pub fn logits_repetition_penalty<S: Scalar, T: Element<S>>(
    logits: &mut Vec<T>,
    token_ids: &[u32],
    penalty: &S,
)
    requires
        forall|k: int| 0 <= k < token_ids@.len() ==> #[trigger] token_ids@[k] < old(logits)@.len(),
    ensures
        final(logits)@ == penalized_by(
            old(logits)@,
            token_ids@,
            *penalty,
            token_ids@.len() as int,
        ),
{
    let mut k: usize = 0;
    while k < token_ids.len()
        invariant
            k <= token_ids@.len(),
            logits@.len() == old(logits)@.len(),
            forall|k: int|
                0 <= k < token_ids@.len() ==> #[trigger] token_ids@[k] < old(logits)@.len(),
            logits@ == penalized_by(old(logits)@, token_ids@, *penalty, k as int),
        decreases token_ids@.len() - k,
    {
        let tok: usize = token_ids[k] as usize;
        let v = logits[tok].widen();
        let scaled = S::select(
            &s_gt(&v, &s_zero()),
            &s_div(&v, penalty),
            &s_mul(&v, penalty),
        );
        logits.set(tok, T::narrow(&scaled));
        k = k + 1;
    }
}

/// No token occurs twice.
pub open spec fn distinct(token_ids: Seq<u32>) -> bool {
    forall|i: int, j: int|
        0 <= i < j < token_ids.len() ==> #[trigger] token_ids[i] != #[trigger] token_ids[j]
}

/// Where no token occurs twice, the order of the tokens does not matter: each logit of
/// a token among them is penalized once, and every other one stays.
pub proof fn law_penalty_touches_each_token_once<S: Scalar, T: Element<S>>(
    logits: Seq<T>,
    token_ids: Seq<u32>,
    penalty: S,
)
    requires
        distinct(token_ids),
        forall|k: int| 0 <= k < token_ids.len() ==> #[trigger] token_ids[k] < logits.len(),
    ensures
        penalized_by(logits, token_ids, penalty, token_ids.len() as int) =~= Seq::new(
            logits.len(),
            |i: int|
                if token_ids.contains(i as u32) && i <= u32::MAX {
                    penalized(logits[i], penalty)
                } else {
                    logits[i]
                },
        ),
{
    lemma_penalized_prefix(logits, token_ids, penalty, token_ids.len() as int);
    let after = penalized_by(logits, token_ids, penalty, token_ids.len() as int);
    assert forall|i: int| 0 <= i < logits.len() implies after[i] == if token_ids.contains(i as u32)
        && i <= u32::MAX {
        penalized(logits[i], penalty)
    } else {
        logits[i]
    } by {
        if token_ids.contains(i as u32) && i <= u32::MAX {
            let k = choose|k: int| 0 <= k < token_ids.len() && token_ids[k] == i as u32;
            assert(among(token_ids, token_ids.len() as int, i));
        } else if among(token_ids, token_ids.len() as int, i) {
            let k = choose|k: int| 0 <= k < token_ids.len() && token_ids[k] == i;
            assert(token_ids.contains(i as u32));
        }
    }
}

/// A penalty that leaves every scalar as it is, by division and by multiplication, changes
/// no logit, whichever tokens occurred.
pub proof fn law_unit_penalty_changes_nothing<S: Scalar, T: Element<S>>(
    logits: Seq<T>,
    token_ids: Seq<u32>,
    penalty: S,
    k: int,
)
    requires
        forall|a: S| #[trigger] over(a, penalty) == a,
        forall|a: S| #[trigger] times(a, penalty) == a,
        forall|c: S::Cond, a: S| #[trigger] S::chosen(c, a, a) == a,
        forall|v: T| T::narrowed(#[trigger] v.widened()) == v,
        k <= token_ids.len(),
        forall|j: int| 0 <= j < token_ids.len() ==> #[trigger] token_ids[j] < logits.len(),
    ensures
        penalized_by(logits, token_ids, penalty, k) =~= logits,
    decreases k,
{
    if k > 0 {
        law_unit_penalty_changes_nothing(logits, token_ids, penalty, k - 1);
        let tok = token_ids[k - 1] as int;
        assert(penalized(logits[tok], penalty) == logits[tok]);
    }
}

/// Position `i` is one of the first `k` tokens.
spec fn among(token_ids: Seq<u32>, k: int, i: int) -> bool {
    exists|j: int| 0 <= j < k && token_ids[j] == i
}

proof fn lemma_penalized_prefix<S: Scalar, T: Element<S>>(
    logits: Seq<T>,
    token_ids: Seq<u32>,
    penalty: S,
    k: int,
)
    requires
        distinct(token_ids),
        0 <= k <= token_ids.len(),
        forall|k: int| 0 <= k < token_ids.len() ==> #[trigger] token_ids[k] < logits.len(),
    ensures
        penalized_by(logits, token_ids, penalty, k).len() == logits.len(),
        forall|i: int|
            0 <= i < logits.len() ==> #[trigger] penalized_by(logits, token_ids, penalty, k)[i]
                == if among(token_ids, k, i) {
                penalized(logits[i], penalty)
            } else {
                logits[i]
            },
    decreases k,
{
    if k > 0 {
        lemma_penalized_prefix(logits, token_ids, penalty, k - 1);
        let tok = token_ids[k - 1] as int;
        let before = penalized_by(logits, token_ids, penalty, k - 1);
        assert(!among(token_ids, k - 1, tok));
        assert forall|i: int| 0 <= i < logits.len() implies #[trigger] penalized_by(
            logits,
            token_ids,
            penalty,
            k,
        )[i] == if among(token_ids, k, i) {
            penalized(logits[i], penalty)
        } else {
            logits[i]
        } by {
            if i == tok {
                assert(token_ids[k - 1] == i);
            } else {
                if among(token_ids, k - 1, i) {
                    let j = choose|j: int| 0 <= j < k - 1 && token_ids[j] == i;
                    assert(0 <= j < k && token_ids[j] == i);
                }
                assert(among(token_ids, k, i) == among(token_ids, k - 1, i));
            }
        }
    }
}

} // verus!
