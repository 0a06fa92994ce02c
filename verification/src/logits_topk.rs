//! The top-k filter: logits below a threshold are taken out of the draw.
use vstd::prelude::*;

use crate::lanes::launch;
use crate::scalar::{Element, Rel, Scalar};

verus! {

/// A logit where it reaches the threshold, else negative infinity.
pub open spec fn topk_masked<S: Scalar, T: Element<S>>(v: T, threshold: S) -> T {
    let w: S = v.widened();
    T::narrowed(S::chosen(S::related(Rel::AtLeast, w, threshold), w, S::lowest()))
}

/// Masks every logit below `threshold`.
pub fn logits_topk_mask<S: Scalar, T: Element<S>>(inp: &[T], out: &mut Vec<T>, threshold: &S)
    requires
        inp@.len() == old(out)@.len(),
    ensures
        final(out)@ =~= Seq::new(old(out)@.len(), |i: int| topk_masked(inp@[i], *threshold)),
{
    launch(
        out,
        |i: usize| -> (r: T)
            requires
                i < inp@.len()
            ensures
                r == topk_masked(inp@[i as int], *threshold)
            {
                let v = inp[i].widen();
                let keep = S::relate(Rel::AtLeast, &v, threshold);
                T::narrow(&S::select(&keep, &v, &S::neg_infinity()))
            },
        Ghost(|i: int| topk_masked(inp@[i], *threshold)),
    );
}

} // verus!
