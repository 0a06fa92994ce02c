//! Row gather: an embedding lookup.
use vstd::prelude::*;

use crate::lanes::launch;
use crate::layout::{lemma_row_major, lemma_split};
use crate::scalar::{Element, Scalar};

verus! {

/// Element `i` of the gathered rows.
pub open spec fn gathered<T>(table: Seq<T>, indices: Seq<u32>, dim: int, i: int) -> T {
    table[indices[i / dim] * dim + i % dim]
}

/// `out[r, d] = table[indices[r], d]`.
pub fn ffai_gather<S: Scalar, T: Element<S>>(
    table: &[T],
    indices: &[u32],
    out: &mut Vec<T>,
    dim: u32,
)
    requires
        dim > 0,
        old(out)@.len() == indices@.len() * dim,
        forall|r: int|
            0 <= r < indices@.len() ==> (#[trigger] indices@[r] + 1) * dim <= table@.len(),
    ensures
        final(out)@.len() == old(out)@.len(),
        forall|i: int|
            0 <= i < final(out)@.len() ==> final(out)@[i] == gathered(
                table@,
                indices@,
                dim as int,
                i,
            ),
{
    let d: usize = dim as usize;
    let size: usize = table.len();
    let ghost n = out@.len();
    launch(
        out,
        |idx: usize| -> (r: T)
            requires
                n > idx,
            ensures
                r == gathered(table@, indices@, dim as int, idx as int)
            {
                proof {
                    lemma_split(idx as int, indices@.len() as int, dim as int);
                }
                let row: usize = indices[idx / d] as usize;
                let col: usize = idx % d;
                proof {
                    lemma_row_major(row as int, row + 1, col as int, dim as int);
                }
                table[row * d + col].copied()
            },
        Ghost(|i: int| gathered(table@, indices@, dim as int, i)),
    );
}

} // verus!
