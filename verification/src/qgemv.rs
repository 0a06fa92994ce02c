//! Matrix-vector products with block-scaled weights.
use vstd::prelude::*;

use crate::lanes::{group_sum, group_summed, launch};
use crate::layout::lemma_split;
use crate::quant::{Codes, Quantized};
use crate::scalar::{s_mul, times, Element, Scalar};

verus! {

/// Weights that a thread takes at a time: a word of nibbles, or one byte.
pub open spec fn pack_of(codes: Codes) -> int {
    match codes {
        Codes::Nibbles(_) => 8,
        Codes::Bytes(_, _) => 1,
    }
}

/// A word of nibbles lies in one block.
pub open spec fn words_in_blocks<S>(q: Quantized<S>) -> bool {
    match q.codes {
        Codes::Nibbles(_) => q.block % 8 == 0,
        Codes::Bytes(_, _) => true,
    }
}

/// What column `c` adds to row `r`.
pub open spec fn q_terms<S: Scalar>(q: Quantized<S>, act: Seq<S>, r: int) -> spec_fn(int) -> S {
    |c: int| times(q.weight(r, c, c / q.block as int), act[c])
}

/// Row `r` of the product with `act`, by a group of `width` threads.
pub open spec fn q_value<S: Scalar, T: Element<S>>(
    q: Quantized<S>,
    act: Seq<S>,
    width: int,
    r: int,
) -> T {
    let per = pack_of(q.codes);
    T::narrowed(group_sum(q_terms(q, act, r), per, width, q.cols as int / per))
}

pub fn qgemv<S: Scalar, T: Element<S>>(
    q: Quantized<S>,
    act: &Vec<S>,
    out: &mut Vec<T>,
    width: usize,
)
    requires
        width > 0,
        q.fits(old(out)@.len() as int),
        words_in_blocks(q),
        q.scales.len() <= usize::MAX,
        act@.len() == q.cols,
    ensures
        final(out)@ =~= Seq::new(
            old(out)@.len(),
            |r: int| q_value::<S, T>(q, act@, width as int, r),
        ),
{
    let per: usize = match q.codes {
        Codes::Nibbles(_) => 8,
        Codes::Bytes(_, _) => 1,
    };
    let n: usize = q.cols / per;
    let ghost rows = out@.len() as int;
    launch(
        out,
        |r: usize| -> (v: T)
            requires
                r < rows
            ensures
                v == q_value::<S, T>(q, act@, width as int, r as int)
            {
                let total = group_summed(
                    |c: usize| -> (v: S)
                        requires
                            c < q.cols
                        ensures
                            v == q_terms(q, act@, r as int)(c as int)
                        {
                            proof {
                                lemma_block(c as int, q.cols as int, q.block as int);
                            }
                            s_mul(&q.load(r, c, c / q.block, Ghost(rows)), &act[c])
                        },
                    per,
                    width,
                    n,
                    Ghost(q_terms(q, act@, r as int)),
                );
                T::narrow(&total)
            },
        Ghost(|r: int| q_value::<S, T>(q, act@, width as int, r)),
    );
}

/// A column lies in one of the blocks of its row.
pub proof fn lemma_block(c: int, cols: int, block: int)
    requires
        0 <= c < cols,
        0 < block,
        cols % block == 0,
    ensures
        0 <= c / block < cols / block,
{
    vstd::arithmetic::div_mod::lemma_fundamental_div_mod(cols, block);
    assert(cols / block * block == cols) by (nonlinear_arith)
        requires
            cols == block * (cols / block),
    ;
    lemma_split(c, cols / block, block);
}

} // verus!
