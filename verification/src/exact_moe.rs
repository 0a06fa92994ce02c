//! What a row of a grouped product is: the activations of that row against the weights of
//! its own expert, taken from their flat places.
use vstd::prelude::*;

use crate::exact_quant::lemma_flat_block;
use crate::lanes::{accumulate, lemma_accumulate_same};
use crate::layout::{lemma_row_major, lemma_row_major_inverse};
use crate::moe::{affine_weight, block_weight, moe_out, moe_shape, product_term};
use crate::quant::{law_int4_round_trip, law_int8_round_trip, packed_row, Quantized};
use crate::scalar::{plus, times, zero, Element, Scalar};

verus! {

/// Row `r` of a grouped product with packed weights meets expert `e = indices[r]`: output
/// `c` sums, over the row's activations, each times the weight `scale * code + bias` of
/// the flat place `(e * n + c) * k + i`, whose code is the one that was packed there. A row
/// whose index is all ones keeps what the output held.
pub proof fn law_row_meets_its_expert<S: Scalar, T: Element<S>>(
    x: Seq<T>,
    codes: Seq<u32>,
    scales: Seq<T>,
    biases: Seq<T>,
    indices: Seq<u32>,
    before: Seq<T>,
    m: u32,
    n: u32,
    k: u32,
    group: int,
    experts: u32,
    bm: usize,
    bn: usize,
    bk: usize,
    base: int,
    per: int,
    r: int,
    c: int,
)
    requires
        base == 16 && per == 8 || base == 256 && per == 4,
        k % per as u32 == 0,
        0 < group,
        k as int % group == 0,
        codes.len() == (experts * n) * k,
        0 <= r < m,
        0 <= c < n,
        indices[r] == 0xFFFF_FFFF || indices[r] < experts,
    ensures
        ({
            let sh = moe_shape(m, n, k, experts, bm, bn, bk);
            let out = moe_out(
                x,
                affine_weight::<S, T>(
                    packed_row(codes, base, per),
                    scales,
                    biases,
                    sh,
                    group,
                    base,
                    per,
                ),
                indices,
                before,
                sh,
                r * n + c,
            );
            let first = (indices[r] * n + c) * k;
            let weight = |i: int|
                plus(
                    times(
                        scales[(first + i) / group].widened(),
                        S::natural((codes[first + i] as int % base) as u32),
                    ),
                    biases[(first + i) / group].widened(),
                );
            out == if indices[r] == 0xFFFF_FFFF {
                before[r * n + c]
            } else {
                T::narrowed(
                    accumulate(
                        zero(),
                        |i: int| times(T::staged(x[r * k + i].widened()), T::staged(weight(i))),
                        k as int,
                    ),
                )
            }
        }),
{
    let sh = moe_shape(m, n, k, experts, bm, bn, bk);
    lemma_row_major_inverse(r, c, n as int);
    if indices[r] != 0xFFFF_FFFF {
        let e = indices[r] as int;
        let row = e * n + c;
        let first = row * k;
        lemma_row_major(e, experts as int, c, n as int);
        let w = packed_row(codes, base, per);
        let weight = |i: int|
            plus(
                times(
                    scales[(first + i) / group].widened(),
                    S::natural((codes[first + i] as int % base) as u32),
                ),
                biases[(first + i) / group].widened(),
            );
        let f = product_term(
            x,
            affine_weight::<S, T>(w, scales, biases, sh, group, base, per),
            sh,
            e,
            r,
            c,
        );
        let g = |i: int| times(T::staged(x[r * k + i].widened()), T::staged(weight(i)));
        lemma_flat_block(experts * n, k as int, 0, per);
        assert forall|i: int| 0 <= i < k implies #[trigger] f(i) == g(i) by {
            lemma_flat_block(row, k as int, i, per);
            lemma_flat_block(row, k as int, i, group);
            lemma_row_major(row, experts * n, i, k as int);
            if base == 16 {
                law_int4_round_trip(codes, first + i);
            } else {
                law_int8_round_trip(codes, first + i);
            }
        }
        lemma_accumulate_same(zero(), f, g, k as int);
    }
}

/// Row `r` of a grouped product with block-scaled weights meets row `e * n + c` of the
/// weights for output `c`, where `e = indices[r]`.
pub proof fn law_row_meets_its_blocks<S: Scalar, T: Element<S>>(
    x: Seq<T>,
    q: Quantized<S>,
    indices: Seq<u32>,
    before: Seq<T>,
    m: u32,
    n: u32,
    k: u32,
    experts: u32,
    bm: usize,
    bn: usize,
    bk: usize,
    r: int,
    c: int,
)
    requires
        0 <= r < m,
        0 <= c < n,
    ensures
        ({
            let sh = moe_shape(m, n, k, experts, bm, bn, bk);
            let row = indices[r] * n + c;
            moe_out(x, block_weight::<S>(q, sh), indices, before, sh, r * n + c)
                == if indices[r] == 0xFFFF_FFFF {
                before[r * n + c]
            } else {
                T::narrowed(
                    accumulate(
                        zero(),
                        |i: int|
                            times(
                                T::staged(x[r * k + i].widened()),
                                T::staged(q.weight(row, i, i / q.block as int)),
                            ),
                        k as int,
                    ),
                )
            }
        }),
{
    let sh = moe_shape(m, n, k, experts, bm, bn, bk);
    lemma_row_major_inverse(r, c, n as int);
    let row = indices[r] * n + c;
    lemma_accumulate_same(
        zero(),
        product_term(x, block_weight::<S>(q, sh), sh, indices[r] as int, r, c),
        |i: int|
            times(
                T::staged(x[r * k + i].widened()),
                T::staged(q.weight(row, i, i / q.block as int)),
            ),
        k as int,
    );
}

} // verus!
