//! Grouped matrix products: each row of activations meets the weights of its own
//! expert.
//!
//! A tile of rows is walked in runs of rows that share an expert. Each run stages
//! its rows and the expert's dequantized weights in tiles, multiplies the tiles,
//! and writes its own rows of the product.
use vstd::prelude::*;

use crate::lanes::{
    accumulate, accumulated, collect, lemma_accumulate_append, lemma_accumulate_same,
};
use crate::layout::{
    flat, lemma_len_fits, lemma_mul_at_least, lemma_row_major, lemma_row_major_inverse, lemma_split,
};
use crate::qgemv::lemma_block;
use crate::quant::{code_of, digit, Quantized};
use crate::scalar::{plus, s_add, s_mul, s_zero, times, zero, Element, Scalar};

verus! {

/// The expert of a row that no expert serves.
pub const NO_EXPERT: u32 = 0xFFFF_FFFF;

/// Extents of a launch: `m` rows of `k` activations against `n` outputs, in tiles
/// of `bm` rows, `bn` outputs and `bk` activations.
#[derive(Clone, Copy)]
pub struct MoeShape {
    pub m: usize,
    pub n: usize,
    pub k: usize,
    pub bm: usize,
    pub bn: usize,
    pub bk: usize,
    pub experts: usize,
}

impl MoeShape {
    pub open spec fn valid(self) -> bool {
        &&& self.bm > 0
        &&& self.bn > 0
        &&& self.bk > 0
        &&& self.bm * self.bn <= 0x10000
        &&& self.bm * self.bk <= 0x10000
        &&& self.bn * self.bk <= 0x10000
        &&& self.k % self.bk == 0
        &&& self.n % self.bn == 0
    }
}

/// What a tile adds to output `c` of row `r` at activation `k`.
pub open spec fn product_term<S: Scalar, T: Element<S>>(
    x: Seq<T>,
    weight: spec_fn(int, int, int) -> S,
    sh: MoeShape,
    expert: int,
    r: int,
    c: int,
) -> spec_fn(int) -> S {
    |k: int| times(T::staged(x[r * sh.k + k].widened()), T::staged(weight(expert, c, k)))
}

/// Output `c` of row `r`.
pub open spec fn moe_value<S: Scalar, T: Element<S>>(
    x: Seq<T>,
    weight: spec_fn(int, int, int) -> S,
    sh: MoeShape,
    expert: int,
    r: int,
    c: int,
) -> T {
    T::narrowed(accumulate(zero(), product_term(x, weight, sh, expert, r, c), sh.k as int))
}

/// Element `i` of the outputs: a row that no expert serves keeps what it held.
pub open spec fn moe_out<S: Scalar, T: Element<S>>(
    x: Seq<T>,
    weight: spec_fn(int, int, int) -> S,
    indices: Seq<u32>,
    before: Seq<T>,
    sh: MoeShape,
    i: int,
) -> T {
    let r = i / sh.n as int;
    if indices[r] == NO_EXPERT {
        before[i]
    } else {
        moe_value(x, weight, sh, indices[r] as int, r, i % sh.n as int)
    }
}

/// The product does not depend on the sizes of the tiles: launches that agree in rows,
/// outputs and activations write the same.
pub proof fn law_tile_sizes_do_not_matter<S: Scalar, T: Element<S>>(
    x: Seq<T>,
    weight: spec_fn(int, int, int) -> S,
    indices: Seq<u32>,
    before: Seq<T>,
    a: MoeShape,
    b: MoeShape,
    i: int,
)
    requires
        a.n == b.n,
        a.k == b.k,
    ensures
        moe_out(x, weight, indices, before, a, i) == moe_out(x, weight, indices, before, b, i),
{
}

/// What a staged row holds: rows outside the run are zero.
pub open spec fn staged_x<S: Scalar, T: Element<S>>(
    x: Seq<T>,
    sh: MoeShape,
    base: int,
    from: int,
    to: int,
    mr: int,
    k: int,
) -> S {
    if from <= mr < to {
        T::staged(x[(base + mr) * sh.k + k].widened())
    } else {
        T::staged(zero())
    }
}

/// What the tile product adds for staged row `mr` and output `c` at activation `k`.
pub open spec fn tile_term<S: Scalar, T: Element<S>>(
    x: Seq<T>,
    weight: spec_fn(int, int, int) -> S,
    sh: MoeShape,
    expert: int,
    base: int,
    from: int,
    to: int,
    mr: int,
    c: int,
) -> spec_fn(int) -> S {
    |k: int| times(staged_x::<S, T>(x, sh, base, from, to, mr, k), T::staged(weight(expert, c, k)))
}

/// The product of the staged rows `[from, to)` of the tile at `base` with outputs
/// `n_base..n_base + bn` of `expert`.
fn tile_product<S: Scalar, T: Element<S>, F: Fn(usize, usize, usize) -> S>(
    x: &[T],
    dequant: &F,
    sh: MoeShape,
    expert: usize,
    base: usize,
    from: usize,
    to: usize,
    n_base: usize,
    weight: Ghost<spec_fn(int, int, int) -> S>,
) -> (c: Vec<S>)
    requires
        sh.valid(),
        x@.len() == sh.m * sh.k,
        base + to <= sh.m,
        from <= to <= sh.bm,
        n_base + sh.bn <= sh.n,
        expert < sh.experts,
        forall|e: usize, n: usize, k: usize|
            e < sh.experts && n < sh.n && k < sh.k ==> call_requires(*dequant, (e, n, k)),
        forall|e: usize, n: usize, k: usize, r: S|
            e < sh.experts && n < sh.n && k < sh.k && call_ensures(*dequant, (e, n, k), r) ==> r
                == (weight@)(e as int, n as int, k as int),
    ensures
        c@.len() == sh.bm * sh.bn,
        forall|i: int|
            0 <= i < c@.len() ==> #[trigger] c@[i] == accumulate(
                zero(),
                tile_term::<S, T>(
                    x@,
                    weight@,
                    sh,
                    expert as int,
                    base as int,
                    from as int,
                    to as int,
                    i / sh.bn as int,
                    n_base + i % sh.bn as int,
                ),
                sh.k as int,
            ),
{
    let ghost terms = |i: int|
        tile_term::<S, T>(
            x@,
            weight@,
            sh,
            expert as int,
            base as int,
            from as int,
            to as int,
            i / sh.bn as int,
            n_base + i % sh.bn as int,
        );
    let cells: usize = sh.bm * sh.bn;
    let mut c = collect(
        cells,
        |i: usize| -> (v: S)
            ensures
                v == zero::<S>()
            { s_zero() },
        Ghost(|i: int, v: S| v == zero::<S>()),
    );
    let mut kb: usize = 0;
    while kb < sh.k
        invariant
            sh.valid(),
            x@.len() == sh.m * sh.k,
            base + to <= sh.m,
            from <= to <= sh.bm,
            n_base + sh.bn <= sh.n,
            expert < sh.experts,
            forall|e: usize, n: usize, k: usize|
                e < sh.experts && n < sh.n && k < sh.k ==> call_requires(*dequant, (e, n, k)),
            forall|e: usize, n: usize, k: usize, r: S|
                e < sh.experts && n < sh.n && k < sh.k && call_ensures(*dequant, (e, n, k), r)
                    ==> r == (weight@)(e as int, n as int, k as int),
            cells == sh.bm * sh.bn,
            terms == (|i: int|
                tile_term::<S, T>(
                    x@,
                    weight@,
                    sh,
                    expert as int,
                    base as int,
                    from as int,
                    to as int,
                    i / sh.bn as int,
                    n_base + i % sh.bn as int,
                )),
            kb <= sh.k,
            kb % sh.bk == 0,
            c@.len() == cells,
            forall|i: int|
                0 <= i < c@.len() ==> #[trigger] c@[i] == accumulate(zero(), terms(i), kb as int),
        decreases sh.k - kb,
    {
        proof {
            lemma_len_fits(x);
            lemma_step_fits(kb as int, sh.k as int, sh.bk as int);
        }
        let xs = collect(
            sh.bm * sh.bk,
            |f: usize| -> (v: S)
                requires
                    f < sh.bm * sh.bk
                ensures
                    v == staged_x::<S, T>(
                        x@,
                        sh,
                        base as int,
                        from as int,
                        to as int,
                        f as int / sh.bk as int,
                        kb + f as int % sh.bk as int,
                    )
                {
                    proof {
                        lemma_split(f as int, sh.bm as int, sh.bk as int);
                    }
                    let mr: usize = f / sh.bk;
                    if from <= mr && mr < to {
                        let at: usize = flat(base + mr, kb + f % sh.bk, sh.k, Ghost(sh.m as int));
                        T::stage(&x[at].widen())
                    } else {
                        T::stage(&s_zero())
                    }
                },
            Ghost(
                |f: int, v: S|
                    v == staged_x::<S, T>(
                        x@,
                        sh,
                        base as int,
                        from as int,
                        to as int,
                        f / sh.bk as int,
                        kb + f % sh.bk as int,
                    ),
            ),
        );
        let ws = collect(
            sh.bn * sh.bk,
            |f: usize| -> (v: S)
                requires
                    f < sh.bn * sh.bk
                ensures
                    v == T::staged(
                        (weight@)(
                            expert as int,
                            n_base + f as int / sh.bk as int,
                            kb + f as int % sh.bk as int,
                        ),
                    )
                {
                    proof {
                        lemma_split(f as int, sh.bn as int, sh.bk as int);
                    }
                    T::stage(&dequant(expert, n_base + f / sh.bk, kb + f % sh.bk))
                },
            Ghost(
                |f: int, v: S|
                    v == T::staged(
                        (weight@)(
                            expert as int,
                            n_base + f / sh.bk as int,
                            kb + f % sh.bk as int,
                        ),
                    ),
            ),
        );
        let next = collect(
            cells,
            |i: usize| -> (v: S)
                requires
                    i < cells
                ensures
                    v == accumulate(zero(), terms(i as int), kb + sh.bk)
                {
                    let ghost tail = |kc: int| terms(i as int)(kb + kc);
                    proof {
                        lemma_split(i as int, sh.bm as int, sh.bn as int);
                        lemma_accumulate_append(
                            zero::<S>(),
                            terms(i as int),
                            tail,
                            kb as int,
                            sh.bk as int,
                        );
                    }
                    let mr: usize = i / sh.bn;
                    let nc: usize = i % sh.bn;
                    accumulated(
                        c[i].dup(),
                        |kc: usize| -> (v: S)
                            requires
                                kc < sh.bk
                            ensures
                                v == tail(kc as int)
                            {
                                let a: usize = flat(mr, kc, sh.bk, Ghost(sh.bm as int));
                                let b: usize = flat(nc, kc, sh.bk, Ghost(sh.bn as int));
                                proof {
                                    lemma_row_major_inverse(mr as int, kc as int, sh.bk as int);
                                    lemma_row_major_inverse(nc as int, kc as int, sh.bk as int);
                                }
                                s_mul(&xs[a], &ws[b])
                            },
                        sh.bk,
                        Ghost(tail),
                    )
                },
            Ghost(|i: int, v: S| v == accumulate(zero(), terms(i), kb + sh.bk)),
        );
        c = next;
        kb = kb + sh.bk;
    }
    c
}

/// A step that starts inside `k` ends inside it.
proof fn lemma_step_fits(kb: int, k: int, bk: int)
    requires
        0 < bk,
        0 <= kb < k,
        kb % bk == 0,
        k % bk == 0,
    ensures
        kb + bk <= k,
        (kb + bk) % bk == 0,
{
    vstd::arithmetic::div_mod::lemma_fundamental_div_mod(kb, bk);
    vstd::arithmetic::div_mod::lemma_fundamental_div_mod(k, bk);
    let a = kb / bk;
    let b = k / bk;
    assert(kb + bk <= k) by (nonlinear_arith)
        requires
            kb == bk * a,
            k == bk * b,
            kb < k,
            0 < bk,
    ;
    vstd::arithmetic::div_mod::lemma_mod_add_multiples_vanish(kb, bk);
}

/// Position `i` lies in rows `[r0, r)` and columns `[c0, c1)`, or in row `r` and
/// columns `[c0, c)`.
pub open spec fn placed(i: int, cols: int, r0: int, r: int, c0: int, c: int, c1: int) -> bool {
    let row = i / cols;
    let col = i % cols;
    (r0 <= row < r && c0 <= col < c1) || (row == r && c0 <= col < c)
}

/// Writes rows `[r0, r1)` and columns `[c0, c1)` of a buffer.
fn store_block<T, F: Fn(usize, usize) -> T>(
    out: &mut Vec<T>,
    f: F,
    rows: usize,
    cols: usize,
    r0: usize,
    r1: usize,
    c0: usize,
    c1: usize,
    value: Ghost<spec_fn(int) -> T>,
)
    requires
        old(out)@.len() == rows * cols,
        r0 <= r1 <= rows,
        c0 <= c1 <= cols,
        forall|r: usize, c: usize|
            r0 <= r < r1 && c0 <= c < c1 ==> call_requires(f, (r, c)),
        forall|r: usize, c: usize, v: T|
            r0 <= r < r1 && c0 <= c < c1 && call_ensures(f, (r, c), v) ==> v == (value@)(
                r * cols + c,
            ),
    ensures
        final(out)@.len() == old(out)@.len(),
        forall|i: int|
            0 <= i < old(out)@.len() ==> #[trigger] final(out)@[i] == if placed(
                i,
                cols as int,
                r0 as int,
                r1 as int,
                c0 as int,
                c0 as int,
                c1 as int,
            ) {
                (value@)(i)
            } else {
                old(out)@[i]
            },
{
    let size: usize = out.len();
    let mut r: usize = r0;
    while r < r1
        invariant
            size == out@.len(),
            size == old(out)@.len(),
            size == rows * cols,
            r0 <= r <= r1 <= rows,
            c0 <= c1 <= cols,
            forall|r: usize, c: usize|
                r0 <= r < r1 && c0 <= c < c1 ==> call_requires(f, (r, c)),
            forall|r: usize, c: usize, v: T|
                r0 <= r < r1 && c0 <= c < c1 && call_ensures(f, (r, c), v) ==> v == (value@)(
                    r * cols + c,
                ),
            forall|i: int|
                0 <= i < size ==> #[trigger] out@[i] == if placed(
                    i,
                    cols as int,
                    r0 as int,
                    r as int,
                    c0 as int,
                    c0 as int,
                    c1 as int,
                ) {
                    (value@)(i)
                } else {
                    old(out)@[i]
                },
        decreases r1 - r,
    {
        let mut c: usize = c0;
        while c < c1
            invariant
                size == out@.len(),
                size == old(out)@.len(),
                size == rows * cols,
                r0 <= r < r1 <= rows,
                c0 <= c <= c1 <= cols,
                forall|r: usize, c: usize|
                    r0 <= r < r1 && c0 <= c < c1 ==> call_requires(f, (r, c)),
                forall|r: usize, c: usize, v: T|
                    r0 <= r < r1 && c0 <= c < c1 && call_ensures(f, (r, c), v) ==> v == (value@)(
                        r * cols + c,
                    ),
                forall|i: int|
                    0 <= i < size ==> #[trigger] out@[i] == if placed(
                        i,
                        cols as int,
                        r0 as int,
                        r as int,
                        c0 as int,
                        c as int,
                        c1 as int,
                    ) {
                        (value@)(i)
                    } else {
                        old(out)@[i]
                    },
            decreases c1 - c,
        {
            let v = f(r, c);
            let at: usize = flat(r, c, cols, Ghost(rows as int));
            proof {
                lemma_row_major_inverse(r as int, c as int, cols as int);
            }
            let ghost prior = out@;
            out.set(at, v);
            assert forall|i: int| 0 <= i < size implies #[trigger] out@[i] == if placed(
                i,
                cols as int,
                r0 as int,
                r as int,
                c0 as int,
                c + 1,
                c1 as int,
            ) {
                (value@)(i)
            } else {
                old(out)@[i]
            } by {
                lemma_split(i, rows as int, cols as int);
                assert(prior[i] == if placed(
                    i,
                    cols as int,
                    r0 as int,
                    r as int,
                    c0 as int,
                    c as int,
                    c1 as int,
                ) {
                    (value@)(i)
                } else {
                    old(out)@[i]
                });
            }
            c = c + 1;
        }
        r = r + 1;
    }
}

/// The first row of the tile after `from` that is not in `from`'s run.
fn run_end(indices: &[u32], base: usize, from: usize, limit: usize) -> (end: usize)
    requires
        from < limit,
        base + limit <= indices@.len(),
    ensures
        from < end <= limit,
        forall|j: int|
            base + from <= j < base + end ==> #[trigger] indices@[j] == indices@[base + from],
        end < limit ==> indices@[base + end] != indices@[base + from],
{
    proof {
        lemma_len_fits(indices);
    }
    let expert: u32 = indices[base + from];
    let mut probe: usize = from + 1;
    while probe < limit && indices[base + probe] == expert
        invariant
            from < probe <= limit,
            base + limit <= indices@.len(),
            indices@.len() <= usize::MAX,
            expert == indices@[base + from],
            forall|j: int| base + from <= j < base + probe ==> #[trigger] indices@[j] == expert,
        decreases limit - probe,
    {
        probe = probe + 1;
    }
    probe
}

/// Position `i` is written once the tile rows below `m_base`, the tile columns
/// below `n_base` and the first `sub` rows of the current tile are.
pub open spec fn settled(i: int, sh: MoeShape, m_base: int, n_base: int, sub: int) -> bool {
    let row = i / sh.n as int;
    let col = i % sh.n as int;
    ||| row < m_base
    ||| row < m_base + sh.bm && col < n_base
    ||| row < m_base + sub && n_base <= col < n_base + sh.bn
}

/// Where the walk stands.
pub open spec fn progressed<S: Scalar, T: Element<S>>(
    out: Seq<T>,
    before: Seq<T>,
    x: Seq<T>,
    weight: spec_fn(int, int, int) -> S,
    indices: Seq<u32>,
    sh: MoeShape,
    m_base: int,
    n_base: int,
    sub: int,
) -> bool {
    &&& out.len() == before.len()
    &&& forall|i: int|
        0 <= i < out.len() ==> #[trigger] out[i] == if settled(i, sh, m_base, n_base, sub) {
            moe_out(x, weight, indices, before, sh, i)
        } else {
            before[i]
        }
}

/// One tile: walks its rows in runs of one expert.
fn moe_tile<S: Scalar, T: Element<S>, F: Fn(usize, usize, usize) -> S>(
    x: &[T],
    dequant: &F,
    indices: &[u32],
    out: &mut Vec<T>,
    sh: MoeShape,
    m_base: usize,
    n_base: usize,
    weight: Ghost<spec_fn(int, int, int) -> S>,
    before: Ghost<Seq<T>>,
)
    requires
        sh.valid(),
        x@.len() == sh.m * sh.k,
        indices@.len() == sh.m,
        before@.len() == sh.m * sh.n,
        forall|r: int|
            0 <= r < indices@.len() ==> #[trigger] indices@[r] == NO_EXPERT || indices@[r]
                < sh.experts,
        m_base < sh.m,
        n_base + sh.bn <= sh.n,
        progressed(
            old(out)@,
            before@,
            x@,
            weight@,
            indices@,
            sh,
            m_base as int,
            n_base as int,
            0,
        ),
        forall|e: usize, n: usize, k: usize|
            e < sh.experts && n < sh.n && k < sh.k ==> call_requires(*dequant, (e, n, k)),
        forall|e: usize, n: usize, k: usize, r: S|
            e < sh.experts && n < sh.n && k < sh.k && call_ensures(*dequant, (e, n, k), r) ==> r
                == (weight@)(e as int, n as int, k as int),
    ensures
        progressed(
            final(out)@,
            before@,
            x@,
            weight@,
            indices@,
            sh,
            m_base as int,
            n_base + sh.bn,
            0,
        ),
{
    let limit: usize = if sh.m - m_base < sh.bm {
        sh.m - m_base
    } else {
        sh.bm
    };
    let mut sub: usize = 0;
    while sub < limit
        invariant
            sh.valid(),
            x@.len() == sh.m * sh.k,
            indices@.len() == sh.m,
            before@.len() == sh.m * sh.n,
            forall|r: int|
                0 <= r < indices@.len() ==> #[trigger] indices@[r] == NO_EXPERT || indices@[r]
                    < sh.experts,
            m_base < sh.m,
            n_base + sh.bn <= sh.n,
            limit <= sh.bm,
            limit <= sh.m - m_base,
            sub <= limit,
            progressed(
                out@,
                before@,
                x@,
                weight@,
                indices@,
                sh,
                m_base as int,
                n_base as int,
                sub as int,
            ),
            forall|e: usize, n: usize, k: usize|
                e < sh.experts && n < sh.n && k < sh.k ==> call_requires(*dequant, (e, n, k)),
            forall|e: usize, n: usize, k: usize, r: S|
                e < sh.experts && n < sh.n && k < sh.k && call_ensures(*dequant, (e, n, k), r)
                    ==> r == (weight@)(e as int, n as int, k as int),
        decreases limit - sub,
    {
        let end: usize = run_end(indices, m_base, sub, limit);
        let expert: u32 = indices[m_base + sub];
        let ghost prior = out@;
        let ghost goal = |i: int| moe_out(x@, weight@, indices@, before@, sh, i);
        if expert != NO_EXPERT {
            let c = tile_product::<S, T, F>(
                x,
                dequant,
                sh,
                expert as usize,
                m_base,
                sub,
                end,
                n_base,
                weight,
            );
            store_block(
                out,
                |r: usize, col: usize| -> (v: T)
                    requires
                        m_base + sub <= r < m_base + end,
                        n_base <= col < n_base + sh.bn
                    ensures
                        v == goal(r * sh.n + col)
                    {
                        let at: usize = flat(
                            r - m_base,
                            col - n_base,
                            sh.bn,
                            Ghost(sh.bm as int),
                        );
                        proof {
                            lemma_row_major_inverse(r as int, col as int, sh.n as int);
                            lemma_row_major_inverse(
                                r - m_base,
                                col - n_base,
                                sh.bn as int,
                            );
                            assert(indices@[r as int] == expert);
                            lemma_accumulate_same(
                                zero::<S>(),
                                tile_term::<S, T>(
                                    x@,
                                    weight@,
                                    sh,
                                    expert as int,
                                    m_base as int,
                                    sub as int,
                                    end as int,
                                    r - m_base,
                                    col as int,
                                ),
                                product_term::<S, T>(
                                    x@,
                                    weight@,
                                    sh,
                                    expert as int,
                                    r as int,
                                    col as int,
                                ),
                                sh.k as int,
                            );
                        }
                        T::narrow(&c[at])
                    },
                sh.m,
                sh.n,
                m_base + sub,
                m_base + end,
                n_base,
                n_base + sh.bn,
                Ghost(goal),
            );
            assert forall|i: int| 0 <= i < out@.len() implies #[trigger] out@[i] == if settled(
                i,
                sh,
                m_base as int,
                n_base as int,
                end as int,
            ) {
                moe_out(x@, weight@, indices@, before@, sh, i)
            } else {
                before@[i]
            } by {
                lemma_split(i, sh.m as int, sh.n as int);
                assert(prior[i] == if settled(i, sh, m_base as int, n_base as int, sub as int) {
                    moe_out(x@, weight@, indices@, before@, sh, i)
                } else {
                    before@[i]
                });
            }
        } else {
            assert forall|i: int| 0 <= i < out@.len() implies #[trigger] out@[i] == if settled(
                i,
                sh,
                m_base as int,
                n_base as int,
                end as int,
            ) {
                moe_out(x@, weight@, indices@, before@, sh, i)
            } else {
                before@[i]
            } by {
                lemma_split(i, sh.m as int, sh.n as int);
                let row = i / sh.n as int;
                if m_base + sub <= row < m_base + end {
                    assert(indices@[row] == NO_EXPERT);
                }
            }
        }
        sub = end;
    }
    assert forall|i: int| 0 <= i < out@.len() implies #[trigger] out@[i] == if settled(
        i,
        sh,
        m_base as int,
        n_base + sh.bn,
        0,
    ) {
        moe_out(x@, weight@, indices@, before@, sh, i)
    } else {
        before@[i]
    } by {
        lemma_split(i, sh.m as int, sh.n as int);
    }
}

/// Every tile of a launch.
pub fn moe_gather<S: Scalar, T: Element<S>, F: Fn(usize, usize, usize) -> S>(
    x: &[T],
    dequant: F,
    indices: &[u32],
    out: &mut Vec<T>,
    sh: MoeShape,
    weight: Ghost<spec_fn(int, int, int) -> S>,
)
    requires
        sh.valid(),
        x@.len() == sh.m * sh.k,
        indices@.len() == sh.m,
        old(out)@.len() == sh.m * sh.n,
        forall|r: int|
            0 <= r < indices@.len() ==> #[trigger] indices@[r] == NO_EXPERT || indices@[r]
                < sh.experts,
        forall|e: usize, n: usize, k: usize|
            e < sh.experts && n < sh.n && k < sh.k ==> call_requires(dequant, (e, n, k)),
        forall|e: usize, n: usize, k: usize, r: S|
            e < sh.experts && n < sh.n && k < sh.k && call_ensures(dequant, (e, n, k), r) ==> r
                == (weight@)(e as int, n as int, k as int),
    ensures
        final(out)@ =~= Seq::new(
            old(out)@.len(),
            |i: int| moe_out(x@, weight@, indices@, old(out)@, sh, i),
        ),
{
    let ghost before = out@;
    proof {
        vstd::arithmetic::div_mod::lemma_fundamental_div_mod(sh.m as int, sh.bm as int);
        lemma_mul_at_least(sh.m as int / sh.bm as int, sh.bm as int);
        assert(sh.bm * (sh.m as int / sh.bm as int) == (sh.m as int / sh.bm as int) * sh.bm)
            by (nonlinear_arith);
    }
    let tiles: usize = sh.m / sh.bm + if sh.m % sh.bm == 0 {
        0
    } else {
        1
    };
    let mut tile: usize = 0;
    assert forall|i: int| 0 <= i < out@.len() implies #[trigger] out@[i] == if settled(
        i,
        sh,
        0,
        0,
        0,
    ) {
        moe_out(x@, weight@, indices@, before, sh, i)
    } else {
        before[i]
    } by {
        lemma_split_or_empty(i, sh.m as int, sh.n as int);
    }
    proof {
        lemma_tiles(sh.m as int, sh.bm as int, tiles as int);
    }
    while tile < tiles
        invariant
            sh.valid(),
            x@.len() == sh.m * sh.k,
            indices@.len() == sh.m,
            before.len() == sh.m * sh.n,
            before == old(out)@,
            forall|r: int|
                0 <= r < indices@.len() ==> #[trigger] indices@[r] == NO_EXPERT || indices@[r]
                    < sh.experts,
            forall|e: usize, n: usize, k: usize|
                e < sh.experts && n < sh.n && k < sh.k ==> call_requires(dequant, (e, n, k)),
            forall|e: usize, n: usize, k: usize, r: S|
                e < sh.experts && n < sh.n && k < sh.k && call_ensures(dequant, (e, n, k), r)
                    ==> r == (weight@)(e as int, n as int, k as int),
            tile <= tiles,
            forall|t: int| 0 <= t < tiles ==> 0 <= #[trigger] (t * sh.bm) < sh.m,
            progressed(out@, before, x@, weight@, indices@, sh, tile * sh.bm, 0, 0),
        decreases tiles - tile,
    {
        assert(tile as int * sh.bm < sh.m);
        let m_base: usize = tile * sh.bm;
        let mut n_base: usize = 0;
        while n_base < sh.n
            invariant
                sh.valid(),
                x@.len() == sh.m * sh.k,
                indices@.len() == sh.m,
                before.len() == sh.m * sh.n,
                forall|r: int|
                    0 <= r < indices@.len() ==> #[trigger] indices@[r] == NO_EXPERT || indices@[r]
                        < sh.experts,
                forall|e: usize, n: usize, k: usize|
                    e < sh.experts && n < sh.n && k < sh.k ==> call_requires(dequant, (e, n, k)),
                forall|e: usize, n: usize, k: usize, r: S|
                    e < sh.experts && n < sh.n && k < sh.k && call_ensures(dequant, (e, n, k), r)
                        ==> r == (weight@)(e as int, n as int, k as int),
                n_base <= sh.n,
                n_base % sh.bn == 0,
                m_base < sh.m,
                progressed(
                    out@,
                    before,
                    x@,
                    weight@,
                    indices@,
                    sh,
                    m_base as int,
                    n_base as int,
                    0,
                ),
            decreases sh.n - n_base,
        {
            proof {
                lemma_step_fits(n_base as int, sh.n as int, sh.bn as int);
            }
            moe_tile(x, &dequant, indices, out, sh, m_base, n_base, weight, Ghost(before));
            n_base = n_base + sh.bn;
        }
        assert forall|i: int| 0 <= i < out@.len() implies settled(
            i,
            sh,
            m_base as int,
            n_base as int,
            0,
        ) == #[trigger] settled(i, sh, m_base + sh.bm, 0, 0) by {
            lemma_split_or_empty(i, sh.m as int, sh.n as int);
        }
        tile = tile + 1;
        assert(tile * sh.bm == m_base + sh.bm) by (nonlinear_arith)
            requires
                m_base == (tile - 1) * sh.bm,
        ;
    }
    assert forall|i: int| 0 <= i < out@.len() implies #[trigger] out@[i] == moe_out(
        x@,
        weight@,
        indices@,
        before,
        sh,
        i,
    ) by {
        lemma_split_or_empty(i, sh.m as int, sh.n as int);
    }
}

/// `tiles` tiles of `bm` rows cover `m` rows, and each starts inside them.
proof fn lemma_tiles(m: int, bm: int, tiles: int)
    requires
        0 < bm,
        0 <= m,
        tiles == m / bm + if m % bm == 0 {
            0int
        } else {
            1
        },
    ensures
        forall|t: int| 0 <= t < tiles ==> 0 <= #[trigger] (t * bm) < m,
        tiles * bm >= m,
{
    vstd::arithmetic::div_mod::lemma_fundamental_div_mod(m, bm);
    let q = m / bm;
    let rest = m % bm;
    assert forall|t: int| 0 <= t < tiles implies 0 <= #[trigger] (t * bm) < m by {
        assert(0 <= t * bm < m) by (nonlinear_arith)
            requires
                0 <= t < tiles,
                tiles == q || (tiles == q + 1 && rest > 0),
                m == bm * q + rest,
                0 <= rest < bm,
        ;
    }
    assert(tiles * bm >= m) by (nonlinear_arith)
        requires
            (tiles == q && rest == 0) || (tiles == q + 1 && rest < bm),
            m == bm * q + rest,
    ;
}

/// A position of a buffer that is not empty has a row and a column.
proof fn lemma_split_or_empty(i: int, rows: int, cols: int)
    requires
        0 <= i < rows * cols,
        0 <= rows,
        0 <= cols,
    ensures
        0 < cols,
        0 <= i / cols < rows,
        0 <= i % cols < cols,
{
    if cols == 0 {
        assert(rows * cols == 0) by (nonlinear_arith)
            requires
                cols == 0,
        ;
    }
    lemma_split(i, rows, cols);
}

/// Output `n` of expert `e` at activation `k`, of codes that are packed `per` to a
/// word under one scale and one bias per group: `scale * code + bias`.
pub open spec fn affine_weight<S: Scalar, T: Element<S>>(
    w: Seq<u32>,
    scales: Seq<T>,
    biases: Seq<T>,
    sh: MoeShape,
    group: int,
    base: int,
    per: int,
) -> spec_fn(int, int, int) -> S {
    |e: int, n: int, k: int|
        {
            let row = e * sh.n + n;
            let g = row * (sh.k as int / group) + k / group;
            let code = digit(w[row * (sh.k as int / per) + k / per] as int, base, k % per);
            plus(
                times(scales[g].widened(), S::natural(code as u32)),
                biases[g].widened(),
            )
        }
}

/// The lengths of packed weights, scales and biases.
pub open spec fn affine_fits<T>(
    w: Seq<u32>,
    scales: Seq<T>,
    biases: Seq<T>,
    sh: MoeShape,
    group: int,
    per: int,
) -> bool {
    &&& group > 0
    &&& sh.k as int % group == 0
    &&& sh.k as int % per == 0
    &&& w.len() == (sh.experts * sh.n) * (sh.k as int / per)
    &&& scales.len() == (sh.experts * sh.n) * (sh.k as int / group)
    &&& biases.len() == scales.len()
}

fn affine_load<S: Scalar, T: Element<S>>(
    w: &[u32],
    scales: &[T],
    biases: &[T],
    sh: MoeShape,
    group: usize,
    base: u32,
    per: usize,
    e: usize,
    n: usize,
    k: usize,
) -> (v: S)
    requires
        affine_fits(w@, scales@, biases@, sh, group as int, per as int),
        base > 1,
        per > 0,
        e < sh.experts,
        n < sh.n,
        k < sh.k,
    ensures
        v == affine_weight::<S, T>(
            w@,
            scales@,
            biases@,
            sh,
            group as int,
            base as int,
            per as int,
        )(e as int, n as int, k as int),
{
    proof {
        lemma_len_fits(w);
        lemma_len_fits(scales);
        lemma_block(k as int, sh.k as int, group as int);
        lemma_block(k as int, sh.k as int, per as int);
        lemma_row_major(e as int, sh.experts as int, n as int, sh.n as int);
        lemma_mul_at_least(sh.experts * sh.n, sh.k as int / per as int);
    }
    let row: usize = flat(e, n, sh.n, Ghost(sh.experts as int));
    let g: usize = flat(row, k / group, sh.k / group, Ghost(sh.experts * sh.n));
    let word: u32 = w[flat(row, k / per, sh.k / per, Ghost(sh.experts * sh.n))];
    let code: u32 = code_of(word, base, k % per);
    s_add(&s_mul(&scales[g].widen(), &S::from_u32(code)), &biases[g].widen())
}

/// Output `n` of expert `e` at activation `k`, of block-scaled weights whose rows
/// are the outputs of each expert in turn.
pub open spec fn block_weight<S: Scalar>(
    q: Quantized<S>,
    sh: MoeShape,
) -> spec_fn(int, int, int) -> S {
    |e: int, n: int, k: int| q.weight(e * sh.n + n, k, k / q.block as int)
}

fn block_load<S: Scalar>(
    q: &Quantized<S>,
    sh: MoeShape,
    e: usize,
    n: usize,
    k: usize,
) -> (v: S)
    requires
        q.fits(sh.experts * sh.n),
        q.cols == sh.k,
        e < sh.experts,
        n < sh.n,
        k < sh.k,
        (sh.experts * sh.n) * (sh.k as int / q.block as int) <= usize::MAX,
    ensures
        v == block_weight::<S>(*q, sh)(e as int, n as int, k as int),
{
    proof {
        lemma_block(k as int, sh.k as int, q.block as int);
        lemma_row_major(e as int, sh.experts as int, n as int, sh.n as int);
        lemma_mul_at_least(sh.experts * sh.n, sh.k as int / q.block as int);
    }
    let row: usize = flat(e, n, sh.n, Ghost(sh.experts as int));
    q.load(row, k, k / q.block, Ghost(sh.experts * sh.n))
}

/// A grouped product with affine weights.
pub fn moe_affine<S: Scalar, T: Element<S>>(
    x: &[T],
    w: &[u32],
    scales: &[T],
    biases: &[T],
    indices: &[u32],
    out: &mut Vec<T>,
    sh: MoeShape,
    group: usize,
    base: u32,
    per: usize,
)
    requires
        sh.valid(),
        base > 1,
        per > 0,
        affine_fits(w@, scales@, biases@, sh, group as int, per as int),
        x@.len() == sh.m * sh.k,
        indices@.len() == sh.m,
        old(out)@.len() == sh.m * sh.n,
        forall|r: int|
            0 <= r < indices@.len() ==> #[trigger] indices@[r] == NO_EXPERT || indices@[r]
                < sh.experts,
    ensures
        final(out)@ =~= Seq::new(
            old(out)@.len(),
            |i: int|
                moe_out(
                    x@,
                    affine_weight::<S, T>(
                        w@,
                        scales@,
                        biases@,
                        sh,
                        group as int,
                        base as int,
                        per as int,
                    ),
                    indices@,
                    old(out)@,
                    sh,
                    i,
                ),
        ),
{
    let ghost weight = affine_weight::<S, T>(
        w@,
        scales@,
        biases@,
        sh,
        group as int,
        base as int,
        per as int,
    );
    moe_gather(
        x,
        |e: usize, n: usize, k: usize| -> (v: S)
            requires
                e < sh.experts,
                n < sh.n,
                k < sh.k
            ensures
                v == weight(e as int, n as int, k as int)
            { affine_load(w, scales, biases, sh, group, base, per, e, n, k) },
        indices,
        out,
        sh,
        Ghost(weight),
    );
}

/// A grouped product with block-scaled weights.
pub fn moe_block<S: Scalar, T: Element<S>>(
    x: &[T],
    q: Quantized<S>,
    indices: &[u32],
    out: &mut Vec<T>,
    sh: MoeShape,
)
    requires
        sh.valid(),
        q.fits(sh.experts * sh.n),
        q.cols == sh.k,
        (sh.experts * sh.n) * (sh.k as int / q.block as int) <= usize::MAX,
        x@.len() == sh.m * sh.k,
        indices@.len() == sh.m,
        old(out)@.len() == sh.m * sh.n,
        forall|r: int|
            0 <= r < indices@.len() ==> #[trigger] indices@[r] == NO_EXPERT || indices@[r]
                < sh.experts,
    ensures
        final(out)@ =~= Seq::new(
            old(out)@.len(),
            |i: int|
                moe_out(
                    x@,
                    block_weight::<S>(q, sh),
                    indices@,
                    old(out)@,
                    sh,
                    i,
                ),
        ),
{
    let ghost weight = block_weight::<S>(q, sh);
    moe_gather(
        x,
        |e: usize, n: usize, k: usize| -> (v: S)
            requires
                e < sh.experts,
                n < sh.n,
                k < sh.k
            ensures
                v == weight(e as int, n as int, k as int)
            { block_load(&q, sh, e, n, k) },
        indices,
        out,
        sh,
        Ghost(weight),
    );
}

/// The extents of a launch in tiles of `bm`, `bn` and `bk`.
pub open spec fn moe_shape(
    m_total: u32,
    n_out: u32,
    k_in: u32,
    n_experts: u32,
    bm: usize,
    bn: usize,
    bk: usize,
) -> MoeShape {
    MoeShape {
        m: m_total as usize,
        n: n_out as usize,
        k: k_in as usize,
        bm,
        bn,
        bk,
        experts: n_experts as usize,
    }
}

} // verus!
