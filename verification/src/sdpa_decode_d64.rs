//! Attention of one token per query head over a key-value cache, for heads of 64
//! dimensions.
//!
//! `q` and `out` are `[n_q_heads, 64]`; `k` and `v` are `[n_kv_heads, kv_stride, 64]`,
//! of which the first `n_kv` rows of each head are in use. A threadgroup of 32
//! simdgroups serves one query head: simdgroup `sg` takes the tokens `sg`,
//! `sg + 32` and so on, and what they found is brought together at the end.
use vstd::prelude::*;

use crate::attention::{soft_start, soft_step, step, Soft, SoftView};
use crate::lanes::{
    accumulate, accumulated, collect, lane_max, lane_maximum, lane_sum, lane_summed, launch,
    lemma_round_fits, round_count, rounds,
};
use crate::layout::{
    flat, flat3, lemma_len_fits, lemma_split,
};
use crate::scalar::{
    above, minus, over, plus, s_add, s_div, s_gt, s_mul, s_sub, s_zero, times, zero, Element, Fun,
    Scalar,
};

verus! {

#[derive(Clone, Copy)]
pub struct DecodeShape {
    pub n_q_heads: usize,
    pub n_kv_heads: usize,
    pub heads_per_group: usize,
    pub n_kv: usize,
    pub kv_stride: usize,
}

impl DecodeShape {
    pub open spec fn valid(self) -> bool {
        &&& self.heads_per_group > 0
        &&& self.n_q_heads <= self.n_kv_heads * self.heads_per_group
        &&& self.n_kv <= self.kv_stride
    }

    /// Where row `t` of the cache of query head `h` starts.
    pub open spec fn kv_at(self, h: int, t: int, d: int) -> int {
        (h / self.heads_per_group as int * self.kv_stride + t) * 64 + d
    }
}

pub open spec fn scaled_query<S: Scalar, T: Element<S>>(q: Seq<T>, scale: S, h: int, d: int) -> S {
    times(q[h * 64 + d].widened(), scale)
}

/// What lane `l` adds to the score of token `t`: it owns two dimensions.
pub open spec fn lane_score<S: Scalar, T: Element<S>>(
    q: Seq<T>,
    k: Seq<T>,
    scale: S,
    sh: DecodeShape,
    h: int,
    t: int,
    l: int,
) -> S {
    plus(
        times(scaled_query(q, scale, h, 2 * l), k[sh.kv_at(h, t, 2 * l)].widened()),
        times(scaled_query(q, scale, h, 2 * l + 1), k[sh.kv_at(h, t, 2 * l + 1)].widened()),
    )
}

pub open spec fn decode_score<S: Scalar, T: Element<S>>(
    q: Seq<T>,
    k: Seq<T>,
    scale: S,
    sh: DecodeShape,
    h: int,
    t: int,
) -> S {
    lane_sum(Seq::new(32, |l: int| lane_score(q, k, scale, sh, h, t, l)))
}

pub open spec fn cache_row<S: Scalar, T: Element<S>>(
    v: Seq<T>,
    sh: DecodeShape,
    h: int,
    t: int,
) -> Seq<S> {
    Seq::new(64, |d: int| v[sh.kv_at(h, t, d)].widened())
}

/// The softmax of simdgroup `sg` after `count` rounds.
pub open spec fn decode_after<S: Scalar, T: Element<S>>(
    q: Seq<T>,
    k: Seq<T>,
    v: Seq<T>,
    scale: S,
    sh: DecodeShape,
    h: int,
    sg: int,
    count: int,
) -> SoftView<S>
    decreases count,
{
    if count <= 0 {
        soft_start(S::lowest(), zero(), 64)
    } else {
        let before = decode_after(q, k, v, scale, sh, h, sg, count - 1);
        let t = (count - 1) * 32 + sg;
        if t < sh.n_kv {
            let score = decode_score(q, k, scale, sh, h, t);
            soft_step(
                before,
                score,
                cache_row(v, sh, h, t),
                S::chosen(above(score, before.m), score, before.m),
            )
        } else {
            before
        }
    }
}

/// The softmax of simdgroup `sg` over its share of the tokens.
pub open spec fn decode_part<S: Scalar, T: Element<S>>(
    q: Seq<T>,
    k: Seq<T>,
    v: Seq<T>,
    scale: S,
    sh: DecodeShape,
    h: int,
    sg: int,
) -> SoftView<S> {
    decode_after(q, k, v, scale, sh, h, sg, rounds(sh.n_kv as int, 32))
}

pub open spec fn maxima<S>(parts: Seq<SoftView<S>>) -> Seq<S> {
    Seq::new(parts.len(), |g: int| parts[g].m)
}

/// The sums of all simdgroups, relative to the largest score.
pub open spec fn rescaled_sums<S: Scalar>(parts: Seq<SoftView<S>>) -> Seq<S> {
    Seq::new(
        parts.len(),
        |g: int|
            times(parts[g].l, S::applied(Fun::Exp, minus(parts[g].m, lane_max(maxima(parts))))),
    )
}

/// The weight of what simdgroup `g` found.
pub open spec fn part_weight<S: Scalar>(parts: Seq<SoftView<S>>, g: int) -> S {
    let sum = lane_sum(rescaled_sums(parts));
    S::chosen(
        above(sum, zero()),
        over(S::applied(Fun::Exp, minus(parts[g].m, lane_max(maxima(parts)))), sum),
        zero(),
    )
}

/// What the simdgroups bring together for dimension `d`.
pub open spec fn joined<S: Scalar>(parts: Seq<SoftView<S>>, d: int) -> S {
    accumulate(zero(), |g: int| times(parts[g].o[d], part_weight(parts, g)), parts.len() as int)
}

/// Element `i` of the output.
pub open spec fn decode_value<S: Scalar, T: Element<S>>(
    q: Seq<T>,
    k: Seq<T>,
    v: Seq<T>,
    scale: S,
    sh: DecodeShape,
    i: int,
) -> T {
    T::narrowed(
        joined(Seq::new(32, |sg: int| decode_part(q, k, v, scale, sh, i / 64, sg)), i % 64),
    )
}

pub open spec fn decode_fits<T>(q: Seq<T>, k: Seq<T>, v: Seq<T>, sh: DecodeShape) -> bool {
    &&& sh.valid()
    &&& q.len() == sh.n_q_heads * 64
    &&& k.len() == (sh.n_kv_heads * sh.kv_stride) * 64
    &&& v.len() == k.len()
}

proof fn lemma_decode_len<S: Scalar, T: Element<S>>(
    q: Seq<T>,
    k: Seq<T>,
    v: Seq<T>,
    scale: S,
    sh: DecodeShape,
    h: int,
    sg: int,
    count: int,
)
    ensures
        decode_after(q, k, v, scale, sh, h, sg, count).o.len() == 64,
    decreases count,
{
    if count > 0 {
        lemma_decode_len(q, k, v, scale, sh, h, sg, count - 1);
    }
}

/// Row `t` of the cache of query head `h`.
fn load_cache_row<S: Scalar, T: Element<S>>(
    v: &[T],
    sh: DecodeShape,
    h: usize,
    t: usize,
) -> (row: Vec<S>)
    requires
        sh.valid(),
        v@.len() == (sh.n_kv_heads * sh.kv_stride) * 64,
        h < sh.n_q_heads,
        t < sh.n_kv,
    ensures
        row@ == cache_row::<S, T>(v@, sh, h as int, t as int),
{
    proof {
        lemma_len_fits(v);
        lemma_split(h as int, sh.n_kv_heads as int, sh.heads_per_group as int);
    }
    let group: usize = h / sh.heads_per_group;
    let row = collect(
        64,
        |d: usize| -> (r: S)
            requires
                d < 64
            ensures
                r == v@[sh.kv_at(h as int, t as int, d as int)].widened()
            {
                let at: usize = flat3(group, t, sh.kv_stride, d, 64, Ghost(sh.n_kv_heads as int));
                v[at].widen()
            },
        Ghost(|d: int, r: S| r == v@[sh.kv_at(h as int, t as int, d)].widened()),
    );
    assert(row@ =~= cache_row::<S, T>(v@, sh, h as int, t as int));
    row
}

/// The softmax of one simdgroup over its share of the tokens.
fn decode_group<S: Scalar, T: Element<S>>(
    q: &[T],
    k: &[T],
    v: &[T],
    scale: &S,
    sh: DecodeShape,
    h: usize,
    sg: usize,
) -> (st: Soft<S>)
    requires
        decode_fits(q@, k@, v@, sh),
        h < sh.n_q_heads,
        sg < 32,
    ensures
        st@ == decode_part(q@, k@, v@, *scale, sh, h as int, sg as int),
{
    proof {
        lemma_len_fits(q);
    }
    let qs = collect(
        64,
        |d: usize| -> (r: S)
            requires
                d < 64
            ensures
                r == scaled_query(q@, *scale, h as int, d as int)
            {
                let at: usize = flat(h, d, 64, Ghost(sh.n_q_heads as int));
                s_mul(&q[at].widen(), scale)
            },
        Ghost(|d: int, r: S| r == scaled_query(q@, *scale, h as int, d)),
    );
    let o = collect(
        64,
        |d: usize| -> (r: S)
            ensures
                r == zero::<S>()
            { s_zero() },
        Ghost(|d: int, r: S| r == zero::<S>()),
    );
    let mut st = Soft { m: S::neg_infinity(), l: s_zero(), o };
    assert(st@ =~= decode_after(q@, k@, v@, *scale, sh, h as int, sg as int, 0));
    let count: usize = round_count(sh.n_kv, 32);
    let mut c: usize = 0;
    while c < count
        invariant
            c <= count,
            count == rounds(sh.n_kv as int, 32),
            decode_fits(q@, k@, v@, sh),
            h < sh.n_q_heads,
            sg < 32,
            qs@.len() == 64,
            forall|d: int|
                0 <= d < 64 ==> #[trigger] qs@[d] == scaled_query(q@, *scale, h as int, d),
            st@ == decode_after(q@, k@, v@, *scale, sh, h as int, sg as int, c as int),
        decreases count - c,
    {
        proof {
            lemma_round_fits(c as int, count as int, sg as int, 32, sh.n_kv as int);
            lemma_decode_len(q@, k@, v@, *scale, sh, h as int, sg as int, c as int);
        }
        let start: usize = c * 32;
        if sg < sh.n_kv - start {
            let t: usize = start + sg;
            let key: Vec<S> = load_cache_row(k, sh, h, t);
            let parts = collect(
                32,
                |l: usize| -> (r: S)
                    requires
                        l < 32
                    ensures
                        r == lane_score(q@, k@, *scale, sh, h as int, t as int, l as int)
                    {
                        s_add(
                            &s_mul(&qs[2 * l], &key[2 * l]),
                            &s_mul(&qs[2 * l + 1], &key[2 * l + 1]),
                        )
                    },
                Ghost(
                    |l: int, r: S| r == lane_score(q@, k@, *scale, sh, h as int, t as int, l),
                ),
            );
            assert(parts@ =~= Seq::new(
                32,
                |l: int| lane_score(q@, k@, *scale, sh, h as int, t as int, l),
            ));
            let score = lane_summed(&parts);
            let m = S::select(&s_gt(&score, &st.m), &score, &st.m);
            let value: Vec<S> = load_cache_row(v, sh, h, t);
            st = step(st, &score, &value, m);
        }
        c = c + 1;
    }
    st
}

/// What the simdgroups found, brought together.
fn join_parts<S: Scalar>(parts: &Vec<Soft<S>>, views: Ghost<Seq<SoftView<S>>>) -> (o: Vec<S>)
    requires
        parts@.len() == 32,
        views@.len() == 32,
        forall|g: int| 0 <= g < 32 ==> (#[trigger] parts@[g])@ == views@[g],
        forall|g: int| 0 <= g < 32 ==> (#[trigger] parts@[g]).o@.len() == 64,
    ensures
        o@ == Seq::new(64, |d: int| joined(views@, d)),
{
    let ms = collect(
        32,
        |g: usize| -> (r: S)
            requires
                g < 32
            ensures
                r == views@[g as int].m
            { parts[g].m.dup() },
        Ghost(|g: int, r: S| r == views@[g].m),
    );
    assert(ms@ =~= maxima(views@));
    let m = lane_maximum(&ms);
    let sums = collect(
        32,
        |g: usize| -> (r: S)
            requires
                g < 32
            ensures
                r == rescaled_sums(views@)[g as int]
            { s_mul(&parts[g].l, &S::apply(Fun::Exp, &s_sub(&parts[g].m, &m))) },
        Ghost(|g: int, r: S| r == rescaled_sums(views@)[g]),
    );
    assert(sums@ =~= rescaled_sums(views@));
    let sum = lane_summed(&sums);
    let weights = collect(
        32,
        |g: usize| -> (r: S)
            requires
                g < 32
            ensures
                r == part_weight(views@, g as int)
            {
                S::select(
                    &s_gt(&sum, &s_zero()),
                    &s_div(&S::apply(Fun::Exp, &s_sub(&parts[g].m, &m)), &sum),
                    &s_zero(),
                )
            },
        Ghost(|g: int, r: S| r == part_weight(views@, g)),
    );
    let o = collect(
        64,
        |d: usize| -> (r: S)
            requires
                d < 64
            ensures
                r == joined(views@, d as int)
            {
                accumulated(
                    s_zero::<S>(),
                    |g: usize| -> (r: S)
                        requires
                            g < 32
                        ensures
                            r == times(views@[g as int].o[d as int], part_weight(views@, g as int))
                        {
                            assert(parts@[g as int].o@ == views@[g as int].o);
                            s_mul(&parts[g].o[d], &weights[g])
                        },
                    32,
                    Ghost(|g: int| times(views@[g].o[d as int], part_weight(views@, g))),
                )
            },
        Ghost(|d: int, r: S| r == joined(views@, d)),
    );
    assert(o@ =~= Seq::new(64, |d: int| joined(views@, d)));
    o
}

pub open spec fn decode_shape(
    n_kv: u32,
    kv_stride: u32,
    heads_per_group: u32,
    n_q_heads: u32,
    n_kv_heads: u32,
) -> DecodeShape {
    DecodeShape {
        n_q_heads: n_q_heads as usize,
        n_kv_heads: n_kv_heads as usize,
        heads_per_group: heads_per_group as usize,
        n_kv: n_kv as usize,
        kv_stride: kv_stride as usize,
    }
}

/// Attention of one token per query head.
pub fn ffai_sdpa_decode_d64<S: Scalar, T: Element<S>>(
    q: &[T],
    k: &[T],
    v: &[T],
    out: &mut Vec<T>,
    head_dim: u32,
    n_kv: u32,
    kv_stride: u32,
    heads_per_group: u32,
    scale: &S,
    n_q_heads: u32,
    n_kv_heads: u32,
)
    requires
        head_dim == 64,
        decode_fits(
            q@,
            k@,
            v@,
            decode_shape(n_kv, kv_stride, heads_per_group, n_q_heads, n_kv_heads),
        ),
        old(out)@.len() == q@.len(),
    ensures
        final(out)@ =~= Seq::new(
            old(out)@.len(),
            |i: int|
                decode_value(
                    q@,
                    k@,
                    v@,
                    *scale,
                    decode_shape(n_kv, kv_stride, heads_per_group, n_q_heads, n_kv_heads),
                    i,
                ),
        ),
{
    let sh = DecodeShape {
        n_q_heads: n_q_heads as usize,
        n_kv_heads: n_kv_heads as usize,
        heads_per_group: heads_per_group as usize,
        n_kv: n_kv as usize,
        kv_stride: kv_stride as usize,
    };
    let ghost views = |h: int|
        Seq::new(32, |sg: int| decode_part(q@, k@, v@, *scale, sh, h, sg));
    let rows = collect(
        sh.n_q_heads,
        |h: usize| -> (o: Vec<S>)
            requires
                h < sh.n_q_heads
            ensures
                o@ == Seq::new(64, |d: int| joined(views(h as int), d))
            {
                let parts = collect(
                    32,
                    |sg: usize| -> (st: Soft<S>)
                        requires
                            sg < 32
                        ensures
                            st@ == decode_part(q@, k@, v@, *scale, sh, h as int, sg as int)
                        { decode_group(q, k, v, scale, sh, h, sg) },
                    Ghost(
                        |sg: int, st: Soft<S>|
                            st@ == decode_part(q@, k@, v@, *scale, sh, h as int, sg),
                    ),
                );
                proof {
                    assert forall|g: int| 0 <= g < 32 implies (#[trigger] parts@[g]).o@.len()
                        == 64 by {
                        lemma_decode_len(
                            q@,
                            k@,
                            v@,
                            *scale,
                            sh,
                            h as int,
                            g,
                            rounds(sh.n_kv as int, 32),
                        );
                        assert(parts@[g]@.o == parts@[g].o@);
                    }
                }
                join_parts(&parts, Ghost(views(h as int)))
            },
        Ghost(|h: int, o: Vec<S>| o@ == Seq::new(64, |d: int| joined(views(h), d))),
    );
    let ghost size = out@.len();
    launch(
        out,
        |i: usize| -> (r: T)
            requires
                i < size
            ensures
                r == decode_value(q@, k@, v@, *scale, sh, i as int)
            { T::narrow(&rows[i / 64][i % 64]) },
        Ghost(|i: int| decode_value(q@, k@, v@, *scale, sh, i)),
    );
}

} // verus!
