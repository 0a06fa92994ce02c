//! Attention of single queries over block-scaled keys and values, one simdgroup per
//! query.
//!
//! `queries` is `[n_queries, dim]`; keys and values are `[n_kv, tokens]` rows of
//! `dim` weights; query `q` reads the rows of head `q / repeat_count`. A sink takes
//! part in the softmax without a value; a window keeps the last tokens only.
use vstd::prelude::*;

use crate::attention::{soft_start, soft_step, step, Soft, SoftView};
use crate::lanes::{collect, group_sum, group_summed, launch, lemma_group_sum_same};
use crate::layout::{flat, lemma_len_fits, lemma_mul_at_least, lemma_row_major, lemma_split};
use crate::qgemv::lemma_block;
use crate::quant::{
    mxfp4, mxfp4_weights, mxfp8_e4m3, mxfp8_e4m3_weights, mxfp8_e5m2, mxfp8_e5m2_weights, nvfp4,
    nvfp4_weights, nvfp8, nvfp8_weights, Codes, Quantized, Scales,
};
use crate::scalar::{
    above, one, over, s_div, s_gt, s_mul, s_one, s_zero, times, zero, Element, Scalar,
};

verus! {

/// Extents and options of a launch.
#[derive(Clone, Copy)]
pub struct FlashShape {
    pub n_queries: usize,
    pub n_kv: usize,
    pub dim: usize,
    pub tokens: usize,
    pub repeat_count: usize,
    pub num_q_heads: usize,
    pub has_sinks: bool,
    pub window_size: usize,
}

impl FlashShape {
    pub open spec fn valid(self) -> bool {
        &&& 0 < self.dim <= 128
        &&& self.repeat_count > 0
        &&& self.num_q_heads > 0
        &&& self.n_queries <= self.n_kv * self.repeat_count
        &&& self.tokens + self.window_size <= u32::MAX
    }

    /// Token `t` is inside the window.
    pub open spec fn uses(self, t: int) -> bool {
        self.window_size == 0 || t + self.window_size > self.tokens - 1
    }

    /// The row of token `t` that query `q` reads.
    pub open spec fn kv_row(self, q: int, t: int) -> int {
        q / self.repeat_count as int * self.tokens + t
    }
}

/// Weight `d` of row `r`.
pub open spec fn kv_weight<S: Scalar>(w: Quantized<S>, r: int, d: int) -> S {
    w.weight(r, d, d / w.block as int)
}

/// What dimension `d` adds to the score of a key.
pub open spec fn score_terms<S: Scalar, T: Element<S>>(
    queries: Seq<T>,
    k: Quantized<S>,
    scale: S,
    sh: FlashShape,
    q: int,
    t: int,
) -> spec_fn(int) -> S {
    |d: int|
        times(
            times(queries[q * sh.dim + d].widened(), scale),
            kv_weight(k, sh.kv_row(q, t), d),
        )
}

/// The score of token `t` for query `q`.
pub open spec fn score_of<S: Scalar, T: Element<S>>(
    queries: Seq<T>,
    k: Quantized<S>,
    scale: S,
    sh: FlashShape,
    q: int,
    t: int,
) -> S {
    group_sum(score_terms(queries, k, scale, sh, q, t), 1, 32, sh.dim as int)
}

/// The value of token `t` for query `q`.
pub open spec fn value_of<S: Scalar>(v: Quantized<S>, sh: FlashShape, q: int, t: int) -> Seq<S> {
    Seq::new(sh.dim as nat, |d: int| kv_weight(v, sh.kv_row(q, t), d))
}

/// The softmax of query `q` after `t` tokens.
pub open spec fn flash_after<S: Scalar, T: Element<S>>(
    queries: Seq<T>,
    k: Quantized<S>,
    v: Quantized<S>,
    sinks: Seq<S>,
    scale: S,
    sh: FlashShape,
    q: int,
    t: int,
) -> SoftView<S>
    decreases t,
{
    if t <= 0 {
        if sh.has_sinks {
            soft_start(sinks[q % sh.num_q_heads as int], one(), sh.dim as int)
        } else {
            soft_start(S::lowest(), zero(), sh.dim as int)
        }
    } else {
        let before = flash_after(queries, k, v, sinks, scale, sh, q, t - 1);
        if sh.uses(t - 1) {
            let score = score_of(queries, k, scale, sh, q, t - 1);
            soft_step(
                before,
                score,
                value_of(v, sh, q, t - 1),
                S::chosen(above(before.m, score), before.m, score),
            )
        } else {
            before
        }
    }
}

/// Element `i` of the output.
pub open spec fn flash_value<S: Scalar, T: Element<S>>(
    queries: Seq<T>,
    k: Quantized<S>,
    v: Quantized<S>,
    sinks: Seq<S>,
    scale: S,
    sh: FlashShape,
    i: int,
) -> T {
    let st = flash_after(
        queries,
        k,
        v,
        sinks,
        scale,
        sh,
        i / sh.dim as int,
        sh.tokens as int,
    );
    let o = st.o[i % sh.dim as int];
    T::narrowed(S::chosen(above(st.l, zero()), over(o, st.l), o))
}

/// The lengths of the inputs.
pub open spec fn flash_fits<S: Scalar, T>(
    queries: Seq<T>,
    k: Quantized<S>,
    v: Quantized<S>,
    sinks: Seq<S>,
    sh: FlashShape,
) -> bool {
    &&& sh.valid()
    &&& queries.len() == sh.n_queries * sh.dim
    &&& k.cols == sh.dim
    &&& v.cols == sh.dim
    &&& k.fits(sh.n_kv * sh.tokens)
    &&& v.fits(sh.n_kv * sh.tokens)
    &&& sinks.len() >= sh.num_q_heads
}

/// `cut` holds the last `kept` tokens of every head of `whole`, and no others.
pub open spec fn last_tokens<S: Scalar>(
    whole: Quantized<S>,
    cut: Quantized<S>,
    sh: FlashShape,
    kept: int,
) -> bool {
    forall|h: int, t: int, d: int|
        0 <= h < sh.n_kv && 0 <= t < kept && 0 <= d < sh.dim ==> kv_weight(
            whole,
            h * sh.tokens + (sh.tokens - kept + t),
            d,
        ) == #[trigger] kv_weight(cut, h * kept + t, d)
}

/// Row `r` of a buffer.
pub open spec fn buffer_row<A>(buffer: Seq<A>, r: int, per: int) -> Seq<A> {
    Seq::new(per as nat, |j: int| buffer[r * per + j])
}

/// The rows of `cut` are the last `kept` of the `tokens` rows of every head of `whole`.
pub open spec fn last_rows<A>(
    whole: Seq<A>,
    cut: Seq<A>,
    heads: int,
    tokens: int,
    kept: int,
    per: int,
) -> bool {
    forall|h: int, t: int|
        0 <= h < heads && 0 <= t < kept ==> #[trigger] buffer_row(cut, h * kept + t, per)
            == buffer_row(whole, h * tokens + (tokens - kept + t), per)
}

/// The codes and the scales of `cut` are the last rows of those of `whole`.
pub open spec fn cut_buffers<S: Scalar>(
    whole: Quantized<S>,
    cut: Quantized<S>,
    sh: FlashShape,
    kept: int,
) -> bool {
    let (heads, tokens) = (sh.n_kv as int, sh.tokens as int);
    let cols = whole.cols as int;
    let blocks = cols / whole.block as int;
    &&& cut.cols == whole.cols
    &&& cut.block == whole.block
    &&& match (whole.codes, cut.codes) {
        (Codes::Nibbles(w), Codes::Nibbles(c)) => cols % 8 == 0 && last_rows(
            w@,
            c@,
            heads,
            tokens,
            kept,
            cols / 8,
        ),
        (Codes::Bytes(code, w), Codes::Bytes(other, c)) => code == other && last_rows(
            w@,
            c@,
            heads,
            tokens,
            kept,
            cols,
        ),
        _ => false,
    }
    &&& match (whole.scales, cut.scales) {
        (Scales::Pow2(w), Scales::Pow2(c)) => last_rows(w@, c@, heads, tokens, kept, blocks),
        (Scales::Micro(w, global), Scales::Micro(c, other)) => *global == *other && last_rows(
            w@,
            c@,
            heads,
            tokens,
            kept,
            blocks,
        ),
        (Scales::Direct(w), Scales::Direct(c)) => last_rows(w@, c@, heads, tokens, kept, blocks),
        _ => false,
    }
}

/// Buffers cut down to the last rows hold the last tokens.
pub proof fn law_cut_buffers_hold_the_last_tokens<S: Scalar>(
    whole: Quantized<S>,
    cut: Quantized<S>,
    sh: FlashShape,
    kept: int,
)
    requires
        whole.cols == sh.dim,
        0 < whole.block,
        whole.cols % whole.block == 0,
        cut_buffers(whole, cut, sh, kept),
    ensures
        last_tokens(whole, cut, sh, kept),
{
    let cols = whole.cols as int;
    let block = whole.block as int;
    let blocks = cols / block;
    assert forall|h: int, t: int, d: int|
        0 <= h < sh.n_kv && 0 <= t < kept && 0 <= d < sh.dim implies kv_weight(
        whole,
        h * sh.tokens + (sh.tokens - kept + t),
        d,
    ) == #[trigger] kv_weight(cut, h * kept + t, d) by {
        let r = h * sh.tokens + (sh.tokens - kept + t);
        let q = h * kept + t;
        let b = d / block;
        lemma_block(d, cols, block);
        match (whole.codes, cut.codes) {
            (Codes::Nibbles(w), Codes::Nibbles(c)) => {
                lemma_block(d, cols, 8);
                assert(buffer_row(c@, q, cols / 8)[d / 8] == buffer_row(w@, r, cols / 8)[d / 8]);
            },
            (Codes::Bytes(code, w), Codes::Bytes(other, c)) => {
                assert(buffer_row(c@, q, cols)[d] == buffer_row(w@, r, cols)[d]);
            },
            _ => {},
        }
        match (whole.scales, cut.scales) {
            (Scales::Pow2(w), Scales::Pow2(c)) => {
                assert(buffer_row(c@, q, blocks)[b] == buffer_row(w@, r, blocks)[b]);
            },
            (Scales::Micro(w, global), Scales::Micro(c, other)) => {
                assert(buffer_row(c@, q, blocks)[b] == buffer_row(w@, r, blocks)[b]);
            },
            (Scales::Direct(w), Scales::Direct(c)) => {
                assert(buffer_row(c@, q, blocks)[b] == buffer_row(w@, r, blocks)[b]);
            },
            _ => {},
        }
    }
}

/// Attention over the last tokens of a window is attention over a cache that holds only
/// those tokens.
pub proof fn law_window_is_the_last_tokens<S: Scalar, T: Element<S>>(
    queries: Seq<T>,
    k: Quantized<S>,
    v: Quantized<S>,
    cut_k: Quantized<S>,
    cut_v: Quantized<S>,
    sinks: Seq<S>,
    scale: S,
    sh: FlashShape,
    i: int,
)
    requires
        sh.valid(),
        0 < sh.window_size < sh.tokens,
        last_tokens(k, cut_k, sh, sh.window_size as int),
        last_tokens(v, cut_v, sh, sh.window_size as int),
        0 <= i < sh.n_queries * sh.dim,
    ensures
        flash_value::<S, T>(queries, k, v, sinks, scale, sh, i) == flash_value::<S, T>(
            queries,
            cut_k,
            cut_v,
            sinks,
            scale,
            (FlashShape { tokens: sh.window_size, window_size: 0, ..sh }),
            i,
        ),
{
    let cut = FlashShape { tokens: sh.window_size, window_size: 0, ..sh };
    let q = i / sh.dim as int;
    lemma_split(i, sh.n_queries as int, sh.dim as int);
    lemma_flash_skips::<S, T>(
        queries,
        k,
        v,
        sinks,
        scale,
        sh,
        q,
        sh.tokens - sh.window_size,
    );
    lemma_flash_cut::<S, T>(
        queries,
        k,
        v,
        cut_k,
        cut_v,
        sinks,
        scale,
        sh,
        cut,
        q,
        sh.window_size as int,
    );
}

/// A window of all tokens or more is no window.
pub proof fn law_wide_window_is_no_window<S: Scalar, T: Element<S>>(
    queries: Seq<T>,
    k: Quantized<S>,
    v: Quantized<S>,
    sinks: Seq<S>,
    scale: S,
    sh: FlashShape,
    i: int,
)
    requires
        sh.window_size >= sh.tokens,
    ensures
        flash_value::<S, T>(queries, k, v, sinks, scale, sh, i) == flash_value::<S, T>(
            queries,
            k,
            v,
            sinks,
            scale,
            (FlashShape { window_size: 0, ..sh }),
            i,
        ),
{
    lemma_flash_wide::<S, T>(
        queries,
        k,
        v,
        sinks,
        scale,
        sh,
        i / sh.dim as int,
        sh.tokens as int,
    );
}

/// Tokens before the window change nothing.
proof fn lemma_flash_skips<S: Scalar, T: Element<S>>(
    queries: Seq<T>,
    k: Quantized<S>,
    v: Quantized<S>,
    sinks: Seq<S>,
    scale: S,
    sh: FlashShape,
    q: int,
    t: int,
)
    requires
        sh.window_size > 0,
        t <= sh.tokens - sh.window_size,
    ensures
        flash_after(queries, k, v, sinks, scale, sh, q, t) == flash_after(
            queries,
            k,
            v,
            sinks,
            scale,
            sh,
            q,
            0,
        ),
    decreases t,
{
    if t > 0 {
        lemma_flash_skips(queries, k, v, sinks, scale, sh, q, t - 1);
    }
}

/// The tokens of the window, one by one.
proof fn lemma_flash_cut<S: Scalar, T: Element<S>>(
    queries: Seq<T>,
    k: Quantized<S>,
    v: Quantized<S>,
    cut_k: Quantized<S>,
    cut_v: Quantized<S>,
    sinks: Seq<S>,
    scale: S,
    sh: FlashShape,
    cut: FlashShape,
    q: int,
    j: int,
)
    requires
        sh.valid(),
        0 < sh.window_size < sh.tokens,
        cut == (FlashShape { tokens: sh.window_size, window_size: 0, ..sh }),
        last_tokens(k, cut_k, sh, sh.window_size as int),
        last_tokens(v, cut_v, sh, sh.window_size as int),
        0 <= q < sh.n_queries,
        0 <= j <= sh.window_size,
        flash_after(queries, k, v, sinks, scale, sh, q, sh.tokens - sh.window_size)
            == flash_after(queries, k, v, sinks, scale, sh, q, 0),
    ensures
        flash_after(queries, k, v, sinks, scale, sh, q, sh.tokens - sh.window_size + j)
            == flash_after(queries, cut_k, cut_v, sinks, scale, cut, q, j),
    decreases j,
{
    if j > 0 {
        lemma_flash_cut(
            queries,
            k,
            v,
            cut_k,
            cut_v,
            sinks,
            scale,
            sh,
            cut,
            q,
            j - 1,
        );
        let t = sh.tokens - sh.window_size + (j - 1);
        let h = q / sh.repeat_count as int;
        lemma_split(q, sh.n_kv as int, sh.repeat_count as int);
        assert(sh.kv_row(q, t) == h * sh.tokens + (sh.tokens - sh.window_size + (j - 1)));
        assert(cut.kv_row(q, j - 1) == h * sh.window_size + (j - 1));
        let f = score_terms(queries, k, scale, sh, q, t);
        let g = score_terms(queries, cut_k, scale, cut, q, j - 1);
        assert forall|d: int| 0 <= d < sh.dim implies #[trigger] f(d) == g(d) by {
            assert(kv_weight(cut_k, h * sh.window_size + (j - 1), d) == kv_weight(
                k,
                sh.kv_row(q, t),
                d,
            ));
        }
        lemma_group_sum_same(f, g, 1, 32, sh.dim as int);
        assert(value_of(v, sh, q, t) =~= value_of(cut_v, cut, q, j - 1)) by {
            assert forall|d: int| 0 <= d < sh.dim implies kv_weight(v, sh.kv_row(q, t), d)
                == #[trigger] kv_weight(cut_v, h * sh.window_size + (j - 1), d) by {}
        }
    }
}

/// Every token lies in a window of all tokens or more.
proof fn lemma_flash_wide<S: Scalar, T: Element<S>>(
    queries: Seq<T>,
    k: Quantized<S>,
    v: Quantized<S>,
    sinks: Seq<S>,
    scale: S,
    sh: FlashShape,
    q: int,
    t: int,
)
    requires
        sh.window_size >= sh.tokens,
        t <= sh.tokens,
    ensures
        flash_after(queries, k, v, sinks, scale, sh, q, t) == flash_after(
            queries,
            k,
            v,
            sinks,
            scale,
            (FlashShape { window_size: 0, ..sh }),
            q,
            t,
        ),
    decreases t,
{
    if t > 0 {
        lemma_flash_wide(queries, k, v, sinks, scale, sh, q, t - 1);
        let open = FlashShape { window_size: 0, ..sh };
        assert(sh.kv_row(q, t - 1) == open.kv_row(q, t - 1));
        assert(score_terms(queries, k, scale, sh, q, t - 1) =~= score_terms(
            queries,
            k,
            scale,
            open,
            q,
            t - 1,
        ));
        assert(value_of(v, sh, q, t - 1) =~= value_of(v, open, q, t - 1));
    }
}

proof fn lemma_kv_row(sh: FlashShape, q: int, t: int)
    requires
        sh.valid(),
        0 <= q < sh.n_queries,
        0 <= t < sh.tokens,
    ensures
        0 <= q / sh.repeat_count as int,
        sh.n_kv > q / sh.repeat_count as int,
        0 <= sh.kv_row(q, t) < sh.n_kv * sh.tokens,
{
    lemma_split(q, sh.n_kv as int, sh.repeat_count as int);
    lemma_row_major(q / sh.repeat_count as int, sh.n_kv as int, t, sh.tokens as int);
}

proof fn lemma_flash_len<S: Scalar, T: Element<S>>(
    queries: Seq<T>,
    k: Quantized<S>,
    v: Quantized<S>,
    sinks: Seq<S>,
    scale: S,
    sh: FlashShape,
    q: int,
    t: int,
)
    ensures
        flash_after(queries, k, v, sinks, scale, sh, q, t).o.len() == sh.dim,
    decreases t,
{
    if t > 0 {
        lemma_flash_len(queries, k, v, sinks, scale, sh, q, t - 1);
    }
}

fn load_row<S: Scalar>(w: &Quantized<S>, r: usize, rows: Ghost<int>) -> (row: Vec<S>)
    requires
        w.fits(rows@),
        w.scales.len() <= usize::MAX,
        r < rows@,
    ensures
        row@ == Seq::new(w.cols as nat, |d: int| kv_weight(*w, r as int, d)),
{
    let row = collect(
        w.cols,
        |d: usize| -> (v: S)
            requires
                d < w.cols
            ensures
                v == kv_weight(*w, r as int, d as int)
            {
                proof {
                    lemma_block(d as int, w.cols as int, w.block as int);
                }
                w.load(r, d, d / w.block, rows)
            },
        Ghost(|d: int, v: S| v == kv_weight(*w, r as int, d)),
    );
    assert(row@ =~= Seq::new(w.cols as nat, |d: int| kv_weight(*w, r as int, d)));
    row
}

/// The softmax of query `q` over all tokens.
fn attend<S: Scalar, T: Element<S>>(
    queries: &[T],
    k: &Quantized<S>,
    v: &Quantized<S>,
    sinks: &[S],
    scale: &S,
    sh: FlashShape,
    q: usize,
) -> (st: Soft<S>)
    requires
        flash_fits(queries@, *k, *v, sinks@, sh),
        k.scales.len() <= usize::MAX,
        v.scales.len() <= usize::MAX,
        sh.n_kv * sh.tokens <= usize::MAX,
        q < sh.n_queries,
    ensures
        st@ == flash_after(queries@, *k, *v, sinks@, *scale, sh, q as int, sh.tokens as int),
{
    proof {
        lemma_len_fits(queries);
    }
    let ghost rows = sh.n_kv * sh.tokens;
    let qs = collect(
        sh.dim,
        |d: usize| -> (r: S)
            requires
                d < sh.dim
            ensures
                r == times(queries@[q * sh.dim + d].widened(), *scale)
            {
                let at: usize = flat(q, d, sh.dim, Ghost(sh.n_queries as int));
                s_mul(&queries[at].widen(), scale)
            },
        Ghost(|d: int, r: S| r == times(queries@[q * sh.dim + d].widened(), *scale)),
    );
    let o = collect(
        sh.dim,
        |d: usize| -> (r: S)
            ensures
                r == zero::<S>()
            { s_zero() },
        Ghost(|d: int, r: S| r == zero::<S>()),
    );
    let mut st = if sh.has_sinks {
        Soft { m: sinks[q % sh.num_q_heads].dup(), l: s_one(), o }
    } else {
        Soft { m: S::neg_infinity(), l: s_zero(), o }
    };
    assert(st@ =~= flash_after(queries@, *k, *v, sinks@, *scale, sh, q as int, 0));
    let mut t: usize = 0;
    while t < sh.tokens
        invariant
            t <= sh.tokens,
            flash_fits(queries@, *k, *v, sinks@, sh),
            k.scales.len() <= usize::MAX,
            v.scales.len() <= usize::MAX,
            rows == sh.n_kv * sh.tokens,
            rows <= usize::MAX,
            q < sh.n_queries,
            qs@.len() == sh.dim,
            forall|d: int|
                0 <= d < sh.dim ==> #[trigger] qs@[d] == times(
                    queries@[q * sh.dim + d].widened(),
                    *scale,
                ),
            st@ == flash_after(queries@, *k, *v, sinks@, *scale, sh, q as int, t as int),
        decreases sh.tokens - t,
    {
        if sh.window_size == 0 || t + sh.window_size > sh.tokens - 1 {
            proof {
                lemma_kv_row(sh, q as int, t as int);
                lemma_flash_len(queries@, *k, *v, sinks@, *scale, sh, q as int, t as int);
            }
            let row: usize = flat(q / sh.repeat_count, t, sh.tokens, Ghost(sh.n_kv as int));
            let key = load_row(k, row, Ghost(rows));
            let score = group_summed(
                |d: usize| -> (r: S)
                    requires
                        d < sh.dim
                    ensures
                        r == score_terms(queries@, *k, *scale, sh, q as int, t as int)(d as int)
                    { s_mul(&qs[d], &key[d]) },
                1,
                32,
                sh.dim,
                Ghost(score_terms(queries@, *k, *scale, sh, q as int, t as int)),
            );
            let m = S::select(&s_gt(&st.m, &score), &st.m, &score);
            let value = load_row(v, row, Ghost(rows));
            assert(value@ =~= value_of(*v, sh, q as int, t as int));
            st = step(st, &score, &value, m);
        }
        t = t + 1;
    }
    st
}

/// Every query.
pub fn flash<S: Scalar, T: Element<S>>(
    queries: &[T],
    k: Quantized<S>,
    v: Quantized<S>,
    sinks: &[S],
    out: &mut Vec<T>,
    scale: &S,
    sh: FlashShape,
)
    requires
        flash_fits(queries@, k, v, sinks@, sh),
        k.scales.len() <= usize::MAX,
        v.scales.len() <= usize::MAX,
        old(out)@.len() == queries@.len(),
    ensures
        final(out)@ =~= Seq::new(
            old(out)@.len(),
            |i: int| flash_value(queries@, k, v, sinks@, *scale, sh, i),
        ),
{
    let ghost blocks = sh.dim as int / k.block as int;
    proof {
        lemma_block(0, sh.dim as int, k.block as int);
        lemma_mul_at_least(sh.n_kv * sh.tokens, blocks);
    }
    let done = collect(
        sh.n_queries,
        |q: usize| -> (st: Soft<S>)
            requires
                q < sh.n_queries
            ensures
                st@ == flash_after(
                    queries@,
                    k,
                    v,
                    sinks@,
                    *scale,
                    sh,
                    q as int,
                    sh.tokens as int,
                )
            { attend(queries, &k, &v, sinks, scale, sh, q) },
        Ghost(
            |q: int, st: Soft<S>|
                st@ == flash_after(queries@, k, v, sinks@, *scale, sh, q, sh.tokens as int),
        ),
    );
    let ghost size = out@.len();
    launch(
        out,
        |i: usize| -> (r: T)
            requires
                i < size
            ensures
                r == flash_value(queries@, k, v, sinks@, *scale, sh, i as int)
            {
                proof {
                    lemma_split(i as int, sh.n_queries as int, sh.dim as int);
                    lemma_flash_len(
                        queries@,
                        k,
                        v,
                        sinks@,
                        *scale,
                        sh,
                        i as int / sh.dim as int,
                        sh.tokens as int,
                    );
                }
                let st = &done[i / sh.dim];
                let at: usize = i % sh.dim;
                assert(st@.o[at as int] == st.o@[at as int]);
                let normed = S::select(
                    &s_gt(&st.l, &s_zero()),
                    &s_div(&st.o[at], &st.l),
                    &st.o[at],
                );
                T::narrow(&normed)
            },
        Ghost(|i: int| flash_value(queries@, k, v, sinks@, *scale, sh, i)),
    );
}

pub open spec fn flash_shape(
    dim: u32,
    tokens: u32,
    repeat_count: u32,
    num_q_heads: u32,
    has_sinks: u32,
    window_size: u32,
    n_queries: u32,
    n_kv: u32,
) -> FlashShape {
    FlashShape {
        n_queries: n_queries as usize,
        n_kv: n_kv as usize,
        dim: dim as usize,
        tokens: tokens as usize,
        repeat_count: repeat_count as usize,
        num_q_heads: num_q_heads as usize,
        has_sinks: has_sinks > 0,
        window_size: window_size as usize,
    }
}

/// Attention over keys and values that are 4-bit floats under powers of two.
pub fn mt_mxfp4_flash_sdpa_d128<S: Scalar, T: Element<S>>(
    queries: &[T],
    k_packed: &[u32],
    k_scales: &[u8],
    v_packed: &[u32],
    v_scales: &[u8],
    sinks: &[S],
    out: &mut Vec<T>,
    dim: u32,
    tokens: u32,
    repeat_count: u32,
    block_size: u32,
    num_q_heads: u32,
    has_sinks: u32,
    window_size: u32,
    scale: &S,
    n_queries: u32,
    n_kv: u32,
)
    requires
        flash_fits(
            queries@,
            mxfp4_weights(k_packed, k_scales, dim, block_size),
            mxfp4_weights(v_packed, v_scales, dim, block_size),
            sinks@,
            flash_shape(
                dim,
                tokens,
                repeat_count,
                num_q_heads,
                has_sinks,
                window_size,
                n_queries,
                n_kv,
            ),
        ),
        old(out)@.len() == queries@.len(),
    ensures
        final(out)@ =~= Seq::new(
            old(out)@.len(),
            |i: int|
                flash_value(
                    queries@,
                    mxfp4_weights(k_packed, k_scales, dim, block_size),
                    mxfp4_weights(v_packed, v_scales, dim, block_size),
                    sinks@,
                    *scale,
                    flash_shape(
                        dim,
                        tokens,
                        repeat_count,
                        num_q_heads,
                        has_sinks,
                        window_size,
                        n_queries,
                        n_kv,
                    ),
                    i,
                ),
        ),
{
    let sh = FlashShape {
        n_queries: n_queries as usize,
        n_kv: n_kv as usize,
        dim: dim as usize,
        tokens: tokens as usize,
        repeat_count: repeat_count as usize,
        num_q_heads: num_q_heads as usize,
        has_sinks: has_sinks > 0,
        window_size: window_size as usize,
    };
    let k = mxfp4(k_packed, k_scales, dim, block_size);
    let v = mxfp4(v_packed, v_scales, dim, block_size);
    flash(queries, k, v, sinks, out, scale, sh);
}

/// Attention over keys and values that are 4-bit floats under small float scales and one global scale.
pub fn mt_nvfp4_flash_sdpa_d128<S: Scalar, T: Element<S>>(
    queries: &[T],
    k_packed: &[u32],
    k_scales: &[u8],
    v_packed: &[u32],
    v_scales: &[u8],
    sinks: &[S],
    out: &mut Vec<T>,
    dim: u32,
    tokens: u32,
    repeat_count: u32,
    block_size: u32,
    num_q_heads: u32,
    has_sinks: u32,
    window_size: u32,
    scale: &S,
    global: &S,
    n_queries: u32,
    n_kv: u32,
)
    requires
        flash_fits(
            queries@,
            nvfp4_weights(k_packed, k_scales, dim, block_size, global),
            nvfp4_weights(v_packed, v_scales, dim, block_size, global),
            sinks@,
            flash_shape(
                dim,
                tokens,
                repeat_count,
                num_q_heads,
                has_sinks,
                window_size,
                n_queries,
                n_kv,
            ),
        ),
        old(out)@.len() == queries@.len(),
    ensures
        final(out)@ =~= Seq::new(
            old(out)@.len(),
            |i: int|
                flash_value(
                    queries@,
                    nvfp4_weights(k_packed, k_scales, dim, block_size, global),
                    nvfp4_weights(v_packed, v_scales, dim, block_size, global),
                    sinks@,
                    *scale,
                    flash_shape(
                        dim,
                        tokens,
                        repeat_count,
                        num_q_heads,
                        has_sinks,
                        window_size,
                        n_queries,
                        n_kv,
                    ),
                    i,
                ),
        ),
{
    let sh = FlashShape {
        n_queries: n_queries as usize,
        n_kv: n_kv as usize,
        dim: dim as usize,
        tokens: tokens as usize,
        repeat_count: repeat_count as usize,
        num_q_heads: num_q_heads as usize,
        has_sinks: has_sinks > 0,
        window_size: window_size as usize,
    };
    let k = nvfp4(k_packed, k_scales, dim, block_size, global);
    let v = nvfp4(v_packed, v_scales, dim, block_size, global);
    flash(queries, k, v, sinks, out, scale, sh);
}

/// Attention over keys and values that are 8-bit floats with three mantissa bits under powers of two.
pub fn mt_mxfp8_e4m3_flash_sdpa_d128<S: Scalar, T: Element<S>>(
    queries: &[T],
    k_packed: &[u8],
    k_scales: &[u8],
    v_packed: &[u8],
    v_scales: &[u8],
    sinks: &[S],
    out: &mut Vec<T>,
    dim: u32,
    tokens: u32,
    repeat_count: u32,
    block_size: u32,
    num_q_heads: u32,
    has_sinks: u32,
    window_size: u32,
    scale: &S,
    n_queries: u32,
    n_kv: u32,
)
    requires
        flash_fits(
            queries@,
            mxfp8_e4m3_weights(k_packed, k_scales, dim, block_size),
            mxfp8_e4m3_weights(v_packed, v_scales, dim, block_size),
            sinks@,
            flash_shape(
                dim,
                tokens,
                repeat_count,
                num_q_heads,
                has_sinks,
                window_size,
                n_queries,
                n_kv,
            ),
        ),
        old(out)@.len() == queries@.len(),
    ensures
        final(out)@ =~= Seq::new(
            old(out)@.len(),
            |i: int|
                flash_value(
                    queries@,
                    mxfp8_e4m3_weights(k_packed, k_scales, dim, block_size),
                    mxfp8_e4m3_weights(v_packed, v_scales, dim, block_size),
                    sinks@,
                    *scale,
                    flash_shape(
                        dim,
                        tokens,
                        repeat_count,
                        num_q_heads,
                        has_sinks,
                        window_size,
                        n_queries,
                        n_kv,
                    ),
                    i,
                ),
        ),
{
    let sh = FlashShape {
        n_queries: n_queries as usize,
        n_kv: n_kv as usize,
        dim: dim as usize,
        tokens: tokens as usize,
        repeat_count: repeat_count as usize,
        num_q_heads: num_q_heads as usize,
        has_sinks: has_sinks > 0,
        window_size: window_size as usize,
    };
    let k = mxfp8_e4m3(k_packed, k_scales, dim, block_size);
    let v = mxfp8_e4m3(v_packed, v_scales, dim, block_size);
    flash(queries, k, v, sinks, out, scale, sh);
}

/// Attention over keys and values that are 8-bit floats with two mantissa bits under powers of two.
pub fn mt_mxfp8_e5m2_flash_sdpa_d128<S: Scalar, T: Element<S>>(
    queries: &[T],
    k_packed: &[u8],
    k_scales: &[u8],
    v_packed: &[u8],
    v_scales: &[u8],
    sinks: &[S],
    out: &mut Vec<T>,
    dim: u32,
    tokens: u32,
    repeat_count: u32,
    block_size: u32,
    num_q_heads: u32,
    has_sinks: u32,
    window_size: u32,
    scale: &S,
    n_queries: u32,
    n_kv: u32,
)
    requires
        flash_fits(
            queries@,
            mxfp8_e5m2_weights(k_packed, k_scales, dim, block_size),
            mxfp8_e5m2_weights(v_packed, v_scales, dim, block_size),
            sinks@,
            flash_shape(
                dim,
                tokens,
                repeat_count,
                num_q_heads,
                has_sinks,
                window_size,
                n_queries,
                n_kv,
            ),
        ),
        old(out)@.len() == queries@.len(),
    ensures
        final(out)@ =~= Seq::new(
            old(out)@.len(),
            |i: int|
                flash_value(
                    queries@,
                    mxfp8_e5m2_weights(k_packed, k_scales, dim, block_size),
                    mxfp8_e5m2_weights(v_packed, v_scales, dim, block_size),
                    sinks@,
                    *scale,
                    flash_shape(
                        dim,
                        tokens,
                        repeat_count,
                        num_q_heads,
                        has_sinks,
                        window_size,
                        n_queries,
                        n_kv,
                    ),
                    i,
                ),
        ),
{
    let sh = FlashShape {
        n_queries: n_queries as usize,
        n_kv: n_kv as usize,
        dim: dim as usize,
        tokens: tokens as usize,
        repeat_count: repeat_count as usize,
        num_q_heads: num_q_heads as usize,
        has_sinks: has_sinks > 0,
        window_size: window_size as usize,
    };
    let k = mxfp8_e5m2(k_packed, k_scales, dim, block_size);
    let v = mxfp8_e5m2(v_packed, v_scales, dim, block_size);
    flash(queries, k, v, sinks, out, scale, sh);
}

/// Attention over keys and values that are 8-bit floats with three mantissa bits under plain scales.
pub fn mt_nvfp8_flash_sdpa_d128<S: Scalar, T: Element<S>>(
    queries: &[T],
    k_packed: &[u8],
    k_scales: &[S],
    v_packed: &[u8],
    v_scales: &[S],
    sinks: &[S],
    out: &mut Vec<T>,
    dim: u32,
    tokens: u32,
    repeat_count: u32,
    block_size: u32,
    num_q_heads: u32,
    has_sinks: u32,
    window_size: u32,
    scale: &S,
    n_queries: u32,
    n_kv: u32,
)
    requires
        flash_fits(
            queries@,
            nvfp8_weights(k_packed, k_scales, dim, block_size),
            nvfp8_weights(v_packed, v_scales, dim, block_size),
            sinks@,
            flash_shape(
                dim,
                tokens,
                repeat_count,
                num_q_heads,
                has_sinks,
                window_size,
                n_queries,
                n_kv,
            ),
        ),
        old(out)@.len() == queries@.len(),
    ensures
        final(out)@ =~= Seq::new(
            old(out)@.len(),
            |i: int|
                flash_value(
                    queries@,
                    nvfp8_weights(k_packed, k_scales, dim, block_size),
                    nvfp8_weights(v_packed, v_scales, dim, block_size),
                    sinks@,
                    *scale,
                    flash_shape(
                        dim,
                        tokens,
                        repeat_count,
                        num_q_heads,
                        has_sinks,
                        window_size,
                        n_queries,
                        n_kv,
                    ),
                    i,
                ),
        ),
{
    let sh = FlashShape {
        n_queries: n_queries as usize,
        n_kv: n_kv as usize,
        dim: dim as usize,
        tokens: tokens as usize,
        repeat_count: repeat_count as usize,
        num_q_heads: num_q_heads as usize,
        has_sinks: has_sinks > 0,
        window_size: window_size as usize,
    };
    let k = nvfp8(k_packed, k_scales, dim, block_size);
    let v = nvfp8(v_packed, v_scales, dim, block_size);
    flash(queries, k, v, sinks, out, scale, sh);
}

} // verus!
