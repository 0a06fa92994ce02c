//! The gated delta rule: a linear-attention recurrence over tokens.
//!
//! Each pair of a value head and a value dimension owns one row of state, as long
//! as a key. A token decays the row, reads it at the token's key, moves it along
//! the key towards the token's value, and reads it at the token's query.
use vstd::prelude::*;

use crate::lanes::{collect, launch, launch_some, simd_dot, simd_dotted};
use crate::layout::{
    flat, flat3, lemma_len_fits, lemma_mul_at_least, lemma_row_major,
    lemma_row_major_inverse, lemma_rows_of, lemma_split,
};
use crate::scalar::{minus, plus, s_add, s_mul, s_sub, times, Element, Scalar};

verus! {

/// What one row of state sees of one token.
#[verifier::ext_equal]
pub struct TokenView<S> {
    pub q: Seq<S>,
    pub k: Seq<S>,
    pub v: S,
    pub g: S,
    pub beta: S,
    /// A token that is masked out leaves the row alone.
    pub live: bool,
}

pub struct Token<S> {
    pub q: Vec<S>,
    pub k: Vec<S>,
    pub v: S,
    pub g: S,
    pub beta: S,
    pub live: bool,
}

impl<S> View for Token<S> {
    type V = TokenView<S>;

    open spec fn view(&self) -> TokenView<S> {
        TokenView {
            q: self.q@,
            k: self.k@,
            v: self.v,
            g: self.g,
            beta: self.beta,
            live: self.live,
        }
    }
}

pub open spec fn decayed<S: Scalar>(state: Seq<S>, g: S) -> Seq<S> {
    Seq::new(state.len(), |i: int| times(state[i], g))
}

/// How far the row is moved along the key.
pub open spec fn delta_of<S: Scalar>(state: Seq<S>, tok: TokenView<S>) -> S {
    times(minus(tok.v, simd_dot(decayed(state, tok.g), tok.k)), tok.beta)
}

/// The row after a live token.
pub open spec fn stepped<S: Scalar>(state: Seq<S>, tok: TokenView<S>) -> Seq<S> {
    Seq::new(
        state.len(),
        |i: int| plus(decayed(state, tok.g)[i], times(tok.k[i], delta_of(state, tok))),
    )
}

/// What a live token reads.
pub open spec fn read_of<S: Scalar>(state: Seq<S>, tok: TokenView<S>) -> S {
    simd_dot(stepped(state, tok), tok.q)
}

/// The row after `t` tokens.
pub open spec fn row_after<S: Scalar>(
    state: Seq<S>,
    tokens: spec_fn(int) -> TokenView<S>,
    t: int,
) -> Seq<S>
    decreases t,
{
    if t <= 0 {
        state
    } else {
        let before = row_after(state, tokens, t - 1);
        if tokens(t - 1).live {
            stepped(before, tokens(t - 1))
        } else {
            before
        }
    }
}

/// What a token leaves: what it read, and how far it moved the row.
pub struct Step<S> {
    pub y: S,
    pub delta: S,
}

/// A row after its tokens, and what each live one left.
pub struct RowRun<S> {
    pub state: Vec<S>,
    pub steps: Vec<Option<Step<S>>>,
}

/// `run` is what `tokens` make of `state`.
pub open spec fn ran<S: Scalar>(
    run: RowRun<S>,
    state: Seq<S>,
    tokens: spec_fn(int) -> TokenView<S>,
    t_total: int,
) -> bool {
    &&& run.state@ == row_after(state, tokens, t_total)
    &&& run.steps@.len() == t_total
    &&& forall|t: int|
        0 <= t < t_total ==> #[trigger] run.steps@[t] == step_at(state, tokens, t)
}

pub open spec fn step_at<S: Scalar>(
    state: Seq<S>,
    tokens: spec_fn(int) -> TokenView<S>,
    t: int,
) -> Option<Step<S>> {
    if tokens(t).live {
        Some(
            Step {
                y: read_of(row_after(state, tokens, t), tokens(t)),
                delta: delta_of(row_after(state, tokens, t), tokens(t)),
            },
        )
    } else {
        None
    }
}

/// A row keeps its length.
pub proof fn lemma_row_len<S: Scalar>(
    state: Seq<S>,
    tokens: spec_fn(int) -> TokenView<S>,
    t: int,
)
    ensures
        row_after(state, tokens, t).len() == state.len(),
    decreases t,
{
    if t > 0 {
        lemma_row_len(state, tokens, t - 1);
    }
}

/// One live token.
pub fn delta_step<S: Scalar>(state: Vec<S>, tok: &Token<S>) -> (r: (Vec<S>, Step<S>))
    requires
        state@.len() == tok.q@.len(),
        state@.len() == tok.k@.len(),
        state@.len() % 32 == 0,
    ensures
        r.0@ == stepped(state@, tok@),
        r.1.y == read_of(state@, tok@),
        r.1.delta == delta_of(state@, tok@),
{
    let n: usize = state.len();
    let held = collect(
        n,
        |i: usize| -> (r: S)
            requires
                i < n
            ensures
                r == times(state@[i as int], tok.g)
            { s_mul(&state[i], &tok.g) },
        Ghost(|i: int, r: S| r == times(state@[i], tok.g)),
    );
    assert(held@ =~= decayed(state@, tok.g));
    let kv = simd_dotted(&held, &tok.k);
    let delta = s_mul(&s_sub(&tok.v, &kv), &tok.beta);
    let next = collect(
        n,
        |i: usize| -> (r: S)
            requires
                i < n
            ensures
                r == plus(held@[i as int], times(tok.k@[i as int], delta))
            { s_add(&held[i], &s_mul(&tok.k[i], &delta)) },
        Ghost(|i: int, r: S| r == plus(held@[i], times(tok.k@[i], delta))),
    );
    assert(next@ =~= stepped(state@, tok@));
    let y = simd_dotted(&next, &tok.q);
    (next, Step { y, delta })
}

/// Runs a row over `t_total` tokens.
pub fn run_row<S: Scalar, F: Fn(usize) -> Token<S>>(
    state: Vec<S>,
    feed: F,
    t_total: usize,
    tokens: Ghost<spec_fn(int) -> TokenView<S>>,
) -> (run: RowRun<S>)
    requires
        state@.len() % 32 == 0,
        forall|t: usize| t < t_total ==> call_requires(feed, (t,)),
        forall|t: usize, r: Token<S>|
            t < t_total && call_ensures(feed, (t,), r) ==> {
                &&& r@ == (tokens@)(t as int)
                &&& r@.q.len() == state@.len()
                &&& r@.k.len() == state@.len()
            },
    ensures
        ran(run, state@, tokens@, t_total as int),
{
    let ghost first = state@;
    let mut state = state;
    let mut steps: Vec<Option<Step<S>>> = Vec::new();
    let mut t: usize = 0;
    while t < t_total
        invariant
            t <= t_total,
            first.len() % 32 == 0,
            forall|t: usize| t < t_total ==> call_requires(feed, (t,)),
            forall|t: usize, r: Token<S>|
                t < t_total && call_ensures(feed, (t,), r) ==> {
                    &&& r@ == (tokens@)(t as int)
                    &&& r@.q.len() == first.len()
                    &&& r@.k.len() == first.len()
                },
            state@ == row_after(first, tokens@, t as int),
            steps@.len() == t,
            forall|j: int| 0 <= j < t ==> #[trigger] steps@[j] == step_at(first, tokens@, j),
        decreases t_total - t,
    {
        let tok = feed(t);
        proof {
            lemma_row_len(first, tokens@, t as int);
        }
        if tok.live {
            let (next, step) = delta_step(state, &tok);
            state = next;
            steps.push(Some(step));
        } else {
            steps.push(None);
        }
        t = t + 1;
    }
    RowRun { state, steps }
}

/// Extents of a gated-delta launch. Value heads share key heads in groups.
#[derive(Clone, Copy)]
pub struct DeltaShape {
    pub batch: usize,
    pub t: usize,
    pub hk: usize,
    pub hv: usize,
    pub dk: usize,
    pub dv: usize,
}

impl DeltaShape {
    pub open spec fn valid(self) -> bool {
        &&& self.hk > 0
        &&& self.hv > 0
        &&& self.hv % self.hk == 0
        &&& self.dk > 0
        &&& self.dk % 32 == 0
    }

    /// Rows of state: `[batch, hv, dv]`.
    pub open spec fn rows(self) -> int {
        (self.batch * self.hv) * self.dv
    }

    /// Elements of the values: `[batch, t, hv, dv]`.
    pub open spec fn values(self) -> int {
        ((self.batch * self.t) * self.hv) * self.dv
    }

    pub open spec fn batch_of(self, r: int) -> int {
        r / self.dv as int / self.hv as int
    }

    pub open spec fn head_of(self, r: int) -> int {
        r / self.dv as int % self.hv as int
    }

    pub open spec fn dim_of(self, r: int) -> int {
        r % self.dv as int
    }

    /// The key head that value head `h` reads.
    pub open spec fn key_head(self, h: int) -> int {
        h / (self.hv as int / self.hk as int)
    }

    /// The row that value element `i` belongs to.
    pub open spec fn row_of_value(self, i: int) -> int {
        let bt = i / self.dv as int / self.hv as int;
        let h = i / self.dv as int % self.hv as int;
        (bt / self.t as int * self.hv + h) * self.dv + i % self.dv as int
    }

    /// The token that value element `i` belongs to.
    pub open spec fn time_of_value(self, i: int) -> int {
        i / self.dv as int / self.hv as int % self.t as int
    }
}

/// Where a row lies.
pub proof fn lemma_row(sh: DeltaShape, r: int)
    requires
        sh.valid(),
        0 <= r < sh.rows(),
    ensures
        sh.dv > 0,
        0 <= sh.batch_of(r) < sh.batch,
        0 <= sh.head_of(r) < sh.hv,
        0 <= sh.dim_of(r) < sh.dv,
        0 <= sh.key_head(sh.head_of(r)) < sh.hk,
        r == (sh.batch_of(r) * sh.hv + sh.head_of(r)) * sh.dv + sh.dim_of(r),
{
    if sh.dv == 0 {
        assert((sh.batch * sh.hv) * sh.dv == 0) by (nonlinear_arith)
            requires
                sh.dv == 0,
        ;
    }
    lemma_split(r, sh.batch * sh.hv, sh.dv as int);
    lemma_split(r / sh.dv as int, sh.batch as int, sh.hv as int);
    lemma_key_head(sh, sh.head_of(r));
}

pub proof fn lemma_key_head(sh: DeltaShape, h: int)
    requires
        sh.valid(),
        0 <= h < sh.hv,
    ensures
        sh.hv as int / sh.hk as int > 0,
        0 <= sh.key_head(h) < sh.hk,
{
    let group = sh.hv as int / sh.hk as int;
    vstd::arithmetic::div_mod::lemma_fundamental_div_mod(sh.hv as int, sh.hk as int);
    assert(group > 0) by (nonlinear_arith)
        requires
            sh.hv == sh.hk * group,
            sh.hv > 0,
            sh.hk > 0,
    ;
    assert(sh.hk * group == sh.hv);
    lemma_split(h, sh.hk as int, group);
}

/// Where a value lies.
pub proof fn lemma_value(sh: DeltaShape, i: int)
    requires
        sh.valid(),
        0 <= i < sh.values(),
    ensures
        sh.dv > 0,
        sh.t > 0,
        0 <= i / sh.dv as int / sh.hv as int / sh.t as int,
        sh.batch > i / sh.dv as int / sh.hv as int / sh.t as int,
        0 <= i / sh.dv as int % sh.hv as int,
        sh.hv > i / sh.dv as int % sh.hv as int,
        0 <= sh.row_of_value(i) < sh.rows(),
        0 <= sh.time_of_value(i) < sh.t,
{
    if sh.dv == 0 {
        assert(sh.values() == 0) by (nonlinear_arith)
            requires
                sh.dv == 0,
        ;
    }
    let bth = i / sh.dv as int;
    lemma_split(i, (sh.batch * sh.t) * sh.hv, sh.dv as int);
    lemma_split(bth, sh.batch * sh.t, sh.hv as int);
    let bt = bth / sh.hv as int;
    if sh.t == 0 {
        assert(sh.batch * sh.t == 0) by (nonlinear_arith)
            requires
                sh.t == 0,
        ;
    }
    lemma_split(bt, sh.batch as int, sh.t as int);
    let b = bt / sh.t as int;
    lemma_row_major(b, sh.batch as int, bth % sh.hv as int, sh.hv as int);
    lemma_row_major(
        b * sh.hv + bth % sh.hv as int,
        sh.batch * sh.hv,
        i % sh.dv as int,
        sh.dv as int,
    );
}

/// The value that row `r` sees of token `t` belongs to that row and token.
pub proof fn lemma_value_position(sh: DeltaShape, r: int, t: int)
    requires
        sh.valid(),
        0 <= r < sh.rows(),
        0 <= t < sh.t,
    ensures
        ({
            let i = ((sh.batch_of(r) * sh.t + t) * sh.hv + sh.head_of(r)) * sh.dv + sh.dim_of(r);
            &&& 0 <= i < sh.values()
            &&& sh.row_of_value(i) == r
            &&& sh.time_of_value(i) == t
        }),
{
    lemma_row(sh, r);
    let b = sh.batch_of(r);
    let h = sh.head_of(r);
    let d = sh.dim_of(r);
    let bt = b * sh.t + t;
    lemma_row_major(b, sh.batch as int, t, sh.t as int);
    lemma_row_major(bt, sh.batch * sh.t, h, sh.hv as int);
    lemma_row_major(bt * sh.hv + h, (sh.batch * sh.t) * sh.hv, d, sh.dv as int);
    lemma_row_major_inverse(bt * sh.hv + h, d, sh.dv as int);
    lemma_row_major_inverse(bt, h, sh.hv as int);
    lemma_row_major_inverse(b, t, sh.t as int);
}

/// Row `r` of a state buffer.
pub open spec fn state_row<S: Scalar, T: Element<S>>(state: Seq<T>, dk: int, r: int) -> Seq<S> {
    Seq::new(dk as nat, |i: int| state[r * dk + i].widened())
}

/// The tokens of row `r`.
pub open spec fn row_tokens<S>(
    tokens: spec_fn(int, int) -> TokenView<S>,
    r: int,
) -> spec_fn(int) -> TokenView<S> {
    |t: int| tokens(r, t)
}

/// Element `i` of the state after all tokens.
pub open spec fn state_value<S: Scalar, T: Element<S>>(
    state: Seq<T>,
    tokens: spec_fn(int, int) -> TokenView<S>,
    sh: DeltaShape,
    i: int,
) -> T {
    let r = i / sh.dk as int;
    T::narrowed(
        row_after(state_row(state, sh.dk as int, r), row_tokens(tokens, r), sh.t as int)[i
            % sh.dk as int],
    )
}

/// What a token left at value element `i`, if it was live.
pub open spec fn value_step<S: Scalar, T: Element<S>>(
    state: Seq<T>,
    tokens: spec_fn(int, int) -> TokenView<S>,
    sh: DeltaShape,
    i: int,
) -> Option<Step<S>> {
    let r = sh.row_of_value(i);
    step_at(state_row(state, sh.dk as int, r), row_tokens(tokens, r), sh.time_of_value(i))
}

/// Element `i` of what the tokens read.
pub open spec fn y_value<S: Scalar, T: Element<S>>(
    state: Seq<T>,
    tokens: spec_fn(int, int) -> TokenView<S>,
    sh: DeltaShape,
    i: int,
) -> Option<T> {
    match value_step(state, tokens, sh, i) {
        Some(step) => Some(T::narrowed(step.y)),
        None => None,
    }
}

/// Element `i` of the tape of deltas.
pub open spec fn delta_value<S: Scalar, T: Element<S>>(
    state: Seq<T>,
    tokens: spec_fn(int, int) -> TokenView<S>,
    sh: DeltaShape,
    i: int,
) -> Option<T> {
    match value_step(state, tokens, sh, i) {
        Some(step) => Some(T::narrowed(step.delta)),
        None => None,
    }
}

/// `rows` are what the tokens make of `state`.
pub open spec fn all_ran<S: Scalar, T: Element<S>>(
    rows: Seq<RowRun<S>>,
    state: Seq<T>,
    tokens: spec_fn(int, int) -> TokenView<S>,
    sh: DeltaShape,
) -> bool {
    &&& rows.len() == sh.rows()
    &&& forall|r: int|
        0 <= r < rows.len() ==> ran(
            #[trigger] rows[r],
            state_row(state, sh.dk as int, r),
            row_tokens(tokens, r),
            sh.t as int,
        )
}

/// Runs every row over its tokens.
pub fn run_rows<S: Scalar, T: Element<S>, F: Fn(usize, usize) -> Token<S>>(
    state_in: &[T],
    sh: DeltaShape,
    feed: F,
    tokens: Ghost<spec_fn(int, int) -> TokenView<S>>,
) -> (rows: Vec<RowRun<S>>)
    requires
        sh.valid(),
        state_in@.len() == sh.rows() * sh.dk,
        forall|r: usize, t: usize|
            r < sh.rows() && t < sh.t ==> call_requires(feed, (r, t)),
        forall|r: usize, t: usize, tok: Token<S>|
            r < sh.rows() && t < sh.t && call_ensures(feed, (r, t), tok) ==> {
                &&& tok@ == (tokens@)(r as int, t as int)
                &&& tok@.q.len() == sh.dk
                &&& tok@.k.len() == sh.dk
            },
    ensures
        all_ran(rows@, state_in@, tokens@, sh),
{
    let n: usize = state_in.len() / sh.dk;
    proof {
        lemma_rows_of(sh.rows(), sh.dk as int);
        lemma_len_fits(state_in);
    }
    let rows = collect(
        n,
        |r: usize| -> (run: RowRun<S>)
            requires
                r < n
            ensures
                ran(
                    run,
                    state_row(state_in@, sh.dk as int, r as int),
                    row_tokens(tokens@, r as int),
                    sh.t as int,
                )
            {
                let state = collect(
                    sh.dk,
                    |i: usize| -> (v: S)
                        requires
                            i < sh.dk
                        ensures
                            v == state_in@[r * sh.dk + i].widened()
                        {
                            let at: usize = flat(r, i, sh.dk, Ghost(sh.rows()));
                            state_in[at].widen()
                        },
                    Ghost(|i: int, v: S| v == state_in@[r * sh.dk + i].widened()),
                );
                assert(state@ =~= state_row(state_in@, sh.dk as int, r as int));
                run_row(
                    state,
                    |t: usize| -> (tok: Token<S>)
                        requires
                            t < sh.t
                        ensures
                            tok@ == (tokens@)(r as int, t as int),
                            tok@.q.len() == sh.dk,
                            tok@.k.len() == sh.dk
                        { feed(r, t) },
                    sh.t,
                    Ghost(row_tokens(tokens@, r as int)),
                )
            },
        Ghost(
            |r: int, run: RowRun<S>|
                ran(
                    run,
                    state_row(state_in@, sh.dk as int, r),
                    row_tokens(tokens@, r),
                    sh.t as int,
                ),
        ),
    );
    rows
}

/// Writes the rows back.
pub fn store_state<S: Scalar, T: Element<S>>(
    rows: &Vec<RowRun<S>>,
    state_out: &mut Vec<T>,
    sh: DeltaShape,
    state: Ghost<Seq<T>>,
    tokens: Ghost<spec_fn(int, int) -> TokenView<S>>,
)
    requires
        sh.valid(),
        all_ran(rows@, state@, tokens@, sh),
        old(state_out)@.len() == sh.rows() * sh.dk,
    ensures
        final(state_out)@ =~= Seq::new(
            old(state_out)@.len(),
            |i: int| state_value(state@, tokens@, sh, i),
        ),
{
    let ghost n = state_out@.len();
    launch(
        state_out,
        |i: usize| -> (v: T)
            requires
                i < n
            ensures
                v == state_value(state@, tokens@, sh, i as int)
            {
                proof {
                    lemma_split(i as int, sh.rows(), sh.dk as int);
                    let r = i as int / sh.dk as int;
                    lemma_row_len(
                        state_row(state@, sh.dk as int, r),
                        row_tokens(tokens@, r),
                        sh.t as int,
                    );
                }
                let run = &rows[i / sh.dk];
                T::narrow(&run.state[i % sh.dk])
            },
        Ghost(|i: int| state_value(state@, tokens@, sh, i)),
    );
}

/// Writes what the live tokens read.
pub fn store_y<S: Scalar, T: Element<S>>(
    rows: &Vec<RowRun<S>>,
    y: &mut Vec<T>,
    sh: DeltaShape,
    state: Ghost<Seq<T>>,
    tokens: Ghost<spec_fn(int, int) -> TokenView<S>>,
)
    requires
        sh.valid(),
        all_ran(rows@, state@, tokens@, sh),
        old(y)@.len() == sh.values(),
    ensures
        final(y)@ =~= Seq::new(
            old(y)@.len(),
            |i: int|
                match y_value(state@, tokens@, sh, i) {
                    Some(v) => v,
                    None => old(y)@[i],
                },
        ),
{
    let ghost n = y@.len();
    launch_some(
        y,
        |i: usize| -> (v: Option<T>)
            requires
                i < n
            ensures
                v == y_value(state@, tokens@, sh, i as int)
            {
                let step = value_step_of(rows, i, sh, state, tokens);
                match step {
                    Some(s) => Some(T::narrow(&s.y)),
                    None => None,
                }
            },
        Ghost(|i: int| y_value(state@, tokens@, sh, i)),
    );
}

/// Writes the tape of deltas.
pub fn store_delta<S: Scalar, T: Element<S>>(
    rows: &Vec<RowRun<S>>,
    delta_log: &mut Vec<T>,
    sh: DeltaShape,
    state: Ghost<Seq<T>>,
    tokens: Ghost<spec_fn(int, int) -> TokenView<S>>,
)
    requires
        sh.valid(),
        all_ran(rows@, state@, tokens@, sh),
        old(delta_log)@.len() == sh.values(),
    ensures
        final(delta_log)@ =~= Seq::new(
            old(delta_log)@.len(),
            |i: int|
                match delta_value(state@, tokens@, sh, i) {
                    Some(v) => v,
                    None => old(delta_log)@[i],
                },
        ),
{
    let ghost n = delta_log@.len();
    launch_some(
        delta_log,
        |i: usize| -> (v: Option<T>)
            requires
                i < n
            ensures
                v == delta_value(state@, tokens@, sh, i as int)
            {
                let step = value_step_of(rows, i, sh, state, tokens);
                match step {
                    Some(s) => Some(T::narrow(&s.delta)),
                    None => None,
                }
            },
        Ghost(|i: int| delta_value(state@, tokens@, sh, i)),
    );
}

/// The step that value element `i` comes from.
fn value_step_of<'a, S: Scalar, T: Element<S>>(
    rows: &'a Vec<RowRun<S>>,
    i: usize,
    sh: DeltaShape,
    state: Ghost<Seq<T>>,
    tokens: Ghost<spec_fn(int, int) -> TokenView<S>>,
) -> (step: &'a Option<Step<S>>)
    requires
        sh.valid(),
        all_ran(rows@, state@, tokens@, sh),
        i < sh.values(),
    ensures
        *step == value_step(state@, tokens@, sh, i as int),
{
    proof {
        lemma_value(sh, i as int);
    }
    let bt: usize = i / sh.dv / sh.hv;
    let n: usize = rows.len();
    assert(n == sh.rows());
    let r: usize = flat3(
        bt / sh.t,
        i / sh.dv % sh.hv,
        sh.hv,
        i % sh.dv,
        sh.dv,
        Ghost(sh.batch as int),
    );
    &rows[r].steps[bt % sh.t]
}

/// What row `r` sees of token `t` of a chunk: `q` and `k` are `[batch, t, hk, dk]`,
/// `v` is `[batch, t, hv, dv]`, `g` and `beta` are `[batch, t, hv]`.
pub open spec fn chunk_token<S: Scalar, T: Element<S>>(
    q: Seq<T>,
    k: Seq<T>,
    v: Seq<T>,
    g: Seq<T>,
    beta: Seq<T>,
    sh: DeltaShape,
    r: int,
    t: int,
) -> TokenView<S> {
    let bt = sh.batch_of(r) * sh.t + t;
    let h = sh.head_of(r);
    let qk = bt * sh.hk + sh.key_head(h);
    TokenView {
        q: Seq::new(sh.dk as nat, |i: int| q[qk * sh.dk + i].widened()),
        k: Seq::new(sh.dk as nat, |i: int| k[qk * sh.dk + i].widened()),
        v: v[(bt * sh.hv + h) * sh.dv + sh.dim_of(r)].widened(),
        g: g[bt * sh.hv + h].widened(),
        beta: beta[bt * sh.hv + h].widened(),
        live: true,
    }
}

pub open spec fn chunk_tokens<S: Scalar, T: Element<S>>(
    q: Seq<T>,
    k: Seq<T>,
    v: Seq<T>,
    g: Seq<T>,
    beta: Seq<T>,
    sh: DeltaShape,
) -> spec_fn(int, int) -> TokenView<S> {
    |r: int, t: int| chunk_token(q, k, v, g, beta, sh, r, t)
}

/// The lengths of a chunk's inputs.
pub open spec fn chunk_fits<T>(
    q: Seq<T>,
    k: Seq<T>,
    v: Seq<T>,
    g: Seq<T>,
    beta: Seq<T>,
    sh: DeltaShape,
) -> bool {
    &&& q.len() == ((sh.batch * sh.t) * sh.hk) * sh.dk
    &&& k.len() == q.len()
    &&& v.len() == sh.values()
    &&& g.len() == (sh.batch * sh.t) * sh.hv
    &&& beta.len() == g.len()
}

/// Widens `n` elements from `start` on.
pub fn widen_row<S: Scalar, T: Element<S>>(x: &[T], start: usize, n: usize) -> (row: Vec<S>)
    requires
        start + n <= x@.len(),
    ensures
        row@ == Seq::new(n as nat, |i: int| x@[start + i].widened()),
{
    proof {
        lemma_len_fits(x);
    }
    let row = collect(
        n,
        |i: usize| -> (v: S)
            requires
                i < n
            ensures
                v == x@[start + i].widened()
            { x[start + i].widen() },
        Ghost(|i: int, v: S| v == x@[start + i].widened()),
    );
    assert(row@ =~= Seq::new(n as nat, |i: int| x@[start + i].widened()));
    row
}

/// Loads what row `r` sees of token `t`.
pub fn load_token<S: Scalar, T: Element<S>>(
    q: &[T],
    k: &[T],
    v: &[T],
    g: &[T],
    beta: &[T],
    sh: DeltaShape,
    r: usize,
    t: usize,
) -> (tok: Token<S>)
    requires
        sh.valid(),
        chunk_fits(q@, k@, v@, g@, beta@, sh),
        r < sh.rows(),
        t < sh.t,
    ensures
        tok@ == chunk_token(q@, k@, v@, g@, beta@, sh, r as int, t as int),
        tok@.q.len() == sh.dk,
        tok@.k.len() == sh.dk,
{
    proof {
        lemma_row(sh, r as int);
        lemma_len_fits(q);
        lemma_len_fits(v);
        lemma_len_fits(g);
    }
    let b: usize = r / sh.dv / sh.hv;
    let h: usize = r / sh.dv % sh.hv;
    proof {
        lemma_key_head(sh, h as int);
        lemma_row_major(b as int, sh.batch as int, t as int, sh.t as int);
        lemma_row_major(b * sh.t + t, sh.batch * sh.t, h as int, sh.hv as int);
    }
    let kh: usize = h / (sh.hv / sh.hk);
    let gb: usize = flat3(b, t, sh.t, h, sh.hv, Ghost(sh.batch as int));
    proof {
        lemma_mul_at_least(sh.batch * sh.t, sh.hv as int);
    }
    let bt: usize = flat(b, t, sh.t, Ghost(sh.batch as int));
    let start: usize = flat3(bt, kh, sh.hk, 0, sh.dk, Ghost(sh.batch * sh.t));
    proof {
        lemma_row_major(bt as int, sh.batch * sh.t, kh as int, sh.hk as int);
        lemma_row_major(bt * sh.hk + kh, (sh.batch * sh.t) * sh.hk, 0, sh.dk as int);
    }
    let at: usize = flat3(bt, h, sh.hv, r % sh.dv, sh.dv, Ghost(sh.batch * sh.t));
    let tok = Token {
        q: widen_row(q, start, sh.dk),
        k: widen_row(k, start, sh.dk),
        v: v[at].widen(),
        g: g[gb].widen(),
        beta: beta[gb].widen(),
        live: true,
    };
    assert(tok@ =~= chunk_token(q@, k@, v@, g@, beta@, sh, r as int, t as int));
    tok
}

/// The gated delta rule over a chunk of `t_len[0]` tokens.
pub fn mt_gated_delta_chunk<S: Scalar, T: Element<S>>(
    q: &[T],
    k: &[T],
    v: &[T],
    g: &[T],
    beta: &[T],
    state_in: &[T],
    state_out: &mut Vec<T>,
    y: &mut Vec<T>,
    t_len: &[u32],
    dk: u32,
    dv: u32,
    hv: u32,
    hk: u32,
    batch: u32,
)
    requires
        t_len@.len() >= 1,
        delta_shape(batch, t_len@[0], hk, hv, dk, dv).valid(),
        chunk_fits(q@, k@, v@, g@, beta@, delta_shape(batch, t_len@[0], hk, hv, dk, dv)),
        state_in@.len() == delta_shape(batch, t_len@[0], hk, hv, dk, dv).rows() * dk,
        old(state_out)@.len() == state_in@.len(),
        old(y)@.len() == v@.len(),
    ensures
        ({
            let sh = delta_shape(batch, t_len@[0], hk, hv, dk, dv);
            let tokens = chunk_tokens::<S, T>(q@, k@, v@, g@, beta@, sh);
            &&& final(state_out)@ =~= Seq::new(
                old(state_out)@.len(),
                |i: int| state_value(state_in@, tokens, sh, i),
            )
            &&& final(y)@.len() == old(y)@.len()
            &&& forall|i: int|
                0 <= i < final(y)@.len() ==> Some(#[trigger] final(y)@[i]) == y_value(
                    state_in@,
                    tokens,
                    sh,
                    i,
                )
        }),
{
    let sh = DeltaShape {
        batch: batch as usize,
        t: t_len[0] as usize,
        hk: hk as usize,
        hv: hv as usize,
        dk: dk as usize,
        dv: dv as usize,
    };
    let ghost tokens = chunk_tokens::<S, T>(q@, k@, v@, g@, beta@, sh);
    let rows = run_rows(
        state_in,
        sh,
        |r: usize, t: usize| -> (tok: Token<S>)
            requires
                r < sh.rows(),
                t < sh.t
            ensures
                tok@ == chunk_token(q@, k@, v@, g@, beta@, sh, r as int, t as int),
                tok@.q.len() == sh.dk,
                tok@.k.len() == sh.dk
            { load_token(q, k, v, g, beta, sh, r, t) },
        Ghost(tokens),
    );
    store_state(&rows, state_out, sh, Ghost(state_in@), Ghost(tokens));
    store_y(&rows, y, sh, Ghost(state_in@), Ghost(tokens));
}

pub open spec fn delta_shape(
    batch: u32,
    t: u32,
    hk: u32,
    hv: u32,
    dk: u32,
    dv: u32,
) -> DeltaShape {
    DeltaShape {
        batch: batch as usize,
        t: t as usize,
        hk: hk as usize,
        hv: hv as usize,
        dk: dk as usize,
        dv: dv as usize,
    }
}

/// What row `r` sees of the one token of a decode step: `q` and `k` are
/// `[batch, hk, dk]`, `v` is `[batch, hv, dv]`, `g` and `beta` are `[batch, hv]`.
pub open spec fn step_token<S: Scalar, T: Element<S>>(
    q: Seq<T>,
    k: Seq<T>,
    v: Seq<T>,
    g: Seq<T>,
    beta: Seq<T>,
    sh: DeltaShape,
    r: int,
) -> TokenView<S> {
    let n = r / sh.dv as int;
    let qk = sh.batch_of(r) * sh.hk + sh.key_head(sh.head_of(r));
    TokenView {
        q: Seq::new(sh.dk as nat, |i: int| q[qk * sh.dk + i].widened()),
        k: Seq::new(sh.dk as nat, |i: int| k[qk * sh.dk + i].widened()),
        v: v[r].widened(),
        g: g[n].widened(),
        beta: beta[n].widened(),
        live: true,
    }
}

/// Element `i` of the state after a decode step.
pub open spec fn step_state<S: Scalar, T: Element<S>>(
    q: Seq<T>,
    k: Seq<T>,
    v: Seq<T>,
    g: Seq<T>,
    beta: Seq<T>,
    state: Seq<T>,
    sh: DeltaShape,
    i: int,
) -> T {
    let r = i / sh.dk as int;
    T::narrowed(
        stepped(
            state_row::<S, T>(state, sh.dk as int, r),
            step_token(q, k, v, g, beta, sh, r),
        )[i % sh.dk as int],
    )
}

/// Element `r` of what a decode step reads.
pub open spec fn step_y<S: Scalar, T: Element<S>>(
    q: Seq<T>,
    k: Seq<T>,
    v: Seq<T>,
    g: Seq<T>,
    beta: Seq<T>,
    state: Seq<T>,
    sh: DeltaShape,
    r: int,
) -> T {
    T::narrowed(
        read_of(
            state_row::<S, T>(state, sh.dk as int, r),
            step_token(q, k, v, g, beta, sh, r),
        ),
    )
}

/// The one token of a chunk of one is the token of a decode step.
pub proof fn lemma_one_token<S: Scalar, T: Element<S>>(
    q: Seq<T>,
    k: Seq<T>,
    v: Seq<T>,
    g: Seq<T>,
    beta: Seq<T>,
    sh: DeltaShape,
    r: int,
)
    requires
        sh.valid(),
        sh.t == 1,
        0 <= r < sh.rows(),
    ensures
        chunk_token::<S, T>(q, k, v, g, beta, sh, r, 0) == step_token::<S, T>(
            q,
            k,
            v,
            g,
            beta,
            sh,
            r,
        ),
{
    lemma_row(sh, r);
    let b = sh.batch_of(r);
    assert(b * sh.t + 0 == b) by (nonlinear_arith)
        requires
            sh.t == 1,
    ;
    vstd::arithmetic::div_mod::lemma_fundamental_div_mod(r / sh.dv as int, sh.hv as int);
    assert(b * sh.hv == sh.hv * b) by (nonlinear_arith);
    assert(chunk_token::<S, T>(q, k, v, g, beta, sh, r, 0) =~= step_token::<S, T>(
        q,
        k,
        v,
        g,
        beta,
        sh,
        r,
    ));
}

/// A chunk of one token is a decode step.
pub proof fn law_chunk_of_one_is_step<S: Scalar, T: Element<S>>(
    q: Seq<T>,
    k: Seq<T>,
    v: Seq<T>,
    g: Seq<T>,
    beta: Seq<T>,
    state: Seq<T>,
    sh: DeltaShape,
)
    requires
        sh.valid(),
        sh.t == 1,
    ensures
        forall|i: int|
            0 <= i < sh.rows() * sh.dk ==> #[trigger] state_value(
                state,
                chunk_tokens::<S, T>(q, k, v, g, beta, sh),
                sh,
                i,
            ) == step_state::<S, T>(q, k, v, g, beta, state, sh, i),
        forall|i: int|
            0 <= i < sh.rows() ==> #[trigger] y_value(
                state,
                chunk_tokens::<S, T>(q, k, v, g, beta, sh),
                sh,
                i,
            ) == Some(step_y::<S, T>(q, k, v, g, beta, state, sh, i)),
        sh.values() == sh.rows(),
{
    let tokens = chunk_tokens::<S, T>(q, k, v, g, beta, sh);
    assert(sh.batch * sh.t == sh.batch) by (nonlinear_arith)
        requires
            sh.t == 1,
    ;
    assert forall|i: int| 0 <= i < sh.rows() * sh.dk implies #[trigger] state_value(
        state,
        tokens,
        sh,
        i,
    ) == step_state::<S, T>(q, k, v, g, beta, state, sh, i) by {
        lemma_split(i, sh.rows(), sh.dk as int);
        let r = i / sh.dk as int;
        lemma_one_token::<S, T>(q, k, v, g, beta, sh, r);
        let row = state_row::<S, T>(state, sh.dk as int, r);
        reveal_with_fuel(row_after, 2);
        assert(row_tokens(tokens, r)(0) == step_token::<S, T>(q, k, v, g, beta, sh, r));
    }
    assert forall|i: int| 0 <= i < sh.rows() implies #[trigger] y_value(
        state,
        tokens,
        sh,
        i,
    ) == Some(step_y::<S, T>(q, k, v, g, beta, state, sh, i)) by {
        lemma_value(sh, i);
        lemma_row(sh, i);
        lemma_one_token::<S, T>(q, k, v, g, beta, sh, i);
        assert(sh.row_of_value(i) == i);
        assert(sh.time_of_value(i) == 0);
        assert(row_tokens(tokens, i)(0) == step_token::<S, T>(q, k, v, g, beta, sh, i));
    }
}

/// The gated delta rule for one token.
pub fn mt_gated_delta_step<S: Scalar, T: Element<S>>(
    q: &[T],
    k: &[T],
    v: &[T],
    g: &[T],
    beta: &[T],
    state_in: &[T],
    state_out: &mut Vec<T>,
    y: &mut Vec<T>,
    dk: u32,
    dv: u32,
    hv: u32,
    hk: u32,
    batch: u32,
)
    requires
        delta_shape(batch, 1, hk, hv, dk, dv).valid(),
        q@.len() == (batch * hk) * dk,
        k@.len() == q@.len(),
        v@.len() == (batch * hv) * dv,
        g@.len() == batch * hv,
        beta@.len() == g@.len(),
        state_in@.len() == ((batch * hv) * dv) * dk,
        old(state_out)@.len() == state_in@.len(),
        old(y)@.len() == v@.len(),
    ensures
        ({
            let sh = delta_shape(batch, 1, hk, hv, dk, dv);
            &&& final(state_out)@ =~= Seq::new(
                old(state_out)@.len(),
                |i: int| step_state::<S, T>(q@, k@, v@, g@, beta@, state_in@, sh, i),
            )
            &&& final(y)@ =~= Seq::new(
                old(y)@.len(),
                |r: int| step_y::<S, T>(q@, k@, v@, g@, beta@, state_in@, sh, r),
            )
        }),
{
    let sh = DeltaShape {
        batch: batch as usize,
        t: 1,
        hk: hk as usize,
        hv: hv as usize,
        dk: dk as usize,
        dv: dv as usize,
    };
    proof {
        assert(sh.batch * sh.t == sh.batch);
        law_chunk_of_one_is_step::<S, T>(q@, k@, v@, g@, beta@, state_in@, sh);
    }
    let ghost tokens = chunk_tokens::<S, T>(q@, k@, v@, g@, beta@, sh);
    let rows = run_rows(
        state_in,
        sh,
        |r: usize, t: usize| -> (tok: Token<S>)
            requires
                r < sh.rows(),
                t < sh.t
            ensures
                tok@ == chunk_token(q@, k@, v@, g@, beta@, sh, r as int, t as int),
                tok@.q.len() == sh.dk,
                tok@.k.len() == sh.dk
            { load_token(q, k, v, g, beta, sh, r, t) },
        Ghost(tokens),
    );
    store_state(&rows, state_out, sh, Ghost(state_in@), Ghost(tokens));
    store_y(&rows, y, sh, Ghost(state_in@), Ghost(tokens));
}

} // verus!
