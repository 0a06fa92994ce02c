//! What the threads of a launch do together.
use vstd::prelude::*;

use crate::layout::flat;
use crate::scalar::{plus, s_add, s_mul, s_zero, times, zero, Op, Scalar};

verus! {

/// `start + term(0) + .. + term(n - 1)`, added from the left.
pub open spec fn accumulate<S: Scalar>(start: S, term: spec_fn(int) -> S, n: int) -> S
    decreases n,
{
    if n <= 0 {
        start
    } else {
        plus(accumulate(start, term, n - 1), term(n - 1))
    }
}

/// Rounds in which `width` threads visit `n` positions.
pub open spec fn rounds(n: int, width: int) -> int {
    (n + width - 1) / width
}

/// Terms `d * per` up to the next multiple of `per`.
pub open spec fn pack_terms<S>(term: spec_fn(int) -> S, per: int, d: int) -> spec_fn(int) -> S {
    |i: int| term(d * per + i)
}

/// What thread `t` of `width` adds up in `count` rounds: it visits packs `t`,
/// `t + width`, `t + 2 * width` and so on, as far as they are below `n`, and adds
/// the `per` terms of each.
pub open spec fn strided<S: Scalar>(
    term: spec_fn(int) -> S,
    per: int,
    t: int,
    width: int,
    n: int,
    count: int,
) -> S
    decreases count,
{
    if count <= 0 {
        zero()
    } else {
        let d = (count - 1) * width + t;
        let before = strided(term, per, t, width, n, count - 1);
        if d < n {
            accumulate(before, pack_terms(term, per, d), per)
        } else {
            before
        }
    }
}

/// The sum over the lanes of a group, in lane order.
pub open spec fn lane_sum<S: Scalar>(parts: Seq<S>) -> S
    decreases parts.len(),
{
    if parts.len() <= 1 {
        parts[0]
    } else {
        plus(lane_sum(parts.drop_last()), parts.last())
    }
}

/// The sum of `n` packs of `per` terms, each thread of a group adding up its stride.
pub open spec fn group_sum<S: Scalar>(
    term: spec_fn(int) -> S,
    per: int,
    width: int,
    n: int,
) -> S {
    lane_sum(Seq::new(width as nat, |t: int| strided(term, per, t, width, n, rounds(n, width))))
}

/// The largest of the lanes, in lane order.
pub open spec fn lane_max<S: Scalar>(parts: Seq<S>) -> S
    decreases parts.len(),
{
    if parts.len() <= 1 {
        parts[0]
    } else {
        S::combined(Op::Max, lane_max(parts.drop_last()), parts.last())
    }
}

/// What thread `t` of `width` makes of `start` in `count` rounds: it visits positions
/// `t`, `t + width` and so on, as far as they are below `n`.
pub open spec fn visited<A>(
    start: A,
    visit: spec_fn(A, int) -> A,
    t: int,
    width: int,
    n: int,
    count: int,
) -> A
    decreases count,
{
    if count <= 0 {
        start
    } else {
        let pos = (count - 1) * width + t;
        let before = visited(start, visit, t, width, n, count - 1);
        if pos < n {
            visit(before, pos)
        } else {
            before
        }
    }
}

/// Runs one thread per element of `out`.
pub fn launch<T, F: Fn(usize) -> T>(out: &mut Vec<T>, thread: F, value: Ghost<spec_fn(int) -> T>)
    requires
        forall|i: usize| i < old(out)@.len() ==> call_requires(thread, (i,)),
        forall|i: usize, r: T|
            i < old(out)@.len() && call_ensures(thread, (i,), r) ==> r == (value@)(i as int),
    ensures
        final(out)@ =~= Seq::new(old(out)@.len(), value@),
{
    let n: usize = out.len();
    let mut i: usize = 0;
    while i < n
        invariant
            i <= n,
            n == out@.len(),
            n == old(out)@.len(),
            forall|i: usize| i < old(out)@.len() ==> call_requires(thread, (i,)),
            forall|i: usize, r: T|
                i < old(out)@.len() && call_ensures(thread, (i,), r) ==> r == (value@)(i as int),
            forall|j: int| 0 <= j < i ==> out@[j] == (value@)(j),
        decreases n - i,
    {
        let r = thread(i);
        out.set(i, r);
        i = i + 1;
    }
}

/// Runs one thread per element of `out`; a thread may leave its element as it is.
pub fn launch_some<T, F: Fn(usize) -> Option<T>>(
    out: &mut Vec<T>,
    thread: F,
    value: Ghost<spec_fn(int) -> Option<T>>,
)
    requires
        forall|i: usize| i < old(out)@.len() ==> call_requires(thread, (i,)),
        forall|i: usize, r: Option<T>|
            i < old(out)@.len() && call_ensures(thread, (i,), r) ==> r == (value@)(i as int),
    ensures
        final(out)@ =~= Seq::new(
            old(out)@.len(),
            |i: int|
                match (value@)(i) {
                    Some(v) => v,
                    None => old(out)@[i],
                },
        ),
{
    let n: usize = out.len();
    let mut i: usize = 0;
    while i < n
        invariant
            i <= n,
            n == out@.len(),
            n == old(out)@.len(),
            forall|i: usize| i < old(out)@.len() ==> call_requires(thread, (i,)),
            forall|i: usize, r: Option<T>|
                i < old(out)@.len() && call_ensures(thread, (i,), r) ==> r == (value@)(i as int),
            forall|j: int|
                0 <= j < i ==> out@[j] == match (value@)(j) {
                    Some(v) => v,
                    None => old(out)@[j],
                },
            forall|j: int| i <= j < n ==> out@[j] == old(out)@[j],
        decreases n - i,
    {
        if let Some(v) = thread(i) {
            out.set(i, v);
        }
        i = i + 1;
    }
}

/// Runs one thread per row of results; row `i` satisfies `ok`.
pub fn collect<R, F: Fn(usize) -> R>(n: usize, f: F, ok: Ghost<spec_fn(int, R) -> bool>) -> (v: Vec<R>)
    requires
        forall|i: usize| i < n ==> call_requires(f, (i,)),
        forall|i: usize, r: R| i < n && call_ensures(f, (i,), r) ==> (ok@)(i as int, r),
    ensures
        v@.len() == n,
        forall|i: int| 0 <= i < n ==> (ok@)(i, #[trigger] v@[i]),
{
    let mut v: Vec<R> = Vec::new();
    let mut i: usize = 0;
    while i < n
        invariant
            i <= n,
            v@.len() == i,
            forall|i: usize| i < n ==> call_requires(f, (i,)),
            forall|i: usize, r: R| i < n && call_ensures(f, (i,), r) ==> (ok@)(i as int, r),
            forall|j: int| 0 <= j < i ==> (ok@)(j, #[trigger] v@[j]),
        decreases n - i,
    {
        let r = f(i);
        v.push(r);
        i = i + 1;
    }
    v
}

/// Adds up `term` over `0..n`.
pub fn accumulated<S: Scalar, F: Fn(usize) -> S>(
    start: S,
    f: F,
    n: usize,
    term: Ghost<spec_fn(int) -> S>,
) -> (r: S)
    requires
        forall|i: usize| i < n ==> call_requires(f, (i,)),
        forall|i: usize, r: S| i < n && call_ensures(f, (i,), r) ==> r == (term@)(i as int),
    ensures
        r == accumulate(start, term@, n as int),
{
    let ghost first = start;
    let mut acc = start;
    let mut i: usize = 0;
    while i < n
        invariant
            i <= n,
            forall|i: usize| i < n ==> call_requires(f, (i,)),
            forall|i: usize, r: S| i < n && call_ensures(f, (i,), r) ==> r == (term@)(i as int),
            acc == accumulate(first, term@, i as int),
        decreases n - i,
    {
        let v = f(i);
        acc = s_add(&acc, &v);
        i = i + 1;
    }
    acc
}

/// Adds the lanes of a group.
pub fn lane_summed<S: Scalar>(parts: &Vec<S>) -> (r: S)
    requires
        parts@.len() >= 1,
    ensures
        r == lane_sum(parts@),
{
    let mut acc = parts[0].dup();
    let mut i: usize = 1;
    assert(parts@.take(1).len() == 1);
    while i < parts.len()
        invariant
            1 <= i <= parts@.len(),
            acc == lane_sum(parts@.take(i as int)),
        decreases parts@.len() - i,
    {
        acc = s_add(&acc, &parts[i]);
        assert(parts@.take(i + 1).drop_last() =~= parts@.take(i as int));
        i = i + 1;
    }
    assert(parts@.take(i as int) =~= parts@);
    acc
}

/// The largest of the lanes of a group.
pub fn lane_maximum<S: Scalar>(parts: &Vec<S>) -> (r: S)
    requires
        parts@.len() >= 1,
    ensures
        r == lane_max(parts@),
{
    let mut acc = parts[0].dup();
    let mut i: usize = 1;
    assert(parts@.take(1).len() == 1);
    while i < parts.len()
        invariant
            1 <= i <= parts@.len(),
            acc == lane_max(parts@.take(i as int)),
        decreases parts@.len() - i,
    {
        acc = S::combine(Op::Max, &acc, &parts[i]);
        assert(parts@.take(i + 1).drop_last() =~= parts@.take(i as int));
        i = i + 1;
    }
    assert(parts@.take(i as int) =~= parts@);
    acc
}

/// What thread `t` of `width` makes of `start`.
pub fn strided_visited<A, F: Fn(A, usize) -> A>(
    start: A,
    f: &F,
    t: usize,
    width: usize,
    n: usize,
    visit: Ghost<spec_fn(A, int) -> A>,
) -> (acc: A)
    requires
        t < width,
        forall|a: A, i: usize| i < n ==> call_requires(*f, (a, i)),
        forall|a: A, i: usize, r: A|
            i < n && call_ensures(*f, (a, i), r) ==> r == (visit@)(a, i as int),
    ensures
        acc == visited(
            start,
            visit@,
            t as int,
            width as int,
            n as int,
            rounds(n as int, width as int),
        ),
{
    let ghost first = start;
    let count: usize = round_count(n, width);
    let mut acc = start;
    let mut k: usize = 0;
    while k < count
        invariant
            k <= count,
            t < width,
            count == rounds(n as int, width as int),
            forall|a: A, i: usize| i < n ==> call_requires(*f, (a, i)),
            forall|a: A, i: usize, r: A|
                i < n && call_ensures(*f, (a, i), r) ==> r == (visit@)(a, i as int),
            acc == visited(first, visit@, t as int, width as int, n as int, k as int),
        decreases count - k,
    {
        proof {
            lemma_round_fits(k as int, count as int, t as int, width as int, n as int);
        }
        let start: usize = k * width;
        if t < n - start {
            acc = f(acc, start + t);
        }
        k = k + 1;
    }
    acc
}

/// Rounds in which `width` threads visit `n` positions.
pub fn round_count(n: usize, width: usize) -> (count: usize)
    requires
        width >= 1,
    ensures
        count == rounds(n as int, width as int),
{
    proof {
        lemma_rounds(n as int, width as int);
    }
    let mut count: usize = n / width;
    if n % width != 0 {
        count = count + 1;
    }
    count
}

/// What thread `t` of `width` adds up.
pub fn strided_summed<S: Scalar, F: Fn(usize) -> S>(
    f: &F,
    per: usize,
    t: usize,
    width: usize,
    n: usize,
    term: Ghost<spec_fn(int) -> S>,
) -> (acc: S)
    requires
        t < width,
        n * per <= usize::MAX,
        forall|i: usize| i < n * per ==> call_requires(*f, (i,)),
        forall|i: usize, r: S| i < n * per && call_ensures(*f, (i,), r) ==> r == (term@)(i as int),
    ensures
        acc == strided(
            term@,
            per as int,
            t as int,
            width as int,
            n as int,
            rounds(n as int, width as int),
        ),
{
    let count: usize = round_count(n, width);
    let mut acc = s_zero::<S>();
    let mut k: usize = 0;
    while k < count
        invariant
            k <= count,
            t < width,
            n * per <= usize::MAX,
            count == rounds(n as int, width as int),
            forall|i: usize| i < n * per ==> call_requires(*f, (i,)),
            forall|i: usize, r: S|
                i < n * per && call_ensures(*f, (i,), r) ==> r == (term@)(i as int),
            acc == strided(term@, per as int, t as int, width as int, n as int, k as int),
        decreases count - k,
    {
        proof {
            lemma_round_fits(k as int, count as int, t as int, width as int, n as int);
        }
        let start: usize = k * width;
        if t < n - start {
            let d: usize = start + t;
            acc = accumulated(
                acc,
                |i: usize| -> (r: S)
                    requires
                        i < per
                    ensures
                        r == pack_terms(term@, per as int, d as int)(i as int)
                    { f(flat(d, i, per, Ghost(n as int))) },
                per,
                Ghost(pack_terms(term@, per as int, d as int)),
            );
        }
        k = k + 1;
    }
    acc
}

/// The sum of `n` packs of `per` terms by a group of `width` threads.
pub fn group_summed<S: Scalar, F: Fn(usize) -> S>(
    f: F,
    per: usize,
    width: usize,
    n: usize,
    term: Ghost<spec_fn(int) -> S>,
) -> (r: S)
    requires
        width >= 1,
        n * per <= usize::MAX,
        forall|i: usize| i < n * per ==> call_requires(f, (i,)),
        forall|i: usize, r: S| i < n * per && call_ensures(f, (i,), r) ==> r == (term@)(i as int),
    ensures
        r == group_sum(term@, per as int, width as int, n as int),
{
    let ghost count = rounds(n as int, width as int);
    let parts = collect(
        width,
        |t: usize| -> (v: S)
            requires
                t < width
            ensures
                v == strided(term@, per as int, t as int, width as int, n as int, count)
            { strided_summed(&f, per, t, width, n, term) },
        Ghost(
            |t: int, v: S|
                v == strided(term@, per as int, t, width as int, n as int, count),
        ),
    );
    assert(parts@ =~= Seq::new(
        width as nat,
        |t: int| strided(term@, per as int, t, width as int, n as int, count),
    ));
    lane_summed(&parts)
}

/// The halves of a group joined pairwise, the upper half into the lower one, until
/// one is left.
pub open spec fn tree<A>(parts: Seq<A>, join: spec_fn(A, A) -> A) -> A
    decreases parts.len(),
{
    if parts.len() <= 1 {
        parts[0]
    } else {
        let h = parts.len() / 2;
        tree(Seq::new(h, |i: int| join(parts[i + h], parts[i])), join)
    }
}

/// A power of two.
pub open spec fn halves_evenly(n: int) -> bool
    decreases n,
{
    n == 1 || (n > 1 && n % 2 == 0 && halves_evenly(n / 2))
}

pub fn tree_reduced<A, F: Fn(&A, &A) -> A>(
    parts: Vec<A>,
    f: F,
    join: Ghost<spec_fn(A, A) -> A>,
) -> (r: A)
    requires
        halves_evenly(parts@.len() as int),
        forall|a: &A, b: &A| call_requires(f, (a, b)),
        forall|a: &A, b: &A, r: A| call_ensures(f, (a, b), r) ==> r == (join@)(*a, *b),
    ensures
        r == tree(parts@, join@),
{
    let ghost whole = parts@;
    let mut parts = parts;
    while parts.len() > 1
        invariant
            halves_evenly(parts@.len() as int),
            forall|a: &A, b: &A| call_requires(f, (a, b)),
            forall|a: &A, b: &A, r: A| call_ensures(f, (a, b), r) ==> r == (join@)(*a, *b),
            tree(parts@, join@) == tree(whole, join@),
        decreases parts@.len(),
    {
        let h: usize = parts.len() / 2;
        let next = collect(
            h,
            |i: usize| -> (r: A)
                requires
                    i < h
                ensures
                    r == (join@)(parts@[i + h], parts@[i as int])
                { f(&parts[i + h], &parts[i]) },
            Ghost(|i: int, r: A| r == (join@)(parts@[i + h], parts@[i])),
        );
        assert(next@ =~= Seq::new(h as nat, |i: int| (join@)(parts@[i + h], parts@[i])));
        parts = next;
    }
    let mut parts = parts;
    match parts.pop() {
        Some(r) => r,
        None => vstd::pervasive::unreached(),
    }
}

/// What lane `l` of a simdgroup adds to a dot product: it owns `per` consecutive
/// elements.
pub open spec fn lane_dot<S: Scalar>(a: Seq<S>, b: Seq<S>, l: int, per: int) -> S {
    accumulate(zero(), |i: int| times(a[l * per + i], b[l * per + i]), per)
}

/// The dot product that the 32 lanes of a simdgroup compute.
pub open spec fn simd_dot<S: Scalar>(a: Seq<S>, b: Seq<S>) -> S {
    lane_sum(Seq::new(32, |l: int| lane_dot(a, b, l, a.len() as int / 32)))
}

pub fn simd_dotted<S: Scalar>(a: &Vec<S>, b: &Vec<S>) -> (r: S)
    requires
        a@.len() == b@.len(),
        a@.len() % 32 == 0,
    ensures
        r == simd_dot(a@, b@),
{
    let per: usize = a.len() / 32;
    let parts = collect(
        32,
        |l: usize| -> (r: S)
            requires
                l < 32
            ensures
                r == lane_dot(a@, b@, l as int, per as int)
            {
                accumulated(
                    s_zero::<S>(),
                    |i: usize| -> (r: S)
                        requires
                            i < per
                        ensures
                            r == times(a@[l * per + i], b@[l * per + i])
                        {
                            let at: usize = flat(l, i, per, Ghost(32));
                            s_mul(&a[at], &b[at])
                        },
                    per,
                    Ghost(|i: int| times(a@[l * per + i], b@[l * per + i])),
                )
            },
        Ghost(|l: int, r: S| r == lane_dot(a@, b@, l, per as int)),
    );
    assert(parts@ =~= Seq::new(32, |l: int| lane_dot(a@, b@, l, a@.len() as int / 32)));
    lane_summed(&parts)
}

/// A sum goes on where it stopped.
pub proof fn lemma_accumulate_append<S: Scalar>(
    start: S,
    term: spec_fn(int) -> S,
    tail: spec_fn(int) -> S,
    n: int,
    m: int,
)
    requires
        0 <= n,
        0 <= m,
        forall|i: int| 0 <= i < m ==> tail(i) == #[trigger] term(n + i),
    ensures
        accumulate(accumulate(start, term, n), tail, m) == accumulate(start, term, n + m),
    decreases m,
{
    if m > 0 {
        lemma_accumulate_append(start, term, tail, n, m - 1);
        assert(tail(m - 1) == term(n + (m - 1)));
    }
}

/// Sums of equal terms are equal.
pub proof fn lemma_accumulate_same<S: Scalar>(
    start: S,
    f: spec_fn(int) -> S,
    g: spec_fn(int) -> S,
    n: int,
)
    requires
        forall|i: int| 0 <= i < n ==> #[trigger] f(i) == g(i),
    ensures
        accumulate(start, f, n) == accumulate(start, g, n),
    decreases n,
{
    if n > 0 {
        lemma_accumulate_same(start, f, g, n - 1);
    }
}

/// Threads that add up equal terms add up to the same.
pub proof fn lemma_strided_same<S: Scalar>(
    f: spec_fn(int) -> S,
    g: spec_fn(int) -> S,
    per: int,
    t: int,
    width: int,
    n: int,
    count: int,
)
    requires
        0 <= per,
        0 <= t,
        0 < width,
        forall|i: int| 0 <= i < n * per ==> #[trigger] f(i) == g(i),
    ensures
        strided(f, per, t, width, n, count) == strided(g, per, t, width, n, count),
    decreases count,
{
    if count > 0 {
        lemma_strided_same(f, g, per, t, width, n, count - 1);
        let d = (count - 1) * width + t;
        if d < n {
            assert(0 <= d) by (nonlinear_arith)
                requires
                    d == (count - 1) * width + t,
                    0 < count,
                    0 <= t,
                    0 < width,
            ;
            assert forall|i: int| 0 <= i < per implies #[trigger] pack_terms(f, per, d)(i)
                == pack_terms(g, per, d)(i) by {
                assert(0 <= d * per + i < n * per) by (nonlinear_arith)
                    requires
                        0 <= d < n,
                        0 <= i < per,
                ;
                assert(f(d * per + i) == g(d * per + i));
            }
            lemma_accumulate_same(
                strided(f, per, t, width, n, count - 1),
                pack_terms(f, per, d),
                pack_terms(g, per, d),
                per,
            );
        }
    }
}

/// Groups that add up equal terms add up to the same.
pub proof fn lemma_group_sum_same<S: Scalar>(
    f: spec_fn(int) -> S,
    g: spec_fn(int) -> S,
    per: int,
    width: int,
    n: int,
)
    requires
        0 <= per,
        0 < width,
        forall|i: int| 0 <= i < n * per ==> #[trigger] f(i) == g(i),
    ensures
        group_sum(f, per, width, n) == group_sum(g, per, width, n),
{
    let count = rounds(n, width);
    let parts = Seq::new(width as nat, |t: int| strided(f, per, t, width, n, count));
    let others = Seq::new(width as nat, |t: int| strided(g, per, t, width, n, count));
    assert forall|t: int| 0 <= t < width implies #[trigger] parts[t] == others[t] by {
        lemma_strided_same(f, g, per, t, width, n, count);
    }
    assert(parts =~= others);
}

/// The rounds are the whole ones and, if there is a rest, one more.
pub proof fn lemma_rounds(n: int, width: int)
    requires
        0 < width,
        0 <= n,
    ensures
        rounds(n, width) == n / width + if n % width == 0 {
            0int
        } else {
            1
        },
        n % width != 0 ==> n / width < n,
{
    vstd::arithmetic::div_mod::lemma_fundamental_div_mod(n, width);
    let q = n / width;
    let rest = n % width;
    assert(width * q == q * width) by (nonlinear_arith);
    if rest == 0 {
        vstd::arithmetic::div_mod::lemma_fundamental_div_mod_converse(
            n + width - 1,
            width,
            q,
            width - 1,
        );
    } else {
        assert((q + 1) * width == q * width + width) by (nonlinear_arith);
        vstd::arithmetic::div_mod::lemma_fundamental_div_mod_converse(
            n + width - 1,
            width,
            q + 1,
            rest - 1,
        );
        vstd::arithmetic::div_mod::lemma_div_pos_is_pos(n, width);
        assert(q <= q * width) by (nonlinear_arith)
            requires
                0 <= q,
                0 < width,
        ;
    }
}

/// No round starts beyond `n`.
pub proof fn lemma_round_fits(k: int, count: int, t: int, width: int, n: int)
    requires
        0 <= k < count,
        count == rounds(n, width),
        0 <= t < width,
        0 <= n,
    ensures
        0 <= k * width < n,
        0 <= k * width + t < n + width,
{
    vstd::arithmetic::div_mod::lemma_fundamental_div_mod(n + width - 1, width);
    assert(k * width < n && 0 <= k * width) by (nonlinear_arith)
        requires
            0 <= k < count,
            width * count + (n + width - 1) % width == n + width - 1,
            0 <= (n + width - 1) % width,
            0 < width,
    ;
}

} // verus!
