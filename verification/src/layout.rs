//! Row-major positions.
use vstd::prelude::*;

verus! {

/// A position inside a row-major matrix lies inside its buffer.
pub proof fn lemma_row_major(r: int, rows: int, c: int, cols: int)
    requires
        0 <= r < rows,
        0 <= c < cols,
    ensures
        0 <= r * cols,
        0 <= r * cols + c < rows * cols,
        (r + 1) * cols == r * cols + cols,
        (r + 1) * cols <= rows * cols,
{
    assert(0 <= r * cols) by (nonlinear_arith)
        requires
            0 <= r,
            0 <= cols,
    ;
    assert((r + 1) * cols == r * cols + cols) by (nonlinear_arith);
    assert((r + 1) * cols <= rows * cols) by (nonlinear_arith)
        requires
            r + 1 <= rows,
            0 <= cols,
    ;
}

/// Row and column are the quotient and the remainder of the position.
pub proof fn lemma_split(i: int, rows: int, cols: int)
    requires
        0 <= i < rows * cols,
        0 < cols,
    ensures
        0 <= i / cols < rows,
        0 <= i % cols < cols,
        i == (i / cols) * cols + i % cols,
{
    vstd::arithmetic::div_mod::lemma_fundamental_div_mod(i, cols);
    assert(cols * (i / cols) == (i / cols) * cols) by (nonlinear_arith);
    vstd::arithmetic::div_mod::lemma_div_pos_is_pos(i, cols);
    assert(i / cols < rows) by (nonlinear_arith)
        requires
            i < rows * cols,
            i == (i / cols) * cols + i % cols,
            0 <= i % cols,
            0 < cols,
    ;
}

/// A position has one row and one column.
pub proof fn lemma_row_major_inverse(r: int, c: int, cols: int)
    requires
        0 <= c < cols,
        0 <= r,
    ensures
        (r * cols + c) / cols == r,
        (r * cols + c) % cols == c,
{
    vstd::arithmetic::div_mod::lemma_fundamental_div_mod_converse(r * cols + c, cols, r, c);
}

pub proof fn lemma_mul_mono(a: int, b: int, c: int)
    requires
        0 <= a <= b,
        0 <= c,
    ensures
        0 <= a * c <= b * c,
{
    assert(0 <= a * c <= b * c) by (nonlinear_arith)
        requires
            0 <= a <= b,
            0 <= c,
    ;
}

/// A buffer's length is a machine number.
pub proof fn lemma_len_fits<T>(s: &[T])
    ensures
        s@.len() <= usize::MAX,
{
    assert(s.len() <= usize::MAX);
}

/// The position of column `c` in row `r` of `rows`.
pub fn flat(r: usize, c: usize, cols: usize, rows: Ghost<int>) -> (i: usize)
    requires
        r < rows@,
        c < cols,
        rows@ * cols <= usize::MAX,
    ensures
        i == r * cols + c,
        i < rows@ * cols,
{
    proof {
        lemma_row_major(r as int, rows@, c as int, cols as int);
    }
    r * cols + c
}

/// The position of `[a, b, c]` in a buffer of `[an, bn, cn]`.
pub fn flat3(a: usize, b: usize, bn: usize, c: usize, cn: usize, an: Ghost<int>) -> (i: usize)
    requires
        a < an@,
        b < bn,
        c < cn,
        (an@ * bn) * cn <= usize::MAX,
    ensures
        i == (a * bn + b) * cn + c,
        i < (an@ * bn) * cn,
{
    proof {
        lemma_row_major(a as int, an@, b as int, bn as int);
        lemma_row_major(a * bn + b, an@ * bn, c as int, cn as int);
        lemma_mul_at_least(an@ * bn, cn as int);
    }
    (a * bn + b) * cn + c
}

/// The position of `[a, b, c, d]` in a buffer of `[an, bn, cn, dn]`.
pub fn flat4(
    a: usize,
    b: usize,
    bn: usize,
    c: usize,
    cn: usize,
    d: usize,
    dn: usize,
    an: Ghost<int>,
) -> (i: usize)
    requires
        a < an@,
        b < bn,
        c < cn,
        d < dn,
        ((an@ * bn) * cn) * dn <= usize::MAX,
    ensures
        i == ((a * bn + b) * cn + c) * dn + d,
        i < ((an@ * bn) * cn) * dn,
{
    proof {
        lemma_row_major(a as int, an@, b as int, bn as int);
        lemma_row_major(a * bn + b, an@ * bn, c as int, cn as int);
        lemma_row_major((a * bn + b) * cn + c, (an@ * bn) * cn, d as int, dn as int);
        lemma_mul_at_least((an@ * bn) * cn, dn as int);
        lemma_mul_at_least(an@ * bn, cn as int);
    }
    ((a * bn + b) * cn + c) * dn + d
}

pub proof fn lemma_mul_at_least(a: int, b: int)
    requires
        0 <= a,
        0 < b,
    ensures
        a <= a * b,
{
    assert(a <= a * b) by (nonlinear_arith)
        requires
            0 <= a,
            0 < b,
    ;
}

/// A product that is not zero has factors that are not.
pub proof fn lemma_factors(a: int, b: int)
    requires
        0 <= a,
        0 <= b,
    ensures
        0 < a * b ==> 0 < a && 0 < b,
{
    assert(0 < a * b ==> 0 < a && 0 < b) by (nonlinear_arith)
        requires
            0 <= a,
            0 <= b,
    ;
}

/// `rows * cols` elements are `rows` rows.
pub proof fn lemma_rows_of(rows: int, cols: int)
    requires
        0 < cols,
        0 <= rows,
    ensures
        (rows * cols) / cols == rows,
{
    vstd::arithmetic::div_mod::lemma_div_multiples_vanish(rows, cols);
    assert(rows * cols == cols * rows) by (nonlinear_arith);
}

/// `a[at ..]` and `b[bt ..]` hold the same `n` elements.
pub open spec fn same_run<A>(a: Seq<A>, at: int, b: Seq<A>, bt: int, n: int) -> bool {
    forall|j: int| 0 <= j < n ==> #[trigger] a[at + j] == b[bt + j]
}

/// Rows that start a run hold the same.
pub proof fn lemma_run_at<A>(
    a: Seq<A>,
    at: int,
    b: Seq<A>,
    bt: int,
    rows: int,
    per: int,
    t: int,
    c: int,
)
    requires
        same_run(a, at * per, b, bt * per, rows * per),
        0 <= t < rows,
        0 <= c < per,
    ensures
        a[(at + t) * per + c] == b[(bt + t) * per + c],
{
    lemma_row_major(t, rows, c, per);
    assert((at + t) * per + c == at * per + (t * per + c)) by (nonlinear_arith);
    assert((bt + t) * per + c == bt * per + (t * per + c)) by (nonlinear_arith);
    assert(a[at * per + (t * per + c)] == b[bt * per + (t * per + c)]);
}

} // verus!
