//! Dense matrix-vector products, a threadgroup per tile of rows.
use vstd::prelude::*;

use crate::lanes::{group_sum, group_summed, launch_some};
use crate::layout::{flat, lemma_len_fits};
use crate::scalar::{s_mul, times, Element, Scalar};

verus! {

/// What column `c` adds to row `r`.
pub open spec fn dense_terms<S: Scalar, T: Element<S>>(
    mat: Seq<T>,
    vec: Seq<T>,
    k: int,
    r: int,
) -> spec_fn(int) -> S {
    |c: int| times(mat[r * k + c].widened(), vec[c].widened())
}

/// Row `r` of the product by a group of `width` threads, each of which takes `per`
/// consecutive columns at a time; columns that fill no such group are left out.
pub open spec fn dense_value<S: Scalar, T: Element<S>>(
    mat: Seq<T>,
    vec: Seq<T>,
    k: int,
    per: int,
    width: int,
    r: int,
) -> T {
    T::narrowed(group_sum(dense_terms::<S, T>(mat, vec, k, r), per, width, k / per))
}

/// What a launch over `rows` rows leaves in an output that held `before`: elements from
/// `rows` on are kept.
pub open spec fn dense_out<S: Scalar, T: Element<S>>(
    mat: Seq<T>,
    vec: Seq<T>,
    before: Seq<T>,
    k: int,
    rows: int,
    per: int,
    width: int,
) -> Seq<T> {
    Seq::new(
        before.len(),
        |r: int|
            if r < rows {
                dense_value::<S, T>(mat, vec, k, per, width, r)
            } else {
                before[r]
            },
    )
}

fn dense<S: Scalar, T: Element<S>>(
    mat: &[T],
    vec: &[T],
    out: &mut Vec<T>,
    k: usize,
    rows: usize,
    per: usize,
    width: usize,
)
    requires
        per > 0,
        width > 0,
        vec@.len() == k,
        mat@.len() == rows * k,
        old(out)@.len() >= rows,
    ensures
        final(out)@ =~= dense_out::<S, T>(
            mat@,
            vec@,
            old(out)@,
            k as int,
            rows as int,
            per as int,
            width as int,
        ),
{
    let n: usize = k / per;
    proof {
        lemma_len_fits(mat);
        vstd::arithmetic::div_mod::lemma_fundamental_div_mod(k as int, per as int);
        assert(per * n == n * per) by (nonlinear_arith);
    }
    launch_some(
        out,
        |r: usize| -> (v: Option<T>)
            ensures
                v == (if r < rows {
                    Some(
                        dense_value::<S, T>(
                            mat@,
                            vec@,
                            k as int,
                            per as int,
                            width as int,
                            r as int,
                        ),
                    )
                } else {
                    None::<T>
                })
            {
                if r >= rows {
                    return None;
                }
                let total = group_summed(
                    |c: usize| -> (v: S)
                        requires
                            c < k
                        ensures
                            v == dense_terms::<S, T>(mat@, vec@, k as int, r as int)(c as int)
                        {
                            let at: usize = flat(r, c, k, Ghost(rows as int));
                            s_mul(&mat[at].widen(), &vec[c].widen())
                        },
                    per,
                    width,
                    n,
                    Ghost(dense_terms::<S, T>(mat@, vec@, k as int, r as int)),
                );
                Some(T::narrow(&total))
            },
        Ghost(
            |r: int|
                if r < rows {
                    Some(
                        dense_value::<S, T>(mat@, vec@, k as int, per as int, width as int, r),
                    )
                } else {
                    None::<T>
                },
        ),
    );
}

/// `out[r] = mat[r, :] . vec[:]`, four rows per threadgroup of `lsize` threads.
pub fn ffai_gemv_bm4<S: Scalar, T: Element<S>>(
    mat: &[T],
    vec: &[T],
    out: &mut Vec<T>,
    k: u32,
    rows: u32,
    lsize: u32,
)
    requires
        lsize > 0,
        vec@.len() == k,
        mat@.len() == rows * k,
        old(out)@.len() >= rows,
    ensures
        final(out)@ =~= dense_out::<S, T>(
            mat@,
            vec@,
            old(out)@,
            k as int,
            rows as int,
            1,
            lsize as int,
        ),
{
    dense(mat, vec, out, k as usize, rows as usize, 1, lsize as usize);
}

/// `out[r] = mat[r, :] . vec[:]` for `rows` heads of `bm` outputs each, a head per
/// threadgroup of `lsize` threads.
pub fn ffai_gemv_bm_hd<S: Scalar, T: Element<S>>(
    mat: &[T],
    vec: &[T],
    out: &mut Vec<T>,
    k: u32,
    rows: u32,
    bm: u32,
    lsize: u32,
)
    requires
        lsize > 0,
        vec@.len() == k,
        mat@.len() == (rows * bm) * k,
        old(out)@.len() >= rows * bm,
    ensures
        final(out)@ =~= dense_out::<S, T>(
            mat@,
            vec@,
            old(out)@,
            k as int,
            rows * bm,
            1,
            lsize as int,
        ),
{
    let room: usize = out.len();
    assert(0 <= rows * bm <= room) by {
        assert(0 <= rows * bm) by (nonlinear_arith);
    }
    let outputs: usize = rows as usize * bm as usize;
    dense(mat, vec, out, k as usize, outputs, 1, lsize as usize);
}

/// `out[r] = mat[r, :] . vec[:]`, four rows per threadgroup of `lsize` threads and
/// four consecutive columns per thread and round. A last group of fewer than four
/// columns is skipped.
pub fn ffai_gemv_smm<S: Scalar, T: Element<S>>(
    mat: &[T],
    vec: &[T],
    out: &mut Vec<T>,
    k: u32,
    rows: u32,
    lsize: u32,
)
    requires
        lsize > 0,
        vec@.len() == k,
        mat@.len() == rows * k,
        old(out)@.len() >= rows,
    ensures
        final(out)@ =~= dense_out::<S, T>(
            mat@,
            vec@,
            old(out)@,
            k as int,
            rows as int,
            4,
            lsize as int,
        ),
{
    dense(mat, vec, out, k as usize, rows as usize, 4, lsize as usize);
}

} // verus!
