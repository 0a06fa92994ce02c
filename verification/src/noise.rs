//! Deterministic test signals.
use vstd::prelude::*;

use crate::scalar::{minus, over, s_div, s_mul, s_sub, times, Scalar};

verus! {

/// The next state of the generator.
pub open spec fn scrambled(s: u64) -> u64 {
    let a = s ^ (s << 13u64);
    let b = a ^ (a >> 7u64);
    b ^ (b << 17u64)
}

/// The state after `n` draws.
pub open spec fn scrambled_by(s: u64, n: int) -> u64
    decreases n,
{
    if n <= 0 {
        s
    } else {
        scrambled(scrambled_by(s, n - 1))
    }
}

/// Draw `i`: one of 20000 equidistant values below `scale / 2` in magnitude.
pub open spec fn draw<S: Scalar>(seed: u64, scale: S, i: int) -> S {
    let level = (scrambled_by(seed, i + 1) % 20000) as u32;
    minus(
        times(over(S::natural(level), S::rational(20000, 1)), scale),
        times(scale, S::rational(1, 2)),
    )
}

pub fn xorshift(s: u64) -> (r: u64)
    ensures
        r == scrambled(s),
{
    let a: u64 = s ^ (s << 13u64);
    let b: u64 = a ^ (a >> 7u64);
    b ^ (b << 17u64)
}

/// `n` draws from `seed`.
pub fn src<S: Scalar>(n: usize, seed: u64, scale: &S) -> (v: Vec<S>)
    ensures
        v@ == Seq::new(n as nat, |i: int| draw(seed, *scale, i)),
{
    let mut s: u64 = seed;
    let mut v: Vec<S> = Vec::new();
    let mut i: usize = 0;
    while i < n
        invariant
            i <= n,
            s == scrambled_by(seed, i as int),
            v@.len() == i,
            forall|j: int| 0 <= j < i ==> v@[j] == draw(seed, *scale, j),
        decreases n - i,
    {
        s = xorshift(s);
        let unit = s_div(&S::from_u32((s % 20000) as u32), &S::ratio(20000, 1));
        v.push(s_sub(&s_mul(&unit, scale), &s_mul(scale, &S::ratio(1, 2))));
        i = i + 1;
    }
    assert(v@ =~= Seq::new(n as nat, |i: int| draw(seed, *scale, i)));
    v
}

} // verus!
