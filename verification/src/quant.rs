//! Quantized weights: packed codes, what they decode to, and block scales.
use vstd::arithmetic::power::{lemma_pow_strictly_increases, pow};
use vstd::arithmetic::power2::{lemma2_to64, lemma_pow2_strictly_increases, lemma_pow2_unfold, pow2};
use vstd::prelude::*;

use crate::layout::{flat, lemma_len_fits, lemma_row_major};
use crate::scalar::{minus, s_mul, s_sub, times, Fun, Scalar};

verus! {

/// Digit `i` of `w`, the least significant first.
pub open spec fn digit(w: int, base: int, i: int) -> int
    decreases i,
{
    if i <= 0 {
        w % base
    } else {
        digit(w / base, base, i - 1)
    }
}

/// The number whose digits are the low digits of `d`, the least significant first.
pub open spec fn number(d: Seq<u32>, base: int) -> int
    decreases d.len(),
{
    if d.len() == 0 {
        0
    } else {
        d[0] as int % base + base * number(d.drop_first(), base)
    }
}

/// A number has the digits that it was made of.
pub proof fn law_digits_round_trip(d: Seq<u32>, base: int, i: int)
    requires
        base > 0,
        0 <= i < d.len(),
    ensures
        digit(number(d, base), base, i) == d[i] as int % base,
    decreases d.len(),
{
    let rest = number(d.drop_first(), base);
    let low = d[0] as int % base;
    assert(number(d, base) == low + base * rest);
    assert(base * rest == rest * base) by (nonlinear_arith);
    vstd::arithmetic::div_mod::lemma_fundamental_div_mod_converse(
        number(d, base),
        base,
        rest,
        low,
    );
    if i > 0 {
        law_digits_round_trip(d.drop_first(), base, i - 1);
    }
}

proof fn lemma_number_bound(d: Seq<u32>, base: int)
    requires
        base > 0,
    ensures
        0 <= number(d, base) < pow(base, d.len()),
    decreases d.len(),
{
    reveal(pow);
    if d.len() > 0 {
        lemma_number_bound(d.drop_first(), base);
        let rest = number(d.drop_first(), base);
        let low = d[0] as int % base;
        let top = pow(base, (d.len() - 1) as nat);
        assert(pow(base, d.len()) == base * top);
        assert(0 <= low + base * rest < base * top) by (nonlinear_arith)
            requires
                0 <= low < base,
                0 <= rest,
                rest + 1 <= top,
                base > 0,
        ;
    }
}

proof fn lemma_word_capacity()
    ensures
        pow(16, 8) == 0x1_0000_0000,
        pow(256, 4) == 0x1_0000_0000,
{
    reveal_with_fuel(pow, 9);
}

/// Packs `per` codes into each word, the first in its low bits.
fn pack_row(weights: &[u32], base: u32, per: usize) -> (words: Vec<u32>)
    requires
        base > 0,
        per > 0,
        pow(base as int, per as nat) == 0x1_0000_0000,
        weights@.len() % per as nat == 0,
    ensures
        words@ == packed_row(weights@, base as int, per as int),
{
    proof {
        lemma_len_fits(weights);
    }
    let n: usize = weights.len() / per;
    let mut words: Vec<u32> = Vec::new();
    let mut p: usize = 0;
    while p < n
        invariant
            p <= n,
            n == weights@.len() / per as nat,
            weights@.len() <= usize::MAX,
            base > 0,
            per > 0,
            pow(base as int, per as nat) == 0x1_0000_0000,
            weights@.len() % per as nat == 0,
            words@.len() == p,
            forall|j: int|
                0 <= j < p ==> words@[j] == packed_row(weights@, base as int, per as int)[j],
        decreases n - p,
    {
        proof {
            vstd::arithmetic::div_mod::lemma_fundamental_div_mod(
                weights@.len() as int,
                per as int,
            );
            assert(per * n == n * per) by (nonlinear_arith);
            lemma_row_major(p as int, n as int, 0, per as int);
        }
        let start: usize = p * per;
        let ghost chunk = weights@.subrange(start as int, start + per);
        let mut w: u64 = 0;
        let mut i: usize = per;
        assert(chunk.skip(per as int) =~= Seq::<u32>::empty());
        while i > 0
            invariant
                i <= per,
                base > 0,
                start + per <= weights@.len(),
                weights@.len() <= usize::MAX,
                chunk == weights@.subrange(start as int, start + per),
                chunk.len() == per,
                pow(base as int, per as nat) == 0x1_0000_0000,
                w == number(chunk.skip(i as int), base as int),
            decreases i,
        {
            i = i - 1;
            let ghost tail = chunk.skip(i as int);
            assert(tail.drop_first() =~= chunk.skip(i + 1));
            assert(tail[0] == weights@[start + i]);
            proof {
                lemma_number_bound(tail, base as int);
                if i > 0 {
                    if base > 1 {
                        lemma_pow_strictly_increases(base as nat, tail.len(), per as nat);
                    } else {
                        vstd::arithmetic::power::lemma1_pow(per as nat);
                    }
                }
                assert(w * base == base * w) by (nonlinear_arith);
            }
            w = w * (base as u64) + (weights[start + i] % base) as u64;
        }
        assert(chunk.skip(0) =~= chunk);
        proof {
            lemma_number_bound(chunk, base as int);
        }
        words.push(w as u32);
        p = p + 1;
    }
    assert(words@ =~= packed_row(weights@, base as int, per as int));
    words
}

pub open spec fn packed_row(weights: Seq<u32>, base: int, per: int) -> Seq<u32> {
    Seq::new(
        (weights.len() as int / per) as nat,
        |p: int| number(weights.subrange(p * per, p * per + per), base) as u32,
    )
}

/// Packs rows of 4-bit codes, eight to a word.
pub fn pack_int4_row(weights: &[u32]) -> (words: Vec<u32>)
    requires
        weights@.len() % 8 == 0,
    ensures
        words@ == packed_row(weights@, 16, 8),
{
    proof {
        lemma_word_capacity();
    }
    pack_row(weights, 16, 8)
}

/// Packs rows of 8-bit codes, four to a word.
pub fn pack_int8_row(weights: &[u32]) -> (words: Vec<u32>)
    requires
        weights@.len() % 4 == 0,
    ensures
        words@ == packed_row(weights@, 256, 4),
{
    proof {
        lemma_word_capacity();
    }
    pack_row(weights, 256, 4)
}

/// What is packed four bits at a time is read back, code by code.
pub proof fn law_int4_round_trip(weights: Seq<u32>, i: int)
    requires
        weights.len() % 8 == 0,
        0 <= i < weights.len(),
    ensures
        digit(packed_row(weights, 16, 8)[i / 8] as int, 16, i % 8) == weights[i] as int % 16,
{
    let chunk = weights.subrange(i / 8 * 8, i / 8 * 8 + 8);
    lemma_word_capacity();
    lemma_number_bound(chunk, 16);
    law_digits_round_trip(chunk, 16, i % 8);
}

/// What is packed eight bits at a time is read back, code by code.
pub proof fn law_int8_round_trip(weights: Seq<u32>, i: int)
    requires
        weights.len() % 4 == 0,
        0 <= i < weights.len(),
    ensures
        digit(packed_row(weights, 256, 4)[i / 4] as int, 256, i % 4) == weights[i] as int % 256,
{
    let chunk = weights.subrange(i / 4 * 4, i / 4 * 4 + 4);
    lemma_word_capacity();
    lemma_number_bound(chunk, 256);
    law_digits_round_trip(chunk, 256, i % 4);
}

/// Code `i` of a word of codes below `base`.
pub fn code_of(word: u32, base: u32, i: usize) -> (c: u32)
    requires
        base > 1,
    ensures
        c == digit(word as int, base as int, i as int),
        c < base,
{
    let mut w: u32 = word;
    let mut k: usize = i;
    while k > 0
        invariant
            base > 1,
            digit(w as int, base as int, k as int) == digit(word as int, base as int, i as int),
        decreases k,
    {
        w = w / base;
        k = k - 1;
    }
    w % base
}

/// A small float: a sign, an exponent below `er` and a mantissa below `mr`; the
/// unit of the smallest exponent is one part in `den`.
pub open spec fn minifloat<S: Scalar>(bits: u32, mr: int, er: int, den: u64) -> S {
    let man = bits as int % mr;
    let e = bits as int / mr % er;
    let sig = if e == 0 {
        man
    } else {
        mr + man
    };
    let shift = if e == 0 {
        0nat
    } else {
        (e - 1) as nat
    };
    let magnitude = S::rational((sig * pow2(shift)) as i64, den);
    if bits as int / mr / er % 2 == 1 {
        S::applied(Fun::Neg, magnitude)
    } else {
        magnitude
    }
}

/// Element formats.
#[derive(Clone, Copy, PartialEq, Eq, Structural, Debug)]
pub enum Code {
    E2m1,
    E4m3,
    E5m2,
    Int8,
}

/// What a code stands for.
pub open spec fn decoded<S: Scalar>(code: Code, bits: u32) -> S {
    match code {
        Code::E2m1 => minifloat(bits, 2, 4, 2),
        Code::E4m3 => if bits % 128 == 127 {
            S::undefined()
        } else {
            minifloat(bits, 8, 16, 512)
        },
        Code::E5m2 => if bits / 4 % 32 == 31 {
            if bits % 4 != 0 {
                S::undefined()
            } else if bits / 128 % 2 == 1 {
                S::lowest()
            } else {
                S::applied(Fun::Neg, S::lowest())
            }
        } else {
            minifloat(bits, 4, 32, 65536)
        },
        Code::Int8 => if bits % 256 < 128 {
            S::rational((bits % 256) as i64, 1)
        } else {
            S::rational((bits % 256 - 256) as i64, 1)
        },
    }
}

fn small_float<S: Scalar>(bits: u32, mr: u32, er: u32, den: u64) -> (r: S)
    requires
        0 < mr <= 8,
        0 < er <= 32,
        den > 0,
    ensures
        r == minifloat::<S>(bits, mr as int, er as int, den),
{
    let man: u32 = bits % mr;
    let e: u32 = bits / mr % er;
    let sig: u32 = if e == 0 {
        man
    } else {
        mr + man
    };
    let shift: u32 = if e == 0 {
        0
    } else {
        e - 1
    };
    proof {
        lemma2_to64();
        if shift < 30 {
            lemma_pow2_strictly_increases(shift as nat, 30);
        }
    }
    let mut v: i64 = sig as i64;
    let mut k: u32 = 0;
    assert(sig * pow2(0) == sig);
    while k < shift
        invariant
            k <= shift <= 30,
            sig < 16,
            v == sig * pow2(k as nat),
        decreases shift - k,
    {
        proof {
            lemma2_to64();
            lemma_pow2_unfold((k + 1) as nat);
            lemma_pow2_strictly_increases(k as nat, 30);
            let p = pow2(k as nat) as int;
            assert(2 * (sig * p) == sig * (2 * p)) by (nonlinear_arith);
            assert(sig * p <= 16 * 0x4000_0000) by (nonlinear_arith)
                requires
                    0 <= sig < 16,
                    0 <= p < 0x4000_0000,
            ;
        }
        v = 2 * v;
        k = k + 1;
    }
    let magnitude = S::ratio(v, den);
    if bits / mr / er % 2 == 1 {
        S::apply(Fun::Neg, &magnitude)
    } else {
        magnitude
    }
}

pub fn e2m1_decode<S: Scalar>(bits: u32) -> (r: S)
    ensures
        r == decoded::<S>(Code::E2m1, bits),
{
    small_float(bits, 2, 4, 2)
}

pub fn e4m3_decode<S: Scalar>(bits: u32) -> (r: S)
    ensures
        r == decoded::<S>(Code::E4m3, bits),
{
    if bits % 128 == 127 {
        S::nan()
    } else {
        small_float(bits, 8, 16, 512)
    }
}

pub fn e5m2_decode<S: Scalar>(bits: u32) -> (r: S)
    ensures
        r == decoded::<S>(Code::E5m2, bits),
{
    if bits / 4 % 32 == 31 {
        if bits % 4 != 0 {
            S::nan()
        } else if bits / 128 % 2 == 1 {
            S::neg_infinity()
        } else {
            S::apply(Fun::Neg, &S::neg_infinity())
        }
    } else {
        small_float(bits, 4, 32, 65536)
    }
}

pub fn int8_decode<S: Scalar>(bits: u32) -> (r: S)
    ensures
        r == decoded::<S>(Code::Int8, bits),
{
    let low: i64 = (bits % 256) as i64;
    if low < 128 {
        S::ratio(low, 1)
    } else {
        S::ratio(low - 256, 1)
    }
}

pub fn decode<S: Scalar>(code: Code, bits: u32) -> (r: S)
    ensures
        r == decoded::<S>(code, bits),
{
    match code {
        Code::E2m1 => e2m1_decode(bits),
        Code::E4m3 => e4m3_decode(bits),
        Code::E5m2 => e5m2_decode(bits),
        Code::Int8 => int8_decode(bits),
    }
}

/// Codes as a buffer holds them: nibbles eight to a word, or one byte each.
pub enum Codes<'a> {
    Nibbles(&'a [u32]),
    Bytes(Code, &'a [u8]),
}

/// Block scales: powers of two by their biased exponent, small floats under one
/// global scale, or plain numbers.
pub enum Scales<'a, S> {
    Pow2(&'a [u8]),
    Micro(&'a [u8], &'a S),
    Direct(&'a [S]),
}

/// Rows of quantized weights.
pub struct Quantized<'a, S> {
    pub codes: Codes<'a>,
    pub scales: Scales<'a, S>,
    /// Weights per row.
    pub cols: usize,
    /// Weights per block.
    pub block: usize,
}

impl<'a> Codes<'a> {
    pub open spec fn fits(self, rows: int, cols: int) -> bool {
        match self {
            Codes::Nibbles(w) => cols % 8 == 0 && w@.len() == rows * (cols / 8),
            Codes::Bytes(_, w) => w@.len() == rows * cols,
        }
    }

    /// What the code at row `r`, column `c` stands for.
    pub open spec fn element<S: Scalar>(self, cols: int, r: int, c: int) -> S {
        match self {
            Codes::Nibbles(w) => decoded(
                Code::E2m1,
                digit(w@[r * (cols / 8) + c / 8] as int, 16, c % 8) as u32,
            ),
            Codes::Bytes(code, w) => decoded(code, w@[r * cols + c] as u32),
        }
    }

    pub fn load<S: Scalar>(&self, cols: usize, r: usize, c: usize, rows: Ghost<int>) -> (v: S)
        requires
            self.fits(rows@, cols as int),
            r < rows@,
            c < cols,
        ensures
            v == self.element::<S>(cols as int, r as int, c as int),
    {
        match self {
            Codes::Nibbles(w) => {
                proof {
                    lemma_len_fits(w);
                }
                let word: u32 = w[flat(r, c / 8, cols / 8, rows)];
                e2m1_decode(code_of(word, 16, c % 8))
            },
            Codes::Bytes(code, w) => {
                proof {
                    lemma_len_fits(w);
                }
                decode(*code, w[flat(r, c, cols, rows)] as u32)
            },
        }
    }
}

impl<'a, S: Scalar> Scales<'a, S> {
    pub open spec fn len(self) -> nat {
        match self {
            Scales::Pow2(s) => s@.len(),
            Scales::Micro(s, _) => s@.len(),
            Scales::Direct(s) => s@.len(),
        }
    }

    /// Scale `i`.
    pub open spec fn scale(self, i: int) -> S {
        match self {
            Scales::Pow2(s) => S::applied(
                Fun::Exp2,
                minus(S::natural(s@[i] as u32), S::rational(127, 1)),
            ),
            Scales::Micro(s, global) => times(decoded(Code::E4m3, s@[i] as u32), *global),
            Scales::Direct(s) => s@[i],
        }
    }

    pub fn load(&self, i: usize) -> (v: S)
        requires
            i < self.len(),
        ensures
            v == self.scale(i as int),
    {
        match self {
            Scales::Pow2(s) => {
                let e = s_sub(&S::from_u32(s[i] as u32), &S::ratio(127, 1));
                S::apply(Fun::Exp2, &e)
            },
            Scales::Micro(s, global) => s_mul(&e4m3_decode(s[i] as u32), global),
            Scales::Direct(s) => s[i].dup(),
        }
    }
}

impl<'a, S: Scalar> Quantized<'a, S> {
    /// The buffers hold `rows` rows, each of a whole number of blocks.
    pub open spec fn fits(self, rows: int) -> bool {
        &&& self.block > 0
        &&& self.cols % self.block == 0
        &&& self.codes.fits(rows, self.cols as int)
        &&& self.scales.len() == rows * (self.cols as int / self.block as int)
    }

    /// The weight at row `r`, column `c`, under the scale of block `b` of that row.
    pub open spec fn weight(self, r: int, c: int, b: int) -> S {
        times(
            self.codes.element(self.cols as int, r, c),
            self.scales.scale(r * (self.cols as int / self.block as int) + b),
        )
    }

    pub fn load(&self, r: usize, c: usize, b: usize, rows: Ghost<int>) -> (v: S)
        requires
            self.fits(rows@),
            rows@ * (self.cols as int / self.block as int) <= usize::MAX,
            r < rows@,
            c < self.cols,
            b < self.cols as int / self.block as int,
        ensures
            v == self.weight(r as int, c as int, b as int),
    {
        let element = self.codes.load(self.cols, r, c, rows);
        let scale = self.scales.load(flat(r, b, self.cols / self.block, rows));
        s_mul(&element, &scale)
    }
}

/// Rows of 4-bit floats under powers of two.
pub open spec fn mxfp4_weights<'a, S: Scalar>(
    w: &'a [u32],
    scales: &'a [u8],
    cols: u32,
    block: u32,
) -> Quantized<'a, S> {
    Quantized {
        codes: Codes::Nibbles(w),
        scales: Scales::Pow2(scales),
        cols: cols as usize,
        block: block as usize,
    }
}

pub fn mxfp4<'a, S: Scalar>(
    w: &'a [u32],
    scales: &'a [u8],
    cols: u32,
    block: u32,
) -> (q: Quantized<'a, S>)
    ensures
        q == mxfp4_weights::<S>(w, scales, cols, block),
        q.scales.len() <= usize::MAX,
{
    proof {
        lemma_len_fits(scales);
    }
    Quantized {
        codes: Codes::Nibbles(w),
        scales: Scales::Pow2(scales),
        cols: cols as usize,
        block: block as usize,
    }
}

/// Rows of 4-bit floats under small float scales and one global scale.
pub open spec fn nvfp4_weights<'a, S: Scalar>(
    w: &'a [u32],
    scales: &'a [u8],
    cols: u32,
    block: u32,
    global: &'a S,
) -> Quantized<'a, S> {
    Quantized {
        codes: Codes::Nibbles(w),
        scales: Scales::Micro(scales, global),
        cols: cols as usize,
        block: block as usize,
    }
}

pub fn nvfp4<'a, S: Scalar>(
    w: &'a [u32],
    scales: &'a [u8],
    cols: u32,
    block: u32,
    global: &'a S,
) -> (q: Quantized<'a, S>)
    ensures
        q == nvfp4_weights::<S>(w, scales, cols, block, global),
        q.scales.len() <= usize::MAX,
{
    proof {
        lemma_len_fits(scales);
    }
    Quantized {
        codes: Codes::Nibbles(w),
        scales: Scales::Micro(scales, global),
        cols: cols as usize,
        block: block as usize,
    }
}

/// Rows of 4-bit floats under plain scales.
pub open spec fn fp4_weights<'a, S: Scalar>(
    w: &'a [u32],
    scales: &'a [S],
    cols: u32,
    block: u32,
) -> Quantized<'a, S> {
    Quantized {
        codes: Codes::Nibbles(w),
        scales: Scales::Direct(scales),
        cols: cols as usize,
        block: block as usize,
    }
}

pub fn fp4<'a, S: Scalar>(
    w: &'a [u32],
    scales: &'a [S],
    cols: u32,
    block: u32,
) -> (q: Quantized<'a, S>)
    ensures
        q == fp4_weights::<S>(w, scales, cols, block),
        q.scales.len() <= usize::MAX,
{
    proof {
        lemma_len_fits(scales);
    }
    Quantized {
        codes: Codes::Nibbles(w),
        scales: Scales::Direct(scales),
        cols: cols as usize,
        block: block as usize,
    }
}

/// Rows of 8-bit floats with three mantissa bits under powers of two.
pub open spec fn mxfp8_e4m3_weights<'a, S: Scalar>(
    w: &'a [u8],
    scales: &'a [u8],
    cols: u32,
    block: u32,
) -> Quantized<'a, S> {
    Quantized {
        codes: Codes::Bytes(Code::E4m3, w),
        scales: Scales::Pow2(scales),
        cols: cols as usize,
        block: block as usize,
    }
}

pub fn mxfp8_e4m3<'a, S: Scalar>(
    w: &'a [u8],
    scales: &'a [u8],
    cols: u32,
    block: u32,
) -> (q: Quantized<'a, S>)
    ensures
        q == mxfp8_e4m3_weights::<S>(w, scales, cols, block),
        q.scales.len() <= usize::MAX,
{
    proof {
        lemma_len_fits(scales);
    }
    Quantized {
        codes: Codes::Bytes(Code::E4m3, w),
        scales: Scales::Pow2(scales),
        cols: cols as usize,
        block: block as usize,
    }
}

/// Rows of 8-bit floats with two mantissa bits under powers of two.
pub open spec fn mxfp8_e5m2_weights<'a, S: Scalar>(
    w: &'a [u8],
    scales: &'a [u8],
    cols: u32,
    block: u32,
) -> Quantized<'a, S> {
    Quantized {
        codes: Codes::Bytes(Code::E5m2, w),
        scales: Scales::Pow2(scales),
        cols: cols as usize,
        block: block as usize,
    }
}

pub fn mxfp8_e5m2<'a, S: Scalar>(
    w: &'a [u8],
    scales: &'a [u8],
    cols: u32,
    block: u32,
) -> (q: Quantized<'a, S>)
    ensures
        q == mxfp8_e5m2_weights::<S>(w, scales, cols, block),
        q.scales.len() <= usize::MAX,
{
    proof {
        lemma_len_fits(scales);
    }
    Quantized {
        codes: Codes::Bytes(Code::E5m2, w),
        scales: Scales::Pow2(scales),
        cols: cols as usize,
        block: block as usize,
    }
}

/// Rows of 8-bit floats with two mantissa bits under plain scales.
pub open spec fn fp8_e5m2_weights<'a, S: Scalar>(
    w: &'a [u8],
    scales: &'a [S],
    cols: u32,
    block: u32,
) -> Quantized<'a, S> {
    Quantized {
        codes: Codes::Bytes(Code::E5m2, w),
        scales: Scales::Direct(scales),
        cols: cols as usize,
        block: block as usize,
    }
}

pub fn fp8_e5m2<'a, S: Scalar>(
    w: &'a [u8],
    scales: &'a [S],
    cols: u32,
    block: u32,
) -> (q: Quantized<'a, S>)
    ensures
        q == fp8_e5m2_weights::<S>(w, scales, cols, block),
        q.scales.len() <= usize::MAX,
{
    proof {
        lemma_len_fits(scales);
    }
    Quantized {
        codes: Codes::Bytes(Code::E5m2, w),
        scales: Scales::Direct(scales),
        cols: cols as usize,
        block: block as usize,
    }
}

/// Rows of 8-bit floats with three mantissa bits under plain scales.
pub open spec fn nvfp8_weights<'a, S: Scalar>(
    w: &'a [u8],
    scales: &'a [S],
    cols: u32,
    block: u32,
) -> Quantized<'a, S> {
    Quantized {
        codes: Codes::Bytes(Code::E4m3, w),
        scales: Scales::Direct(scales),
        cols: cols as usize,
        block: block as usize,
    }
}

pub fn nvfp8<'a, S: Scalar>(
    w: &'a [u8],
    scales: &'a [S],
    cols: u32,
    block: u32,
) -> (q: Quantized<'a, S>)
    ensures
        q == nvfp8_weights::<S>(w, scales, cols, block),
        q.scales.len() <= usize::MAX,
{
    proof {
        lemma_len_fits(scales);
    }
    Quantized {
        codes: Codes::Bytes(Code::E4m3, w),
        scales: Scales::Direct(scales),
        cols: cols as usize,
        block: block as usize,
    }
}

/// Rows of 8-bit integers under plain scales.
pub open spec fn int8_weights<'a, S: Scalar>(
    w: &'a [u8],
    scales: &'a [S],
    cols: u32,
    block: u32,
) -> Quantized<'a, S> {
    Quantized {
        codes: Codes::Bytes(Code::Int8, w),
        scales: Scales::Direct(scales),
        cols: cols as usize,
        block: block as usize,
    }
}

pub fn int8<'a, S: Scalar>(
    w: &'a [u8],
    scales: &'a [S],
    cols: u32,
    block: u32,
) -> (q: Quantized<'a, S>)
    ensures
        q == int8_weights::<S>(w, scales, cols, block),
        q.scales.len() <= usize::MAX,
{
    proof {
        lemma_len_fits(scales);
    }
    Quantized {
        codes: Codes::Bytes(Code::Int8, w),
        scales: Scales::Direct(scales),
        cols: cols as usize,
        block: block as usize,
    }
}

} // verus!
