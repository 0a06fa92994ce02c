//! What quantized weights stand for: small floats by how they grow from one exponent to
//! the next, and rows of weights by the codes that were packed and the flat place of each
//! weight.
use vstd::arithmetic::power::pow;
use vstd::arithmetic::power2::{lemma_pow2_unfold, pow2};
use vstd::prelude::*;

use crate::layout::lemma_row_major;
use crate::quant::{
    decoded, digit, fp4_weights, fp8_e5m2_weights, int8_weights, law_int4_round_trip,
    law_int8_round_trip, minifloat, mxfp4_weights, mxfp8_e4m3_weights, mxfp8_e5m2_weights,
    nvfp4_weights, nvfp8_weights, packed_row, Code,
};
use crate::real_model::{lemma_val_rational, models_reals};
use crate::scalar::{minus, times, Fun, Scalar};

verus! {

/// Negation gives the opposite number.
pub open spec fn negates<S: Scalar>(val: spec_fn(S) -> real) -> bool {
    forall|a: S| #[trigger] val(S::applied(Fun::Neg, a)) == -val(a)
}

proof fn lemma_shift_bound(n: nat)
    requires
        n <= 30,
    ensures
        1 <= pow2(n) <= 0x4000_0000,
{
    vstd::arithmetic::power2::lemma2_to64();
    if n < 30 {
        vstd::arithmetic::power2::lemma_pow2_strictly_increases(n, 30);
    }
    if n > 0 {
        vstd::arithmetic::power2::lemma_pow2_strictly_increases(0, n);
    }
}

/// A code below twice the mantissas stands for that many units.
proof fn lemma_first_codes<S: Scalar>(
    val: spec_fn(S) -> real,
    bits: u32,
    mr: int,
    er: int,
    den: u64,
)
    requires
        models_reals(val),
        0 < mr <= 8,
        2 <= er <= 32,
        den > 0,
        bits < 2 * mr,
    ensures
        val(minifloat::<S>(bits, mr, er, den)) == (bits as real) / (den as real),
{
    vstd::arithmetic::power2::lemma2_to64();
    let e = bits as int / mr;
    vstd::arithmetic::div_mod::lemma_fundamental_div_mod(bits as int, mr);
    assert(0 <= e < 2) by (nonlinear_arith)
        requires
            bits as int == mr * e + bits as int % mr,
            0 <= bits as int % mr < mr,
            bits < 2 * mr,
            0 < mr,
    ;
    vstd::arithmetic::div_mod::lemma_small_mod(e as nat, er as nat);
    vstd::arithmetic::div_mod::lemma_basic_div(e, er);
    assert(mr * 0 == 0 && mr * 1 == mr);
    assert(bits as int * 1 == bits as int);
    lemma_val_rational(val, bits as i64, den);
}

/// One exponent up stands for twice as much.
proof fn lemma_next_exponent<S: Scalar>(
    val: spec_fn(S) -> real,
    bits: u32,
    mr: int,
    er: int,
    den: u64,
)
    requires
        models_reals(val),
        0 < mr <= 8,
        2 <= er <= 32,
        den > 0,
        mr <= bits,
        bits + mr < mr * er,
    ensures
        val(minifloat::<S>((bits + mr) as u32, mr, er, den)) == (2 as real) * val(
            minifloat::<S>(bits, mr, er, den),
        ),
{
    let b = bits as int;
    let e = b / mr;
    let man = b % mr;
    vstd::arithmetic::div_mod::lemma_fundamental_div_mod(b, mr);
    assert(mr * er <= 256) by (nonlinear_arith)
        requires
            0 < mr <= 8,
            0 < er <= 32,
    ;
    assert(1 <= e && e + 1 < er) by (nonlinear_arith)
        requires
            b == mr * e + man,
            0 <= man < mr,
            mr <= b,
            b + mr < mr * er,
            0 < mr,
    ;
    assert(b + mr == (e + 1) * mr + man) by (nonlinear_arith)
        requires
            b == mr * e + man,
    ;
    vstd::arithmetic::div_mod::lemma_fundamental_div_mod_converse(b + mr, mr, e + 1, man);
    vstd::arithmetic::div_mod::lemma_small_mod(e as nat, er as nat);
    vstd::arithmetic::div_mod::lemma_small_mod((e + 1) as nat, er as nat);
    vstd::arithmetic::div_mod::lemma_basic_div(e, er);
    vstd::arithmetic::div_mod::lemma_basic_div(e + 1, er);
    let (lower, upper) = (pow2((e - 1) as nat), pow2(e as nat));
    lemma_pow2_unfold(e as nat);
    lemma_shift_bound((e - 1) as nat);
    let sig = mr + man;
    assert(0 <= sig * lower <= 0x4_0000_0000 && sig * upper == 2 * (sig * lower))
        by (nonlinear_arith)
        requires
            0 <= sig <= 16,
            1 <= lower <= 0x4000_0000,
            upper == 2 * lower,
    ;
    lemma_val_rational(val, (sig * lower) as i64, den);
    lemma_val_rational(val, (sig * upper) as i64, den);
    let (x, y, n) = ((sig * lower) as real, (sig * upper) as real, den as real);
    assert(y / n == (2 as real) * (x / n)) by (nonlinear_arith)
        requires
            y == (2 as real) * x,
            n > 0 as real,
    ;
}

/// The sign bit negates.
proof fn lemma_sign_negates<S: Scalar>(
    val: spec_fn(S) -> real,
    bits: u32,
    mr: int,
    er: int,
    den: u64,
)
    requires
        negates(val),
        0 < mr <= 8,
        2 <= er <= 32,
        bits < mr * er,
    ensures
        val(minifloat::<S>((bits + mr * er) as u32, mr, er, den)) == -val(
            minifloat::<S>(bits, mr, er, den),
        ),
{
    let b = bits as int;
    let e = b / mr;
    let man = b % mr;
    vstd::arithmetic::div_mod::lemma_fundamental_div_mod(b, mr);
    assert(mr * er <= 256) by (nonlinear_arith)
        requires
            0 < mr <= 8,
            0 < er <= 32,
    ;
    assert(0 <= e < er) by (nonlinear_arith)
        requires
            b == mr * e + man,
            0 <= man < mr,
            0 <= b < mr * er,
            0 < mr,
    ;
    assert(b + mr * er == (e + er) * mr + man) by (nonlinear_arith)
        requires
            b == mr * e + man,
    ;
    vstd::arithmetic::div_mod::lemma_fundamental_div_mod_converse(b + mr * er, mr, e + er, man);
    vstd::arithmetic::div_mod::lemma_fundamental_div_mod_converse(e + er, er, 1, e);
    vstd::arithmetic::div_mod::lemma_small_mod(e as nat, er as nat);
    vstd::arithmetic::div_mod::lemma_basic_div(e, er);
}

/// The 4-bit floats are zero, a half, one, one and a half, two, three, four and six, and
/// their opposites.
pub proof fn law_e2m1_values<S: Scalar>(val: spec_fn(S) -> real, bits: u32)
    requires
        models_reals(val),
        negates(val),
        bits < 8,
    ensures
        (2 as real) * val(decoded(Code::E2m1, bits)) == if bits <= 4 {
            bits as real
        } else if bits == 5 {
            6 as real
        } else if bits == 6 {
            8 as real
        } else {
            12 as real
        },
        val(decoded::<S>(Code::E2m1, (bits + 8) as u32)) == -val(decoded::<S>(Code::E2m1, bits)),
{
    lemma_sign_negates(val, bits, 2, 4, 2);
    if bits < 4 {
        lemma_first_codes(val, bits, 2, 4, 2);
    } else if bits < 6 {
        lemma_first_codes(val, (bits - 2) as u32, 2, 4, 2);
        lemma_next_exponent(val, (bits - 2) as u32, 2, 4, 2);
    } else {
        lemma_first_codes(val, (bits - 4) as u32, 2, 4, 2);
        lemma_next_exponent(val, (bits - 4) as u32, 2, 4, 2);
        lemma_next_exponent(val, (bits - 2) as u32, 2, 4, 2);
    }
}

/// The floats with four exponent bits: the first sixteen codes count parts in 512, eight
/// codes on a float is twice as large, the sign bit negates, and the last code of each
/// sign stands for nothing.
pub proof fn law_e4m3_values<S: Scalar>(val: spec_fn(S) -> real, bits: u32)
    requires
        models_reals(val),
        negates(val),
    ensures
        bits < 16 ==> (512 as real) * val(decoded(Code::E4m3, bits)) == bits as real,
        8 <= bits < 119 ==> val(decoded::<S>(Code::E4m3, (bits + 8) as u32)) == (2 as real) * val(
            decoded::<S>(Code::E4m3, bits),
        ),
        bits < 127 ==> val(decoded::<S>(Code::E4m3, (bits + 128) as u32)) == -val(
            decoded::<S>(Code::E4m3, bits),
        ),
        decoded::<S>(Code::E4m3, 127) == S::undefined(),
        decoded::<S>(Code::E4m3, 255) == S::undefined(),
{
    if bits < 16 {
        lemma_first_codes(val, bits, 8, 16, 512);
    }
    if 8 <= bits < 119 {
        lemma_next_exponent(val, bits, 8, 16, 512);
    }
    if bits < 127 {
        lemma_sign_negates(val, bits, 8, 16, 512);
    }
}

/// The floats with five exponent bits: the first eight codes count parts in 65536, four
/// codes on a float is twice as large, the sign bit negates, and of the codes with the
/// largest exponent the first stands for infinity and the others for nothing.
pub proof fn law_e5m2_values<S: Scalar>(val: spec_fn(S) -> real, bits: u32)
    requires
        models_reals(val),
        negates(val),
    ensures
        bits < 8 ==> (65536 as real) * val(decoded(Code::E5m2, bits)) == bits as real,
        4 <= bits < 120 ==> val(decoded::<S>(Code::E5m2, (bits + 4) as u32)) == (2 as real) * val(
            decoded::<S>(Code::E5m2, bits),
        ),
        bits < 124 ==> val(decoded::<S>(Code::E5m2, (bits + 128) as u32)) == -val(
            decoded::<S>(Code::E5m2, bits),
        ),
        decoded::<S>(Code::E5m2, 124) == S::applied(Fun::Neg, S::lowest()),
        decoded::<S>(Code::E5m2, 252) == S::lowest(),
        125 <= bits < 128 || 253 <= bits < 256 ==> decoded::<S>(Code::E5m2, bits)
            == S::undefined(),
{
    if bits < 8 {
        lemma_first_codes(val, bits, 4, 32, 65536);
    }
    if 4 <= bits < 120 {
        lemma_next_exponent(val, bits, 4, 32, 65536);
    }
    if bits < 124 {
        lemma_sign_negates(val, bits, 4, 32, 65536);
    }
}

/// A byte stands for itself, or for itself less 256.
pub proof fn law_int8_values<S: Scalar>(val: spec_fn(S) -> real, bits: u32)
    requires
        models_reals(val),
        bits < 256,
    ensures
        val(decoded(Code::Int8, bits)) == if bits < 128 {
            bits as real
        } else {
            (bits - 256) as real
        },
{
    lemma_val_rational(val, (bits % 256) as i64, 1);
    lemma_val_rational(val, (bits % 256 - 256) as i64, 1);
}

proof fn lemma_digit(w: int, base: int, i: int)
    requires
        0 <= w,
        1 < base,
        0 <= i,
    ensures
        digit(w, base, i) == w / pow(base, i as nat) % base,
        0 < pow(base, i as nat),
    decreases i,
{
    reveal(pow);
    if i > 0 {
        lemma_digit(w / base, base, i - 1);
        let p = pow(base, (i - 1) as nat);
        vstd::arithmetic::div_mod::lemma_div_denominator(w, base, p);
        assert(0 < base * p) by (nonlinear_arith)
            requires
                0 < base,
                0 < p,
        ;
    } else {
        vstd::arithmetic::div_mod::lemma_div_basics(w);
    }
}

/// Codes lie in a word with the first in the lowest bits: code `i` of the eight in word `p`
/// counts sixteen to the power `i`, and code `i` of four counts 256 to the power `i`.
pub proof fn law_first_code_lies_lowest(weights: Seq<u32>, p: int, i: int)
    requires
        0 <= p,
        0 <= i,
    ensures
        weights.len() % 8 == 0 && p * 8 + i < weights.len() && i < 8 ==> packed_row(
            weights,
            16,
            8,
        )[p] as int / pow(16, i as nat) % 16 == weights[p * 8 + i] as int % 16,
        weights.len() % 4 == 0 && p * 4 + i < weights.len() && i < 4 ==> packed_row(
            weights,
            256,
            4,
        )[p] as int / pow(256, i as nat) % 256 == weights[p * 4 + i] as int % 256,
{
    if weights.len() % 8 == 0 && p * 8 + i < weights.len() && i < 8 {
        law_int4_round_trip(weights, p * 8 + i);
        lemma_digit(packed_row(weights, 16, 8)[p] as int, 16, i);
    }
    if weights.len() % 4 == 0 && p * 4 + i < weights.len() && i < 4 {
        law_int8_round_trip(weights, p * 4 + i);
        lemma_digit(packed_row(weights, 256, 4)[p] as int, 256, i);
    }
}

/// Rows of whole blocks lie one after the other: the block of column `c` of row `r` is the
/// block of the flat place.
pub proof fn lemma_flat_block(r: int, cols: int, c: int, per: int)
    requires
        0 < per,
        cols % per == 0,
    ensures
        r * (cols / per) + c / per == (r * cols + c) / per,
        c % per == (r * cols + c) % per,
{
    vstd::arithmetic::div_mod::lemma_fundamental_div_mod(cols, per);
    vstd::arithmetic::div_mod::lemma_fundamental_div_mod(c, per);
    let (n, b, o) = (cols / per, c / per, c % per);
    assert(r * cols + c == (r * n + b) * per + o) by (nonlinear_arith)
        requires
            cols == per * n,
            c == per * b + o,
    ;
    vstd::arithmetic::div_mod::lemma_fundamental_div_mod_converse(
        r * cols + c,
        per,
        r * n + b,
        o,
    );
}

/// A weight under four-bit floats is the float of the code that was packed for its flat
/// place, times the scale of the flat place's block: two to the scale byte less 127, the
/// scale byte's float times the global scale, or the scale itself.
pub proof fn law_packed_weight<'a, S: Scalar>(
    codes: Seq<u32>,
    w: &'a [u32],
    bytes: &'a [u8],
    plain: &'a [S],
    global: &'a S,
    cols: u32,
    block: u32,
    rows: int,
    r: int,
    c: int,
)
    requires
        0 < block,
        cols % block == 0,
        cols % 8 == 0,
        0 <= r < rows,
        0 <= c < cols,
        codes.len() == rows * cols,
        w@ == packed_row(codes, 16, 8),
    ensures
        ({
            let i = r * cols + c;
            let b = c / block as int;
            let code = decoded::<S>(Code::E2m1, (codes[i] as int % 16) as u32);
            &&& mxfp4_weights::<S>(w, bytes, cols, block).weight(r, c, b) == times(
                code,
                S::applied(
                    Fun::Exp2,
                    minus(S::natural(bytes@[i / block as int] as u32), S::rational(127, 1)),
                ),
            )
            &&& nvfp4_weights::<S>(w, bytes, cols, block, global).weight(r, c, b) == times(
                code,
                times(decoded(Code::E4m3, bytes@[i / block as int] as u32), *global),
            )
            &&& fp4_weights::<S>(w, plain, cols, block).weight(r, c, b) == times(
                code,
                plain@[i / block as int],
            )
        }),
{
    let i = r * cols + c;
    lemma_flat_block(r, cols as int, c, block as int);
    lemma_flat_block(r, cols as int, c, 8);
    lemma_flat_block(rows, cols as int, 0, 8);
    lemma_row_major(r, rows, c, cols as int);
    law_int4_round_trip(codes, i);
}

/// A weight under eight-bit codes is what the byte at its flat place stands for, times the
/// scale of the flat place's block.
pub proof fn law_byte_weight<'a, S: Scalar>(
    w: &'a [u8],
    bytes: &'a [u8],
    plain: &'a [S],
    cols: u32,
    block: u32,
    r: int,
    c: int,
)
    requires
        0 < block,
        cols % block == 0,
        0 <= r,
        0 <= c < cols,
    ensures
        ({
            let i = r * cols + c;
            let b = c / block as int;
            let shift = S::applied(
                Fun::Exp2,
                minus(S::natural(bytes@[i / block as int] as u32), S::rational(127, 1)),
            );
            &&& mxfp8_e4m3_weights::<S>(w, bytes, cols, block).weight(r, c, b) == times(
                decoded(Code::E4m3, w@[i] as u32),
                shift,
            )
            &&& mxfp8_e5m2_weights::<S>(w, bytes, cols, block).weight(r, c, b) == times(
                decoded(Code::E5m2, w@[i] as u32),
                shift,
            )
            &&& fp8_e5m2_weights::<S>(w, plain, cols, block).weight(r, c, b) == times(
                decoded(Code::E5m2, w@[i] as u32),
                plain@[i / block as int],
            )
            &&& nvfp8_weights::<S>(w, plain, cols, block).weight(r, c, b) == times(
                decoded(Code::E4m3, w@[i] as u32),
                plain@[i / block as int],
            )
            &&& int8_weights::<S>(w, plain, cols, block).weight(r, c, b) == times(
                decoded(Code::Int8, w@[i] as u32),
                plain@[i / block as int],
            )
        }),
{
    lemma_flat_block(r, cols as int, c, block as int);
}

} // verus!
