//! How numbers lie in bytes, how storage rounds them, how many elements the buffers of a
//! quantized format hold, and how the generator of sample data spreads its bits.
use vstd::prelude::*;

use crate::bench_plan::QFormat;
use crate::bytes::{all_le_bytes, from_le, law_bytes_len, law_bytes_round_trip, le_bytes};
use crate::convert::{brain_of, is_nan, single_of_brain};
use crate::dtype::Dt;
use crate::exact_quant::lemma_flat_block;
use crate::noise::{draw, scrambled, scrambled_by};
use crate::pack::{all_short_bytes, brains, law_short_bytes_len, packed, rounds_up};
use crate::quant::{
    fp4_weights, fp8_e5m2_weights, int8_weights, mxfp4_weights, mxfp8_e4m3_weights,
    mxfp8_e5m2_weights, nvfp4_weights, nvfp8_weights,
};
use crate::real_model::{
    lemma_val_constants, lemma_val_over, lemma_val_plus, lemma_val_rational, models_reals,
};
use crate::scalar::{over, times, Scalar};

verus! {

/// A word lies in its four bytes with the least significant one first.
pub proof fn law_words_lie_low_byte_first(v: Seq<u32>, i: int)
    requires
        0 <= i < v.len(),
    ensures
        all_le_bytes(v).len() == 4 * v.len(),
        all_le_bytes(v)[4 * i] == v[i] % 256,
        all_le_bytes(v)[4 * i + 1] == v[i] / 256 % 256,
        all_le_bytes(v)[4 * i + 2] == v[i] / 65536 % 256,
        all_le_bytes(v)[4 * i + 3] == v[i] / 16777216,
    decreases v.len(),
{
    law_bytes_len(v);
    law_bytes_len(v.drop_last());
    if i < v.len() - 1 {
        law_words_lie_low_byte_first(v.drop_last(), i);
    }
}

/// One number lies in bytes as a buffer of one does, and is read back from them.
pub proof fn law_one_word_lies_as_a_buffer(v: u32)
    ensures
        le_bytes(v) =~= all_le_bytes(seq![v]),
        from_le(le_bytes(v), 0) == v,
{
    assert(seq![v].drop_last() =~= Seq::<u32>::empty());
    reveal_with_fuel(all_le_bytes, 2);
    law_bytes_round_trip(seq![v], 0);
}

/// A 16-bit number lies in its two bytes with the low one first.
pub proof fn law_shorts_lie_low_byte_first(v: Seq<u16>, i: int)
    requires
        0 <= i < v.len(),
    ensures
        all_short_bytes(v).len() == 2 * v.len(),
        all_short_bytes(v)[2 * i] == v[i] % 256,
        all_short_bytes(v)[2 * i + 1] == v[i] / 256,
    decreases v.len(),
{
    law_short_bytes_len(v);
    law_short_bytes_len(v.drop_last());
    if i < v.len() - 1 {
        law_shorts_lie_low_byte_first(v.drop_last(), i);
    }
}

/// A buffer takes as many bytes as its type has to an element, four or two.
pub proof fn law_buffers_take_their_width(vals: Seq<u32>, dt: Dt)
    requires
        !(dt is F16),
    ensures
        packed(vals, dt).len() == vals.len() * dt.width(),
        Dt::F32.width() == 4,
        Dt::F16.width() == 2,
        Dt::Bf16.width() == 2,
{
    match dt {
        Dt::Bf16 => {
            law_short_bytes_len(brains(vals));
        },
        _ => {
            law_bytes_len(vals);
        },
    }
}

/// A tile stages bfloat in half precision, and the other types as they are.
pub proof fn law_tiles_stage_bfloat_in_half()
    ensures
        Dt::Bf16.staged() == Dt::F16,
        Dt::F16.staged() == Dt::F16,
        Dt::F32.staged() == Dt::F32,
{
}

/// Storage in bfloat keeps the nearest pattern whose lower half is zero, and the one above
/// where two are as near.
pub proof fn law_storage_takes_the_nearest(v: u32)
    requires
        rounds_up(v),
    ensures
        Dt::Bf16.rounded(v) % 0x1_0000 == 0,
        -0x8000 < Dt::Bf16.rounded(v) - v <= 0x8000,
        Dt::F32.rounded(v) == v,
{
}

/// A number is brought to bfloat by the nearest pattern whose lower half is zero, and by
/// the even one where two are as near; what is not a number stays so.
pub proof fn law_conversion_takes_the_nearest_even(v: u32)
    ensures
        !is_nan(v) ==> ({
            let r = single_of_brain(brain_of(v) as u16);
            &&& r % 0x1_0000 == 0
            &&& -0x8000 <= r - v <= 0x8000
            &&& r - v == 0x8000 || v - r == 0x8000 ==> r / 0x1_0000 % 2 == 0
        }),
        is_nan(v) ==> is_nan(single_of_brain(brain_of(v) as u16) as u32),
{
}

/// The buffers that the kernels of a format accept hold as many codes and scales as its
/// plan counts, and take as many bytes: a word holds eight 4-bit codes, a byte one 8-bit
/// code; powers of two and small float scales are bytes, plain scales words. A scale serves
/// 32 weights, 16 in the NV formats and 64 in plain 8-bit integers.
pub proof fn law_plans_count_the_buffers<'a, S: Scalar>(
    words: &'a [u32],
    codes: &'a [u8],
    bytes: &'a [u8],
    plain: &'a [S],
    global: &'a S,
    cols: u32,
    rows: int,
)
    requires
        0 <= rows,
    ensures
        mxfp4_weights::<S>(words, bytes, cols, 32).fits(rows) ==> QFormat::Mxfp4.codes(rows * cols)
            == words@.len() && QFormat::Mxfp4.scales(rows, cols as int) == bytes@.len()
            && QFormat::Mxfp4.weight_bytes(rows, cols as int) == 4 * words@.len() + bytes@.len(),
        nvfp4_weights::<S>(words, bytes, cols, 16, global).fits(rows) ==> QFormat::Nvfp4.codes(
            rows * cols,
        ) == words@.len() && QFormat::Nvfp4.scales(rows, cols as int) == bytes@.len()
            && QFormat::Nvfp4.weight_bytes(rows, cols as int) == 4 * words@.len() + bytes@.len(),
        fp4_weights::<S>(words, plain, cols, 32).fits(rows) ==> QFormat::Fp4.codes(rows * cols)
            == words@.len() && QFormat::Fp4.scales(rows, cols as int) == plain@.len()
            && QFormat::Fp4.weight_bytes(rows, cols as int) == 4 * words@.len() + 4
            * plain@.len(),
        mxfp8_e4m3_weights::<S>(codes, bytes, cols, 32).fits(rows) ==> QFormat::Mxfp8E4.codes(
            rows * cols,
        ) == codes@.len() && QFormat::Mxfp8E4.scales(rows, cols as int) == bytes@.len()
            && QFormat::Mxfp8E4.weight_bytes(rows, cols as int) == codes@.len() + bytes@.len(),
        mxfp8_e5m2_weights::<S>(codes, bytes, cols, 32).fits(rows) ==> QFormat::Mxfp8E5.codes(
            rows * cols,
        ) == codes@.len() && QFormat::Mxfp8E5.scales(rows, cols as int) == bytes@.len()
            && QFormat::Mxfp8E5.weight_bytes(rows, cols as int) == codes@.len() + bytes@.len(),
        nvfp8_weights::<S>(codes, plain, cols, 16).fits(rows) ==> QFormat::Nvfp8.codes(
            rows * cols,
        ) == codes@.len() && QFormat::Nvfp8.scales(rows, cols as int) == plain@.len()
            && QFormat::Nvfp8.weight_bytes(rows, cols as int) == codes@.len() + 4 * plain@.len(),
        fp8_e5m2_weights::<S>(codes, plain, cols, 32).fits(rows) ==> QFormat::Fp8E5m2.codes(
            rows * cols,
        ) == codes@.len() && QFormat::Fp8E5m2.scales(rows, cols as int) == plain@.len()
            && QFormat::Fp8E5m2.weight_bytes(rows, cols as int) == codes@.len() + 4 * plain@.len(),
        int8_weights::<S>(codes, plain, cols, 64).fits(rows) ==> QFormat::Int8.codes(rows * cols)
            == codes@.len() && QFormat::Int8.scales(rows, cols as int) == plain@.len()
            && QFormat::Int8.weight_bytes(rows, cols as int) == codes@.len() + 4 * plain@.len(),
{
    if cols % 8 == 0 {
        lemma_flat_block(rows, cols as int, 0, 8);
    }
}

/// The generator is linear over bits.
pub proof fn law_scrambling_is_linear(a: u64, b: u64)
    ensures
        scrambled(a ^ b) == scrambled(a) ^ scrambled(b),
{
    assert({
        let x = a ^ b;
        let p = x ^ (x << 13u64);
        let q = p ^ (p >> 7u64);
        let a1 = a ^ (a << 13u64);
        let a2 = a1 ^ (a1 >> 7u64);
        let b1 = b ^ (b << 13u64);
        let b2 = b1 ^ (b1 >> 7u64);
        (q ^ (q << 17u64)) == (a2 ^ (a2 << 17u64)) ^ (b2 ^ (b2 << 17u64))
    }) by (bit_vector);
}

/// Where no bit falls off at either end, the generator spreads each bit of `t` to eight
/// places: a state of `t` shifted up by seven goes to the sum, without carries, of `t`
/// shifted up by 0, 7, 13, 17, 20, 24, 30 and 37.
pub proof fn law_scrambling_spreads_bits(t: u64)
    requires
        t < 0x800_0000,
    ensures
        scrambled(t << 7u64) == t ^ (t << 7u64) ^ (t << 13u64) ^ (t << 17u64) ^ (t << 20u64) ^ (t
            << 24u64) ^ (t << 30u64) ^ (t << 37u64),
{
    assert({
        let s = t << 7u64;
        let a = s ^ (s << 13u64);
        let b = a ^ (a >> 7u64);
        (b ^ (b << 17u64)) == t ^ (t << 7u64) ^ (t << 13u64) ^ (t << 17u64) ^ (t << 20u64) ^ (t
            << 24u64) ^ (t << 30u64) ^ (t << 37u64)
    }) by (bit_vector)
        requires
            t < 0x800_0000,
    ;
}

/// A draw is the next draw of the generator one state before.
pub proof fn law_draws_continue<S: Scalar>(seed: u64, scale: S, i: int)
    requires
        0 <= i,
    ensures
        draw(seed, scale, i + 1) == draw(scrambled(seed), scale, i),
{
    lemma_advance(seed, i + 1);
}

proof fn lemma_advance(seed: u64, n: int)
    requires
        0 <= n,
    ensures
        scrambled_by(seed, n + 1) == scrambled_by(scrambled(seed), n),
    decreases n,
{
    if n > 0 {
        lemma_advance(seed, n - 1);
    } else {
        reveal_with_fuel(scrambled_by, 2);
    }
}

/// The first draw takes one of 20000 steps from minus half the scale to half of it: as many
/// as the next state leaves over.
pub proof fn law_draw_is_a_level<S: Scalar>(val: spec_fn(S) -> real, seed: u64, scale: S)
    requires
        models_reals(val),
    ensures
        20000real * (2real * val(draw(seed, scale, 0)) + val(scale)) == (2real * ((scrambled(seed)
            % 20000) as real)) * val(scale),
{
    reveal_with_fuel(scrambled_by, 2);
    let level = (scrambled(seed) % 20000) as u32;
    lemma_val_constants(val, level);
    lemma_val_rational(val, 20000, 1);
    lemma_val_over(val, S::natural(level), S::rational(20000, 1));
    let unit = over(S::natural(level), S::rational(20000, 1));
    lemma_val_plus(val, unit, scale);
    lemma_val_plus(val, scale, S::rational(1, 2));
    lemma_val_plus(val, times(unit, scale), times(scale, S::rational(1, 2)));
    let (u, x, h, l) = (val(unit), val(scale), val(S::rational(1, 2)), level as real);
    assert(u * 20000real == l) by (nonlinear_arith)
        requires
            u == l / 20000real,
    ;
    let (p, q) = (u * x, x * h);
    assert(2real * q == x) by (nonlinear_arith)
        requires
            q == x * h,
            h * 2real == 1real,
    ;
    assert(20000real * p == l * x) by (nonlinear_arith)
        requires
            p == u * x,
            u * 20000real == l,
    ;
    assert((2real * l) * x == 2real * (l * x)) by (nonlinear_arith);
}

} // verus!
