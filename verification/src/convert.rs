//! Floats as bit patterns: their bytes, and their rounding to bfloat.
//!
//! What `bytemuck` and `half` do is stated here and trusted; everything else is built
//! on it.
use vstd::prelude::*;

use crate::bytes::{from_le, le_bytes};

verus! {

/// A 32-bit pattern that is not a number.
pub open spec fn is_nan(bits: u32) -> bool {
    bits % 0x8000_0000 > 0x7F80_0000
}

/// A bfloat pattern that is not a number.
pub open spec fn is_nan_brain(b: u16) -> bool {
    b % 0x8000 > 0x7F80
}

/// The bfloat pattern nearest to a 32-bit pattern: the upper half, rounded to nearest
/// and to even; of a NaN the upper half, made quiet.
pub open spec fn brain_of(bits: u32) -> int {
    let upper = bits as int / 0x1_0000;
    let lower = bits as int % 0x1_0000;
    if is_nan(bits) {
        if upper / 0x40 % 2 == 0 {
            upper + 0x40
        } else {
            upper
        }
    } else if lower > 0x8000 || (lower == 0x8000 && upper % 2 == 1) {
        upper + 1
    } else {
        upper
    }
}

/// The 32-bit pattern of a bfloat pattern: the bfloat is its upper half, made quiet
/// where it is a NaN.
pub open spec fn single_of_brain(b: u16) -> int {
    if is_nan_brain(b) && b as int / 0x40 % 2 == 0 {
        (b + 0x40) * 0x1_0000
    } else {
        b * 0x1_0000
    }
}

/// `half::bf16::from_f32`: the upper half of the pattern, rounded to nearest and to
/// even, and of a NaN made quiet.
#[verifier::external_body]
pub(crate) fn bf16_from(bits: u32) -> (b: u16)
    ensures
        b == brain_of(bits),
{
    half::bf16::from_f32(bytemuck::cast(bits)).to_bits()
}

/// `half::bf16::to_f32`: the pattern with `b` as its upper half, and of a NaN made
/// quiet.
#[verifier::external_body]
pub(crate) fn bf16_to(b: u16) -> (bits: u32)
    ensures
        bits == single_of_brain(b),
{
    bytemuck::cast(half::bf16::from_bits(b).to_f32())
}

/// `bytemuck::cast_slice` of a word in little-endian order: its four bytes, the least
/// significant first.
#[verifier::external_body]
pub(crate) fn word_to_bytes(w: u32) -> (b: Vec<u8>)
    ensures
        b@ == le_bytes(w),
{
    bytemuck::cast_slice::<u32, u8>(&[w.to_le()]).to_vec()
}

/// `bytemuck::pod_read_unaligned` of four bytes: the word that they hold, the least
/// significant byte first.
#[verifier::external_body]
pub(crate) fn word_from_bytes(b: &[u8]) -> (w: u32)
    requires
        b@.len() == 4,
    ensures
        w == from_le(b@, 0),
{
    u32::from_le(bytemuck::pod_read_unaligned(b))
}

} // verus!
