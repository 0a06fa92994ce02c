//! Buffers of floats, given as bit patterns, as the bytes that a launch reads.
//!
//! A float is its 32-bit pattern. In half precision, where the processor may round, a
//! buffer is given as the 16-bit patterns themselves.
use vstd::prelude::*;

use crate::bytes::{all_le_bytes, from_le, law_bytes_len, law_bytes_round_trip};
use crate::convert::{
    bf16_from, bf16_to, brain_of, is_nan, single_of_brain, word_from_bytes, word_to_bytes,
};
use crate::dtype::Dt;
use crate::layout::lemma_len_fits;

verus! {

/// The bytes of a 16-bit number, the least significant first.
pub open spec fn short_bytes(h: u16) -> Seq<u8> {
    seq![(h % 256) as u8, (h / 256) as u8]
}

/// The bytes of each number in turn.
pub open spec fn all_short_bytes(v: Seq<u16>) -> Seq<u8>
    decreases v.len(),
{
    if v.len() == 0 {
        seq![]
    } else {
        all_short_bytes(v.drop_last()) + short_bytes(v.last())
    }
}

/// The 16-bit number at byte `at`.
pub open spec fn short_at(b: Seq<u8>, at: int) -> int {
    b[at] + b[at + 1] * 256
}

/// The upper half of a pattern after half a unit of it was added: rounding to nearest,
/// away from zero at a tie.
pub open spec fn upper_rounded(bits: u32) -> int {
    (bits + 0x8000) / 0x1_0000
}

/// Half a unit of the upper half can be added to the pattern. Of a number it always
/// can.
pub open spec fn rounds_up(bits: u32) -> bool {
    bits + 0x8000 <= u32::MAX
}

/// The patterns of a buffer in bfloat, rounded away from zero at a tie.
pub open spec fn brains(vals: Seq<u32>) -> Seq<u16> {
    Seq::new(vals.len(), |i: int| upper_rounded(vals[i]) as u16)
}

/// The patterns of a buffer in bfloat, rounded to even at a tie.
pub open spec fn even_brains(vals: Seq<u32>) -> Seq<u16> {
    Seq::new(vals.len(), |i: int| brain_of(vals[i]) as u16)
}

/// The bytes of a buffer, bfloats rounded away from zero at a tie.
pub open spec fn packed(vals: Seq<u32>, dt: Dt) -> Seq<u8> {
    match dt {
        Dt::Bf16 => all_short_bytes(brains(vals)),
        _ => all_le_bytes(vals),
    }
}

/// The buffer that bytes hold.
pub open spec fn unpacked(bytes: Seq<u8>, dt: Dt) -> Seq<u32> {
    match dt {
        Dt::Bf16 => Seq::new(
            bytes.len() / 2,
            |i: int| (short_at(bytes, 2 * i) * 0x1_0000) as u32,
        ),
        _ => Seq::new(bytes.len() / 4, |i: int| from_le(bytes, 4 * i) as u32),
    }
}

impl Dt {
    /// What storage in this type makes of a pattern.
    pub open spec fn rounded(self, v: u32) -> int {
        match self {
            Dt::Bf16 => upper_rounded(v) * 0x1_0000,
            _ => v as int,
        }
    }

    /// What storage in this type makes of a pattern.
    pub fn round(self, v: u32) -> (r: u32)
        requires
            !(self is F16),
            self is Bf16 ==> rounds_up(v),
        ensures
            r == self.rounded(v),
    {
        match self {
            Dt::Bf16 => (v + 0x8000) / 0x1_0000 * 0x1_0000,
            _ => v,
        }
    }
}

/// 16-bit numbers as bytes, two each.
pub fn pack_u16(vals: &[u16]) -> (b: Vec<u8>)
    ensures
        b@ == all_short_bytes(vals@),
{
    let mut b: Vec<u8> = Vec::new();
    let mut i: usize = 0;
    while i < vals.len()
        invariant
            i <= vals@.len(),
            b@ == all_short_bytes(vals@.take(i as int)),
        decreases vals@.len() - i,
    {
        let h: u16 = vals[i];
        let ghost before = b@;
        b.push((h % 256) as u8);
        b.push((h / 256) as u8);
        assert(b@ =~= before + short_bytes(h));
        assert(vals@.take(i + 1).drop_last() =~= vals@.take(i as int));
        i = i + 1;
    }
    assert(vals@.take(i as int) =~= vals@);
    b
}

/// The 16-bit numbers that bytes hold; an odd byte at the end is left over.
pub fn unpack_u16(bytes: &[u8]) -> (vals: Vec<u16>)
    ensures
        vals@.len() == bytes@.len() / 2,
        forall|i: int| 0 <= i < vals@.len() ==> #[trigger] vals@[i] == short_at(bytes@, 2 * i),
{
    proof {
        lemma_len_fits(bytes);
    }
    let n: usize = bytes.len() / 2;
    let mut vals: Vec<u16> = Vec::new();
    let mut i: usize = 0;
    while i < n
        invariant
            i <= n,
            vals@.len() == i,
            n == bytes@.len() / 2,
            bytes@.len() <= usize::MAX,
            forall|j: int| 0 <= j < i ==> #[trigger] vals@[j] == short_at(bytes@, 2 * j),
        decreases n - i,
    {
        vals.push(bytes[2 * i] as u16 + bytes[2 * i + 1] as u16 * 256);
        i = i + 1;
    }
    vals
}

/// Words as bytes, four each.
pub fn pack_u32(vals: &[u32]) -> (b: Vec<u8>)
    ensures
        b@ == all_le_bytes(vals@),
{
    let mut b: Vec<u8> = Vec::new();
    let mut i: usize = 0;
    while i < vals.len()
        invariant
            i <= vals@.len(),
            b@ == all_le_bytes(vals@.take(i as int)),
        decreases vals@.len() - i,
    {
        let mut four = word_to_bytes(vals[i]);
        assert(vals@.take(i + 1).drop_last() =~= vals@.take(i as int));
        b.append(&mut four);
        i = i + 1;
    }
    assert(vals@.take(i as int) =~= vals@);
    b
}

/// The words that bytes hold.
pub fn unpack_u32(bytes: &[u8]) -> (vals: Vec<u32>)
    requires
        bytes@.len() % 4 == 0,
    ensures
        vals@.len() == bytes@.len() / 4,
        forall|i: int| 0 <= i < vals@.len() ==> #[trigger] vals@[i] == from_le(bytes@, 4 * i),
{
    proof {
        lemma_len_fits(bytes);
    }
    let n: usize = bytes.len() / 4;
    let mut vals: Vec<u32> = Vec::new();
    let mut i: usize = 0;
    while i < n
        invariant
            i <= n,
            vals@.len() == i,
            n == bytes@.len() / 4,
            bytes@.len() <= usize::MAX,
            forall|j: int| 0 <= j < i ==> #[trigger] vals@[j] == from_le(bytes@, 4 * j),
        decreases n - i,
    {
        let at: usize = 4 * i;
        let four = vstd::slice::slice_subrange(bytes, at, at + 4);
        assert(from_le(four@, 0) == from_le(bytes@, 4 * i));
        vals.push(word_from_bytes(four));
        i = i + 1;
    }
    vals
}

/// The floats of a buffer as bytes, bfloats rounded away from zero at a tie.
pub fn pack_bytes(vals: &[u32], dt: Dt) -> (b: Vec<u8>)
    requires
        !(dt is F16),
        dt is Bf16 ==> forall|i: int| 0 <= i < vals@.len() ==> rounds_up(#[trigger] vals@[i]),
    ensures
        b@ == packed(vals@, dt),
{
    match dt {
        Dt::Bf16 => {
            let mut shorts: Vec<u16> = Vec::new();
            let mut i: usize = 0;
            while i < vals.len()
                invariant
                    i <= vals@.len(),
                    shorts@.len() == i,
                    forall|i: int| 0 <= i < vals@.len() ==> rounds_up(#[trigger] vals@[i]),
                    forall|j: int| 0 <= j < i ==> #[trigger] shorts@[j] == brains(vals@)[j],
                decreases vals@.len() - i,
            {
                shorts.push(((vals[i] + 0x8000) / 0x1_0000) as u16);
                i = i + 1;
            }
            assert(shorts@ =~= brains(vals@));
            pack_u16(&shorts)
        },
        _ => pack_u32(vals),
    }
}

/// The floats that bytes hold.
pub fn unpack_bytes(bytes: &[u8], dt: Dt) -> (vals: Vec<u32>)
    requires
        !(dt is F16),
        dt is F32 ==> bytes@.len() % 4 == 0,
    ensures
        vals@ == unpacked(bytes@, dt),
{
    match dt {
        Dt::Bf16 => {
            let shorts = unpack_u16(bytes);
            let mut vals: Vec<u32> = Vec::new();
            let mut i: usize = 0;
            while i < shorts.len()
                invariant
                    i <= shorts@.len(),
                    vals@.len() == i,
                    shorts@.len() == bytes@.len() / 2,
                    forall|j: int|
                        0 <= j < shorts@.len() ==> #[trigger] shorts@[j] == short_at(
                            bytes@,
                            2 * j,
                        ),
                    forall|j: int|
                        0 <= j < i ==> #[trigger] vals@[j] == short_at(bytes@, 2 * j)
                            * 0x1_0000,
                decreases shorts@.len() - i,
            {
                vals.push(shorts[i] as u32 * 0x1_0000);
                i = i + 1;
            }
            assert(vals@ =~= unpacked(bytes@, dt));
            vals
        },
        _ => {
            let vals = unpack_u32(bytes);
            assert(vals@ =~= unpacked(bytes@, dt));
            vals
        },
    }
}

/// The floats of a buffer as bytes, bfloats rounded to even at a tie.
pub fn pack(vals: &[u32], dt: Dt) -> (b: Vec<u8>)
    requires
        !(dt is F16),
    ensures
        dt is F32 ==> b@ == all_le_bytes(vals@),
        dt is Bf16 ==> b@ == all_short_bytes(even_brains(vals@)),
{
    match dt {
        Dt::Bf16 => {
            let mut shorts: Vec<u16> = Vec::new();
            let mut i: usize = 0;
            while i < vals.len()
                invariant
                    i <= vals@.len(),
                    shorts@.len() == i,
                    forall|j: int| 0 <= j < i ==> #[trigger] shorts@[j] == even_brains(vals@)[j],
                decreases vals@.len() - i,
            {
                shorts.push(bf16_from(vals[i]));
                i = i + 1;
            }
            assert(shorts@ =~= even_brains(vals@));
            pack_u16(&shorts)
        },
        _ => pack_u32(vals),
    }
}

/// What storage makes of a pattern, bfloats rounded to even at a tie.
pub fn round(v: u32, dt: Dt) -> (r: u32)
    requires
        !(dt is F16),
    ensures
        dt is F32 ==> r == v,
        dt is Bf16 ==> r == single_of_brain(brain_of(v) as u16),
{
    match dt {
        Dt::Bf16 => bf16_to(bf16_from(v)),
        _ => v,
    }
}

/// Each number takes two bytes.
pub proof fn law_short_bytes_len(v: Seq<u16>)
    ensures
        all_short_bytes(v).len() == 2 * v.len(),
    decreases v.len(),
{
    if v.len() > 0 {
        law_short_bytes_len(v.drop_last());
    }
}

/// The bytes of a 16-bit number hold it.
pub proof fn law_short_bytes_round_trip(v: Seq<u16>, i: int)
    requires
        0 <= i < v.len(),
    ensures
        short_at(all_short_bytes(v), 2 * i) == v[i],
    decreases v.len(),
{
    law_short_bytes_len(v.drop_last());
    if i < v.len() - 1 {
        law_short_bytes_round_trip(v.drop_last(), i);
    }
}

/// Unpacking packed bytes gives back what storage in the type makes of each float.
pub proof fn law_unpack_of_pack_rounds(vals: Seq<u32>, dt: Dt)
    requires
        !(dt is F16),
        dt is Bf16 ==> forall|i: int| 0 <= i < vals.len() ==> rounds_up(#[trigger] vals[i]),
    ensures
        unpacked(packed(vals, dt), dt) =~= Seq::new(
            vals.len(),
            |i: int| dt.rounded(vals[i]) as u32,
        ),
{
    let back = unpacked(packed(vals, dt), dt);
    if dt is F32 {
        law_bytes_len(vals);
        assert forall|i: int| 0 <= i < vals.len() implies #[trigger] back[i] == dt.rounded(
            vals[i],
        ) by {
            law_bytes_round_trip(vals, i);
        }
    } else {
        law_short_bytes_len(brains(vals));
        assert forall|i: int| 0 <= i < vals.len() implies #[trigger] back[i] == dt.rounded(
            vals[i],
        ) by {
            law_short_bytes_round_trip(brains(vals), i);
            assert(rounds_up(vals[i]));
        }
    }
}

/// Rounding a second time changes nothing.
pub proof fn law_rounding_is_idempotent(v: u32, dt: Dt)
    requires
        !(dt is F16),
        dt is Bf16 ==> rounds_up(v),
    ensures
        dt.rounded(dt.rounded(v) as u32) == dt.rounded(v),
{
}

/// Both ways to round to bfloat differ only at a tie, for a number.
pub proof fn law_roundings_differ_only_at_ties(v: u32)
    requires
        !is_nan(v),
        v % 0x1_0000 != 0x8000,
    ensures
        rounds_up(v),
        upper_rounded(v) == brain_of(v),
{
}

} // verus!
