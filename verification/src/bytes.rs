//! Integers as buffers hold them.
use vstd::prelude::*;

verus! {

/// Byte `i` of `v`, the least significant first.
pub open spec fn byte_of(v: u32, i: int) -> u8 {
    if i == 0 {
        (v % 256) as u8
    } else if i == 1 {
        (v / 256 % 256) as u8
    } else if i == 2 {
        (v / 65536 % 256) as u8
    } else {
        (v / 16777216) as u8
    }
}

/// The little-endian bytes of `v`.
pub open spec fn le_bytes(v: u32) -> Seq<u8> {
    seq![byte_of(v, 0), byte_of(v, 1), byte_of(v, 2), byte_of(v, 3)]
}

/// The little-endian bytes of each number in turn.
pub open spec fn all_le_bytes(v: Seq<u32>) -> Seq<u8>
    decreases v.len(),
{
    if v.len() == 0 {
        seq![]
    } else {
        all_le_bytes(v.drop_last()) + le_bytes(v.last())
    }
}

/// The number that four bytes hold.
pub open spec fn from_le(b: Seq<u8>, at: int) -> int {
    b[at] + b[at + 1] * 256 + b[at + 2] * 65536 + b[at + 3] * 16777216
}

/// One number as four bytes.
pub fn u32_le(v: u32) -> (b: Vec<u8>)
    ensures
        b@ == le_bytes(v),
{
    let mut b: Vec<u8> = Vec::new();
    b.push((v % 256) as u8);
    b.push((v / 256 % 256) as u8);
    b.push((v / 65536 % 256) as u8);
    b.push((v / 16777216) as u8);
    assert(b@ =~= le_bytes(v));
    b
}

/// Numbers as bytes, four each.
pub fn u32_bytes(v: &[u32]) -> (b: Vec<u8>)
    ensures
        b@ == all_le_bytes(v@),
{
    let mut b: Vec<u8> = Vec::new();
    let mut i: usize = 0;
    while i < v.len()
        invariant
            i <= v@.len(),
            b@ == all_le_bytes(v@.take(i as int)),
        decreases v@.len() - i,
    {
        let mut four = u32_le(v[i]);
        assert(v@.take(i + 1).drop_last() =~= v@.take(i as int));
        b.append(&mut four);
        i = i + 1;
    }
    assert(v@.take(i as int) =~= v@);
    b
}

/// A dimension as a buffer of one number; only its low 32 bits are kept.
pub fn pack_u32_scalar(v: usize) -> (b: Vec<u8>)
    ensures
        b@ == le_bytes(v as u32),
{
    u32_le(v as u32)
}

/// Each number takes four bytes.
pub proof fn law_bytes_len(v: Seq<u32>)
    ensures
        all_le_bytes(v).len() == 4 * v.len(),
    decreases v.len(),
{
    if v.len() > 0 {
        law_bytes_len(v.drop_last());
    }
}

/// The bytes of a number hold it.
pub proof fn law_bytes_round_trip(v: Seq<u32>, i: int)
    requires
        0 <= i < v.len(),
    ensures
        from_le(all_le_bytes(v), 4 * i) == v[i],
    decreases v.len(),
{
    law_bytes_len(v.drop_last());
    if i < v.len() - 1 {
        law_bytes_round_trip(v.drop_last(), i);
    }
}

} // verus!
