//! Integers in another width or sign, by their bits.

use vstd::prelude::*;

verus! {

/// The bits of an unsigned number, read as a signed one.
pub open spec fn signed64(x: u64) -> i64 {
    if x <= i64::MAX {
        x as i64
    } else {
        (x - 0x1_0000_0000_0000_0000) as i64
    }
}

/// The bits of a signed number, read as an unsigned one.
pub open spec fn unsigned64(x: i64) -> u64 {
    if x < 0 {
        (x + 0x1_0000_0000_0000_0000) as u64
    } else {
        x as u64
    }
}

/// The low 32 bits of a signed number.
pub open spec fn low32(x: i64) -> u32 {
    (x as int % 0x1_0000_0000) as u32
}

/// The low 64 bits of a wide number.
pub open spec fn low64(x: u128) -> u64 {
    (x as int % 0x1_0000_0000_0000_0000) as u64
}

/// The bits of an unsigned number, read as a signed one.
pub fn to_signed64(x: u64) -> (r: i64)
    ensures
        r == signed64(x),
{
    assert(x > 0x7fff_ffff_ffff_ffff ==> x as i64 == x - 0x1_0000_0000_0000_0000) by (bit_vector);
    #[verifier::truncate]
    (x as i64)
}

/// The bits of a signed number, read as an unsigned one.
pub fn to_unsigned64(x: i64) -> (r: u64)
    ensures
        r == unsigned64(x),
{
    assert(x < 0 ==> x as u64 == x + 0x1_0000_0000_0000_0000) by (bit_vector);
    #[verifier::truncate]
    (x as u64)
}

/// The low 32 bits of a signed number.
pub fn to_low32(x: i64) -> (r: u32)
    ensures
        r == low32(x),
{
    let wide: u64 = to_unsigned64(x);
    assert(wide as u32 == wide % 0x1_0000_0000) by (bit_vector);
    #[verifier::truncate]
    (wide as u32)
}

/// The low 64 bits of a wide number.
pub fn to_low64(x: u128) -> (r: u64)
    ensures
        r == low64(x),
{
    assert(x as u64 == x % 0x1_0000_0000_0000_0000) by (bit_vector);
    #[verifier::truncate]
    (x as u64)
}

/// A number that fits keeps its value in either sign.
pub proof fn law_signs_agree(x: u64, y: i64)
    ensures
        unsigned64(signed64(x)) == x,
        signed64(unsigned64(y)) == y,
        x <= i64::MAX ==> signed64(x) == x,
        y >= 0 ==> unsigned64(y) == y,
{
}

/// The other reading of a number has the same bits: it differs by a multiple of two to the width,
/// and lies in its range.
pub proof fn law_same_bits(x: u64, y: i64, w: u128)
    ensures
        signed64(x) == x || signed64(x) + 0x1_0000_0000_0000_0000 == x,
        signed64(x) < 0 <==> x >= 0x8000_0000_0000_0000,
        unsigned64(y) == y || unsigned64(y) == y + 0x1_0000_0000_0000_0000,
        unsigned64(y) == y <==> y >= 0,
        (y - low32(y)) % 0x1_0000_0000 == 0,
        (w - low64(w)) % 0x1_0000_0000_0000_0000 == 0,
{
}

} // verus!
