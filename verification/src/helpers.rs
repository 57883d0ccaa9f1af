//! Integer helpers of the fixed-point edge setup: a widening multiply, and
//! shifts and masks stated as floor division and remainder.

use vstd::prelude::*;

verus! {

/// Multiplies two 32-bit integers into a 64-bit product, which never overflows.
pub fn Int32x32To64(a: i32, b: i32) -> (r: i64)
    ensures
        r == a as int * b as int,
{
    assert(-0x4000_0000_0000_0000 <= a as int * b as int <= 0x4000_0000_0000_0000)
        by (nonlinear_arith)
        requires
            -0x8000_0000 <= a as int <= 0x7fff_ffff,
            -0x8000_0000 <= b as int <= 0x7fff_ffff,
    ;
    (a as i64) * (b as i64)
}

/// The mask of the low `shift` bits.
pub open spec fn low_mask(shift: u32) -> i32 {
    if shift >= 31 {
        i32::MAX
    } else {
        ((1i32 << shift) - 1) as i32
    }
}

/// Arithmetic shift right by `shift` bits: the floor of `v / 2^shift`.
pub fn FloorShift(v: i32, shift: u32) -> (r: i32)
    requires
        shift < 32,
    ensures
        r == v >> shift,
        shift == 3 ==> r == v as int / 8,
        shift == 4 ==> r == v as int / 16,
{
    if shift == 3 {
        assert(v >> 3u32 == v as int / 8) by (bit_vector);
    } else if shift == 4 {
        assert(v >> 4u32 == v as int / 16) by (bit_vector);
    }
    v >> shift
}

/// The low `shift` bits of `v`: the remainder of the floor division by
/// `2^shift`, which is never negative.
pub fn LowBits(v: i32, shift: u32) -> (r: i32)
    requires
        shift < 32,
    ensures
        r == v & low_mask(shift),
        shift == 3 ==> r == v as int % 8,
        shift == 4 ==> r == v as int % 16,
        0 <= r,
{
    if shift == 3 {
        assert(v & 7 == v as int % 8) by (bit_vector);
        assert(((1i32 << 3u32) - 1) as i32 == 7) by (bit_vector);
    } else if shift == 4 {
        assert(v & 15 == v as int % 16) by (bit_vector);
        assert(((1i32 << 4u32) - 1) as i32 == 15) by (bit_vector);
    }
    let mask: i32 = if shift >= 31 {
        i32::MAX
    } else {
        assert(1 <= (1i32 << shift) <= 0x4000_0000) by (bit_vector)
            requires
                shift < 31,
        ;
        (1i32 << shift) - 1
    };
    assert(v & mask >= 0) by (bit_vector)
        requires
            mask >= 0,
    ;
    v & mask
}

/// Floor of `v / 16` on a 64-bit value.
pub fn FloorShift64(v: i64) -> (r: i64)
    ensures
        r == v as int / 16,
{
    assert(v >> 4u32 == v as int / 16) by (bit_vector);
    v >> 4u32
}

/// Remainder of the floor division of a 64-bit value by 16.
pub fn LowBits64(v: i64) -> (r: i64)
    ensures
        r == v as int % 16,
        0 <= r < 16,
{
    assert(v & 15 == v as int % 16) by (bit_vector);
    v & 15
}

} // verus!
