//! Saturating arithmetic on block quantities.
use vstd::prelude::*;

verus! {

/// `x` as a `u64`, or the largest `u64` where `x` is larger.
pub open spec fn saturated(x: int) -> u64 {
    if x > u64::MAX {
        u64::MAX
    } else {
        x as u64
    }
}

/// `x` as a `u32`, or the largest `u32` where `x` is larger.
pub open spec fn saturated32(x: int) -> u32 {
    if x > u32::MAX {
        u32::MAX
    } else {
        x as u32
    }
}

/// The product, saturating.
pub fn sat_mul(a: u64, b: u64) -> (r: u64)
    ensures
        r == saturated(a * b),
{
    assert(a * b >= 0) by (nonlinear_arith);
    match a.checked_mul(b) {
        Some(p) => p,
        None => u64::MAX,
    }
}

/// The sum, saturating.
pub fn sat_add(a: u64, b: u64) -> (r: u64)
    ensures
        r == saturated(a + b),
{
    if a > u64::MAX - b {
        u64::MAX
    } else {
        a + b
    }
}

/// Two 32-bit factors, multiplied without loss.
pub fn mul32(a: u32, b: u32) -> (r: u64)
    ensures
        r == a * b,
        r <= 0xFFFF_FFFE_0000_0001,
{
    assert(a * b <= 0xFFFF_FFFF * 0xFFFF_FFFF) by (nonlinear_arith)
        requires
            a <= 0xFFFF_FFFF,
            b <= 0xFFFF_FFFF,
    ;
    a as u64 * b as u64
}

/// The lower of the two.
pub fn min64(a: u64, b: u64) -> (r: u64)
    ensures
        r == if a <= b {
            a
        } else {
            b
        },
{
    if a <= b {
        a
    } else {
        b
    }
}

/// The higher of the two.
pub fn max64(a: u64, b: u64) -> (r: u64)
    ensures
        r == if a >= b {
            a
        } else {
            b
        },
{
    if a >= b {
        a
    } else {
        b
    }
}

/// `x` as a `u32`, or the largest `u32` where `x` is larger.
pub fn clamp32(x: u64) -> (r: u32)
    ensures
        r == saturated32(x as int),
{
    if x > u32::MAX as u64 {
        u32::MAX
    } else {
        x as u32
    }
}

} // verus!
