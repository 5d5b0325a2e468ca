//! Arithmetic that stops at the largest value.

use vstd::prelude::*;

verus! {

/// `n`, or the largest `u64` where `n` exceeds it.
pub open spec fn capped(n: nat) -> u64 {
    if n <= u64::MAX {
        n as u64
    } else {
        u64::MAX
    }
}

/// `n`, or the largest `u32` where `n` exceeds it.
pub open spec fn capped32(n: nat) -> u32 {
    if n <= u32::MAX {
        n as u32
    } else {
        u32::MAX
    }
}

/// `a * b`, or the largest value where that does not fit.
pub fn capped_product(a: u64, b: u64) -> (r: u64)
    ensures
        r == capped((a * b) as nat),
{
    proof {
        assert(a * b >= 0) by (nonlinear_arith)
            requires
                a >= 0,
                b >= 0,
        ;
    }
    match a.checked_mul(b) {
        Some(p) => p,
        None => u64::MAX,
    }
}

/// `a + b`, or the largest value where that does not fit.
pub fn capped_sum(a: u64, b: u64) -> (r: u64)
    ensures
        r == capped((a + b) as nat),
{
    a.saturating_add(b)
}

/// The lowest 32 bits.
pub open spec fn low32(n: u64) -> u32 {
    (n % 0x1_0000_0000) as u32
}

/// The lowest 16 bits.
pub open spec fn low16(n: u64) -> u16 {
    (n % 0x1_0000) as u16
}

} // verus!
