use vstd::prelude::*;

verus! {

/// The value of `clamp(x, lo, hi)`: `lo` below the range, `hi` above it, `x` inside.
pub open spec fn clamp_spec(x: int, lo: int, hi: int) -> int {
    if x < lo {
        lo
    } else if x > hi {
        hi
    } else {
        x
    }
}

/// `x` limited to the range from `lo` to `hi`.
pub fn clamp(x: i64, lo: i64, hi: i64) -> (r: i64)
    ensures
        r == clamp_spec(x as int, lo as int, hi as int),
        lo <= hi ==> lo <= r <= hi,
{
    if x < lo {
        return lo;
    }
    if x > hi {
        return hi;
    }
    x
}

/// The mean of two numbers, rounded down.
pub fn mean(a: u8, b: u8) -> (m: u8)
    ensures
        m == (a + b) / 2,
        a <= b ==> a <= m <= b,
        b <= a ==> b <= m <= a,
{
    ((a as u16 + b as u16) / 2) as u8
}

} // verus!
