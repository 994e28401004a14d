//! Arithmetic that stops at the ends of its range.

use vstd::prelude::*;

verus! {

/// `value` moved into `low..=high`.
pub open spec fn clamped(value: int, low: int, high: int) -> int {
    if value < low {
        low
    } else if value > high {
        high
    } else {
        value
    }
}

/// `value` moved into the range of `i64`.
pub open spec fn clamped_i64(value: int) -> int {
    clamped(value, i64::MIN as int, i64::MAX as int)
}

/// The sum, or the end of the range that it passes.
pub fn saturating_sum(a: i64, b: i64) -> (r: i64)
    ensures
        r == clamped_i64(a + b),
{
    let sum: i128 = a as i128 + b as i128;
    if sum < i64::MIN as i128 {
        i64::MIN
    } else if sum > i64::MAX as i128 {
        i64::MAX
    } else {
        sum as i64
    }
}

/// The difference, or the end of the range that it passes.
pub fn saturating_difference(a: i64, b: i64) -> (r: i64)
    ensures
        r == clamped_i64(a - b),
{
    let difference: i128 = a as i128 - b as i128;
    if difference < i64::MIN as i128 {
        i64::MIN
    } else if difference > i64::MAX as i128 {
        i64::MAX
    } else {
        difference as i64
    }
}

} // verus!
