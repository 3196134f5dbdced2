//! Small arithmetic shared by the other modules.

use vstd::prelude::*;

verus! {

/// The smaller of two numbers.
pub open spec fn min_of(a: int, b: int) -> int {
    if a <= b { a } else { b }
}

/// The larger of two numbers.
pub open spec fn max_of(a: int, b: int) -> int {
    if a >= b { a } else { b }
}

/// `v` moved into `lo..=hi`.
pub open spec fn within(v: int, lo: int, hi: int) -> int {
    if v < lo { lo } else if v > hi { hi } else { v }
}

/// The smaller of two numbers.
pub fn smaller(a: u64, b: u64) -> (r: u64)
    ensures
        r == min_of(a as int, b as int),
{
    if a <= b { a } else { b }
}

/// The larger of two numbers.
pub fn larger(a: u64, b: u64) -> (r: u64)
    ensures
        r == max_of(a as int, b as int),
{
    if a >= b { a } else { b }
}

/// `v` moved into `lo..=hi`.
pub fn clamp(v: u64, lo: u64, hi: u64) -> (r: u64)
    requires
        lo <= hi,
    ensures
        r == within(v as int, lo as int, hi as int),
{
    if v < lo { lo } else if v > hi { hi } else { v }
}

/// The smaller number is one of the two and neither exceeds it; the larger one
/// is the other.
pub proof fn one_is_smaller_and_one_is_larger(a: int, b: int)
    ensures
        min_of(a, b) <= a && min_of(a, b) <= b,
        max_of(a, b) >= a && max_of(a, b) >= b,
        min_of(a, b) + max_of(a, b) == a + b,
        min_of(a, b) == a || min_of(a, b) == b,
{
}

/// A number that is moved into a range is in it, and no number of the range is
/// nearer to where it came from.
pub proof fn nothing_moves_further_than_it_must(v: int, lo: int, hi: int, other: int)
    requires
        lo <= hi,
        lo <= other <= hi,
    ensures
        lo <= within(v, lo, hi) <= hi,
        v <= other ==> v <= within(v, lo, hi) <= other,
        v >= other ==> other <= within(v, lo, hi) <= v,
{
}

} // verus!
