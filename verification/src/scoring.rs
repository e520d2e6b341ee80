//! The standard scoring policy: a match scores 3, a mismatch -3, and a gap
//! of length `n` costs `2 * n`.

use vstd::prelude::*;
use crate::alignment::model::Policy;

verus! {

/// The largest gap length whose penalty still fits the penalty's type.
pub const MAX_GAP: u32 = 0x3fff_ffff;

/// The standard score of pairing `a` with `b`.
pub open spec fn standard_score(a: char, b: char) -> int {
    if a == b {
        3
    } else {
        -3
    }
}

/// The standard penalty of a gap of length `gap`.
pub open spec fn standard_gap_penalty(gap: int) -> int {
    2 * gap
}

/// The standard policy.
pub open spec fn standard_policy() -> Policy {
    Policy { score: |a: char, b: char| standard_score(a, b), gap: standard_gap_penalty(1) }
}

/// A standard scoring function.
pub fn score_func(a: char, b: char) -> (score: i32)
    ensures
        score == standard_score(a, b),
{
    if a == b {
        3
    } else {
        -3
    }
}

/// A standard gap-penalty function, linear in the length of the gap.
pub fn gap_penalty(gap: u32) -> (penalty: i32)
    requires
        gap <= MAX_GAP,
    ensures
        penalty == standard_gap_penalty(gap as int),
{
    if gap == 1 {
        2
    } else {
        (gap as i32) * 2
    }
}

} // verus!
