//! Integer helpers shared by the specifications.

use vstd::prelude::*;

verus! {

/// `a - b`, or zero when `b` is larger.
pub open spec fn sat_sub(a: int, b: int) -> int {
    if a > b {
        a - b
    } else {
        0
    }
}

/// The smaller of `a` and `b`.
pub open spec fn min_int(a: int, b: int) -> int {
    if a <= b {
        a
    } else {
        b
    }
}

/// `v` capped at the largest `u16`.
pub open spec fn cap16(v: int) -> int {
    if v > 65535 {
        65535
    } else {
        v
    }
}

} // verus!
