use vstd::prelude::*;

verus! {

/// One whole unit in fixed-point form: an `i64` counts millionths.
pub const SCALE: i64 = 1_000_000;

/// The tolerance on quality scores that is used where none is configured (0.001).
pub const DEFAULT_QUALITY_TOLERANCE: i64 = 1_000;

/// The largest sum of absolute adjacency weights that a graph may carry.
///
/// With this bound and [`MAX_RESOLUTION`] every gain fits in an `i128`.
pub const MAX_TOTAL_WEIGHT: i64 = 1_000_000_000_000_000;

/// The largest resolution parameter (50.0).
pub const MAX_RESOLUTION: i64 = 50_000_000;

/// The absolute value of an integer.
pub open spec fn abs(x: int) -> int {
    if x < 0 {
        -x
    } else {
        x
    }
}

} // verus!
