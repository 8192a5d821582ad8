//! Board geometry and the sentinels shared by every module.

use vstd::prelude::*;

verus! {

/// Compensation given to White, in whole points.
pub const KOMI: i32 = 7;

/// Side length of the playable board.
pub const BSIZE: usize = 9;

/// Side length of the board together with its one-cell border.
pub const EBSIZE: usize = 11;

/// Number of playable points.
pub const BVCNT: usize = 81;

/// Number of points of the bordered board.
pub const EBVCNT: usize = 121;

/// The move "pass". Ordinary moves are extended-linear vertices below it.
pub const PASS: usize = 121;

/// Placeholder for "no vertex".
pub const VNULL: usize = 122;

/// How many earlier positions the network input carries.
pub const KEEP_PREV_CNT: usize = 2;

/// Number of feature planes of the network input.
pub const FEATURE_CNT: usize = 7;

} // verus!
