//! Constants shared by every engine version.
use vstd::prelude::*;

verus! {

/// Smallest value of a memory pointer ("halfword").
pub const MIN_HALFWORD: i32 = -0x0FFF_FFFF;

/// Largest value of a memory pointer ("halfword").
pub const MAX_HALFWORD: i32 = 0x3FFF_FFFF;

/// One past the largest character code; string ids start here.
pub const TOO_BIG_CHAR: i32 = 0x0001_0000;

/// Number of Unicode code points, surrogates included.
pub const MAX_USV: i32 = 0x0011_0000;

} // verus!
