//! Moderation action constants
use vstd::prelude::*;

verus! {

/// `WARN` action (0)
pub const WARN: i32 = 0;

/// `MUTE` action (1)
pub const MUTE: i32 = 1;

/// `KICK` action (2)
pub const KICK: i32 = 2;

/// `BAN` action (3)
pub const BAN: i32 = 3;

} // verus!
