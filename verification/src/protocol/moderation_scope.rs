//! Moderation scope constants
use vstd::prelude::*;

verus! {

/// `CLIENT` scope (0) - affects only the current device
pub const CLIENT: i32 = 0;

/// `ACCOUNT` scope (1) - affects the entire Minecraft account
pub const ACCOUNT: i32 = 1;

} // verus!
