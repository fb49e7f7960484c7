//! Reason codes of a `SYSTEM_DISCONNECT` packet.
use vstd::prelude::*;

verus! {

/// Server shutdown
pub const SHUTDOWN: i32 = 0;

/// Server maintenance
pub const MAINTENANCE: i32 = 1;

/// Internal server error
pub const INTERNAL_ERROR: i32 = 2;

/// Server overloaded
pub const OVERLOADED: i32 = 3;

} // verus!
