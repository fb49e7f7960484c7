//! Chat format constants
use vstd::prelude::*;

verus! {

/// `commonmark` - CommonMark Markdown format
pub const COMMONMARK: &'static str = "commonmark";

/// `components` - JSON-encoded Minecraft Text Component format
pub const COMPONENTS: &'static str = "components";

} // verus!
