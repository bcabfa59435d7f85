//! The columns of a table of ideas, by the exact names under which a table carries them.

use vstd::prelude::*;

verus! {

/// The column of labels.
pub const IDEA_COLUMN: &'static str = "Idea";

/// The column that estimates the fun of an idea.
pub const FUN_COLUMN: &'static str = "Fun Estimate /5";

/// The column that estimates the difficulty of an idea.
pub const DIFFICULTY_COLUMN: &'static str = "Difficulty (1-10)";

/// The column that estimates the market of an idea.
pub const MARKET_COLUMN: &'static str = "Market Potential /5";

} // verus!
