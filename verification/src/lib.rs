//! Ranking of project ideas by a weighted score.
//!
//! A table of ideas has a label and three whole-numbered fields per row: how much fun the idea
//! promises, how difficult it is, and what market it has. Three weights turn the fields of a row
//! into one score, and the rows are ranked from the highest score to the lowest.
//!
//! Weights and scores are exact decimal numbers, counted in billionths, so that the order of two
//! scores never depends on rounding.

pub mod coerce;
pub mod digits;
pub mod idea;
pub mod numeral;
pub mod order;
pub mod pipeline;
pub mod readback;
pub mod report;
pub mod score;
pub mod table;
pub mod whole;

pub use coerce::{
    coerce_number, coerce_numbers, coerce_text, coerce_texts, read_number, read_numbers,
    DEFAULT_NUMBER,
};
pub use idea::{calculate_scores, collect_ideas, rank_ideas, update_scores, IdeaItem, RankError};
pub use numeral::{parse_weight, weight_or_default, DEFAULT_WEIGHT_TEXT};
pub use order::stable_order;
pub use pipeline::ranked_report;
pub use report::{report, show_idea, show_score, show_settings, show_weight};
pub use score::{Score, Weight, WeightSet, NANOS_PER_UNIT};
pub use table::{DIFFICULTY_COLUMN, FUN_COLUMN, IDEA_COLUMN, MARKET_COLUMN};
pub use whole::parse_whole;
