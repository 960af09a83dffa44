//! The search-ranking core of an application launcher.
//!
//! A [`Pipeline`] owns the launchable entries, scores each of them against
//! the text the user has typed with a fuzzy matcher, keeps the entries whose
//! score is positive and orders them by descending score. Every public
//! function carries a contract that Verus proves.

pub mod entry;
pub mod matcher;
pub mod pipeline;
pub mod ranking;

pub use entry::{after_launch, EntryError, EntryObject, EntryView};
pub use matcher::{fuzzy_match, match_score};
pub use pipeline::{filter_fn, Pipeline, PipelineView};
pub use ranking::{comes_first, rank};
