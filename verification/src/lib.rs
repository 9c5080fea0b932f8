//! A library for turning a raw log of per-day activity counts into a yearly
//! contribution timeline: per-year totals and date ranges, plus a dense
//! per-day series in which every calendar day is classified into one of five
//! intensity buckets derived from quantile cut points.
//!
//! The library also merges several already-computed timelines into one
//! consistent result by replaying their contribution entries through the same
//! accumulation pipeline.

pub mod dates;
pub mod errors;
pub mod merge;
pub mod options;
pub mod parser;
pub mod quartiles;
pub mod types;

pub use crate::errors::Error;
pub use crate::merge::Merger;
pub use crate::options::Command;
pub use crate::parser::Parser;
pub use crate::types::Timeline;
