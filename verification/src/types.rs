use vstd::prelude::*;

use crate::dates::Date;

verus! {

/// One day's raw activity: its date and the count accumulated for it.
#[derive(Clone, Copy, Debug, PartialEq, Eq, Structural, Hash)]
pub struct Day {
    pub commits: usize,
    pub date: Date,
}

/// A year's summary line of the timeline: the year in decimal text, the
/// total count, and the observed date range.
#[derive(Debug, Default, Clone, PartialEq, Eq)]
pub struct Year {
    pub year: String,
    pub total: usize,
    pub range: Range,
}

pub type Years = Vec<Year>;

pub type Contributions = Vec<Contribution>;

/// The complete timeline exchanged across the system boundary.
#[derive(Debug, Clone, PartialEq, Eq)]
pub struct Timeline {
    /// Years belonging to the timeline, sorted descending by numeric year.
    pub years: Years,
    /// Contributions belonging to the timeline, sorted ascending by date.
    pub contributions: Contributions,
}

/// An inclusive date range in `YYYY-MM-DD` text form.
#[derive(Debug, Default, Clone, PartialEq, Eq)]
pub struct Range {
    pub start: String,
    pub end: String,
}

/// One calendar day of the output series: its date in `YYYY-MM-DD` text
/// form, the day's count, and the derived color token and intensity bucket.
#[derive(Debug, Default, Clone, PartialEq, Eq)]
pub struct Contribution {
    pub date: String,
    pub count: usize,
    pub color: String,
    pub intensity: usize,
}

impl Default for Timeline {
    /// The empty timeline: no years and no contributions.
    fn default() -> (t: Timeline)
        ensures
            t.years@.len() == 0,
            t.contributions@.len() == 0,
    {
        Timeline { years: Vec::new(), contributions: Vec::new() }
    }
}

} // verus!
