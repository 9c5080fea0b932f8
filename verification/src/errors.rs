use vstd::prelude::*;

verus! {

/// Why a timeline computation failed.
///
/// Every failure aborts the whole computation; there is no partial result.
#[derive(Debug, Clone, PartialEq, Eq)]
pub enum Error {
    /// An input line that is not blank and does not decompose into the
    /// expected fields, carries a count that is not a plain decimal number
    /// that fits the machine word, or names an invalid calendar date.
    /// Holds the offending line.
    MalformedRecord(String),
    /// A year reached quantile estimation without any positive day count,
    /// so no cut points can be derived for it.
    EmptyYear,
    /// A replayed contribution entry whose date string is not a valid
    /// calendar date. Holds the offending date string.
    InvalidDate(String),
    /// A per-year total or per-day count that would exceed the machine
    /// integer. This guards the machine limit; totals themselves are
    /// unbounded in principle.
    Overflow,
}

} // verus!
