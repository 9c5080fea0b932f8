use vstd::prelude::*;

verus! {

/// What a command-line front end asks the engine to do. A front end parses
/// its arguments into this plain value and hands it over.
#[derive(Debug, Clone)]
pub enum Command {
    /// Analyze one repository's history and produce a timeline, with
    /// optional author, committer and date filters.
    Run {
        /// Author patterns handed through to the history query.
        author: Vec<String>,
        /// Committer patterns handed through to the history query.
        committer: Vec<String>,
        /// Drop records on or after this date.
        before: Option<String>,
        /// Drop records on or before this date.
        after: Option<String>,
    },
    /// Merge previously produced timelines into one.
    Merge {},
}

} // verus!
