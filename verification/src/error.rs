//! What can stop a leaderboard run.

use vstd::prelude::*;

verus! {

/// The error type of the `csv` crate, carried through unread.
#[verifier::external_type_specification]
#[verifier::external_body]
pub struct ExCsvError(csv::Error);

/// Why no leaderboard was produced. Every one of these is fatal: a run
/// that fails emits nothing.
#[derive(Debug)]
pub enum RankingError {
    /// Input row `row`, counted from zero after the header, could not be
    /// decoded into a record.
    Decode { row: usize },
    /// With record `row`, counted from zero, a player's score total left
    /// the range of `u64`.
    Overflow { row: usize },
    /// A ranking row could not be rendered.
    Encode { source: csv::Error },
}

} // verus!
