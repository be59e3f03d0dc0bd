use vstd::prelude::*;

pub mod error;
pub mod page;
pub mod teams;
pub mod report;
pub mod simulate;
pub mod text;
pub mod tournament;

verus! {

/// What a run of the program does.
#[derive(PartialEq, Eq, Debug, Copy, Clone, Structural)]
pub enum Task {
    /// Writes out the roster, with the names that the bracket page uses.
    WriteTeamsTable,
    /// Simulates the tournament from the bracket page's predictions.
    Simulate,
}

} // verus!
