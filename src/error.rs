use vstd::prelude::*;

use crate::tournament::{Region, RoundKind};

verus! {

/// Every way in which building, reconciling or simulating a bracket can fail.
#[derive(Debug, Clone, PartialEq, Eq)]
pub enum BracketError {
    /// A seed outside 1..=16.
    InvalidSeed(u8),
    /// The roster does not hold exactly one team per region and seed.
    WrongTeamCount(usize),
    /// Two teams of the roster share a region and a seed.
    DuplicateSeed { region: Region, seed: u8 },
    /// A first-round matchup was left with an empty slot.
    UnfilledMatchup(usize),
    /// A team was not found in the round where it was expected.
    TeamNotFound { team: String, round: RoundKind },
    /// A matchup slot that should hold a team is empty.
    EmptySlot,
    /// A team named as a matchup's winner does not play in it.
    NotInMatchup(String),
    /// A team would become the third one of a matchup.
    MatchupFull { team: String, round: RoundKind },
    /// A round that this bracket does not hold.
    UnknownRound(RoundKind),
    /// No win probability is available for a team in a round.
    LookupNotFound { team: String, round: RoundKind },
    /// A bracket node id that does not name a team and a round.
    BadNodeId,
    /// A region name that is none of the four.
    UnknownRegion(String),
    /// A roster row whose name cell does not read `<name> <span><seed></span>`.
    BadRow,
    /// A bracket page that could not be read.
    BadPage,
    /// A text that should hold a percentage does not.
    BadPercent,
    /// The decision could not be applied externally.
    ActionFailed { team: String, round: RoundKind },
}

} // verus!
