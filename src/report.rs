use vstd::prelude::*;

use crate::text::push_str;
use crate::tournament::{BracketView, Matchup, MatchupInd, MatchupView, Round, RoundKind, Tournament};

verus! {

/// How a team of a matchup is shown: plain while the matchup is open, then as
/// its winner or its loser.
#[derive(Copy, Clone, Debug, PartialEq, Eq, Structural)]
pub enum TeamState {
    Pending,
    Won,
    Lost,
}

pub open spec fn state_of(m: MatchupView, ind: MatchupInd) -> TeamState {
    match m.winner {
        None => TeamState::Pending,
        Some(w) => if w == ind {
            TeamState::Won
        } else {
            TeamState::Lost
        },
    }
}

/// A team's entry in the summary: its name, or `___` for an empty slot,
/// followed by ` (won)` or ` (lost)` once the matchup is decided.
pub open spec fn side_text(m: MatchupView, ind: MatchupInd) -> Seq<char> {
    let name = match m.slot(ind) {
        Some(t) => t,
        None => "___"@,
    };
    match state_of(m, ind) {
        TeamState::Pending => name,
        TeamState::Won => name + " (won)"@,
        TeamState::Lost => name + " (lost)"@,
    }
}

/// One line per matchup: `A vs B`.
pub open spec fn matchup_text(m: MatchupView) -> Seq<char> {
    side_text(m, MatchupInd::Team1) + " vs "@ + side_text(m, MatchupInd::Team2) + "\n"@
}

pub open spec fn matchups_text(ms: Seq<MatchupView>) -> Seq<char>
    decreases ms.len(),
{
    if ms.len() == 0 {
        Seq::empty()
    } else {
        matchups_text(ms.drop_last()) + matchup_text(ms.last())
    }
}

pub open spec fn round_name(kind: RoundKind) -> Seq<char> {
    match kind {
        RoundKind::PlayIn => "Play-in"@,
        RoundKind::Round(n) => if n == 1 {
            "Round 1"@
        } else if n == 2 {
            "Round 2"@
        } else if n == 3 {
            "Round 3"@
        } else if n == 4 {
            "Round 4"@
        } else if n == 5 {
            "Round 5"@
        } else if n == 6 {
            "Round 6"@
        } else {
            "Round ?"@
        },
    }
}

/// A round's section: its name, then its matchups in index order.
pub open spec fn round_text(kind: RoundKind, ms: Seq<MatchupView>) -> Seq<char> {
    round_name(kind) + "\n"@ + matchups_text(ms) + "\n"@
}

/// The sections of rounds 1 to `k`, in round order.
pub open spec fn rounds_text(b: BracketView, k: int) -> Seq<char>
    decreases k,
{
    if k <= 0 {
        Seq::empty()
    } else {
        rounds_text(b, k - 1) + round_text(RoundKind::Round(k as usize), b[k - 1])
    }
}

impl Matchup {
    pub fn team_state(&self, ind: MatchupInd) -> (r: TeamState)
        ensures
            r == state_of(self@, ind),
    {
        if !self.completed() {
            TeamState::Pending
        } else if self.team_won(ind) {
            TeamState::Won
        } else {
            TeamState::Lost
        }
    }

    fn push_side(&self, out: &mut String, ind: MatchupInd)
        ensures
            final(out)@ == old(out)@ + side_text(self@, ind),
    {
        match self.team(ind) {
            Some(t) => push_str(out, t.as_str()),
            None => push_str(out, "___"),
        }
        match self.team_state(ind) {
            TeamState::Pending => {},
            TeamState::Won => push_str(out, " (won)"),
            TeamState::Lost => push_str(out, " (lost)"),
        }
        assert(out@ =~= old(out)@ + side_text(self@, ind));
    }

    /// The matchup's line of the summary.
    pub fn summary(&self) -> (r: String)
        ensures
            r@ == matchup_text(self@),
    {
        let mut out = String::new();
        self.push_side(&mut out, MatchupInd::Team1);
        push_str(&mut out, " vs ");
        self.push_side(&mut out, MatchupInd::Team2);
        push_str(&mut out, "\n");
        assert(out@ =~= matchup_text(self@));
        out
    }
}

fn push_round_name(out: &mut String, kind: RoundKind)
    ensures
        final(out)@ == old(out)@ + round_name(kind),
{
    match kind {
        RoundKind::PlayIn => push_str(out, "Play-in"),
        RoundKind::Round(n) => if n == 1 {
            push_str(out, "Round 1")
        } else if n == 2 {
            push_str(out, "Round 2")
        } else if n == 3 {
            push_str(out, "Round 3")
        } else if n == 4 {
            push_str(out, "Round 4")
        } else if n == 5 {
            push_str(out, "Round 5")
        } else if n == 6 {
            push_str(out, "Round 6")
        } else {
            push_str(out, "Round ?")
        },
    }
}

impl Round {
    /// The round's section of the summary.
    pub fn summary(&self) -> (r: String)
        ensures
            r@ == round_text(self.round, self@),
    {
        let mut out = String::new();
        push_round_name(&mut out, self.round);
        push_str(&mut out, "\n");
        let ghost head = out@;
        let mut i: usize = 0;
        while i < self.matchups.len()
            invariant
                i <= self@.len(),
                out@ == head + matchups_text(self@.take(i as int)),
            decreases self.matchups.len() - i,
        {
            proof {
                assert(self@.take(i + 1).drop_last() =~= self@.take(i as int));
            }
            let line = self.matchups[i].summary();
            push_str(&mut out, line.as_str());
            i = i + 1;
            assert(out@ =~= head + matchups_text(self@.take(i as int)));
        }
        push_str(&mut out, "\n");
        assert(self@.take(self@.len() as int) =~= self@);
        assert(out@ =~= round_text(self.round, self@));
        out
    }
}

impl Tournament {
    /// The whole bracket as text: one section per round, in round order,
    /// each listing its matchups in index order.
    pub fn summary(&self) -> (r: String)
        requires
            self.wf(),
        ensures
            r@ == rounds_text(self@, 6),
    {
        let mut out = String::new();
        let mut k: usize = 0;
        while k < 6
            invariant
                k <= 6,
                self.wf(),
                out@ == rounds_text(self@, k as int),
            decreases 6 - k,
        {
            let round = self.round(k + 1);
            let text = round.summary();
            push_str(&mut out, text.as_str());
            k = k + 1;
        }
        out
    }

    /// The winner of the final, once it is decided.
    pub fn champion(&self) -> (r: Option<String>)
        requires
            self.wf(),
        ensures
            match self@[5][0].winner {
                Some(w) => r is Some && self@[5][0].slot(w) == Some(r->0@),
                None => r is None,
            },
    {
        proof {
            vstd::arithmetic::power2::lemma2_to64();
        }
        let last = &self.round(6).matchups[0];
        match last.winner() {
            Some(w) => match last.team(w) {
                Some(t) => Some(t.clone()),
                None => None,
            },
            None => None,
        }
    }
}

} // verus!
