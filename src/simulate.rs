use vstd::prelude::*;

use crate::error::BracketError;
use crate::text::{all_digits, chars_of, digits_value, parse_bounded, slice_chars, string_of};
use crate::tournament::{advance_spec, BracketView, MatchupInd, RoundKind, Tournament};

verus! {

/// The percentage that a win-probability label reads: `>99%` is 100, `<1%`
/// is 0, and any other label must be decimal digits followed by a single
/// `%`, with a value from 0 to 100.
pub open spec fn percent_of(s: Seq<char>) -> Option<int> {
    if s == seq!['>', '9', '9', '%'] {
        Some(100)
    } else if s == seq!['<', '1', '%'] {
        Some(0)
    } else if s.len() >= 2 && s.last() == '%' && all_digits(s.drop_last()) && digits_value(
        s.drop_last(),
    ) <= 100 {
        Some(digits_value(s.drop_last()))
    } else {
        None
    }
}

/// Reads a win-probability label as a whole percentage.
pub fn parse_percent(text: &str) -> (r: Result<u32, BracketError>)
    ensures
        match percent_of(text@) {
            Some(p) => r == Ok::<u32, BracketError>(p as u32),
            None => r == Err::<u32, BracketError>(BracketError::BadPercent),
        },
{
    let cs = chars_of(text);
    if cs.len() == 4 && cs[0] == '>' && cs[1] == '9' && cs[2] == '9' && cs[3] == '%' {
        assert(cs@ =~= seq!['>', '9', '9', '%']);
        return Ok(100);
    }
    if cs.len() == 3 && cs[0] == '<' && cs[1] == '1' && cs[2] == '%' {
        assert(cs@ =~= seq!['<', '1', '%']);
        return Ok(0);
    }
    proof {
        if cs@ == seq!['>', '9', '9', '%'] {
            assert(cs@[0] == '>');
        }
        if cs@ == seq!['<', '1', '%'] {
            assert(cs@[0] == '<');
        }
    }
    let n = cs.len();
    if n < 2 || cs[n - 1] != '%' {
        return Err(BracketError::BadPercent);
    }
    let digits = slice_chars(&cs, 0, n - 1);
    assert(digits@ =~= cs@.drop_last());
    match parse_bounded(digits.as_slice(), 100) {
        Some(v) => Ok(v),
        None => Err(BracketError::BadPercent),
    }
}

/// The winner for a draw in 0..100: the first team wins when the draw is
/// below its win percentage.
pub fn winner_for_draw(percent: u32, draw: u32) -> (r: MatchupInd)
    ensures
        draw < percent ==> r == MatchupInd::Team1,
        draw >= percent ==> r == MatchupInd::Team2,
{
    if draw < percent {
        MatchupInd::Team1
    } else {
        MatchupInd::Team2
    }
}

/// Relies on `rand::Rng::gen_range` over `rand::thread_rng`: a uniform draw
/// from `0..100`.
#[verifier::external_body]
fn random_percentile() -> (r: u32)
    ensures
        r < 100,
{
    rand::Rng::gen_range(&mut rand::thread_rng(), 0..100u32)
}

/// Draws the winner of a matchup whose first team wins with probability
/// `percent / 100`. A draw in `0..100` below `percent` is as likely as a
/// uniform draw in `[0, 1)` below `percent / 100`.
pub fn pick_winner(percent: u32) -> (r: MatchupInd)
    ensures
        percent >= 100 ==> r == MatchupInd::Team1,
        percent == 0 ==> r == MatchupInd::Team2,
{
    let draw = random_percentile();
    winner_for_draw(percent, draw)
}

/// Index of the last `c`, or -1.
pub open spec fn last_index(s: Seq<char>, c: char) -> int
    decreases s.len(),
{
    if s.len() == 0 {
        -1
    } else if s.last() == c {
        s.len() - 1
    } else {
        last_index(s.drop_last(), c)
    }
}

/// Index of the first `c`, or -1.
pub open spec fn first_index(s: Seq<char>, c: char) -> int
    decreases s.len(),
{
    if s.len() == 0 {
        -1
    } else if first_index(s.drop_last(), c) >= 0 {
        first_index(s.drop_last(), c)
    } else if s.last() == c {
        s.len() - 1
    } else {
        -1
    }
}

/// Team and round named by a bracket node's id, `<prefix>-<team>-<depth>`:
/// the team lies between the first `-` and the last one, and depth `d` in
/// 1..=6 stands for round `7 - d`.
pub open spec fn node_id_parts(id: Seq<char>) -> Option<(Seq<char>, int)> {
    let q = last_index(id, '-');
    let p = first_index(id.take(q), '-');
    let depth = id.subrange(q + 1, id.len() as int);
    if q < 0 || p < 0 {
        None
    } else if depth.len() > 0 && all_digits(depth) && 1 <= digits_value(depth) <= 6 {
        Some((id.subrange(p + 1, q), 7 - digits_value(depth)))
    } else {
        None
    }
}

fn find_last(cs: &Vec<char>, c: char) -> (r: Option<usize>)
    ensures
        match r {
            Some(q) => q < cs@.len() && q as int == last_index(cs@, c),
            None => last_index(cs@, c) < 0,
        },
{
    let mut found: Option<usize> = None;
    let mut i: usize = 0;
    while i < cs.len()
        invariant
            i <= cs@.len(),
            match found {
                Some(q) => q < i && q as int == last_index(cs@.take(i as int), c),
                None => last_index(cs@.take(i as int), c) == -1,
            },
        decreases cs.len() - i,
    {
        proof {
            assert(cs@.take(i + 1).drop_last() =~= cs@.take(i as int));
        }
        if cs[i] == c {
            found = Some(i);
        }
        i = i + 1;
    }
    assert(cs@.take(cs@.len() as int) =~= cs@);
    found
}

fn find_first(cs: &Vec<char>, c: char, end: usize) -> (r: Option<usize>)
    requires
        end <= cs@.len(),
    ensures
        match r {
            Some(p) => p < end && p as int == first_index(cs@.take(end as int), c),
            None => first_index(cs@.take(end as int), c) < 0,
        },
{
    let mut i: usize = 0;
    while i < end
        invariant
            i <= end <= cs@.len(),
            first_index(cs@.take(i as int), c) == -1,
        decreases end - i,
    {
        proof {
            assert(cs@.take(i + 1).drop_last() =~= cs@.take(i as int));
        }
        if cs[i] == c {
            proof {
                lemma_first_index_stays(cs@.take(end as int), c, i + 1);
                assert(cs@.take(end as int).take(i + 1) =~= cs@.take(i + 1));
            }
            return Some(i);
        }
        i = i + 1;
    }
    assert(cs@.take(end as int).take(end as int) =~= cs@.take(end as int));
    None
}

proof fn lemma_first_index_stays(s: Seq<char>, c: char, i: int)
    requires
        0 <= i <= s.len(),
        first_index(s.take(i), c) >= 0,
    ensures
        first_index(s, c) == first_index(s.take(i), c),
    decreases s.len() - i,
{
    if i < s.len() {
        assert(s.take(i + 1).drop_last() =~= s.take(i));
        lemma_first_index_stays(s, c, i + 1);
    } else {
        assert(s.take(i) =~= s);
    }
}

/// The team and round named by a bracket node's id, as in `node-Kentucky-6`
/// for Kentucky in round 1.
pub fn extract_team_round_from_id(id: &str) -> (r: Result<(String, RoundKind), BracketError>)
    ensures
        match node_id_parts(id@) {
            Some((team, n)) => r is Ok && r->Ok_0.0@ == team && r->Ok_0.1 == RoundKind::Round(
                n as usize,
            ),
            None => r is Err,
        },
{
    let cs = chars_of(id);
    let q = match find_last(&cs, '-') {
        Some(q) => q,
        None => {
            return Err(BracketError::BadNodeId);
        },
    };
    let p = match find_first(&cs, '-', q) {
        Some(p) => p,
        None => {
            return Err(BracketError::BadNodeId);
        },
    };
    let n = cs.len();
    let depth = slice_chars(&cs, q + 1, n);
    let d = match parse_bounded(depth.as_slice(), 6) {
        Some(d) => d,
        None => {
            return Err(BracketError::BadNodeId);
        },
    };
    if d < 1 {
        return Err(BracketError::BadNodeId);
    }
    let team = slice_chars(&cs, p + 1, q);
    proof {
        assert(node_id_parts(id@) == Some((id@.subrange(p + 1, q as int), 7 - d)));
    }
    Ok((string_of(team.as_slice()), RoundKind::Round(7 - d as usize)))
}


/// Every matchup before matchup `i` of round `k + 1`, rounds first and then
/// index order, has a winner.
pub open spec fn decided_before(b: BracketView, k: int, i: int) -> bool {
    &&& forall|k2: int, i2: int|
        0 <= k2 < k && 0 <= i2 < b[k2].len() ==> (#[trigger] b[k2][i2]).winner is Some
    &&& forall|i2: int| 0 <= i2 < i ==> (#[trigger] b[k][i2]).winner is Some
}

/// Every matchup of the bracket has a winner.
pub open spec fn all_decided(b: BracketView) -> bool {
    forall|k: int, i: int| 0 <= k < 6 && 0 <= i < b[k].len() ==> (#[trigger] b[k][i]).winner is Some
}

impl Tournament {
    /// The first undecided matchup, as round number and index, in the order
    /// in which the bracket is played: round by round, then by index.
    pub fn next_pending(&self) -> (r: Option<(usize, usize)>)
        requires
            self.wf(),
        ensures
            match r {
                Some((n, i)) => 1 <= n <= 6 && i < self@[n - 1].len() && self@[n - 1][i as int].winner is None
                    && decided_before(self@, n - 1, i as int),
                None => all_decided(self@),
            },
    {
        let mut k: usize = 0;
        while k < 6
            invariant
                k <= 6,
                self.wf(),
                forall|k2: int, i2: int|
                    0 <= k2 < k && 0 <= i2 < self@[k2].len() ==> (#[trigger] self@[k2][i2]).winner is Some,
            decreases 6 - k,
        {
            let round = self.round(k + 1);
            let mut i: usize = 0;
            while i < round.matchups.len()
                invariant
                    k < 6,
                    i <= round@.len(),
                    round@ == self@[k as int],
                    self.wf(),
                    forall|k2: int, i2: int|
                        0 <= k2 < k && 0 <= i2 < self@[k2].len() ==> (#[trigger] self@[k2][i2]).winner is Some,
                    forall|i2: int| 0 <= i2 < i ==> (#[trigger] self@[k as int][i2]).winner is Some,
                decreases round.matchups.len() - i,
            {
                if !round.matchups[i].completed() {
                    return Some((k + 1, i));
                }
                i = i + 1;
            }
            k = k + 1;
        }
        None
    }

    /// Names the team in slot `winner` of matchup `i` of round `n` the winner,
    /// and moves it on, as `advance_team` does.
    pub fn play_matchup(&mut self, n: usize, i: usize, winner: MatchupInd) -> (r: Result<(), BracketError>)
        requires
            old(self).wf(),
            1 <= n <= 6,
            i < old(self)@[n - 1].len(),
        ensures
            final(self).wf(),
            match old(self)@[n - 1][i as int].slot(winner) {
                Some(t) => match advance_spec(old(self)@, t, n - 1) {
                    Some(b) => r is Ok && final(self)@ == b,
                    None => r is Err && final(self)@ == old(self)@,
                },
                None => r is Err && final(self)@ == old(self)@,
            },
    {
        let round = self.round(n);
        let team = match round.matchups[i].team(winner) {
            Some(t) => t.clone(),
            None => {
                return Err(BracketError::EmptySlot);
            },
        };
        self.advance_team(team.as_str(), RoundKind::Round(n))
    }
}


/// A percentage read from a label lies in 0..=100.
pub proof fn lemma_percent_range(s: Seq<char>)
    ensures
        percent_of(s) matches Some(p) ==> 0 <= p <= 100,
{
    if s.len() >= 2 && all_digits(s.drop_last()) {
        crate::text::lemma_digits_nonneg(s.drop_last());
    }
}

} // verus!
