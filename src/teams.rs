use vstd::prelude::*;

use crate::error::BracketError;
use crate::text::{all_digits, chars_of, digits_value, parse_bounded, slice_chars, string_of};
use crate::tournament::{observed, str_eq, str_to_string, ObservedState, Region, Seed};

verus! {

/// A team playing in the tournament.
#[derive(Debug, Clone)]
pub struct Team {
    /// The team's name, unique within the tournament.
    pub name: String,
    /// Starting region.
    pub region: Region,
    /// Seed within the region.
    pub seed: Seed,
}

impl Team {
    pub fn new(name: String, region: Region, seed: Seed) -> (r: Team)
        ensures
            r.name@ == name@,
            r.region == region,
            r.seed == seed,
    {
        Team { name, region, seed }
    }

    pub fn name(&self) -> (r: &str)
        ensures
            r@ == self.name@,
    {
        self.name.as_str()
    }
}


/// The lower-case form of a string, as Unicode defines it.
pub uninterp spec fn lower_of(s: Seq<char>) -> Seq<char>;

/// Relies on `str::to_lowercase`: the result depends on the characters alone.
#[verifier::external_body]
fn lowercase(s: &str) -> (r: String)
    ensures
        r@ == lower_of(s@),
{
    s.to_lowercase()
}

/// The region that a lower-case name stands for.
pub open spec fn region_named(s: Seq<char>) -> Option<Region> {
    if s == "south"@ {
        Some(Region::South)
    } else if s == "midwest"@ {
        Some(Region::Midwest)
    } else if s == "west"@ {
        Some(Region::West)
    } else if s == "east"@ {
        Some(Region::East)
    } else {
        None
    }
}

impl Region {
    /// The region named by a lower-case name.
    pub fn from_lowercase(s: &str) -> (r: Result<Region, BracketError>)
        ensures
            match region_named(s@) {
                Some(g) => r == Ok::<Region, BracketError>(g),
                None => r is Err,
            },
    {
        if str_eq(s, "south") {
            Ok(Region::South)
        } else if str_eq(s, "midwest") {
            Ok(Region::Midwest)
        } else if str_eq(s, "west") {
            Ok(Region::West)
        } else if str_eq(s, "east") {
            Ok(Region::East)
        } else {
            Err(BracketError::UnknownRegion(str_to_string(s)))
        }
    }

    /// The region named by a name in any case.
    pub fn from_name(s: &str) -> (r: Result<Region, BracketError>)
        ensures
            match region_named(lower_of(s@)) {
                Some(g) => r == Ok::<Region, BracketError>(g),
                None => r is Err,
            },
    {
        let lower = lowercase(s);
        Region::from_lowercase(lower.as_str())
    }

    /// The region's name.
    pub fn name(self) -> (r: &'static str)
        ensures
            r@ == region_label(self),
    {
        match self {
            Region::South => "South",
            Region::Midwest => "Midwest",
            Region::West => "West",
            Region::East => "East",
        }
    }
}

pub open spec fn region_label(g: Region) -> Seq<char> {
    match g {
        Region::South => "South"@,
        Region::Midwest => "Midwest"@,
        Region::West => "West"@,
        Region::East => "East"@,
    }
}

/// `pat` occurs in `s` at `i`.
pub open spec fn occurs_at(s: Seq<char>, pat: Seq<char>, i: int) -> bool {
    0 <= i && i + pat.len() <= s.len() && s.subrange(i, i + pat.len()) == pat
}

/// The first place, from `i` on, where `pat` occurs in `s`.
pub open spec fn first_occurrence(s: Seq<char>, pat: Seq<char>, i: int) -> Option<int>
    decreases s.len() + 1 - i,
{
    if i < 0 || i + pat.len() > s.len() {
        None
    } else if occurs_at(s, pat, i) {
        Some(i)
    } else {
        first_occurrence(s, pat, i + 1)
    }
}

fn occurs_at_exec(s: &Vec<char>, pat: &Vec<char>, i: usize) -> (r: bool)
    ensures
        r == occurs_at(s@, pat@, i as int),
{
    if pat.len() > s.len() || i > s.len() - pat.len() {
        return false;
    }
    let n = s.len();
    let mut j: usize = 0;
    while j < pat.len()
        invariant
            n == s@.len(),
            i + pat@.len() <= s@.len(),
            j <= pat@.len(),
            forall|l: int| 0 <= l < j ==> s@[i + l] == pat@[l],
        decreases pat.len() - j,
    {
        if s[i + j] != pat[j] {
            assert(s@.subrange(i as int, i + pat@.len())[j as int] != pat@[j as int]);
            return false;
        }
        j = j + 1;
    }
    assert(s@.subrange(i as int, i + pat@.len()) =~= pat@);
    true
}

fn find_from(s: &Vec<char>, pat: &Vec<char>, from: usize) -> (r: Option<usize>)
    ensures
        match first_occurrence(s@, pat@, from as int) {
            Some(p) => r == Some(p as usize),
            None => r is None,
        },
{
    let mut i: usize = from;
    while i <= s.len()
        invariant
            from <= i,
            first_occurrence(s@, pat@, from as int) == first_occurrence(s@, pat@, i as int),
        decreases s.len() + 1 - i,
    {
        if occurs_at_exec(s, pat, i) {
            return Some(i);
        }
        if pat.len() > s.len() || i >= s.len() - pat.len() {
            assert(first_occurrence(s@, pat@, i + 1) is None);
            return None;
        }
        i = i + 1;
    }
    None
}

/// The name and seed text of a roster row whose name cell reads
/// `<name> <span><seed></span>`: the name is the text before the first
/// ` <span>`; the seed text runs from there to the next ` <span>`, or to the
/// end, and must end in `</span>`.
pub open spec fn row_parts(cell: Seq<char>) -> Option<(Seq<char>, Seq<char>)> {
    let open = " <span>"@;
    let close = "</span>"@;
    match first_occurrence(cell, open, 0) {
        None => None,
        Some(p) => {
            let start = p + open.len();
            let end = match first_occurrence(cell, open, start) {
                Some(q) => q,
                None => cell.len() as int,
            };
            let piece = cell.subrange(start, end);
            if piece.len() >= close.len() && piece.subrange(
                piece.len() - close.len(),
                piece.len() as int,
            ) == close {
                Some((cell.subrange(0, p), piece.subrange(0, piece.len() - close.len())))
            } else {
                None
            }
        },
    }
}

/// A team read from a roster row: its name cell, as `row_parts` splits it,
/// and its region cell, in any case.
pub fn parse_team_row(name_cell: &str, region_cell: &str) -> (r: Result<Team, BracketError>)
    ensures
        match row_parts(name_cell@) {
            None => r is Err,
            Some((name, seed_text)) => {
                let ok = seed_text.len() > 0 && all_digits(seed_text) && 1 <= digits_value(seed_text) <= 16
                    && region_named(lower_of(region_cell@)) is Some;
                &&& ok ==> r is Ok && r->Ok_0.name@ == name && r->Ok_0.seed == Seed(digits_value(seed_text) as u8)
                    && Some(r->Ok_0.region) == region_named(lower_of(region_cell@))
                &&& !ok ==> r is Err
            },
        },
{
    let cs = chars_of(name_cell);
    let open = chars_of(" <span>");
    let close = chars_of("</span>");
    let n = cs.len();
    proof {
        reveal_strlit(" <span>");
        reveal_strlit("</span>");
        lemma_first_occurrence(cs@, open@, 0);
    }
    let p = match find_from(&cs, &open, 0) {
        Some(p) => p,
        None => {
            return Err(BracketError::BadRow);
        },
    };
    assert(first_occurrence(name_cell@, " <span>"@, 0) == Some(p as int));
    let start = p + open.len();
    let end = match find_from(&cs, &open, start) {
        Some(q) => q,
        None => cs.len(),
    };
    proof {
        lemma_first_occurrence(cs@, open@, start as int);
    }
    let piece = slice_chars(&cs, start, end);
    assert(piece@ == name_cell@.subrange(start as int, end as int));
    assert(close@ == "</span>"@);
    if piece.len() < close.len() {
        return Err(BracketError::BadRow);
    }
    let cut = piece.len() - close.len();
    let tail = slice_chars(&piece, cut, piece.len());
    let mut same = tail.len() == close.len();
    let mut j: usize = 0;
    while j < tail.len()
        invariant
            tail@.len() == close@.len(),
            j <= tail@.len(),
            same == forall|l: int| 0 <= l < j ==> tail@[l] == close@[l],
        decreases tail.len() - j,
    {
        if tail[j] != close[j] {
            same = false;
        }
        j = j + 1;
    }
    if !same {
        proof {
            let l = choose|l: int| 0 <= l < tail@.len() && tail@[l] != close@[l];
            assert(tail@ != close@);
        }
        return Err(BracketError::BadRow);
    }
    assert(tail@ =~= close@);
    let seed_text = slice_chars(&piece, 0, cut);
    let name = slice_chars(&cs, 0, p);
    let seed = match parse_bounded(seed_text.as_slice(), 16) {
        Some(v) => v,
        None => {
            return Err(BracketError::BadRow);
        },
    };
    if seed < 1 {
        return Err(BracketError::InvalidSeed(0));
    }
    let region = match Region::from_name(region_cell) {
        Ok(g) => g,
        Err(e) => {
            return Err(e);
        },
    };
    Ok(Team::new(string_of(name.as_slice()), region, Seed(seed as u8)))
}

proof fn lemma_first_occurrence(s: Seq<char>, pat: Seq<char>, i: int)
    requires
        0 <= i,
    ensures
        first_occurrence(s, pat, i) matches Some(p) ==> i <= p && p + pat.len() <= s.len(),
    decreases s.len() + 1 - i,
{
    if i + pat.len() <= s.len() && !occurs_at(s, pat, i) {
        lemma_first_occurrence(s, pat, i + 1);
    }
}


/// The teams of `ts`, in order, that were seen in round 1.
pub open spec fn seen_in_first_round(ts: Seq<Team>, obs: Seq<Seq<Seq<char>>>) -> Seq<Team>
    decreases ts.len(),
{
    if ts.len() == 0 {
        Seq::empty()
    } else if observed(obs, 0, ts.last().name@) {
        seen_in_first_round(ts.drop_last(), obs).push(ts.last())
    } else {
        seen_in_first_round(ts.drop_last(), obs)
    }
}

impl Team {
    fn duplicate(&self) -> (r: Team)
        ensures
            r.name@ == self.name@ && r.region == self.region && r.seed == self.seed,
    {
        Team::new(str_to_string(self.name.as_str()), self.region, self.seed)
    }
}

/// Keeps the teams of a roster that stand in round 1 of an observed bracket:
/// the others lost in the play-in.
pub fn retain_observed(teams: &Vec<Team>, obs: &ObservedState) -> (r: Vec<Team>)
    ensures
        r@.len() == seen_in_first_round(teams@, obs@).len(),
        forall|i: int|
            0 <= i < r@.len() ==> (#[trigger] r@[i]).name@ == seen_in_first_round(teams@, obs@)[i].name@
                && r@[i].region == seen_in_first_round(teams@, obs@)[i].region && r@[i].seed
                == seen_in_first_round(teams@, obs@)[i].seed,
{
    let mut out: Vec<Team> = Vec::new();
    let mut i: usize = 0;
    while i < teams.len()
        invariant
            i <= teams@.len(),
            out@.len() == seen_in_first_round(teams@.take(i as int), obs@).len(),
            forall|j: int|
                0 <= j < out@.len() ==> (#[trigger] out@[j]).name@ == seen_in_first_round(
                    teams@.take(i as int),
                    obs@,
                )[j].name@ && out@[j].region == seen_in_first_round(teams@.take(i as int), obs@)[j].region
                    && out@[j].seed == seen_in_first_round(teams@.take(i as int), obs@)[j].seed,
        decreases teams.len() - i,
    {
        proof {
            assert(teams@.take(i + 1).drop_last() =~= teams@.take(i as int));
            assert(teams@.take(i + 1).last() == teams@[i as int]);
        }
        let t = &teams[i];
        if obs.contains(0, t.name()) {
            out.push(t.duplicate());
        }
        i = i + 1;
    }
    assert(teams@.take(teams@.len() as int) =~= teams@);
    out
}

} // verus!
