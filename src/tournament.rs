use vstd::prelude::*;
use vstd::arithmetic::power2::{pow2, lemma2_to64};

use crate::error::BracketError;
use crate::teams::Team;

verus! {

/// Bracket regions.
#[derive(Copy, Clone, Debug, PartialEq, Eq, Structural)]
pub enum Region {
    West,
    South,
    Midwest,
    East,
}

impl Region {
    /// The region's place in the bracket: the winner of region 0 meets the
    /// winner of region 1, and 2 meets 3.
    pub open spec fn index(self) -> nat {
        match self {
            Region::West => 0,
            Region::East => 1,
            Region::South => 2,
            Region::Midwest => 3,
        }
    }

    pub fn to_ind(self) -> (r: usize)
        ensures
            r == self.index(),
            r < 4,
    {
        match self {
            Region::West => 0,
            Region::East => 1,
            Region::South => 2,
            Region::Midwest => 3,
        }
    }
}

/// Seed of a team within its region, always in 1..=16.
#[derive(Copy, Clone, Debug, PartialEq, Eq, Structural)]
pub struct Seed(pub u8);

impl Seed {
    pub open spec fn valid(self) -> bool {
        1 <= self.0 <= 16
    }

    pub fn new(seed: u8) -> (r: Result<Seed, BracketError>)
        ensures
            1 <= seed <= 16 ==> r == Ok::<Seed, BracketError>(Seed(seed)),
            !(1 <= seed <= 16) ==> r == Err::<Seed, BracketError>(BracketError::InvalidSeed(seed)),
    {
        if seed == 0 || seed > 16 {
            Err(BracketError::InvalidSeed(seed))
        } else {
            Ok(Seed(seed))
        }
    }
}

/// Which of the two slots of a matchup.
#[derive(Copy, Clone, Debug, PartialEq, Eq, Structural)]
pub enum MatchupInd {
    Team1,
    Team2,
}

impl MatchupInd {
    pub open spec fn index(self) -> nat {
        match self {
            MatchupInd::Team1 => 0,
            MatchupInd::Team2 => 1,
        }
    }

    pub fn to_ind(self) -> (r: usize)
        ensures
            r == self.index(),
    {
        match self {
            MatchupInd::Team1 => 0,
            MatchupInd::Team2 => 1,
        }
    }
}

/// Position, within its region's eight first-round matchups, of the matchup
/// that a seed plays in. Seeds `s` and `17 - s` meet there.
pub open spec fn seed_slot(seed: int) -> int {
    let s = if seed > 8 { 17 - seed } else { seed };
    if s == 1 {
        0
    } else if s == 8 {
        1
    } else if s == 5 {
        2
    } else if s == 4 {
        3
    } else if s == 6 {
        4
    } else if s == 3 {
        5
    } else if s == 7 {
        6
    } else {
        7
    }
}

/// Index of the first-round matchup within a region for the given seed.
pub fn matchup_ind(seed: u8) -> (r: usize)
    requires
        1 <= seed <= 16,
    ensures
        r == seed_slot(seed as int),
        r < 8,
{
    let s: u8 = if seed > 8 {
        17 - seed
    } else {
        seed
    };
    match s {
        1 => 0,
        8 => 1,
        5 => 2,
        4 => 3,
        6 => 4,
        3 => 5,
        7 => 6,
        _ => 7,
    }
}

/// Seeds `s` and `17 - s` share a first-round matchup, and every valid seed
/// lands in one of the region's eight matchups.
pub proof fn lemma_seed_slot_mirror(s: int)
    requires
        1 <= s <= 16,
    ensures
        0 <= seed_slot(s) < 8,
        seed_slot(s) == seed_slot(17 - s),
{
}

/// Two seeds of one half of the region (both at most 8, or both above 8) never
/// share a first-round matchup.
pub proof fn lemma_seed_slot_injective(a: int, b: int)
    requires
        1 <= a <= 16,
        1 <= b <= 16,
        (a <= 8) == (b <= 8),
        seed_slot(a) == seed_slot(b),
    ensures
        a == b,
{
}

pub open spec fn opt_view(o: Option<String>) -> Option<Seq<char>> {
    match o {
        Some(s) => Some(s@),
        None => None,
    }
}

/// What a matchup holds: its two slots, its winner, and its place in the round.
pub struct MatchupView {
    pub first: Option<Seq<char>>,
    pub second: Option<Seq<char>>,
    pub winner: Option<MatchupInd>,
    pub index: nat,
}

impl MatchupView {
    pub open spec fn slot(self, ind: MatchupInd) -> Option<Seq<char>> {
        match ind {
            MatchupInd::Team1 => self.first,
            MatchupInd::Team2 => self.second,
        }
    }

    pub open spec fn holds(self, team: Seq<char>) -> bool {
        self.first == Some(team) || self.second == Some(team)
    }

    pub open spec fn is_full(self) -> bool {
        self.first is Some && self.second is Some
    }

    /// A winner, once set, names a filled slot.
    pub open spec fn wf(self) -> bool {
        self.winner is Some ==> self.slot(self.winner->0) is Some
    }

    pub open spec fn empty(index: nat) -> MatchupView {
        MatchupView { first: None, second: None, winner: None, index }
    }

    /// The matchup after `team`, one of its two teams, is named the winner.
    pub open spec fn won_by(self, team: Seq<char>) -> MatchupView {
        MatchupView {
            winner: Some(if self.first == Some(team) { MatchupInd::Team1 } else { MatchupInd::Team2 }),
            ..self
        }
    }

    /// The matchup after `team` is entered: unchanged if it plays here already,
    /// else in the first empty slot. `None` when both slots hold other teams.
    pub open spec fn with_team(self, team: Seq<char>) -> Option<MatchupView> {
        if self.holds(team) {
            Some(self)
        } else if self.first is None {
            Some(MatchupView { first: Some(team), ..self })
        } else if self.second is None {
            Some(MatchupView { second: Some(team), ..self })
        } else {
            None
        }
    }
}

/// One matchup in a round.
#[derive(Debug, Clone)]
pub struct Matchup {
    /// The two teams, `None` while not yet known.
    first: Option<String>,
    second: Option<String>,
    /// Who won, `None` while undecided.
    winner: Option<MatchupInd>,
    /// Place of this matchup in its round: decides where the winner goes next.
    index: usize,
}

impl View for Matchup {
    type V = MatchupView;

    closed spec fn view(&self) -> MatchupView {
        MatchupView {
            first: opt_view(self.first),
            second: opt_view(self.second),
            winner: self.winner,
            index: self.index as nat,
        }
    }
}

impl Matchup {
    pub fn new(index: usize) -> (r: Matchup)
        ensures
            r@ == MatchupView::empty(index as nat),
    {
        Matchup { first: None, second: None, winner: None, index }
    }

    pub fn index(&self) -> (r: usize)
        ensures
            r == self@.index,
    {
        self.index
    }

    pub fn winner(&self) -> (r: Option<MatchupInd>)
        ensures
            r == self@.winner,
    {
        self.winner
    }

    /// The team in the given slot, if any.
    pub fn team(&self, ind: MatchupInd) -> (r: Option<&String>)
        ensures
            match r {
                Some(s) => self@.slot(ind) == Some(s@),
                None => self@.slot(ind) is None,
            },
    {
        match ind {
            MatchupInd::Team1 => self.first.as_ref(),
            MatchupInd::Team2 => self.second.as_ref(),
        }
    }

    /// The two competing teams; both must be known.
    pub fn teams(&self) -> (r: [String; 2])
        requires
            self@.is_full(),
        ensures
            Some(r[0]@) == self@.first,
            Some(r[1]@) == self@.second,
    {
        let a = self.first.as_ref().unwrap().clone();
        let b = self.second.as_ref().unwrap().clone();
        [a, b]
    }

    /// Names the team in slot `winner` as the winner; setting it again
    /// overwrites.
    pub fn set_winner(&mut self, winner: MatchupInd)
        requires
            old(self)@.slot(winner) is Some,
        ensures
            final(self)@ == (MatchupView { winner: Some(winner), ..old(self)@ }),
    {
        self.winner = Some(winner);
    }

    /// Names the winner by its name.
    pub fn set_winning_team(&mut self, team: &str) -> (r: Result<(), BracketError>)
        ensures
            old(self)@.holds(team@) ==> r is Ok && final(self)@ == old(self)@.won_by(team@),
            !old(self)@.holds(team@) ==> final(self)@ == old(self)@,
            !old(self)@.holds(team@) ==> (r matches Err(BracketError::NotInMatchup(t)) && t@ == team@),
    {
        if self.is_team_ind(team, MatchupInd::Team1) {
            self.set_winner(MatchupInd::Team1);
            Ok(())
        } else if self.is_team_ind(team, MatchupInd::Team2) {
            self.set_winner(MatchupInd::Team2);
            Ok(())
        } else {
            Err(BracketError::NotInMatchup(str_to_string(team)))
        }
    }

    pub fn includes_team(&self, team: &str) -> (r: bool)
        ensures
            r == self@.holds(team@),
    {
        self.is_team_ind(team, MatchupInd::Team1) || self.is_team_ind(team, MatchupInd::Team2)
    }

    fn is_team_ind(&self, team: &str, ind: MatchupInd) -> (r: bool)
        ensures
            r == (self@.slot(ind) == Some(team@)),
    {
        match self.team(ind) {
            Some(t) => str_eq(t.as_str(), team),
            None => false,
        }
    }

    pub fn completed(&self) -> (r: bool)
        ensures
            r == self@.winner is Some,
    {
        self.winner.is_some()
    }

    pub fn is_full(&self) -> (r: bool)
        ensures
            r == self@.is_full(),
    {
        self.first.is_some() && self.second.is_some()
    }

    /// Enters a team into this matchup: into the first empty slot, or nowhere
    /// if it plays here already. A third team is refused with `false`.
    fn add_team(&mut self, name: &str) -> (r: bool)
        ensures
            match old(self)@.with_team(name@) {
                Some(m) => r && final(self)@ == m,
                None => !r && final(self)@ == old(self)@,
            },
    {
        if self.includes_team(name) {
            true
        } else if self.first.is_none() {
            self.first = Some(str_to_string(name));
            true
        } else if self.second.is_none() {
            self.second = Some(str_to_string(name));
            true
        } else {
            false
        }
    }

    /// Puts a team into the given slot, which must be empty.
    fn place(&mut self, ind: MatchupInd, name: &str)
        requires
            old(self)@.slot(ind) is None,
        ensures
            final(self)@ == (match ind {
                MatchupInd::Team1 => MatchupView { first: Some(name@), ..old(self)@ },
                MatchupInd::Team2 => MatchupView { second: Some(name@), ..old(self)@ },
            }),
    {
        match ind {
            MatchupInd::Team1 => self.first = Some(str_to_string(name)),
            MatchupInd::Team2 => self.second = Some(str_to_string(name)),
        }
    }

    pub(crate) fn team_won(&self, team: MatchupInd) -> (r: bool)
        ensures
            r == (self@.winner == Some(team)),
    {
        match self.winner {
            Some(w) => w == team,
            None => false,
        }
    }
}

/// An owned copy of the same characters.
pub fn str_to_string(s: &str) -> (r: String)
    ensures
        r@ == s@,
{
    s.to_owned()
}

/// Two strings compare equal exactly when they hold the same characters.
pub fn str_eq(a: &str, b: &str) -> (r: bool)
    ensures
        r == (a@ == b@),
{
    let x = str_to_string(a);
    let y = str_to_string(b);
    x == y
}

/// Tournament round.
#[derive(Copy, Clone, Debug, PartialEq, Eq, Structural, Hash)]
pub enum RoundKind {
    /// Play-in round.
    PlayIn,
    /// Round 1 to 6; round 6 is the final.
    Round(usize),
}


impl RoundKind {
    pub open spec fn spec_next(self) -> Option<RoundKind> {
        match self {
            RoundKind::PlayIn => Some(RoundKind::Round(1)),
            RoundKind::Round(r) => if r < 6 {
                Some(RoundKind::Round((r + 1) as usize))
            } else {
                None
            },
        }
    }

    /// Number of matchups of the round: 4 play-in games, and `2^(6-n)` in
    /// round `n`.
    pub open spec fn size(self) -> nat {
        match self {
            RoundKind::PlayIn => 4,
            RoundKind::Round(r) => pow2((6 - r) as nat),
        }
    }

    pub open spec fn known(self) -> bool {
        match self {
            RoundKind::PlayIn => true,
            RoundKind::Round(r) => r <= 6,
        }
    }

    pub fn next_round(&self) -> (r: Option<RoundKind>)
        ensures
            r == self.spec_next(),
    {
        match self {
            RoundKind::PlayIn => Some(RoundKind::Round(1)),
            RoundKind::Round(r) => if *r < 6 {
                Some(RoundKind::Round(*r + 1))
            } else {
                None
            },
        }
    }

    pub fn matchup_count(&self) -> (r: usize)
        requires
            self.known(),
        ensures
            r == self.size(),
    {
        proof {
            lemma2_to64();
        }
        match self {
            RoundKind::PlayIn => 4,
            RoundKind::Round(r) => match *r {
                0 => 64,
                1 => 32,
                2 => 16,
                3 => 8,
                4 => 4,
                5 => 2,
                _ => 1,
            },
        }
    }
}

/// A round whose `n` matchups are all still empty.
pub open spec fn empty_round(n: nat) -> Seq<MatchupView> {
    Seq::new(n, |i: int| MatchupView::empty(i as nat))
}

/// Matchups sit at their own index, and each winner names a filled slot.
pub open spec fn round_wf(ms: Seq<MatchupView>) -> bool {
    forall|i: int| 0 <= i < ms.len() ==> (#[trigger] ms[i]).index == i && ms[i].wf()
}

/// Index of the first matchup, from `i` on, in which `team` plays.
pub open spec fn scan(ms: Seq<MatchupView>, team: Seq<char>, i: int) -> Option<int>
    decreases ms.len() - i,
{
    if i < 0 || i >= ms.len() {
        None
    } else if ms[i].holds(team) {
        Some(i)
    } else {
        scan(ms, team, i + 1)
    }
}

/// What `scan` finds: the first matchup from `i` on that holds `team`.
pub proof fn lemma_scan(ms: Seq<MatchupView>, team: Seq<char>, i: int)
    requires
        0 <= i,
    ensures
        match scan(ms, team, i) {
            Some(j) => i <= j < ms.len() && ms[j].holds(team) && forall|l: int|
                i <= l < j ==> !(#[trigger] ms[l]).holds(team),
            None => forall|l: int| i <= l < ms.len() ==> !(#[trigger] ms[l]).holds(team),
        },
    decreases ms.len() - i,
{
    if i < ms.len() && !ms[i].holds(team) {
        lemma_scan(ms, team, i + 1);
    }
}

/// A round of the bracket: its kind and its matchups in index order.
pub struct Round {
    /// Which round this is.
    pub round: RoundKind,
    /// The matchups of this round.
    pub matchups: Vec<Matchup>,
}

impl View for Round {
    type V = Seq<MatchupView>;

    open spec fn view(&self) -> Seq<MatchupView> {
        self.matchups@.map_values(|m: Matchup| m@)
    }
}

impl Round {
    /// A round `n` in 1..=6 with all its `2^(6-n)` matchups empty.
    pub fn empty(round: usize) -> (r: Round)
        requires
            1 <= round <= 6,
        ensures
            r.round == RoundKind::Round(round),
            r@ == empty_round(pow2((6 - round) as nat)),
            r@.len() == pow2((6 - round) as nat),
    {
        let kind = RoundKind::Round(round);
        let n = kind.matchup_count();
        let mut matchups: Vec<Matchup> = Vec::new();
        let mut i: usize = 0;
        while i < n
            invariant
                i <= n,
                matchups.len() == i,
                forall|j: int| 0 <= j < i ==> (#[trigger] matchups@[j])@ == MatchupView::empty(j as nat),
            decreases n - i,
        {
            matchups.push(Matchup::new(i));
            i = i + 1;
        }
        assert(matchups@.map_values(|m: Matchup| m@) =~= empty_round(n as nat));
        Round { round: kind, matchups }
    }

    /// Enters a team into matchup `ind`, as `Matchup::add_team` does.
    pub fn add_team_to_matchup(&mut self, team: &str, ind: usize) -> (r: Result<(), BracketError>)
        requires
            ind < old(self)@.len(),
        ensures
            final(self).round == old(self).round,
            match old(self)@[ind as int].with_team(team@) {
                Some(m) => r is Ok && final(self)@ == old(self)@.update(ind as int, m),
                None => r is Err && final(self)@ == old(self)@,
            },
    {
        let ok = self.matchups[ind].add_team(team);
        proof {
            assert(self@ =~= old(self)@.update(ind as int, self.matchups@[ind as int]@));
        }
        if ok {
            Ok(())
        } else {
            proof {
                assert(self@ =~= old(self)@);
            }
            Err(BracketError::MatchupFull { team: str_to_string(team), round: self.round })
        }
    }

    /// Index of the first matchup in which `team` plays.
    pub fn find_team(&self, team: &str) -> (r: Option<usize>)
        ensures
            r == match scan(self@, team@, 0) {
                Some(i) => Some(i as usize),
                None => None::<usize>,
            },
            match r {
                Some(i) => i < self@.len() && self@[i as int].holds(team@),
                None => true,
            },
    {
        proof {
            lemma_scan(self@, team@, 0);
        }
        let mut i: usize = 0;
        while i < self.matchups.len()
            invariant
                i <= self.matchups.len(),
                scan(self@, team@, 0) == scan(self@, team@, i as int),
            decreases self.matchups.len() - i,
        {
            if self.matchups[i].includes_team(team) {
                return Some(i);
            }
            i = i + 1;
        }
        None
    }

    /// The first matchup in which `team` plays; it must play in one.
    pub fn get_matchup_with_team(&self, team: &str) -> (r: &Matchup)
        requires
            scan(self@, team@, 0) is Some,
        ensures
            r@ == self@[scan(self@, team@, 0)->0],
    {
        proof {
            lemma_scan(self@, team@, 0);
        }
        let i = self.find_team(team).unwrap();
        &self.matchups[i]
    }

    /// The first matchup in which `team` plays, to be changed in place; it
    /// must play in one.
    pub fn get_matchup_with_team_mut(&mut self, team: &str) -> (r: &mut Matchup)
        requires
            scan(old(self)@, team@, 0) is Some,
        ensures
            *r == old(self).matchups@[scan(old(self)@, team@, 0)->0],
            final(self).round == old(self).round,
            final(self).matchups@ == old(self).matchups@.update(
                scan(old(self)@, team@, 0)->0,
                *final(r),
            ),
    {
        proof {
            lemma_scan(self@, team@, 0);
        }
        let i = self.find_team(team).unwrap();
        &mut self.matchups[i]
    }
}


/// First-round matchup of a team: its seed's place within the region, after
/// the eight matchups of each region before it.
pub open spec fn start_matchup(t: Team) -> int {
    seed_slot(t.seed.0 as int) + 8 * t.region.index()
}

/// First-round slot of a team: the first for seeds 1..=8, the second above.
pub open spec fn start_side(t: Team) -> MatchupInd {
    if t.seed.0 <= 8 {
        MatchupInd::Team1
    } else {
        MatchupInd::Team2
    }
}

/// The team's first-round slot, counted over the whole round.
pub open spec fn start_key(t: Team) -> int {
    2 * start_matchup(t) + start_side(t).index()
}

/// A full roster: 64 teams with valid seeds, no two sharing region and seed.
pub open spec fn valid_roster(teams: Seq<Team>) -> bool {
    &&& teams.len() == 64
    &&& forall|i: int| 0 <= i < 64 ==> (#[trigger] teams[i]).seed.valid()
    &&& forall|i: int, j: int|
        0 <= i < j < 64 ==> !((#[trigger] teams[i]).region == (#[trigger] teams[j]).region
            && teams[i].seed == teams[j].seed)
}

/// Name of the roster's team whose first-round slot is `key`.
pub open spec fn team_at(teams: Seq<Team>, key: int) -> Seq<char> {
    teams[choose|j: int| 0 <= j < teams.len() && start_key(#[trigger] teams[j]) == key].name@
}

/// The first round of a roster: each team in its own slot, nothing decided.
pub open spec fn first_round(teams: Seq<Team>) -> Seq<MatchupView> {
    Seq::new(
        32,
        |i: int|
            MatchupView {
                first: Some(team_at(teams, 2 * i)),
                second: Some(team_at(teams, 2 * i + 1)),
                winner: None,
                index: i as nat,
            },
    )
}

proof fn lemma_start_key(t: Team)
    requires
        t.seed.valid(),
    ensures
        0 <= start_matchup(t) < 32,
        0 <= start_key(t) < 64,
{
    lemma_seed_slot_mirror(t.seed.0 as int);
}

proof fn lemma_start_key_injective(a: Team, b: Team)
    requires
        a.seed.valid(),
        b.seed.valid(),
        start_key(a) == start_key(b),
    ensures
        a.region == b.region,
        a.seed == b.seed,
{
    lemma_seed_slot_mirror(a.seed.0 as int);
    lemma_seed_slot_mirror(b.seed.0 as int);
    assert(start_side(a) == start_side(b));
    assert(a.region.index() == b.region.index());
    lemma_seed_slot_injective(a.seed.0 as int, b.seed.0 as int);
}

/// Some team of the roster has the invalid seed `s`.
pub open spec fn has_bad_seed(teams: Seq<Team>, s: u8) -> bool {
    exists|i: int| 0 <= i < teams.len() && (#[trigger] teams[i]).seed == Seed(s) && !Seed(s).valid()
}

/// Two teams of the roster share `region` and seed `s`.
pub open spec fn shares_seed(teams: Seq<Team>, region: Region, s: u8) -> bool {
    exists|i: int, j: int|
        0 <= i < j < teams.len() && (#[trigger] teams[i]).region == region && (#[trigger] teams[j]).region
            == region && teams[i].seed == Seed(s) && teams[j].seed == Seed(s)
}

proof fn lemma_duplicate(teams: Seq<Team>, j: int, i: int)
    requires
        0 <= j < i < teams.len(),
        teams[j].seed.valid(),
        teams[i].seed.valid(),
        start_key(teams[j]) == start_key(teams[i]),
    ensures
        !valid_roster(teams),
        shares_seed(teams, teams[i].region, teams[i].seed.0),
{
    lemma_start_key_injective(teams[j], teams[i]);
    assert(teams[j].region == teams[i].region);
}

/// Every slot of the first round belongs to some team of a full roster.
proof fn lemma_roster_covers(teams: Seq<Team>, key: int)
    requires
        valid_roster(teams),
        0 <= key < 64,
    ensures
        exists|j: int| 0 <= j < 64 && start_key(#[trigger] teams[j]) == key,
{
    let keys = Seq::new(64, |j: int| start_key(teams[j]));
    assert forall|x: int, y: int| 0 <= x < keys.len() && 0 <= y < keys.len() && x != y implies keys[x]
        != keys[y] by {
        if keys[x] == keys[y] {
            lemma_start_key_injective(teams[x], teams[y]);
            if x < y {
                assert(teams[x].region == teams[y].region);
            } else {
                assert(teams[y].region == teams[x].region);
            }
        }
    }
    assert(keys.no_duplicates());
    keys.unique_seq_to_set();
    let range = vstd::set_lib::set_int_range(0, 64);
    vstd::set_lib::lemma_int_range(0, 64);
    assert forall|k: int| keys.to_set().contains(k) implies range.contains(k) by {
        let j = choose|j: int| 0 <= j < keys.len() && keys[j] == k;
        lemma_start_key(teams[j]);
    }
    vstd::set_lib::lemma_subset_equality(keys.to_set(), range);
    assert(range.contains(key));
    assert(keys.to_set().contains(key));
    let j = choose|j: int| 0 <= j < keys.len() && keys[j] == key;
    assert(start_key(teams[j]) == key);
}

impl Round {
    /// Builds round 1 from a roster of 64 teams, each in the slot of its
    /// region and seed.
    pub fn new_round1(teams: &[Team]) -> (r: Result<Round, BracketError>)
        ensures
            teams@.len() != 64 ==> r == Err::<Round, BracketError>(
                BracketError::WrongTeamCount(teams@.len() as usize),
            ),
            valid_roster(teams@) ==> r is Ok,
            !valid_roster(teams@) ==> r is Err,
            teams@.len() == 64 && !valid_roster(teams@) ==> (r matches Err(
                BracketError::InvalidSeed(_),
            ) || r matches Err(BracketError::DuplicateSeed { .. })),
            r matches Err(BracketError::InvalidSeed(s)) ==> has_bad_seed(teams@, s),
            r matches Err(BracketError::DuplicateSeed { region, seed }) ==> shares_seed(
                teams@,
                region,
                seed,
            ),
            r is Ok ==> r->Ok_0.round == RoundKind::Round(1) && r->Ok_0@ == first_round(teams@),
    {
        let n = teams.len();
        if n != 64 {
            return Err(BracketError::WrongTeamCount(n));
        }
        let mut round = Round::empty(1);
        proof {
            lemma2_to64();
        }
        let mut i: usize = 0;
        while i < 64
            invariant
                teams@.len() == 64,
                i <= 64,
                round.round == RoundKind::Round(1),
                round@.len() == 32,
                forall|m: int|
                    0 <= m < 32 ==> (#[trigger] round@[m]).index == m && round@[m].winner is None,
                forall|j: int| 0 <= j < i ==> (#[trigger] teams@[j]).seed.valid(),
                forall|j: int|
                    0 <= j < i ==> round@[start_matchup(#[trigger] teams@[j])].slot(
                        start_side(teams@[j]),
                    ) == Some(teams@[j].name@),
                forall|m: int|
                    0 <= m < 32 && (#[trigger] round@[m]).first is Some ==> exists|j: int|
                        0 <= j < i && start_key(#[trigger] teams@[j]) == 2 * m,
                forall|m: int|
                    0 <= m < 32 && (#[trigger] round@[m]).second is Some ==> exists|j: int|
                        0 <= j < i && start_key(#[trigger] teams@[j]) == 2 * m + 1,
                forall|a: int, b: int|
                    0 <= a < b < i ==> !((#[trigger] teams@[a]).region == (#[trigger] teams@[b]).region
                        && teams@[a].seed == teams@[b].seed),
            decreases 64 - i,
        {
            let t = &teams[i];
            let seed = t.seed.0;
            if seed == 0 || seed > 16 {
                assert(has_bad_seed(teams@, seed)) by {
                    assert(teams@[i as int].seed.0 == seed);
                }
                return Err(BracketError::InvalidSeed(seed));
            }
            proof {
                lemma_start_key(*t);
            }
            let m = matchup_ind(seed) + 8 * t.region.to_ind();
            let side = if seed <= 8 {
                MatchupInd::Team1
            } else {
                MatchupInd::Team2
            };
            if round.matchups[m].team(side).is_some() {
                proof {
                    let key = start_key(*t);
                    let j = if side == MatchupInd::Team1 {
                        choose|j: int| 0 <= j < i && start_key(#[trigger] teams@[j]) == 2 * m
                    } else {
                        choose|j: int| 0 <= j < i && start_key(#[trigger] teams@[j]) == 2 * m + 1
                    };
                    lemma_duplicate(teams@, j, i as int);
                }
                return Err(BracketError::DuplicateSeed { region: t.region, seed });
            }
            let ghost before = round@;
            round.matchups[m].place(side, t.name.as_str());
            proof {
                assert(round@ =~= before.update(m as int, round.matchups@[m as int]@));
                assert forall|j: int|
                    0 <= j < i + 1 implies round@[start_matchup(#[trigger] teams@[j])].slot(
                    start_side(teams@[j]),
                ) == Some(teams@[j].name@) by {
                    if j < i {
                        lemma_start_key(teams@[j]);
                        if start_matchup(teams@[j]) == m && start_side(teams@[j]) == side {
                            lemma_start_key_injective(teams@[j], *t);
                        }
                    }
                }
                assert forall|a: int, b: int|
                    0 <= a < b < i + 1 implies !((#[trigger] teams@[a]).region == (
                    #[trigger] teams@[b]).region && teams@[a].seed == teams@[b].seed) by {
                    if b == i && teams@[a].region == teams@[b].region && teams@[a].seed
                        == teams@[b].seed {
                        lemma_start_key(teams@[a]);
                        assert(before[start_matchup(teams@[a])].slot(start_side(teams@[a])) is Some);
                    }
                }
                assert forall|mm: int|
                    0 <= mm < 32 && (#[trigger] round@[mm]).first is Some implies exists|j: int|
                    0 <= j < i + 1 && start_key(#[trigger] teams@[j]) == 2 * mm by {
                    if mm == m && side == MatchupInd::Team1 && before[mm].first is None {
                        assert(start_key(teams@[i as int]) == 2 * mm);
                    }
                }
                assert forall|mm: int|
                    0 <= mm < 32 && (#[trigger] round@[mm]).second is Some implies exists|j: int|
                    0 <= j < i + 1 && start_key(#[trigger] teams@[j]) == 2 * mm + 1 by {
                    if mm == m && side == MatchupInd::Team2 && before[mm].second is None {
                        assert(start_key(teams@[i as int]) == 2 * mm + 1);
                    }
                }
            }
            i = i + 1;
        }
        proof {
            assert(valid_roster(teams@));
            assert forall|m: int| 0 <= m < 32 implies round@[m] == first_round(teams@)[m] by {
                lemma_roster_covers(teams@, 2 * m);
                lemma_roster_covers(teams@, 2 * m + 1);
                let a = choose|j: int| 0 <= j < teams@.len() && start_key(#[trigger] teams@[j]) == 2 * m;
                let b = choose|j: int|
                    0 <= j < teams@.len() && start_key(#[trigger] teams@[j]) == 2 * m + 1;
                lemma_start_key(teams@[a]);
                lemma_start_key(teams@[b]);
                assert(round@[start_matchup(teams@[a])].slot(start_side(teams@[a])) == Some(teams@[a].name@));
                assert(round@[start_matchup(teams@[b])].slot(start_side(teams@[b])) == Some(teams@[b].name@));
            }
            assert(round@ =~= first_round(teams@));
        }
        Ok(round)
    }
}


/// The bracket as values: entry `k` holds the matchups of round `k + 1`.
pub type BracketView = Seq<Seq<MatchupView>>;

/// Six rounds, round `k + 1` with `2^(5-k)` matchups, each matchup at its
/// own index and each winner naming a filled slot.
pub open spec fn bracket_wf(b: BracketView) -> bool {
    &&& b.len() == 6
    &&& forall|k: int|
        0 <= k < 6 ==> (#[trigger] b[k]).len() == pow2((5 - k) as nat) && round_wf(b[k])
}

/// The bracket after `team` is named the winner of its matchup in round
/// `k + 1` and, below the final, entered into matchup `i / 2` of the next
/// round. `None` when the team plays no matchup of that round, or when the
/// next matchup already holds two other teams.
pub open spec fn advance_spec(b: BracketView, team: Seq<char>, k: int) -> Option<BracketView> {
    match scan(b[k], team, 0) {
        None => None,
        Some(i) => {
            let b1 = b.update(k, b[k].update(i, b[k][i].won_by(team)));
            if k >= 5 {
                Some(b1)
            } else {
                match b[k + 1][i / 2].with_team(team) {
                    Some(m) => Some(b1.update(k + 1, b1[k + 1].update(i / 2, m))),
                    None => None,
                }
            }
        },
    }
}

/// A complete tournament: rounds 1 to 6, in order.
pub struct Tournament {
    /// All rounds; entry `k` is round `k + 1`.
    pub rounds: Vec<Round>,
}

impl View for Tournament {
    type V = BracketView;

    open spec fn view(&self) -> BracketView {
        self.rounds@.map_values(|r: Round| r@)
    }
}

impl Tournament {
    pub open spec fn wf(&self) -> bool {
        &&& bracket_wf(self@)
        &&& forall|k: int|
            0 <= k < self.rounds@.len() ==> (#[trigger] self.rounds@[k]).round == RoundKind::Round(
                (k + 1) as usize,
            )
    }

    /// Names `team` the winner of its matchup in `round` and moves it on to
    /// the next round.
    pub fn advance_team(&mut self, team: &str, round: RoundKind) -> (r: Result<(), BracketError>)
        requires
            old(self).wf(),
        ensures
            final(self).wf(),
            match round {
                RoundKind::Round(n) if 1 <= n <= 6 => match advance_spec(
                    old(self)@,
                    team@,
                    n - 1,
                ) {
                    Some(b) => r is Ok && final(self)@ == b,
                    None => final(self)@ == old(self)@ && if scan(old(self)@[n - 1], team@, 0) is None {
                        (r matches Err(BracketError::TeamNotFound { team: t, round: rr }) && t@
                            == team@ && rr == round)
                    } else {
                        (r matches Err(BracketError::MatchupFull { team: t, round: rr }) && t@
                            == team@ && rr == round)
                    },
                },
                _ => r == Err::<(), BracketError>(BracketError::UnknownRound(round)) && final(self)@
                    == old(self)@,
            },
    {
        let k: usize = match round {
            RoundKind::Round(n) => {
                if n < 1 || n > 6 {
                    return Err(BracketError::UnknownRound(round));
                }
                n - 1
            },
            RoundKind::PlayIn => {
                return Err(BracketError::UnknownRound(round));
            },
        };
        proof {
            lemma_scan(self@[k as int], team@, 0);
            assert(self.rounds@[k as int]@ == self@[k as int]);
        }
        let i = match self.rounds[k].find_team(team) {
            Some(i) => i,
            None => {
                return Err(BracketError::TeamNotFound { team: str_to_string(team), round });
            },
        };
        if k < 5 {
            proof {
                assert(self.rounds@[k + 1]@ == self@[k + 1]);
                lemma2_to64();
                assert(i / 2 < self@[k + 1].len());
            }
            let next = &self.rounds[k + 1].matchups[i / 2];
            let fits = next.includes_team(team) || next.team(MatchupInd::Team1).is_none()
                || next.team(MatchupInd::Team2).is_none();
            if !fits {
                return Err(BracketError::MatchupFull { team: str_to_string(team), round });
            }
        }
        let ghost b0 = self@;
        let side = if self.rounds[k].matchups[i].team(MatchupInd::Team1).is_some() && str_eq(
            self.rounds[k].matchups[i].team(MatchupInd::Team1).unwrap().as_str(),
            team,
        ) {
            MatchupInd::Team1
        } else {
            MatchupInd::Team2
        };
        self.rounds[k].matchups[i].set_winner(side);
        proof {
            assert(self@[k as int] =~= b0[k as int].update(i as int, b0[k as int][i as int].won_by(team@)));
            assert(self@ =~= b0.update(k as int, b0[k as int].update(i as int, b0[k as int][i as int].won_by(team@))));
        }
        if k < 5 {
            let ghost b1 = self@;
            proof {
                lemma2_to64();
            }
            let j = i / 2;
            let entered = self.rounds[k + 1].matchups[j].add_team(team);
            proof {
                let kk = k + 1;
                let m = self.rounds@[kk as int].matchups@[j as int]@;
                assert(self@[kk as int] =~= b1[kk as int].update(j as int, m));
                assert(self@ =~= b1.update(kk as int, b1[kk as int].update(j as int, m)));
                assert(entered);
            }
        }
        Ok(())
    }

    /// Round `n` of the bracket, to be changed in place.
    pub fn get_round_mut(&mut self, round: RoundKind) -> (r: &mut Round)
        requires
            old(self).wf(),
            round matches RoundKind::Round(n) && 1 <= n <= 6,
        ensures
            *r == old(self).rounds@[round->Round_0 - 1],
            final(self).rounds@ == old(self).rounds@.update(round->Round_0 - 1, *final(r)),
    {
        let k = match round {
            RoundKind::Round(n) => n - 1,
            RoundKind::PlayIn => 0,
        };
        &mut self.rounds[k]
    }

    /// Round `n` of the bracket.
    pub fn round(&self, n: usize) -> (r: &Round)
        requires
            self.wf(),
            1 <= n <= 6,
        ensures
            *r == self.rounds@[n - 1],
            r@ == self@[n - 1],
    {
        &self.rounds[n - 1]
    }
}


pub open spec fn names_view(v: Seq<String>) -> Seq<Seq<char>> {
    v.map_values(|s: String| s@)
}

/// The teams observed elsewhere in each round: entry `k` lists the teams that
/// stand in round `k + 1`. A missing entry means that nothing was seen there.
pub struct ObservedState {
    pub rounds: Vec<Vec<String>>,
}

impl View for ObservedState {
    type V = Seq<Seq<Seq<char>>>;

    open spec fn view(&self) -> Seq<Seq<Seq<char>>> {
        self.rounds@.map_values(|v: Vec<String>| names_view(v@))
    }
}

/// `team` was seen in round `k + 1`.
pub open spec fn observed(obs: Seq<Seq<Seq<char>>>, k: int, team: Seq<char>) -> bool {
    0 <= k < obs.len() && obs[k].contains(team)
}

pub open spec fn pick(slot: Option<Seq<char>>, obs: Seq<Seq<Seq<char>>>, k: int) -> Seq<Seq<char>> {
    match slot {
        Some(t) => if observed(obs, k, t) {
            seq![t]
        } else {
            seq![]
        },
        None => seq![],
    }
}

/// Teams of the matchups `ms`, in matchup and slot order, that were seen in
/// round `k + 1`.
pub open spec fn advancing(ms: Seq<MatchupView>, obs: Seq<Seq<Seq<char>>>, k: int) -> Seq<Seq<char>>
    decreases ms.len(),
{
    if ms.len() == 0 {
        seq![]
    } else {
        advancing(ms.drop_last(), obs, k) + pick(ms.last().first, obs, k) + pick(
            ms.last().second,
            obs,
            k,
        )
    }
}

/// The bracket after each of `teams`, in order, is advanced from round `k + 1`.
pub open spec fn advance_each(b: BracketView, teams: Seq<Seq<char>>, k: int) -> Option<BracketView>
    decreases teams.len(),
{
    if teams.len() == 0 {
        Some(b)
    } else {
        match advance_each(b, teams.drop_last(), k) {
            Some(b2) => advance_spec(b2, teams.last(), k),
            None => None,
        }
    }
}

/// The bracket after, for each round from `k + 1` to 5 in turn, every team of
/// it that was seen in the next round is advanced.
pub open spec fn reconcile(b: BracketView, obs: Seq<Seq<Seq<char>>>, k: int) -> Option<BracketView>
    decreases 5 - k,
{
    if k < 0 || k >= 5 {
        Some(b)
    } else {
        match advance_each(b, advancing(b[k], obs, k + 1), k) {
            Some(b2) => reconcile(b2, obs, k + 1),
            None => None,
        }
    }
}

/// The unplayed bracket of a roster.
pub open spec fn fresh_bracket(teams: Seq<Team>) -> BracketView {
    seq![
        first_round(teams),
        empty_round(16),
        empty_round(8),
        empty_round(4),
        empty_round(2),
        empty_round(1),
    ]
}

proof fn lemma_advance_each_none(b: BracketView, teams: Seq<Seq<char>>, j: int, k: int)
    requires
        0 <= j <= teams.len(),
        advance_each(b, teams.take(j), k) is None,
    ensures
        advance_each(b, teams, k) is None,
    decreases teams.len() - j,
{
    if j < teams.len() {
        assert(teams.take(j + 1).drop_last() =~= teams.take(j));
        lemma_advance_each_none(b, teams, j + 1, k);
    } else {
        assert(teams.take(j) =~= teams);
    }
}

impl ObservedState {
    /// Nothing observed in any round.
    pub fn new() -> (r: ObservedState)
        ensures
            r@ == Seq::<Seq<Seq<char>>>::empty(),
    {
        let r = ObservedState { rounds: Vec::new() };
        assert(r@ =~= Seq::<Seq<Seq<char>>>::empty());
        r
    }

    /// Whether `team` was seen in round `k + 1`.
    pub fn contains(&self, k: usize, team: &str) -> (r: bool)
        ensures
            r == observed(self@, k as int, team@),
    {
        if k >= self.rounds.len() {
            return false;
        }
        let seen = &self.rounds[k];
        proof {
            assert(self@[k as int] == names_view(seen@));
        }
        let mut i: usize = 0;
        while i < seen.len()
            invariant
                i <= seen.len(),
                k < self.rounds.len(),
                self@[k as int] == names_view(seen@),
                forall|j: int| 0 <= j < i ==> seen@[j]@ != team@,
            decreases seen.len() - i,
        {
            if str_eq(seen[i].as_str(), team) {
                proof {
                    assert(names_view(seen@)[i as int] == team@);
                    assert(self@[k as int].contains(team@));
                }
                return true;
            }
            i = i + 1;
        }
        proof {
            assert forall|j: int| 0 <= j < names_view(seen@).len() implies names_view(seen@)[j]
                != team@ by {
                assert(seen@[j]@ != team@);
            }
        }
        false
    }
}

impl Round {
    /// The teams of this round, in matchup and slot order, that were seen in
    /// round `k + 1`.
    pub fn observed_teams(&self, observed: &ObservedState, k: usize) -> (r: Vec<String>)
        ensures
            names_view(r@) == advancing(self@, observed@, k as int),
    {
        let mut out: Vec<String> = Vec::new();
        let mut i: usize = 0;
        while i < self.matchups.len()
            invariant
                i <= self.matchups.len(),
                names_view(out@) == advancing(self@.take(i as int), observed@, k as int),
            decreases self.matchups.len() - i,
        {
            let m = &self.matchups[i];
            proof {
                assert(self@.take(i + 1).drop_last() =~= self@.take(i as int));
                assert(self@.take(i + 1).last() == m@);
            }
            let ghost before = out@;
            match m.team(MatchupInd::Team1) {
                Some(t) => if observed.contains(k, t.as_str()) {
                    out.push(t.clone());
                },
                None => {},
            }
            let ghost mid = out@;
            proof {
                assert(names_view(mid) =~= names_view(before) + pick(m@.first, observed@, k as int));
            }
            match m.team(MatchupInd::Team2) {
                Some(t) => if observed.contains(k, t.as_str()) {
                    out.push(t.clone());
                },
                None => {},
            }
            proof {
                assert(names_view(out@) =~= names_view(mid) + pick(m@.second, observed@, k as int));
            }
            i = i + 1;
        }
        assert(self@.take(self@.len() as int) =~= self@);
        out
    }
}

impl Tournament {
    /// Builds the bracket of a roster and brings it up to an observed state:
    /// for each round from 1 to 5 in turn, every team of the round that was
    /// seen in the next round is advanced.
    pub fn new(teams: &[Team], observed: &ObservedState) -> (r: Result<Tournament, BracketError>)
        ensures
            !valid_roster(teams@) ==> r is Err,
            valid_roster(teams@) ==> match reconcile(fresh_bracket(teams@), observed@, 0) {
                Some(b) => r is Ok && r->Ok_0.wf() && r->Ok_0@ == b,
                None => r is Err,
            },
    {
        let round1 = match Round::new_round1(teams) {
            Ok(r) => r,
            Err(e) => {
                return Err(e);
            },
        };
        let mut rounds: Vec<Round> = Vec::new();
        rounds.push(round1);
        let mut n: usize = 2;
        proof {
            lemma2_to64();
        }
        while n <= 6
            invariant
                2 <= n <= 7,
                rounds.len() == n - 1,
                rounds@[0]@ == first_round(teams@),
                forall|k: int| 0 <= k < n - 1 ==> (#[trigger] rounds@[k]).round == RoundKind::Round(
                    (k + 1) as usize,
                ),
                forall|k: int|
                    1 <= k < n - 1 ==> (#[trigger] rounds@[k])@ == empty_round(pow2((5 - k) as nat)),
            decreases 7 - n,
        {
            rounds.push(Round::empty(n));
            n = n + 1;
        }
        let mut t = Tournament { rounds };
        proof {
            assert(t@ =~= fresh_bracket(teams@));
            assert forall|k: int| 0 <= k < 6 implies (#[trigger] t@[k]).len() == pow2(
                (5 - k) as nat,
            ) && round_wf(t@[k]) by {
                if k == 0 {
                    assert(round_wf(first_round(teams@)));
                }
            }
        }
        let ghost start = t@;
        let mut k: usize = 0;
        while k < 5
            invariant
                k <= 5,
                t.wf(),
                start == fresh_bracket(teams@),
                reconcile(start, observed@, 0) == reconcile(t@, observed@, k as int),
            decreases 5 - k,
        {
            assert(t.rounds@[k as int]@ == t@[k as int]);
            let names = t.rounds[k].observed_teams(observed, k + 1);
            let ghost bk = t@;
            let mut j: usize = 0;
            while j < names.len()
                invariant
                    k < 5,
                    j <= names.len(),
                    t.wf(),
                    advance_each(bk, names_view(names@).take(j as int), k as int) == Some(t@),
                    start == fresh_bracket(teams@),
                    reconcile(start, observed@, 0) == reconcile(bk, observed@, k as int),
                    names_view(names@) == advancing(bk[k as int], observed@, k + 1),
                decreases names.len() - j,
            {
                proof {
                    assert(names_view(names@).take(j + 1).drop_last() =~= names_view(names@).take(
                        j as int,
                    ));
                }
                match t.advance_team(names[j].as_str(), RoundKind::Round(k + 1)) {
                    Ok(()) => {},
                    Err(e) => {
                        proof {
                            assert(names_view(names@).take(j + 1).last() == names@[j as int]@);
                            assert(advance_each(bk, names_view(names@).take(j + 1), k as int) is None);
                            lemma_advance_each_none(bk, names_view(names@), j + 1, k as int);
                            assert(reconcile(bk, observed@, k as int) is None);
                        }
                        return Err(e);
                    },
                }
                j = j + 1;
            }
            proof {
                assert(names_view(names@).take(names.len() as int) =~= names_view(names@));
            }
            k = k + 1;
        }
        Ok(t)
    }
}

/// Reconciling against a snapshot in which nothing was observed leaves any
/// bracket as it is: a roster reconciled so is its unplayed bracket.
pub proof fn lemma_reconcile_nothing_observed(b: BracketView, obs: Seq<Seq<Seq<char>>>, k: int)
    requires
        0 <= k <= 5,
        b.len() == 6,
        forall|i: int| 0 <= i < obs.len() ==> (#[trigger] obs[i]).len() == 0,
    ensures
        reconcile(b, obs, k) == Some(b),
    decreases 5 - k,
{
    if k < 5 {
        lemma_nothing_advancing(b[k], obs, k + 1);
        lemma_reconcile_nothing_observed(b, obs, k + 1);
    }
}

proof fn lemma_nothing_advancing(ms: Seq<MatchupView>, obs: Seq<Seq<Seq<char>>>, k: int)
    requires
        forall|i: int| 0 <= i < obs.len() ==> (#[trigger] obs[i]).len() == 0,
    ensures
        advancing(ms, obs, k) == Seq::<Seq<char>>::empty(),
    decreases ms.len(),
{
    if ms.len() > 0 {
        lemma_nothing_advancing(ms.drop_last(), obs, k);
        assert(pick(ms.last().first, obs, k) =~= Seq::<Seq<char>>::empty());
        assert(pick(ms.last().second, obs, k) =~= Seq::<Seq<char>>::empty());
        assert(advancing(ms, obs, k) =~= Seq::<Seq<char>>::empty());
    }
}


/// A roster's first round has 32 matchups, each holding two teams, none
/// decided.
pub proof fn lemma_first_round_shape(teams: Seq<Team>)
    ensures
        first_round(teams).len() == 32,
        forall|i: int|
            0 <= i < 32 ==> (#[trigger] first_round(teams)[i]).is_full() && first_round(teams)[i].winner
                is None,
{
}

/// Advancing the winner of matchup `i` of round `k + 1`, whose name no other
/// matchup of the round holds, names it the winner there and enters it into
/// matchup `i / 2` of the next round: into the first slot when that is empty,
/// else into the second, the other slot unchanged. When both slots hold two
/// other teams, advancing fails.
pub proof fn lemma_advance_fills_next(b: BracketView, team: Seq<char>, k: int, i: int)
    requires
        bracket_wf(b),
        0 <= k < 5,
        0 <= i < b[k].len(),
        b[k][i].holds(team),
        forall|j: int| 0 <= j < b[k].len() && j != i ==> !(#[trigger] b[k][j]).holds(team),
    ensures
        ({
            let target = b[k + 1][i / 2];
            &&& !target.holds(team) && target.first is None ==> advance_spec(b, team, k) is Some
                && advance_spec(b, team, k)->0[k + 1][i / 2] == (MatchupView {
                first: Some(team),
                ..target
            })
            &&& !target.holds(team) && target.first is Some && target.second is None
                ==> advance_spec(b, team, k) is Some && advance_spec(b, team, k)->0[k + 1][i / 2]
                == (MatchupView { second: Some(team), ..target })
            &&& !target.holds(team) && target.is_full() ==> advance_spec(b, team, k) is None
            &&& advance_spec(b, team, k) is Some ==> advance_spec(b, team, k)->0[k][i].winner
                == Some(if b[k][i].first == Some(team) {
                MatchupInd::Team1
            } else {
                MatchupInd::Team2
            })
        }),
{
    lemma_scan(b[k], team, 0);
    assert(scan(b[k], team, 0) == Some(i));
    vstd::arithmetic::power2::lemma2_to64();
}

proof fn lemma_scan_slots(a: Seq<MatchupView>, c: Seq<MatchupView>, team: Seq<char>, i: int)
    requires
        a.len() == c.len(),
        forall|j: int| 0 <= j < a.len() ==> (#[trigger] a[j]).holds(team) == c[j].holds(team),
    ensures
        scan(a, team, i) == scan(c, team, i),
    decreases a.len() - i,
{
    if 0 <= i < a.len() {
        lemma_scan_slots(a, c, team, i + 1);
    }
}

/// Advancing the same team out of the same round twice changes nothing the
/// second time: its matchup keeps its winner and no third slot is filled.
pub proof fn lemma_advance_idempotent(b: BracketView, team: Seq<char>, k: int)
    requires
        bracket_wf(b),
        0 <= k < 6,
        advance_spec(b, team, k) is Some,
    ensures
        advance_spec(advance_spec(b, team, k)->0, team, k) == advance_spec(b, team, k),
{
    let b2 = advance_spec(b, team, k)->0;
    let i = scan(b[k], team, 0)->0;
    lemma_scan(b[k], team, 0);
    vstd::arithmetic::power2::lemma2_to64();
    assert(b2[k].len() == b[k].len());
    assert forall|j: int| 0 <= j < b[k].len() implies (#[trigger] b[k][j]).holds(team) == b2[k][j].holds(
        team,
    ) by {}
    lemma_scan_slots(b[k], b2[k], team, 0);
    let b3 = advance_spec(b2, team, k)->0;
    assert(b2[k][i].won_by(team) == b2[k][i]);
    assert(b2[k].update(i, b2[k][i]) =~= b2[k]);
    assert(b2.update(k, b2[k]) =~= b2);
    if k < 5 {
        assert(b2[k + 1][i / 2].holds(team));
        assert(b2[k + 1].update(i / 2, b2[k + 1][i / 2]) =~= b2[k + 1]);
        assert(b2.update(k + 1, b2[k + 1]) =~= b2);
    }
}

/// No team plays in two matchups of the round, nor twice in one matchup.
pub open spec fn unique_names(ms: Seq<MatchupView>) -> bool {
    &&& forall|i: int, j: int, t: Seq<char>|
        0 <= i < ms.len() && 0 <= j < ms.len() && i != j && #[trigger] ms[i].holds(t) ==> !#[trigger] ms[j].holds(t)
    &&& forall|i: int|
        0 <= i < ms.len() && (#[trigger] ms[i]).first is Some ==> ms[i].second != ms[i].first
}

/// The slot holds a team that was seen in round `k + 1`.
pub open spec fn seen_slot(slot: Option<Seq<char>>, obs: Seq<Seq<Seq<char>>>, k: int) -> bool {
    slot is Some && observed(obs, k, slot->0)
}

/// At most one team of each matchup was seen in round `k + 1`.
pub open spec fn one_seen_per_matchup(ms: Seq<MatchupView>, obs: Seq<Seq<Seq<char>>>, k: int) -> bool {
    forall|i: int|
        0 <= i < ms.len() ==> !(seen_slot((#[trigger] ms[i]).first, obs, k) && seen_slot(
            ms[i].second,
            obs,
            k,
        ))
}

/// A matchup after reconciliation: won by its team seen in round `k + 1`, if
/// any, and else as it was.
pub open spec fn settled(m: MatchupView, obs: Seq<Seq<Seq<char>>>, k: int) -> MatchupView {
    if seen_slot(m.first, obs, k) {
        MatchupView { winner: Some(MatchupInd::Team1), ..m }
    } else if seen_slot(m.second, obs, k) {
        MatchupView { winner: Some(MatchupInd::Team2), ..m }
    } else {
        m
    }
}

/// The bracket once the first `m` matchups of round `k + 1` are reconciled.
pub open spec fn round_settled(
    b: BracketView,
    bm: BracketView,
    obs: Seq<Seq<Seq<char>>>,
    k: int,
    m: int,
) -> bool {
    &&& bm.len() == b.len()
    &&& forall|r: int| 0 <= r < b.len() && r != k && r != k + 1 ==> #[trigger] bm[r] == b[r]
    &&& bm[k].len() == b[k].len()
    &&& bm[k + 1].len() == b[k + 1].len()
    &&& forall|i: int|
        0 <= i < b[k].len() ==> #[trigger] bm[k][i] == if i < m {
            settled(b[k][i], obs, k + 1)
        } else {
            b[k][i]
        }
    &&& forall|j: int|
        0 <= j < b[k + 1].len() ==> {
            &&& (#[trigger] bm[k + 1][j]).index == b[k + 1][j].index
            &&& bm[k + 1][j].winner == b[k + 1][j].winner
            &&& 2 * j >= m ==> bm[k + 1][j].first is None
            &&& 2 * j + 1 >= m ==> bm[k + 1][j].second is None
        }
    &&& forall|i: int|
        0 <= i < m && #[trigger] seen_winner(b[k][i], obs, k + 1) is Some ==> bm[k + 1][i / 2].holds(
            seen_winner(b[k][i], obs, k + 1)->0,
        )
}

/// The team of a matchup that was seen in round `k + 1`, if any.
pub open spec fn seen_winner(m: MatchupView, obs: Seq<Seq<Seq<char>>>, k: int) -> Option<Seq<char>> {
    if seen_slot(m.first, obs, k) {
        m.first
    } else if seen_slot(m.second, obs, k) {
        m.second
    } else {
        None
    }
}

proof fn lemma_scan_unique(ms: Seq<MatchupView>, team: Seq<char>, i: int)
    requires
        0 <= i < ms.len(),
        ms[i].holds(team),
        forall|j: int| 0 <= j < ms.len() && j != i ==> !(#[trigger] ms[j]).holds(team),
    ensures
        scan(ms, team, 0) == Some(i),
{
    lemma_scan(ms, team, 0);
}

proof fn lemma_reconcile_prefix(b: BracketView, obs: Seq<Seq<Seq<char>>>, k: int, m: int)
    requires
        bracket_wf(b),
        0 <= k < 5,
        0 <= m <= b[k].len(),
        unique_names(b[k]),
        one_seen_per_matchup(b[k], obs, k + 1),
        forall|j: int|
            0 <= j < b[k + 1].len() ==> (#[trigger] b[k + 1][j]).first is None && b[k + 1][j].second
                is None,
    ensures
        advance_each(b, advancing(b[k].take(m), obs, k + 1), k) matches Some(bm) && round_settled(
            b,
            bm,
            obs,
            k,
            m,
        ),
    decreases m,
{
    vstd::arithmetic::power2::lemma2_to64();
    if m == 0 {
        assert(b[k].take(0) =~= Seq::<MatchupView>::empty());
        assert(advancing(b[k].take(0), obs, k + 1) =~= Seq::<Seq<char>>::empty());
    } else {
        let i = m - 1;
        lemma_reconcile_prefix(b, obs, k, i);
        let prev = advancing(b[k].take(i), obs, k + 1);
        let bp = advance_each(b, prev, k)->0;
        let mi = b[k][i];
        assert(b[k].take(m).drop_last() =~= b[k].take(i));
        assert(b[k].take(m).last() == mi);
        let list = advancing(b[k].take(m), obs, k + 1);
        assert(list == prev + pick(mi.first, obs, k + 1) + pick(mi.second, obs, k + 1));
        assert(bp[k][i] == mi);
        if seen_slot(mi.first, obs, k + 1) {
            let a = mi.first->0;
            assert(list =~= prev.push(a));
            assert(list.drop_last() =~= prev);
            assert forall|j: int| 0 <= j < bp[k].len() && j != i implies !(#[trigger] bp[k][j]).holds(
                a,
            ) by {
                assert(b[k][i].holds(a));
                assert(!b[k][j].holds(a));
                assert(bp[k][j] == settled(b[k][j], obs, k + 1) || bp[k][j] == b[k][j]);
            }
            lemma_scan_unique(bp[k], a, i);
            let bn = advance_each(b, list, k)->0;
            assert(bn[k] =~= bp[k].update(i, settled(mi, obs, k + 1)));
            assert forall|r: int| 0 <= r < b.len() && r != k && r != k + 1 implies #[trigger] bn[r]
                == b[r] by {}
            assert forall|x: int| 0 <= x < b[k].len() implies #[trigger] bn[k][x] == if x < m {
                settled(b[k][x], obs, k + 1)
            } else {
                b[k][x]
            } by {}
        } else if seen_slot(mi.second, obs, k + 1) {
            let c = mi.second->0;
            assert(pick(mi.first, obs, k + 1) =~= Seq::<Seq<char>>::empty());
            assert(list =~= prev.push(c));
            assert(list.drop_last() =~= prev);
            assert forall|j: int| 0 <= j < bp[k].len() && j != i implies !(#[trigger] bp[k][j]).holds(
                c,
            ) by {
                assert(b[k][i].holds(c));
                assert(!b[k][j].holds(c));
                assert(bp[k][j] == settled(b[k][j], obs, k + 1) || bp[k][j] == b[k][j]);
            }
            lemma_scan_unique(bp[k], c, i);
            let bn = advance_each(b, list, k)->0;
            assert(bn[k] =~= bp[k].update(i, settled(mi, obs, k + 1)));
            assert forall|r: int| 0 <= r < b.len() && r != k && r != k + 1 implies #[trigger] bn[r]
                == b[r] by {}
            assert forall|x: int| 0 <= x < b[k].len() implies #[trigger] bn[k][x] == if x < m {
                settled(b[k][x], obs, k + 1)
            } else {
                b[k][x]
            } by {}
        } else {
            assert(pick(mi.first, obs, k + 1) =~= Seq::<Seq<char>>::empty());
            assert(pick(mi.second, obs, k + 1) =~= Seq::<Seq<char>>::empty());
            assert(list =~= prev);
        }
    }
}

/// Reconciling one round `k + 1` below the final, whose names are unique, in
/// which at most one team of each matchup was seen in the next round, and
/// whose next round is still empty, succeeds: every matchup with a team seen
/// in the next round is won by that team, which then plays in matchup `i / 2`
/// of the next round, and every other matchup stays as it was.
pub proof fn lemma_reconcile_round(b: BracketView, obs: Seq<Seq<Seq<char>>>, k: int)
    requires
        bracket_wf(b),
        0 <= k < 5,
        unique_names(b[k]),
        one_seen_per_matchup(b[k], obs, k + 1),
        forall|j: int|
            0 <= j < b[k + 1].len() ==> (#[trigger] b[k + 1][j]).first is None && b[k + 1][j].second
                is None,
    ensures
        advance_each(b, advancing(b[k], obs, k + 1), k) is Some,
        ({
            let b2 = advance_each(b, advancing(b[k], obs, k + 1), k)->0;
            &&& forall|i: int| 0 <= i < b[k].len() ==> #[trigger] b2[k][i] == settled(b[k][i], obs, k + 1)
            &&& forall|i: int|
                0 <= i < b[k].len() && #[trigger] seen_winner(b[k][i], obs, k + 1) is Some
                    ==> b2[k + 1][i / 2].holds(seen_winner(b[k][i], obs, k + 1)->0)
            &&& forall|r: int| 0 <= r < 6 && r != k && r != k + 1 ==> #[trigger] b2[r] == b[r]
        }),
{
    lemma_reconcile_prefix(b, obs, k, b[k].len() as int);
    assert(b[k].take(b[k].len() as int) =~= b[k]);
}

} // verus!
