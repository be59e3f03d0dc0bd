use bracket_sim::error::BracketError;
use bracket_sim::teams::Team;
use bracket_sim::tournament::{
    matchup_ind, Matchup, MatchupInd, ObservedState, Region, Round, RoundKind, Seed, Tournament,
};

const REGIONS: [Region; 4] = [Region::West, Region::East, Region::South, Region::Midwest];

fn roster() -> Vec<Team> {
    let mut teams = Vec::new();
    for region in REGIONS {
        for seed in 1..=16u8 {
            teams.push(Team::new(format!("{:?}{}", region, seed), region, Seed::new(seed).unwrap()));
        }
    }
    teams
}

fn observed(rounds: &[&[&str]]) -> ObservedState {
    ObservedState {
        rounds: rounds.iter().map(|r| r.iter().map(|t| t.to_string()).collect()).collect(),
    }
}

#[test]
fn seeding_is_canonical_and_mirrored() {
    let expected = [0, 7, 5, 3, 2, 4, 6, 1];
    for s in 1..=8u8 {
        assert_eq!(matchup_ind(s), expected[(s - 1) as usize]);
    }
    for s in 1..=16u8 {
        assert!(matchup_ind(s) < 8);
        assert_eq!(matchup_ind(s), matchup_ind(17 - s));
    }
    assert_eq!(matchup_ind(1), 0);
    assert_eq!(matchup_ind(2), 7);
    assert_ne!(matchup_ind(1), matchup_ind(2));
}

#[test]
fn region_indices_pair_west_east_and_south_midwest() {
    assert_eq!(Region::West.to_ind(), 0);
    assert_eq!(Region::East.to_ind(), 1);
    assert_eq!(Region::South.to_ind(), 2);
    assert_eq!(Region::Midwest.to_ind(), 3);
}

#[test]
fn seed_must_lie_in_range() {
    assert_eq!(Seed::new(0), Err(BracketError::InvalidSeed(0)));
    assert_eq!(Seed::new(17), Err(BracketError::InvalidSeed(17)));
    assert_eq!(Seed::new(1), Ok(Seed(1)));
    assert_eq!(Seed::new(16), Ok(Seed(16)));
}

#[test]
fn round_sizes() {
    assert_eq!(RoundKind::PlayIn.matchup_count(), 4);
    let expected = [32usize, 16, 8, 4, 2, 1];
    for n in 1..=6usize {
        assert_eq!(RoundKind::Round(n).matchup_count(), expected[n - 1]);
    }
    for n in 2..=6usize {
        let round = Round::empty(n);
        assert_eq!(round.round, RoundKind::Round(n));
        assert_eq!(round.matchups.len(), 1usize << (6 - n));
        for (i, m) in round.matchups.iter().enumerate() {
            assert_eq!(m.index(), i);
            assert!(m.team(MatchupInd::Team1).is_none());
            assert!(m.team(MatchupInd::Team2).is_none());
            assert!(!m.completed());
        }
    }
}

#[test]
fn next_round_order() {
    assert_eq!(RoundKind::PlayIn.next_round(), Some(RoundKind::Round(1)));
    assert_eq!(RoundKind::Round(1).next_round(), Some(RoundKind::Round(2)));
    assert_eq!(RoundKind::Round(5).next_round(), Some(RoundKind::Round(6)));
    assert_eq!(RoundKind::Round(6).next_round(), None);
}

#[test]
fn first_round_from_full_roster() {
    let teams = roster();
    let round = Round::new_round1(&teams).unwrap();
    assert_eq!(round.round, RoundKind::Round(1));
    assert_eq!(round.matchups.len(), 32);
    for m in &round.matchups {
        assert!(m.is_full());
        assert!(!m.completed());
    }
    let [a, b] = round.matchups[0].teams();
    assert_eq!(a, "West1");
    assert_eq!(b, "West16");
    let [a, b] = round.matchups[1].teams();
    assert_eq!(a, "West8");
    assert_eq!(b, "West9");
    let [a, b] = round.matchups[7].teams();
    assert_eq!(a, "West2");
    assert_eq!(b, "West15");
    let [a, b] = round.matchups[8].teams();
    assert_eq!(a, "East1");
    assert_eq!(b, "East16");
    let [a, b] = round.matchups[31].teams();
    assert_eq!(a, "Midwest2");
    assert_eq!(b, "Midwest15");
}

#[test]
fn first_round_order_of_roster_does_not_matter() {
    let mut teams = roster();
    teams.reverse();
    let round = Round::new_round1(&teams).unwrap();
    let [a, b] = round.matchups[0].teams();
    assert_eq!(a, "West1");
    assert_eq!(b, "West16");
}

#[test]
fn first_round_rejects_wrong_count() {
    let mut teams = roster();
    teams.pop();
    assert_eq!(Round::new_round1(&teams).err(), Some(BracketError::WrongTeamCount(63)));
    assert_eq!(Round::new_round1(&[]).err(), Some(BracketError::WrongTeamCount(0)));
}

#[test]
fn first_round_rejects_duplicate_seed() {
    let mut teams = roster();
    teams[1] = Team::new("Other".to_string(), Region::West, Seed(1));
    assert_eq!(
        Round::new_round1(&teams).err(),
        Some(BracketError::DuplicateSeed { region: Region::West, seed: 1 })
    );
}

#[test]
fn first_round_rejects_bad_seed() {
    let mut teams = roster();
    teams[5] = Team::new("Other".to_string(), Region::West, Seed(20));
    assert_eq!(Round::new_round1(&teams).err(), Some(BracketError::InvalidSeed(20)));
}

#[test]
fn advancing_fills_half_index_first_then_second() {
    let teams = roster();
    let mut t = Tournament::new(&teams, &ObservedState::new()).unwrap();
    // Round 1 matchups 2 and 3 both feed round 2 matchup 1.
    t.advance_team("West5", RoundKind::Round(1)).unwrap();
    {
        let m = &t.round(1).matchups[2];
        assert_eq!(m.winner(), Some(MatchupInd::Team1));
        let next = &t.round(2).matchups[1];
        assert_eq!(next.team(MatchupInd::Team1).map(|s| s.as_str()), Some("West5"));
        assert!(next.team(MatchupInd::Team2).is_none());
    }
    t.advance_team("West13", RoundKind::Round(1)).unwrap();
    {
        let next = &t.round(2).matchups[1];
        assert_eq!(next.team(MatchupInd::Team1).map(|s| s.as_str()), Some("West5"));
        assert_eq!(next.team(MatchupInd::Team2).map(|s| s.as_str()), Some("West13"));
        assert_eq!(t.round(1).matchups[3].winner(), Some(MatchupInd::Team2));
    }
    // Overwriting the winner of matchup 3 would make West4 a third team.
    assert_eq!(
        t.advance_team("West4", RoundKind::Round(1)),
        Err(BracketError::MatchupFull { team: "West4".to_string(), round: RoundKind::Round(1) })
    );
    assert_eq!(t.round(1).matchups[3].winner(), Some(MatchupInd::Team2));
    // Advancing the same team again changes nothing.
    t.advance_team("West13", RoundKind::Round(1)).unwrap();
    let next = &t.round(2).matchups[1];
    assert_eq!(next.team(MatchupInd::Team2).map(|s| s.as_str()), Some("West13"));
}

#[test]
fn advancing_unknown_team_or_round_fails() {
    let teams = roster();
    let mut t = Tournament::new(&teams, &ObservedState::new()).unwrap();
    assert_eq!(
        t.advance_team("Nobody", RoundKind::Round(1)),
        Err(BracketError::TeamNotFound { team: "Nobody".to_string(), round: RoundKind::Round(1) })
    );
    assert_eq!(
        t.advance_team("West1", RoundKind::Round(2)),
        Err(BracketError::TeamNotFound { team: "West1".to_string(), round: RoundKind::Round(2) })
    );
    assert_eq!(
        t.advance_team("West1", RoundKind::PlayIn),
        Err(BracketError::UnknownRound(RoundKind::PlayIn))
    );
    assert_eq!(
        t.advance_team("West1", RoundKind::Round(7)),
        Err(BracketError::UnknownRound(RoundKind::Round(7)))
    );
}

#[test]
fn matchup_set_winning_team() {
    let mut round = Round::empty(6);
    round.add_team_to_matchup("A", 0).unwrap();
    round.add_team_to_matchup("B", 0).unwrap();
    assert!(round.add_team_to_matchup("C", 0).is_err());
    let m: &mut Matchup = &mut round.matchups[0];
    assert!(m.includes_team("A"));
    assert!(!m.includes_team("C"));
    assert_eq!(m.set_winning_team("C"), Err(BracketError::NotInMatchup("C".to_string())));
    assert!(!m.completed());
    m.set_winning_team("B").unwrap();
    assert_eq!(m.winner(), Some(MatchupInd::Team2));
    m.set_winning_team("B").unwrap();
    assert_eq!(m.winner(), Some(MatchupInd::Team2));
    assert!(m.is_full());
}

#[test]
fn reconcile_infers_earlier_wins() {
    let teams = roster();
    // West1 beat West16 and West8 beat West9 in round 1; West8 then beat
    // West1 in round 2.
    let obs = observed(&[&[], &["West1", "West8"], &["West8"]]);
    let t = Tournament::new(&teams, &obs).unwrap();
    assert_eq!(t.round(1).matchups[0].winner(), Some(MatchupInd::Team1));
    assert_eq!(t.round(1).matchups[1].winner(), Some(MatchupInd::Team1));
    let r2 = &t.round(2).matchups[0];
    assert_eq!(r2.teams(), ["West1".to_string(), "West8".to_string()]);
    assert_eq!(r2.winner(), Some(MatchupInd::Team2));
    let r3 = &t.round(3).matchups[0];
    assert_eq!(r3.team(MatchupInd::Team1).map(|s| s.as_str()), Some("West8"));
    assert!(!r3.completed());
    for i in 2..32 {
        assert!(!t.round(1).matchups[i].completed());
    }
    for i in 1..16 {
        assert!(!t.round(2).matchups[i].completed());
    }
    assert_eq!(t.next_pending(), Some((1, 2)));
}

#[test]
fn reconcile_with_only_late_round_observed_decides_nothing() {
    let teams = roster();
    let obs = observed(&[&[], &[], &["West1", "West5"]]);
    let t = Tournament::new(&teams, &obs).unwrap();
    assert_eq!(t.next_pending(), Some((1, 0)));
    assert!(t.round(2).matchups.iter().all(|m| !m.completed() && m.team(MatchupInd::Team1).is_none()));
}

#[test]
fn reconcile_nothing_observed_is_fresh_bracket() {
    let teams = roster();
    let t = Tournament::new(&teams, &ObservedState::new()).unwrap();
    let again = Tournament::new(&teams, &observed(&[&[], &[], &[], &[], &[], &[]])).unwrap();
    let fresh = Round::new_round1(&teams).unwrap();
    assert_eq!(t.summary(), again.summary());
    assert_eq!(t.round(1).summary(), fresh.summary());
    for n in 2..=6 {
        assert_eq!(t.round(n).summary(), Round::empty(n).summary());
    }
    assert_eq!(t.next_pending(), Some((1, 0)));
    assert_eq!(t.champion(), None);
}

#[test]
fn reconcile_twice_gives_same_bracket() {
    let teams = roster();
    let obs = observed(&[&[], &["West1", "West8", "East16"], &["West8"]]);
    let a = Tournament::new(&teams, &obs).unwrap();
    let b = Tournament::new(&teams, &obs).unwrap();
    assert_eq!(a.summary(), b.summary());
}

#[test]
fn reconcile_rejects_bad_roster() {
    let mut teams = roster();
    teams.truncate(10);
    assert!(Tournament::new(&teams, &ObservedState::new()).is_err());
}

#[test]
fn observed_state_lookup() {
    let obs = observed(&[&["A"], &["B", "C"]]);
    assert!(obs.contains(0, "A"));
    assert!(obs.contains(1, "C"));
    assert!(!obs.contains(1, "A"));
    assert!(!obs.contains(4, "A"));
}
