use bracket_sim::error::BracketError;
use bracket_sim::page::{observed_from_html, observed_from_ids, win_percent_from_html, win_percent_from_nodes, TextNode};
use bracket_sim::report::TeamState;
use bracket_sim::simulate::{extract_team_round_from_id, parse_percent, pick_winner, winner_for_draw};
use bracket_sim::teams::{parse_team_row, retain_observed, Team};
use bracket_sim::tournament::{MatchupInd, ObservedState, Region, Round, RoundKind, Seed, Tournament};

fn roster() -> Vec<Team> {
    let mut teams = Vec::new();
    for region in [Region::West, Region::East, Region::South, Region::Midwest] {
        for seed in 1..=16u8 {
            teams.push(Team::new(format!("{:?}{}", region, seed), region, Seed(seed)));
        }
    }
    teams
}

#[test]
fn percent_labels() {
    assert_eq!(parse_percent("73%"), Ok(73));
    assert_eq!(parse_percent(">99%"), Ok(100));
    assert_eq!(parse_percent("<1%"), Ok(0));
    assert_eq!(parse_percent("100%"), Ok(100));
    assert_eq!(parse_percent("5"), Err(BracketError::BadPercent));
    assert_eq!(parse_percent("7%3"), Err(BracketError::BadPercent));
    assert_eq!(parse_percent("%5%"), Err(BracketError::BadPercent));
    assert_eq!(parse_percent("5%%"), Err(BracketError::BadPercent));
    assert_eq!(parse_percent("~50%"), Err(BracketError::BadPercent));
    assert_eq!(parse_percent("N/A"), Err(BracketError::BadPercent));
    assert_eq!(parse_percent("0%"), Ok(0));
    assert_eq!(parse_percent("abc"), Err(BracketError::BadPercent));
    assert_eq!(parse_percent(""), Err(BracketError::BadPercent));
    assert_eq!(parse_percent("%"), Err(BracketError::BadPercent));
    assert_eq!(parse_percent("101%"), Err(BracketError::BadPercent));
    assert_eq!(parse_percent("-5%"), Err(BracketError::BadPercent));
    assert_eq!(parse_percent(">98%"), Err(BracketError::BadPercent));
}

#[test]
fn draw_below_percent_picks_first_team() {
    assert_eq!(winner_for_draw(73, 0), MatchupInd::Team1);
    assert_eq!(winner_for_draw(73, 72), MatchupInd::Team1);
    assert_eq!(winner_for_draw(73, 73), MatchupInd::Team2);
    assert_eq!(winner_for_draw(0, 0), MatchupInd::Team2);
    assert_eq!(winner_for_draw(100, 99), MatchupInd::Team1);
}

#[test]
fn certain_outcomes_ignore_the_draw() {
    for _ in 0..50 {
        assert_eq!(pick_winner(100), MatchupInd::Team1);
        assert_eq!(pick_winner(0), MatchupInd::Team2);
    }
}

#[test]
fn single_final_simulation_reports_champion() {
    let mut round = Round::empty(6);
    round.add_team_to_matchup("team1", 0).unwrap();
    round.add_team_to_matchup("team2", 0).unwrap();
    let percent = parse_percent(">99%").unwrap();
    let winner = winner_for_draw(percent, 0);
    assert_eq!(winner, MatchupInd::Team1);
    round.matchups[0].set_winner(winner);
    let m = &round.matchups[0];
    assert_eq!(m.team_state(MatchupInd::Team1), TeamState::Won);
    assert_eq!(m.team_state(MatchupInd::Team2), TeamState::Lost);
    let text = round.summary();
    assert_eq!(text, "Round 6\nteam1 (won) vs team2 (lost)\n\n");
    assert!(text.contains("team1 (won)"));
    assert!(!text.contains("team2 (won)"));
}

#[test]
fn open_matchup_summary() {
    let mut round = Round::empty(5);
    round.add_team_to_matchup("A", 1).unwrap();
    assert_eq!(round.matchups[1].summary(), "A vs ___\n");
    assert_eq!(round.matchups[1].team_state(MatchupInd::Team1), TeamState::Pending);
    assert_eq!(round.summary(), "Round 5\n___ vs ___\nA vs ___\n\n");
}

#[test]
fn full_simulation_with_first_team_always_winning() {
    let teams = roster();
    let mut t = Tournament::new(&teams, &ObservedState::new()).unwrap();
    let mut played = 0;
    while let Some((n, i)) = t.next_pending() {
        let winner = winner_for_draw(100, 0);
        t.play_matchup(n, i, winner).unwrap();
        played += 1;
    }
    assert_eq!(played, 63);
    assert_eq!(t.champion(), Some("West1".to_string()));
    let text = t.summary();
    assert!(text.starts_with("Round 1\nWest1 (won) vs West16 (lost)\n"));
    assert!(text.ends_with("Round 6\nWest1 (won) vs South1 (lost)\n\n"));
}

#[test]
fn play_matchup_on_empty_slot_fails() {
    let teams = roster();
    let mut t = Tournament::new(&teams, &ObservedState::new()).unwrap();
    assert_eq!(t.play_matchup(2, 0, MatchupInd::Team1), Err(BracketError::EmptySlot));
}

#[test]
fn node_ids() {
    assert_eq!(
        extract_team_round_from_id("node-Kentucky-6"),
        Ok(("Kentucky".to_string(), RoundKind::Round(1)))
    );
    assert_eq!(
        extract_team_round_from_id("node-Saint-Marys-1"),
        Ok(("Saint-Marys".to_string(), RoundKind::Round(6)))
    );
    assert_eq!(extract_team_round_from_id("Kentucky"), Err(BracketError::BadNodeId));
    assert_eq!(extract_team_round_from_id("Kentucky-6"), Err(BracketError::BadNodeId));
    assert_eq!(extract_team_round_from_id("node-Kentucky-x"), Err(BracketError::BadNodeId));
    assert_eq!(extract_team_round_from_id("node-Kentucky-0"), Err(BracketError::BadNodeId));
    assert_eq!(extract_team_round_from_id("node-Kentucky-7"), Err(BracketError::BadNodeId));
}

#[test]
fn observed_state_from_ids() {
    let ids: Vec<String> = ["node-Duke-6", "node-Duke-5", "node-UCLA-6", "", "junk", "node-Duke-5"]
        .iter()
        .map(|s| s.to_string())
        .collect();
    let obs = observed_from_ids(&ids);
    assert!(obs.contains(0, "Duke"));
    assert!(obs.contains(0, "UCLA"));
    assert!(obs.contains(1, "Duke"));
    assert!(!obs.contains(1, "UCLA"));
    assert!(!obs.contains(2, "Duke"));
}

#[test]
fn observed_state_from_page() {
    let html = r#"<svg><g class="nodes"><g class="node" id="node-Duke-6"></g><g class="node" id="node-Duke-5"></g><g class="other" id="node-UCLA-5"></g></g></svg>"#;
    let obs = observed_from_html(html);
    assert!(obs.contains(0, "Duke"));
    assert!(obs.contains(1, "Duke"));
    assert!(!obs.contains(1, "UCLA"));
}

#[test]
fn win_percent_from_labelled_nodes() {
    let nodes = vec![
        TextNode { classes: vec!["Duke".to_string()], texts: vec![] },
        TextNode { classes: vec!["UCLA".to_string()], texts: vec!["12%".to_string()] },
        TextNode { classes: vec!["x".to_string(), "Duke".to_string()], texts: vec![">99%".to_string()] },
    ];
    assert_eq!(win_percent_from_nodes(&nodes, "Duke", 1), Ok(100));
    assert_eq!(win_percent_from_nodes(&nodes, "UCLA", 1), Ok(12));
    assert_eq!(
        win_percent_from_nodes(&nodes, "Gonzaga", 2),
        Err(BracketError::LookupNotFound { team: "Gonzaga".to_string(), round: RoundKind::Round(2) })
    );
    let bad = vec![TextNode { classes: vec!["Duke".to_string()], texts: vec!["n/a".to_string()] }];
    assert_eq!(win_percent_from_nodes(&bad, "Duke", 1), Err(BracketError::BadPercent));
}

#[test]
fn win_percent_from_page() {
    let html = r#"<svg><g class="nodes"><text depth="5" class="Duke">73%</text><text depth="4" class="Duke">41%</text><text depth="5" class="UCLA">27%</text></g></svg>"#;
    assert_eq!(win_percent_from_html(html, "Duke", 1), Ok(73));
    assert_eq!(win_percent_from_html(html, "Duke", 2), Ok(41));
    assert_eq!(win_percent_from_html(html, "UCLA", 1), Ok(27));
    assert!(matches!(
        win_percent_from_html(html, "UCLA", 2),
        Err(BracketError::LookupNotFound { .. })
    ));
}

#[test]
fn roster_rows() {
    let t = parse_team_row("Gonzaga <span>1</span>", "West").unwrap();
    assert_eq!(t.name(), "Gonzaga");
    assert_eq!(t.region, Region::West);
    assert_eq!(t.seed, Seed(1));
    let t = parse_team_row("Saint Mary's <span>16</span>", "MIDWEST").unwrap();
    assert_eq!(t.name(), "Saint Mary's");
    assert_eq!(t.region, Region::Midwest);
    assert_eq!(t.seed, Seed(16));
    assert_eq!(parse_team_row("Gonzaga", "West").err(), Some(BracketError::BadRow));
    assert_eq!(parse_team_row("Gonzaga <span>1", "West").err(), Some(BracketError::BadRow));
    assert_eq!(parse_team_row("Gonzaga <span>x</span>", "West").err(), Some(BracketError::BadRow));
    assert_eq!(parse_team_row("Gonzaga <span>17</span>", "West").err(), Some(BracketError::BadRow));
    assert_eq!(parse_team_row("Gonzaga <span>0</span>", "West").err(), Some(BracketError::InvalidSeed(0)));
    assert_eq!(
        parse_team_row("Gonzaga <span>1</span>", "North").err(),
        Some(BracketError::UnknownRegion("north".to_string()))
    );
}

#[test]
fn region_names() {
    assert_eq!(Region::from_name("South"), Ok(Region::South));
    assert_eq!(Region::from_name("eAsT"), Ok(Region::East));
    assert_eq!(Region::from_lowercase("west"), Ok(Region::West));
    assert!(Region::from_lowercase("West").is_err());
    assert_eq!(Region::Midwest.name(), "Midwest");
}

#[test]
fn roster_keeps_first_round_teams() {
    let teams = roster();
    let obs = ObservedState { rounds: vec![vec!["West1".to_string(), "East16".to_string()]] };
    let kept = retain_observed(&teams, &obs);
    assert_eq!(kept.len(), 2);
    assert_eq!(kept[0].name(), "West1");
    assert_eq!(kept[1].name(), "East16");
    assert_eq!(kept[1].region, Region::East);
}
