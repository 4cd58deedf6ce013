use rand::rngs::StdRng;
use rand::SeedableRng;
use team_sorter::balancer::rebalance_teams;
use team_sorter::fixer::fix_invalid_teams;
use team_sorter::pipeline::{arrange_teams, balance_until_stable, Cli};
use team_sorter::player::{
    get_range, is_valid_team, measure_imbalance, shuffle, shuffle_players, sum_elo, Player,
};
use team_sorter::sorter::{sort_players_into_teams, PartitionError};

fn p(name: &str, elo: u32, availability: u8) -> Player {
    Player { name: name.to_string(), elo, availability }
}

fn team_of(tiers: &[u8]) -> Vec<Player> {
    tiers
        .iter()
        .enumerate()
        .map(|(i, t)| p(&format!("m{}", i), 10 * (i as u32 + 1), *t))
        .collect()
}

fn sorted_names(teams: &[Vec<Player>]) -> Vec<String> {
    let mut names: Vec<String> = teams.iter().flatten().map(|x| x.name.clone()).collect();
    names.sort();
    names
}

fn options(randomness: bool) -> Cli {
    Cli {
        csv_file: "roster.csv".to_string(),
        verbose: false,
        use_derivative: false,
        randomness,
        max_fixing_iterations: 10,
        max_iterations: 20,
        output: None,
    }
}

#[test]
fn sum_of_ratings() {
    let team = vec![p("a", 100, 2), p("b", 50, 2), p("c", 7, 3)];
    assert_eq!(sum_elo(&team), 157);
    assert_eq!(sum_elo(&[]), 0);
    let big = vec![p("a", u32::MAX, 2), p("b", u32::MAX, 2)];
    assert_eq!(sum_elo(&big), 2 * u32::MAX as u64);
}

#[test]
fn validity_table() {
    assert!(is_valid_team(&team_of(&[2, 2, 2, 2, 2])));
    assert!(is_valid_team(&team_of(&[2, 2, 3, 3, 3])));
    assert!(is_valid_team(&team_of(&[3, 3, 4, 4, 4])));
    assert!(!is_valid_team(&team_of(&[2, 2, 4, 4, 4])));
    assert!(!is_valid_team(&team_of(&[2, 3, 4, 2, 3])));
    assert!(!is_valid_team(&team_of(&[1, 1, 1, 1, 2])));
    assert!(is_valid_team(&team_of(&[1, 1, 1, 1, 1])));
}

#[test]
fn validity_needs_five() {
    assert!(!is_valid_team(&team_of(&[2, 2, 2, 2])));
    assert!(!is_valid_team(&team_of(&[2, 2, 2, 2, 2, 2])));
    assert!(!is_valid_team(&[]));
}

#[test]
fn imbalance_and_range_agree() {
    let teams = vec![
        vec![p("a", 10, 2), p("b", 20, 2)],
        vec![p("c", 5, 2)],
        vec![p("d", 40, 2), p("e", 1, 2)],
    ];
    assert_eq!(measure_imbalance(&teams), 36);
    assert_eq!(get_range(&teams), 36);
    assert_eq!(measure_imbalance(&[]), 0);
    assert_eq!(get_range(&[]), 0);
    let one = vec![vec![p("a", 10, 2)]];
    assert_eq!(measure_imbalance(&one), 0);
    assert_eq!(get_range(&one), 0);
}

#[test]
fn merge_of_tiers_two_and_three() {
    let mut players = Vec::new();
    for (i, r) in [100, 90, 80, 70, 60].iter().enumerate() {
        players.push(p(&format!("two{}", i), *r, 2));
    }
    for (i, r) in [95, 85, 75, 65, 55].iter().enumerate() {
        players.push(p(&format!("three{}", i), *r, 3));
    }
    let teams = sort_players_into_teams(players).unwrap();
    assert_eq!(teams.len(), 2);
    let ratings: Vec<Vec<u32>> = teams.iter().map(|t| t.iter().map(|x| x.elo).collect()).collect();
    assert_eq!(ratings[0], vec![100, 95, 90, 85, 80]);
    assert_eq!(ratings[1], vec![75, 70, 65, 60, 55]);
    assert!(teams.iter().all(|t| is_valid_team(t)));
}

#[test]
fn five_tier_one_players() {
    let players: Vec<Player> = (0..5).map(|i| p(&format!("a{}", i), 10 * i, 1)).collect();
    let mut teams = sort_players_into_teams(players).unwrap();
    assert_eq!(teams.len(), 1);
    assert!(teams[0].iter().all(|x| x.availability == 1));
    let ratings: Vec<u32> = teams[0].iter().map(|x| x.elo).collect();
    assert_eq!(ratings, vec![40, 30, 20, 10, 0]);
    let mut rng = StdRng::seed_from_u64(1);
    let before: Vec<String> = teams[0].iter().map(|x| x.name.clone()).collect();
    assert_eq!(fix_invalid_teams(&mut teams, &mut rng, 10, false), 0);
    rebalance_teams(&mut teams);
    let after: Vec<String> = teams[0].iter().map(|x| x.name.clone()).collect();
    assert_eq!(before, after);
}

#[test]
fn two_and_four_cannot_merge() {
    let players = vec![p("a", 50, 2), p("b", 40, 2), p("c", 30, 2), p("d", 20, 2), p("e", 10, 4)];
    let mut teams = sort_players_into_teams(players).unwrap();
    assert_eq!(teams.len(), 1);
    assert_eq!(teams[0].len(), 5);
    assert!(!is_valid_team(&teams[0]));
    let mut rng = StdRng::seed_from_u64(3);
    assert_eq!(fix_invalid_teams(&mut teams, &mut rng, 10, false), 1);
}

#[test]
fn repair_finds_a_trade() {
    // Tier 4 leftover with tier 2: a trade with a tier-4 team fixes both.
    let mut teams = vec![
        team_of(&[2, 2, 2, 2, 4]),
        vec![p("x0", 1, 2), p("x1", 2, 4), p("x2", 3, 4), p("x3", 4, 4), p("x4", 5, 4)],
    ];
    let mut rng = StdRng::seed_from_u64(5);
    assert_eq!(fix_invalid_teams(&mut teams, &mut rng, 10, false), 0);
    assert!(is_valid_team(&teams[0]));
    assert!(is_valid_team(&teams[1]));
    assert_eq!(teams[0][4].name, "x0");
    assert_eq!(teams[1][0].name, "m4");
}

#[test]
fn repair_twice_changes_nothing() {
    let mut teams = vec![team_of(&[2, 2, 2, 2, 4]), team_of(&[2, 4, 4, 4, 4])];
    let mut rng = StdRng::seed_from_u64(9);
    fix_invalid_teams(&mut teams, &mut rng, 10, false);
    let snapshot: Vec<Vec<String>> =
        teams.iter().map(|t| t.iter().map(|x| x.name.clone()).collect()).collect();
    assert_eq!(fix_invalid_teams(&mut teams, &mut rng, 10, false), 0);
    let again: Vec<Vec<String>> =
        teams.iter().map(|t| t.iter().map(|x| x.name.clone()).collect()).collect();
    assert_eq!(snapshot, again);
}

#[test]
fn bad_tier_is_rejected() {
    let players = vec![p("a", 1, 2), p("b", 1, 5), p("c", 1, 0)];
    assert_eq!(sort_players_into_teams(players).unwrap_err(), PartitionError::InvalidAvailability(1));
}

#[test]
fn tier_one_remainder_is_rejected() {
    let players: Vec<Player> = (0..6).map(|i| p(&format!("a{}", i), i, 1)).collect();
    assert_eq!(sort_players_into_teams(players).unwrap_err(), PartitionError::Tier1Remainder);
}

#[test]
fn empty_roster_gives_no_teams() {
    assert_eq!(sort_players_into_teams(Vec::new()).unwrap().len(), 0);
}

#[test]
fn leftovers_form_last_team() {
    let mut players: Vec<Player> = (0..5).map(|i| p(&format!("a{}", i), 100 + i, 1)).collect();
    players.push(p("b", 10, 2));
    players.push(p("c", 20, 4));
    players.push(p("d", 30, 3));
    let teams = sort_players_into_teams(players).unwrap();
    assert_eq!(teams.len(), 2);
    assert!(teams[0].iter().all(|x| x.availability == 1));
    let names: Vec<&str> = teams[1].iter().map(|x| x.name.as_str()).collect();
    assert_eq!(names, vec!["b", "d", "c"]);
}

#[test]
fn balancing_lowers_spread() {
    let mut teams = vec![
        vec![p("a", 100, 2), p("b", 100, 2), p("c", 100, 2), p("d", 100, 2), p("e", 100, 2)],
        vec![p("f", 0, 2), p("g", 0, 2), p("h", 0, 2), p("i", 0, 2), p("j", 0, 2)],
    ];
    let before = measure_imbalance(&teams);
    assert_eq!(before, 500);
    rebalance_teams(&mut teams);
    let after = measure_imbalance(&teams);
    assert!(after < before);
    assert_eq!(after, 100);
    assert!(teams.iter().all(|t| is_valid_team(t)));
    assert_eq!(sorted_names(&teams).len(), 10);
}

#[test]
fn balancing_keeps_invalid_swaps_out() {
    let mut teams = vec![team_of(&[2, 2, 2, 2, 2]), team_of(&[4, 4, 4, 4, 4])];
    let before: Vec<Vec<String>> =
        teams.iter().map(|t| t.iter().map(|x| x.name.clone()).collect()).collect();
    rebalance_teams(&mut teams);
    let after: Vec<Vec<String>> =
        teams.iter().map(|t| t.iter().map(|x| x.name.clone()).collect()).collect();
    assert_eq!(before, after);
}

#[test]
fn rounds_stay_under_ceiling() {
    let mut teams = vec![
        vec![p("a", 100, 2), p("b", 90, 2), p("c", 80, 2), p("d", 70, 2), p("e", 60, 2)],
        vec![p("f", 5, 2), p("g", 4, 2), p("h", 3, 2), p("i", 2, 2), p("j", 1, 2)],
    ];
    let mut rng = StdRng::seed_from_u64(11);
    let rounds = balance_until_stable(&mut teams, &mut rng, 3, false);
    assert!(rounds >= 1 && rounds <= 3);
    assert_eq!(balance_until_stable(&mut teams, &mut rng, 0, true), 0);
}

#[test]
fn shuffles_keep_players() {
    let mut rng = StdRng::seed_from_u64(42);
    let mut teams = vec![team_of(&[2, 2, 2, 2, 2]), team_of(&[3, 3, 3, 3, 3]), team_of(&[4, 4])];
    let before = sorted_names(&teams);
    shuffle(&mut teams, &mut rng);
    assert_eq!(sorted_names(&teams), before);
    let mut sizes: Vec<usize> = teams.iter().map(|t| t.len()).collect();
    sizes.sort();
    assert_eq!(sizes, vec![2, 5, 5]);
    let mut players: Vec<Player> = (0..20).map(|i| p(&format!("q{:02}", i), i, 2)).collect();
    shuffle_players(&mut players, &mut rng);
    let mut names: Vec<String> = players.iter().map(|x| x.name.clone()).collect();
    assert_ne!(names, (0..20).map(|i| format!("q{:02}", i)).collect::<Vec<String>>());
    names.sort();
    assert_eq!(names, (0..20).map(|i| format!("q{:02}", i)).collect::<Vec<String>>());
}

#[test]
fn whole_run_keeps_everyone() {
    let mut players = Vec::new();
    for i in 0..5 {
        players.push(p(&format!("one{}", i), 50 + i, 1));
    }
    for i in 0..7 {
        players.push(p(&format!("two{}", i), 10 * i, 2));
    }
    for i in 0..6 {
        players.push(p(&format!("three{}", i), 7 * i, 3));
    }
    for i in 0..4 {
        players.push(p(&format!("four{}", i), 3 * i, 4));
    }
    let mut expected: Vec<String> = players.iter().map(|x| x.name.clone()).collect();
    expected.sort();
    let mut rng = StdRng::seed_from_u64(2024);
    for randomness in [false, true] {
        let (teams, invalid) = arrange_teams(players.clone(), &mut rng, &options(randomness)).unwrap();
        assert_eq!(sorted_names(&teams), expected);
        assert_eq!(invalid, teams.iter().filter(|t| !is_valid_team(t)).count());
        for t in &teams {
            if t.iter().any(|x| x.availability == 1) {
                assert!(t.iter().all(|x| x.availability == 1));
            }
        }
    }
}

#[test]
fn whole_run_reports_errors() {
    let mut rng = StdRng::seed_from_u64(1);
    let players = vec![p("a", 1, 1)];
    assert_eq!(arrange_teams(players, &mut rng, &options(true)).unwrap_err(), PartitionError::Tier1Remainder);
    let players = vec![p("a", 1, 2), p("b", 1, 9)];
    assert!(matches!(
        arrange_teams(players, &mut rng, &options(false)),
        Err(PartitionError::InvalidAvailability(1))
    ));
}

fn names(teams: &[Vec<Player>]) -> Vec<Vec<String>> {
    teams.iter().map(|t| t.iter().map(|x| x.name.clone()).collect()).collect()
}

#[test]
fn merge_draws_names_greedily() {
    let players = vec![
        p("a", 100, 2), p("b", 90, 2), p("c", 80, 2), p("d", 70, 2), p("e", 60, 2),
        p("f", 95, 3), p("g", 85, 3), p("h", 75, 3), p("i", 65, 3), p("j", 55, 3),
    ];
    let teams = sort_players_into_teams(players).unwrap();
    assert_eq!(names(&teams), vec![vec!["a", "f", "b", "g", "c"], vec!["h", "d", "i", "e", "j"]]);
}

#[test]
fn leftover_team_is_ordered_by_tier_then_rating() {
    let players = vec![p("a", 40, 2), p("b", 30, 2), p("c", 20, 2), p("d", 10, 2), p("e", 50, 4)];
    let teams = sort_players_into_teams(players).unwrap();
    assert_eq!(names(&teams), vec![vec!["a", "b", "c", "d", "e"]]);
    assert!(!is_valid_team(&teams[0]));
}

#[test]
fn lone_team_is_left_alone() {
    let mut teams = vec![vec![p("a", 40, 2), p("b", 30, 2), p("c", 20, 2), p("d", 10, 2), p("e", 50, 4)]];
    let before = names(&teams);
    let mut rng = StdRng::seed_from_u64(8);
    assert_eq!(fix_invalid_teams(&mut teams, &mut rng, 10, false), 1);
    assert_eq!(names(&teams), before);
    let mut tier1 = vec![vec![p("b", 50, 1), p("d", 40, 1), p("c", 30, 1), p("e", 20, 1), p("a", 10, 1)]];
    let before = names(&tier1);
    rebalance_teams(&mut tier1);
    assert_eq!(names(&tier1), before);
}

#[test]
fn repair_takes_first_fitting_trade() {
    let mut teams = vec![
        vec![p("a", 40, 2), p("b", 30, 2), p("c", 20, 2), p("d", 10, 2), p("e", 50, 4)],
        vec![p("q1", 35, 3), p("q2", 35, 3), p("q3", 35, 3), p("q4", 35, 3), p("q5", 35, 3)],
    ];
    let mut rng = StdRng::seed_from_u64(4);
    assert_eq!(fix_invalid_teams(&mut teams, &mut rng, 10, false), 0);
    assert_eq!(names(&teams), vec![vec!["a", "b", "c", "d", "q1"], vec!["e", "q2", "q3", "q4", "q5"]]);
}

#[test]
fn no_passes_changes_nothing() {
    let mut teams = vec![team_of(&[2, 2, 2, 2, 4]), team_of(&[4, 4, 4, 4, 2])];
    let before = names(&teams);
    let mut rng = StdRng::seed_from_u64(6);
    assert_eq!(fix_invalid_teams(&mut teams, &mut rng, 0, true), 2);
    assert_eq!(names(&teams), before);
}

#[test]
fn bad_tier_position_refers_to_given_roster() {
    let mut rng = StdRng::seed_from_u64(12);
    let mut players: Vec<Player> = (0..30).map(|i| p(&format!("r{}", i), i, 2)).collect();
    players[17].availability = 7;
    let err = arrange_teams(players, &mut rng, &options(true)).unwrap_err();
    assert_eq!(err, PartitionError::InvalidAvailability(17));
}
