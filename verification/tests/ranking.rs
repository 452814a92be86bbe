use hockey_stats::model::Player;
use hockey_stats::model::Position;
use hockey_stats::model::PositionTable;
use hockey_stats::normalize::normalize_metrics;
use hockey_stats::rank::find_player;
use hockey_stats::rank::player_scores;
use hockey_stats::rank::position_leaderboard;
use hockey_stats::rank::top_players;
use hockey_stats::rank::total_score;
use hockey_stats::roster::process_lines;
use hockey_stats::score::calculate_score;

fn center_player(name: &str, metrics: Vec<i64>) -> Player {
    Player {
        name: name.to_string(),
        positions: vec![Position::Center],
        metrics: PositionTable { center: Some(metrics), wing: None, defense: None },
    }
}

#[test]
fn test_leaderboard_sorted_descending() {
    let players = vec![
        center_player("Low", vec![100, 100, 100, 100, 100]),
        center_player("High", vec![900, 900, 900, 900, 900]),
        center_player("Mid", vec![500, 500, 500, 500, 500]),
    ];
    let board = position_leaderboard(&players, Position::Center);
    assert_eq!(board.len(), 3);
    assert_eq!(board[0].0, "High");
    assert_eq!(board[1].0, "Mid");
    assert_eq!(board[2].0, "Low");
    assert!(board[0].1 >= board[1].1 && board[1].1 >= board[2].1);
}

#[test]
fn test_leaderboard_ties_broken_by_name() {
    let metrics = vec![500i64, 500, 500, 500, 500];
    let players = vec![
        center_player("Zoe", metrics.clone()),
        center_player("Abe", metrics.clone()),
        center_player("Mia", metrics.clone()),
    ];
    let board = position_leaderboard(&players, Position::Center);
    let names: Vec<&str> = board.iter().map(|p| p.0.as_str()).collect();
    assert_eq!(names, vec!["Abe", "Mia", "Zoe"]);
}

#[test]
fn test_top_players_truncates() {
    let mut players = Vec::new();
    for k in 0..15i64 {
        players.push(center_player(&format!("P{:02}", k), vec![k * 50; 5]));
    }
    let top = top_players(&players, Position::Center, 10);
    assert_eq!(top.len(), 10);
    assert_eq!(top[0].0, "P14");
    let all = top_players(&players, Position::Center, 100);
    assert_eq!(all.len(), 15);
}

#[test]
fn test_leaderboard_skips_other_positions() {
    let players = vec![center_player("Only Center", vec![500; 5])];
    assert_eq!(position_leaderboard(&players, Position::Wing).len(), 0);
}

#[test]
fn test_query_case_insensitive() {
    // Querying "player one" matches a stored "Player One".
    let players = vec![center_player("Player One", vec![500; 5])];
    assert!(find_player(&players, "player one").is_some());
    assert!(find_player(&players, "PLAYER ONE").is_some());
    assert!(find_player(&players, "Player One").is_some());
    assert!(find_player(&players, "player two").is_none());
}

#[test]
fn test_query_scores_and_total() {
    let pl = Player {
        name: "Two Way".to_string(),
        positions: vec![Position::Center, Position::Defense],
        metrics: PositionTable {
            center: Some(vec![500; 5]),
            wing: None,
            defense: Some(vec![900; 5]),
        },
    };
    let scores = player_scores(&pl);
    assert_eq!(scores.len(), 2);
    assert_eq!(scores[0].0, Position::Center);
    assert_eq!(scores[1].0, Position::Defense);
    assert_eq!(scores[0].1, calculate_score(&Position::Center, &vec![500; 5]));
    let total = total_score(&scores);
    assert_eq!(total, scores[0].1 + scores[1].1);
}

#[test]
fn test_dual_wing_scores_twice() {
    // A dual "L/R" row lists Wing twice; its ten-value vector scores zero,
    // and it scores once per listed position.
    let pl = Player {
        name: "Dual".to_string(),
        positions: vec![Position::Wing, Position::Wing],
        metrics: PositionTable { center: None, wing: Some(vec![500; 10]), defense: None },
    };
    let scores = player_scores(&pl);
    assert_eq!(scores.len(), 2);
    assert_eq!(scores[0].1, 0);
    assert_eq!(scores[1].1, 0);
    assert_eq!(total_score(&scores), 0);
}

#[test]
fn test_process_lines_skip_header() {
    // The first line is the header; the short rows after it are rejected.
    let input = r#"1,"Player One","C",,,,33.0,7.0,10.0,,,,,,,,,,,,,,,27.0,,,,30.0,18.0,
                   2,"Player Two","L",,,,22.0,5.0,12.0,,,,,,,,,,,,,,,21.0,,,,25.0,15.0,
                   3,"Player Three","D",,,,20.0,10.0,5.0,,,,,,,,,,,,,,,18.0,,,,28.0,12.0,"#;
    let lines: Vec<String> = input.lines().map(|l| l.to_string()).collect();
    let roster = process_lines(&lines);
    assert_eq!(roster.players.len(), 0);
    assert_eq!(roster.processed, 0);
    assert_eq!(roster.skipped, 2);
}

#[test]
fn test_process_lines_last_row_wins() {
    let mut fields = vec![String::new(); 40];
    fields[1] = "Same Name".to_string();
    fields[2] = "C".to_string();
    fields[9] = "7.0".to_string();
    let first = fields.join(",");
    fields[2] = "D".to_string();
    let second = fields.join(",");
    let lines = vec!["header".to_string(), first, second];
    let roster = process_lines(&lines);
    assert_eq!(roster.processed, 2);
    assert_eq!(roster.skipped, 0);
    assert_eq!(roster.players.len(), 1);
    assert_eq!(roster.players[0].positions, vec![Position::Defense]);
    assert!(roster.players[0].metrics.get(Position::Center).is_none());
}

#[test]
fn test_end_to_end_single_center_row() {
    // A header plus one Center row: one processed, none skipped, and the
    // Center leaderboard holds exactly that player.
    let mut fields = vec![String::new(); 40];
    fields[1] = "\"Ada Center\"".to_string();
    fields[2] = "\"C\"".to_string();
    fields[33] = "33.0".to_string();
    fields[9] = "7.0".to_string();
    fields[27] = "10.0".to_string();
    fields[7] = "4.0".to_string();
    fields[10] = "55.5".to_string();
    let row = fields.join(",");
    let lines = vec!["header line".to_string(), row];

    let mut roster = process_lines(&lines);
    assert_eq!(roster.processed, 1);
    assert_eq!(roster.skipped, 0);

    normalize_metrics(&mut roster.players);
    // Alone in the population, every positive metric normalizes to one
    // whole unit.
    assert_eq!(
        roster.players[0].metrics.get(Position::Center).unwrap(),
        &vec![1000i64; 5]
    );

    let board = top_players(&roster.players, Position::Center, 10);
    assert_eq!(board.len(), 1);
    assert_eq!(board[0].0, "Ada Center");
    assert_eq!(board[0].1, calculate_score(&Position::Center, &vec![1000i64; 5]));
    assert!(board[0].1 > 5000 && board[0].1 <= 10000);
    assert!(top_players(&roster.players, Position::Wing, 10).is_empty());
}
