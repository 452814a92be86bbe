use hockey_stats::model::Player;
use hockey_stats::model::Position;
use hockey_stats::model::PositionTable;
use hockey_stats::normalize::normalize_metrics;
use hockey_stats::score::calculate_score;

fn wing_player(name: &str, metrics: Vec<i64>) -> Player {
    Player {
        name: name.to_string(),
        positions: vec![Position::Wing],
        metrics: PositionTable { center: None, wing: Some(metrics), defense: None },
    }
}

#[test]
fn test_normalize_metrics() {
    let mut players: Vec<Player> = Vec::new();
    players.push(wing_player("Player A", vec![10_000, 20_000, 30_000]));
    players.push(wing_player("Player B", vec![20_000, 10_000, 40_000]));

    normalize_metrics(&mut players);

    let a = players.iter().find(|p| p.name == "Player A").unwrap();
    let b = players.iter().find(|p| p.name == "Player B").unwrap();
    let wing_metrics_a = a.metrics.get(Position::Wing).unwrap();
    let wing_metrics_b = b.metrics.get(Position::Wing).unwrap();

    assert_eq!(wing_metrics_a, &vec![500i64, 1000, 750]);
    assert_eq!(wing_metrics_b, &vec![1000i64, 500, 1000]);
}

#[test]
fn test_normalize_zero_max_gives_zero() {
    // Where no positive maximum exists at an index, every value there
    // becomes zero, negative values included.
    let mut players: Vec<Player> = Vec::new();
    players.push(wing_player("Low", vec![0, -3000]));
    players.push(wing_player("Lower", vec![0, -6000]));
    normalize_metrics(&mut players);
    assert_eq!(players[0].metrics.get(Position::Wing).unwrap(), &vec![0i64, 0]);
    assert_eq!(players[1].metrics.get(Position::Wing).unwrap(), &vec![0i64, 0]);
}

#[test]
fn test_normalize_uneven_lengths() {
    // A dual-wing player has ten wing metrics beside another's five; the
    // maxima cover the longest vector.
    let mut players: Vec<Player> = Vec::new();
    players.push(wing_player("Five", vec![10_000, 10_000, 10_000, 10_000, 10_000]));
    players.push(
        wing_player(
            "Ten",
            vec![
                20_000, 5_000, 10_000, 10_000, 10_000, 1_000, 1_000, 1_000, 1_000, 1_000,
            ],
        ),
    );
    normalize_metrics(&mut players);
    assert_eq!(
        players[0].metrics.get(Position::Wing).unwrap(),
        &vec![500i64, 1000, 1000, 1000, 1000]
    );
    assert_eq!(
        players[1].metrics.get(Position::Wing).unwrap(),
        &vec![1000i64, 500, 1000, 1000, 1000, 1000, 1000, 1000, 1000, 1000]
    );
}

#[test]
fn test_calculate_score() {
    let metrics = vec![500i64, 1000, 750, 800, 900];
    let score = calculate_score(&Position::Wing, &metrics);
    assert!(score > 0 && score <= 10000);
}

#[test]
fn test_score_of_zeros_is_half() {
    // The logistic squash of a zero weighted sum is exactly 50.00.
    let zeros = vec![0i64; 5];
    assert_eq!(calculate_score(&Position::Center, &zeros), 5000);
    assert_eq!(calculate_score(&Position::Wing, &zeros), 5000);
    assert_eq!(calculate_score(&Position::Defense, &zeros), 5000);
}

#[test]
fn test_score_monotonic_in_each_metric() {
    let base = vec![500i64, 1000, 750, 800, 900];
    for p in [Position::Center, Position::Wing, Position::Defense] {
        let s0 = calculate_score(&p, &base);
        assert!(0 <= s0 && s0 <= 10000);
        for j in 0..5 {
            let mut raised = base.clone();
            raised[j] += 100;
            let s1 = calculate_score(&p, &raised);
            assert!(s0 <= s1);
            assert!(0 <= s1 && s1 <= 10000);
        }
    }
}

#[test]
fn test_score_length_mismatch_is_zero() {
    // A ten-value accumulated wing vector does not fit the five weights:
    // the scorer reports zero for it.
    let ten = vec![1000i64; 10];
    assert_eq!(calculate_score(&Position::Wing, &ten), 0);
    let four = vec![1000i64; 4];
    assert_eq!(calculate_score(&Position::Wing, &four), 0);
}

#[test]
fn test_score_saturates_high() {
    let maxed = vec![1_000_000_000_000_000i64; 5];
    let s = calculate_score(&Position::Center, &maxed);
    assert!(s > 9900 && s <= 10000);
    let negated = vec![-1_000_000_000_000_000i64; 5];
    let low = calculate_score(&Position::Center, &negated);
    assert!(low < 100);
}
