use guessing_game::stats::{create_game_result, GameStats};
use guessing_game::storage::{parse_stats, render_stats, LoadOutcome};

fn sample_store() -> GameStats {
    let mut s = GameStats::new();
    s.add_game_result(create_game_result(3, 2, true, 3));
    s.add_game_result(create_game_result(5, 0, false, 7));
    s.add_game_result(create_game_result(2, 4, true, 10));
    s
}

fn assert_stores_equal(a: &GameStats, b: &GameStats) {
    assert_eq!(a.total_games, b.total_games);
    assert_eq!(a.games_won, b.games_won);
    assert_eq!(a.games_lost, b.games_lost);
    assert_eq!(a.total_attempts, b.total_attempts);
    assert_eq!(a.best_score, b.best_score);
    assert_eq!(a.game_history.len(), b.game_history.len());
    for (x, y) in a.game_history.iter().zip(b.game_history.iter()) {
        assert_eq!(x.attempts, y.attempts);
        assert_eq!(x.lives_remaining, y.lives_remaining);
        assert_eq!(x.won, y.won);
        assert_eq!(x.difficulty, y.difficulty);
        assert_eq!(x.timestamp, y.timestamp);
    }
}

#[test]
fn round_trip_of_empty_store() {
    let x = GameStats::new();
    let text = render_stats(&x);
    match parse_stats(&text) {
        LoadOutcome::Parsed(y) => assert_stores_equal(&x, &y),
        LoadOutcome::Malformed => panic!("canonical rendering must parse"),
    }
}

#[test]
fn round_trip_of_full_store() {
    let x = sample_store();
    let text = render_stats(&x);
    match parse_stats(&text) {
        LoadOutcome::Parsed(y) => assert_stores_equal(&x, &y),
        LoadOutcome::Malformed => panic!("canonical rendering must parse"),
    }
}

#[test]
fn round_trip_with_absent_best_score() {
    let mut x = GameStats::new();
    x.add_game_result(create_game_result(6, 0, false, 5));
    assert!(x.best_score.is_none());
    let text = render_stats(&x);
    match parse_stats(&text) {
        LoadOutcome::Parsed(y) => {
            assert!(y.best_score.is_none());
            assert_stores_equal(&x, &y);
        },
        LoadOutcome::Malformed => panic!("canonical rendering must parse"),
    }
}

#[test]
fn invalid_text_is_malformed_and_fallback_is_zero() {
    for bad in ["", "not a stats file", "{}", "{\"total_games\": 1}", "[1, 2, 3]"] {
        assert!(matches!(parse_stats(bad), LoadOutcome::Malformed));
    }
    let fallback = GameStats::new();
    assert_stores_equal(&fallback, &GameStats::new());
    assert_eq!(fallback.total_games, 0);
}

#[test]
fn tampered_rendering_is_malformed() {
    let x = sample_store();
    let text = render_stats(&x);
    let inconsistent = text.replace("\"games_won\": 2", "\"games_won\": 3");
    assert!(matches!(parse_stats(&inconsistent), LoadOutcome::Malformed));
    let trailing = format!("{} ", text);
    assert!(matches!(parse_stats(&trailing), LoadOutcome::Malformed));
    let truncated = &text[..text.len() - 1];
    assert!(matches!(parse_stats(truncated), LoadOutcome::Malformed));
}

#[test]
fn rendering_is_readable_structured_text() {
    let x = sample_store();
    let text = render_stats(&x);
    let v: serde_json::Value = serde_json::from_str(&text).expect("rendering must be valid JSON");
    assert_eq!(v["total_games"], 3);
    assert_eq!(v["games_won"], 2);
    assert_eq!(v["games_lost"], 1);
    assert_eq!(v["total_attempts"], 10);
    assert_eq!(v["best_score"], 2);
    let hist = v["game_history"].as_array().expect("history must be an array");
    assert_eq!(hist.len(), 3);
    assert_eq!(hist[0]["attempts"], 3);
    assert_eq!(hist[0]["won"], true);
    assert_eq!(hist[0]["difficulty"], "Hard");
    assert_eq!(hist[1]["difficulty"], "Custom(7)");
    assert_eq!(hist[2]["lives_remaining"], 4);
}

#[test]
fn rendering_of_empty_store_is_stable() {
    let text = render_stats(&GameStats::new());
    assert_eq!(
        text,
        "{\n  \"total_games\": 0,\n  \"games_won\": 0,\n  \"games_lost\": 0,\n  \"total_attempts\": 0,\n  \"best_score\": null,\n  \"game_history\": []\n}"
    );
}
