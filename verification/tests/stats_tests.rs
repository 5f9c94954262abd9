use guessing_game::stats::{create_game_result, GameResult, GameStats};

fn result(attempts: u32, lives_remaining: u32, won: bool, lives: u32) -> GameResult {
    create_game_result(attempts, lives_remaining, won, lives)
}

#[test]
fn zero_store_has_zero_metrics() {
    let s = GameStats::new();
    assert_eq!(s.total_games, 0);
    assert_eq!(s.games_won, 0);
    assert_eq!(s.games_lost, 0);
    assert_eq!(s.total_attempts, 0);
    assert!(s.best_score.is_none());
    assert!(s.game_history.is_empty());
    assert_eq!(s.win_rate(), 0);
    assert_eq!(s.average_attempts(), 0);
}

#[test]
fn best_score_keeps_first_minimum() {
    let mut s = GameStats::new();
    for attempts in [7u32, 3, 9, 3] {
        s.add_game_result(result(attempts, 1, true, 5));
    }
    assert_eq!(s.best_score, Some(3));
    assert_eq!(s.total_games, 4);
    assert_eq!(s.games_won, 4);
    assert_eq!(s.total_attempts, 22);
}

#[test]
fn totals_are_order_independent_but_history_is_ordered() {
    let a = result(3, 2, true, 5);
    let b = result(5, 0, false, 5);
    let c = result(8, 1, true, 10);

    let mut s1 = GameStats::new();
    s1.add_game_result(a.clone());
    s1.add_game_result(b.clone());
    s1.add_game_result(c.clone());

    let mut s2 = GameStats::new();
    s2.add_game_result(c.clone());
    s2.add_game_result(a.clone());
    s2.add_game_result(b.clone());

    assert_eq!(s1.total_games, s2.total_games);
    assert_eq!(s1.total_attempts, s2.total_attempts);
    assert_eq!(s1.games_won, s2.games_won);
    assert_eq!(s1.games_lost, s2.games_lost);

    assert_eq!(s1.game_history[0].attempts, 3);
    assert_eq!(s1.game_history[1].attempts, 5);
    assert_eq!(s1.game_history[2].attempts, 8);
    assert_eq!(s2.game_history[0].attempts, 8);
    assert_eq!(s2.game_history[1].attempts, 3);
    assert_eq!(s2.game_history[2].attempts, 5);
}

#[test]
fn one_win_one_loss_updates_every_counter() {
    let mut s = GameStats::new();
    s.add_game_result(result(4, 2, true, 3));
    s.add_game_result(result(6, 0, false, 3));
    assert_eq!(s.total_games, 2);
    assert_eq!(s.games_won, 1);
    assert_eq!(s.games_lost, 1);
    assert_eq!(s.total_attempts, 10);
    assert_eq!(s.best_score, Some(4));
    assert_eq!(s.game_history.len(), 2);
    assert!(s.game_history[0].won);
    assert!(!s.game_history[1].won);
}

#[test]
fn loss_never_sets_best_score() {
    let mut s = GameStats::new();
    s.add_game_result(result(2, 0, false, 5));
    s.add_game_result(result(1, 0, false, 5));
    assert!(s.best_score.is_none());
    assert_eq!(s.games_lost, 2);
}

#[test]
fn win_rate_is_truncated_percentage() {
    let mut s = GameStats::new();
    s.add_game_result(result(3, 1, true, 5));
    s.add_game_result(result(5, 0, false, 5));
    s.add_game_result(result(4, 0, false, 5));
    assert_eq!(s.win_rate(), 33);
    assert_eq!(s.average_attempts(), 4);

    let mut t = GameStats::new();
    t.add_game_result(result(2, 1, true, 5));
    t.add_game_result(result(7, 0, false, 5));
    assert_eq!(t.win_rate(), 50);
    assert_eq!(t.average_attempts(), 4);
}

#[test]
fn recorded_result_copies_session_facts() {
    let r = result(4, 1, true, 3);
    assert_eq!(r.attempts, 4);
    assert_eq!(r.lives_remaining, 1);
    assert!(r.won);
    assert_eq!(r.difficulty, "Hard");
    assert!(!r.timestamp.contains('"'));
    assert!(!r.timestamp.contains('\\'));
}

#[test]
fn timestamp_has_the_fixed_clock_shape() {
    let r = result(1, 1, true, 5);
    let bytes = r.timestamp.as_bytes();
    assert_eq!(bytes.len(), 19);
    for (i, b) in bytes.iter().enumerate() {
        match i {
            4 | 7 => assert_eq!(*b, b'-'),
            10 => assert_eq!(*b, b' '),
            13 | 16 => assert_eq!(*b, b':'),
            _ => assert!(b.is_ascii_digit()),
        }
    }
}

#[test]
fn recorded_result_names_custom_budgets() {
    let r = result(9, 0, false, 17);
    assert_eq!(r.difficulty, "Custom(17)");
}
