use guessing_game::audio::{play_game_over_sound, play_guess_sound, play_start_sound, play_win_sound};
use guessing_game::difficulty::{get_difficulty_name, resolve_difficulty, DifficultyChoice};
use guessing_game::session::{GuessingSession, Hint, Outcome, SessionState};

#[test]
fn attempts_count_each_evaluated_guess() {
    let mut s = GuessingSession::new(50, 10);
    assert_eq!(s.attempts, 0);
    for (n, g) in [1u32, 2, 3, 4, 5].iter().enumerate() {
        let o = s.evaluate_guess(*g);
        assert_eq!(o, Outcome::Continue(Hint::Higher));
        assert_eq!(s.attempts, n as u32 + 1);
    }
}

#[test]
fn winning_guess_keeps_lives() {
    let mut s = GuessingSession::new(50, 3);
    s.evaluate_guess(10);
    assert_eq!(s.lives_remaining, 2);
    let o = s.evaluate_guess(50);
    assert_eq!(o, Outcome::Won);
    assert_eq!(s.state, SessionState::Won);
    assert_eq!(s.lives_remaining, 2);
    assert_eq!(s.attempts, 2);
}

#[test]
fn each_wrong_guess_costs_exactly_one_life() {
    let mut s = GuessingSession::new(42, 5);
    let mut expected: u32 = 5;
    for g in [1u32, 99, 2, 98] {
        s.evaluate_guess(g);
        expected -= 1;
        assert_eq!(s.lives_remaining, expected);
    }
}

#[test]
fn lost_exactly_when_lives_run_out_before_a_win() {
    let mut s = GuessingSession::new(50, 2);
    assert_eq!(s.evaluate_guess(1), Outcome::Continue(Hint::Higher));
    assert_eq!(s.evaluate_guess(2), Outcome::Lost);
    assert_eq!(s.state, SessionState::Lost);
    assert_eq!(s.lives_remaining, 0);

    let mut t = GuessingSession::new(50, 2);
    t.evaluate_guess(1);
    assert_eq!(t.evaluate_guess(50), Outcome::Won);
    assert_eq!(t.state, SessionState::Won);
}

#[test]
fn scenario_three_lives_winning_run() {
    let mut s = GuessingSession::new(50, 3);
    let o1 = s.evaluate_guess(10);
    let o2 = s.evaluate_guess(90);
    let o3 = s.evaluate_guess(50);
    assert_eq!(o1, Outcome::Continue(Hint::Higher));
    assert_eq!(o2, Outcome::Continue(Hint::Lower));
    assert_eq!(o3, Outcome::Won);
    assert_eq!(s.attempts, 3);
    assert_eq!(s.lives_remaining, 1);
}

#[test]
fn scenario_two_lives_losing_run() {
    let mut s = GuessingSession::new(50, 2);
    let o1 = s.evaluate_guess(10);
    let o2 = s.evaluate_guess(90);
    assert_eq!(o1, Outcome::Continue(Hint::Higher));
    assert_eq!(o2, Outcome::Lost);
    assert_eq!(s.attempts, 2);
    assert_eq!(s.lives_remaining, 0);
}

#[test]
fn winning_on_the_last_life_wins_immediately() {
    let mut s = GuessingSession::new(50, 1);
    let o = s.evaluate_guess(50);
    assert_eq!(o, Outcome::Won);
    assert_eq!(s.state, SessionState::Won);
    assert_eq!(s.lives_remaining, 1);
    assert_eq!(s.attempts, 1);
}

#[test]
fn drawn_secret_lies_in_range() {
    for _ in 0..50 {
        let s = GuessingSession::start(3);
        assert!(s.secret >= 1 && s.secret <= 100);
        assert_eq!(s.lives_remaining, 3);
        assert_eq!(s.attempts, 0);
        assert_eq!(s.state, SessionState::InProgress);
    }
}

#[test]
fn resolver_maps_presets_and_custom() {
    assert_eq!(resolve_difficulty(DifficultyChoice::Easy, 1), 10);
    assert_eq!(resolve_difficulty(DifficultyChoice::Medium, 1), 5);
    assert_eq!(resolve_difficulty(DifficultyChoice::Hard, 1), 3);
    assert_eq!(resolve_difficulty(DifficultyChoice::Custom, 42), 42);
    assert_eq!(resolve_difficulty(DifficultyChoice::Custom, 1), 1);
    assert_eq!(resolve_difficulty(DifficultyChoice::Custom, 99), 99);
}

#[test]
fn difficulty_names_match_budgets() {
    assert_eq!(get_difficulty_name(10), "Easy");
    assert_eq!(get_difficulty_name(5), "Medium");
    assert_eq!(get_difficulty_name(3), "Hard");
    assert_eq!(get_difficulty_name(7), "Custom(7)");
    assert_eq!(get_difficulty_name(42), "Custom(42)");
    assert_eq!(get_difficulty_name(99), "Custom(99)");
}

#[test]
fn sound_cues_name_their_clips() {
    assert_eq!(play_start_sound(), "assets/sounds/start.wav");
    assert_eq!(play_guess_sound(), "assets/sounds/guess.wav");
    assert_eq!(play_win_sound(), "assets/sounds/win.wav");
    assert_eq!(play_game_over_sound(), "assets/sounds/game_over.wav");
}
