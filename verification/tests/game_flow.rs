use mastermind::GameError;
use mastermind::autoplay::Outcome;
use mastermind::autoplay::game_robot;
use mastermind::autoplay::generate_random_set;
use mastermind::checks::score;

#[test]
fn random_set_has_length_and_range() {
    let mut seen_below_max = false;
    for _ in 0..20 {
        let s = generate_random_set(4, 8);
        assert_eq!(s.len(), 4);
        for v in &s {
            assert!(1 <= *v && *v <= 8);
            if *v < 8 {
                seen_below_max = true;
            }
        }
    }
    // 80 uniform draws from 1..=8 that all come out 8 would mean the
    // generator is not drawing from the range at all.
    assert!(seen_below_max);
    let s = generate_random_set(7, 1);
    assert_eq!(s, vec![1, 1, 1, 1, 1, 1, 1]);
}

#[test]
fn autoplay_terminates_within_budget() {
    // Default configuration, any random hidden sequence: the loop always
    // ends in Solved or Exhausted within exactly max_tries scored guesses.
    let hidden = generate_random_set(4, 8);
    let g = game_robot(&hidden, 4, 8, 8).unwrap();
    assert!(g.turns <= 8);
    assert_eq!(g.history.len(), g.turns as usize);
    assert!(g.outcome == Outcome::Solved || g.outcome == Outcome::Exhausted);
    for (guess, hint) in &g.history {
        assert_eq!(score(guess, &hidden, 8), *hint);
    }
    if g.outcome == Outcome::Solved {
        let last = &g.history[g.history.len() - 1];
        assert_eq!(last.0, hidden);
        assert_eq!(last.1.exact, 4);
    }
}

#[test]
fn autoplay_solves_known_hidden() {
    let hidden: Vec<u32> = vec![1, 2, 3, 4];
    let g = game_robot(&hidden, 4, 6, 8).unwrap();
    assert_eq!(g.outcome, Outcome::Solved);
    assert!(g.turns >= 1 && g.turns <= 8);
    let last = &g.history[g.history.len() - 1];
    assert_eq!(last.0, hidden);
}

#[test]
fn autoplay_degenerate_pool_solves_first_turn() {
    let hidden: Vec<u32> = vec![1, 1, 1, 1];
    let g = game_robot(&hidden, 4, 1, 8).unwrap();
    assert_eq!(g.outcome, Outcome::Solved);
    assert_eq!(g.turns, 1);
    assert_eq!(g.history[0].0, hidden);
}

#[test]
fn autoplay_config_errors() {
    let empty: Vec<u32> = Vec::new();
    assert!(matches!(game_robot(&empty, 0, 8, 8), Err(GameError::Config)));
    assert!(matches!(game_robot(&empty, 4, 0, 8), Err(GameError::Config)));
}

#[test]
fn autoplay_exhausts_with_zero_tries() {
    let hidden: Vec<u32> = vec![2, 1];
    let g = game_robot(&hidden, 2, 3, 0).unwrap();
    assert_eq!(g.outcome, Outcome::Exhausted);
    assert_eq!(g.turns, 0);
    assert_eq!(g.history.len(), 0);
}
