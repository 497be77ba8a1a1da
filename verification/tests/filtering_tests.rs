use mastermind::checks::Hint;
use mastermind::checks::score;
use mastermind::filtering::combinations_sets_matching;
use mastermind::space::combinations_sets;

#[test]
fn filter_keeps_consistent_candidates_only() {
    let all = combinations_sets(4, 6).unwrap();
    let history: Vec<(Vec<u32>, Hint)> = vec![
        (vec![1, 2, 3, 4], Hint { exact: 4, exist: 0, null: 0 }),
    ];
    let filtered = combinations_sets_matching(&history, &all, 4, 6);
    assert_eq!(filtered, vec![vec![1, 2, 3, 4]]);
}

#[test]
fn filter_idempotent() {
    let all = combinations_sets(4, 6).unwrap();
    let hidden: Vec<u32> = vec![1, 2, 3, 4];
    let g1: Vec<u32> = vec![1, 1, 2, 2];
    let g2: Vec<u32> = vec![5, 6, 1, 2];
    let history: Vec<(Vec<u32>, Hint)> = vec![
        (g1.clone(), score(&g1, &hidden, 6)),
        (g2.clone(), score(&g2, &hidden, 6)),
    ];
    let once = combinations_sets_matching(&history, &all, 4, 6);
    let twice = combinations_sets_matching(&history, &once, 4, 6);
    assert_eq!(once, twice);
}

#[test]
fn filter_never_removes_hidden() {
    let all = combinations_sets(4, 6).unwrap();
    let hidden: Vec<u32> = vec![2, 2, 5, 1];
    let guesses: Vec<Vec<u32>> = vec![
        vec![1, 1, 2, 2],
        vec![3, 4, 5, 6],
        vec![2, 2, 2, 2],
        vec![6, 5, 4, 3],
    ];
    let mut history: Vec<(Vec<u32>, Hint)> = Vec::new();
    let mut candidates = all;
    for g in &guesses {
        history.push((g.clone(), score(g, &hidden, 6)));
        candidates = combinations_sets_matching(&history, &candidates, 4, 6);
        assert!(candidates.contains(&hidden));
    }
}

#[test]
fn filter_shrinks_monotonically() {
    let all = combinations_sets(4, 6).unwrap();
    let hidden: Vec<u32> = vec![4, 4, 1, 3];
    let g: Vec<u32> = vec![1, 2, 3, 4];
    let history: Vec<(Vec<u32>, Hint)> = vec![(g.clone(), score(&g, &hidden, 6))];
    let filtered = combinations_sets_matching(&history, &all, 4, 6);
    assert!(filtered.len() <= all.len());
    assert!(filtered.len() >= 1);
    // every survivor reproduces the recorded hint
    for c in &filtered {
        assert_eq!(score(&g, c, 6), history[0].1);
    }
}

#[test]
fn filter_empty_history_keeps_everything() {
    let all = combinations_sets(3, 4).unwrap();
    let history: Vec<(Vec<u32>, Hint)> = Vec::new();
    let filtered = combinations_sets_matching(&history, &all, 3, 4);
    assert_eq!(filtered, all);
}
