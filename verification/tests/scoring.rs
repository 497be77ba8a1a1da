use mastermind::checks::Hint;
use mastermind::checks::score;

#[test]
fn score_self_is_all_exact() {
    let a: Vec<u32> = vec![3, 1, 4, 1];
    let h = score(&a, &a, 6);
    assert_eq!(h, Hint { exact: 4, exist: 0, null: 0 });

    let b: Vec<u32> = vec![7];
    let h = score(&b, &b, 8);
    assert_eq!(h, Hint { exact: 1, exist: 0, null: 0 });
}

#[test]
fn score_components_sum_to_length() {
    let pairs: Vec<(Vec<u32>, Vec<u32>)> = vec![
        (vec![1, 1, 2, 2], vec![1, 2, 3, 4]),
        (vec![2, 2, 1, 1], vec![1, 1, 2, 2]),
        (vec![5, 5, 5, 5], vec![1, 2, 3, 4]),
        (vec![1, 2, 3, 4], vec![4, 3, 2, 1]),
        (vec![6, 6, 1, 1], vec![6, 1, 6, 2]),
    ];
    for (g, r) in &pairs {
        let h = score(g, r, 6);
        assert_eq!(h.exact + h.exist + h.null, 4);
    }
}

#[test]
fn score_example_partial_match() {
    // Position 0 matches the value 1 exactly; the value 2 exists elsewhere
    // misplaced; the second 1 and the second 2 are unmatched.
    let guess: Vec<u32> = vec![1, 1, 2, 2];
    let hidden: Vec<u32> = vec![1, 2, 3, 4];
    let h = score(&guess, &hidden, 6);
    assert_eq!(h, Hint { exact: 1, exist: 1, null: 2 });
}

#[test]
fn score_example_terminal() {
    let guess: Vec<u32> = vec![1, 2, 3, 4];
    let hidden: Vec<u32> = vec![1, 2, 3, 4];
    let h = score(&guess, &hidden, 6);
    assert_eq!(h, Hint { exact: 4, exist: 0, null: 0 });
}

#[test]
fn score_all_misplaced() {
    let guess: Vec<u32> = vec![2, 2, 1, 1];
    let hidden: Vec<u32> = vec![1, 1, 2, 2];
    let h = score(&guess, &hidden, 6);
    assert_eq!(h, Hint { exact: 0, exist: 4, null: 0 });
}

#[test]
fn score_multiset_counts_min() {
    // The guess repeats the value 6 three times but the reference holds it
    // only twice (one of them aligned): one exact, one exist.
    let guess: Vec<u32> = vec![6, 6, 6, 1];
    let hidden: Vec<u32> = vec![6, 2, 3, 6];
    let h = score(&guess, &hidden, 8);
    assert_eq!(h, Hint { exact: 1, exist: 1, null: 2 });
}
