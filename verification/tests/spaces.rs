use mastermind::GameError;
use mastermind::checks::Hint;
use mastermind::space::combinations_hints;
use mastermind::space::combinations_sets;

#[test]
fn sequences_lexicographic_order() {
    let cs = combinations_sets(2, 3).unwrap();
    let expected: Vec<Vec<u32>> = vec![
        vec![1, 1],
        vec![1, 2],
        vec![1, 3],
        vec![2, 1],
        vec![2, 2],
        vec![2, 3],
        vec![3, 1],
        vec![3, 2],
        vec![3, 3],
    ];
    assert_eq!(cs, expected);
}

#[test]
fn sequences_count_and_distinct() {
    let cs = combinations_sets(4, 6).unwrap();
    assert_eq!(cs.len(), 6usize.pow(4));
    assert_eq!(cs[0], vec![1, 1, 1, 1]);
    assert_eq!(cs[cs.len() - 1], vec![6, 6, 6, 6]);
    let small = combinations_sets(3, 3).unwrap();
    assert_eq!(small.len(), 27);
    for i in 0..small.len() {
        for j in (i + 1)..small.len() {
            assert_ne!(small[i], small[j]);
        }
    }
}

#[test]
fn sequences_degenerate_pool() {
    // With a single-symbol pool every position is forced: exactly one
    // sequence exists.
    let cs = combinations_sets(4, 1).unwrap();
    assert_eq!(cs, vec![vec![1, 1, 1, 1]]);
}

#[test]
fn sequences_config_errors() {
    assert_eq!(combinations_sets(0, 6), Err(GameError::Config));
    assert_eq!(combinations_sets(4, 0), Err(GameError::Config));
}

#[test]
fn hints_exclude_impossible_triple() {
    let hs = combinations_hints(4).unwrap();
    assert!(!hs.contains(&Hint { exact: 3, exist: 1, null: 0 }));
    // Every other triple summing to 4 appears exactly once.
    let mut expected: usize = 0;
    for e in 0..=4usize {
        for x in 0..=(4 - e) {
            let h = Hint { exact: e, exist: x, null: 4 - e - x };
            if e == 3 && x == 1 {
                continue;
            }
            expected += 1;
            assert_eq!(hs.iter().filter(|v| **v == h).count(), 1);
        }
    }
    assert_eq!(hs.len(), expected);
    assert_eq!(hs.len(), 14);
}

#[test]
fn hints_exclude_impossible_length_one() {
    let hs = combinations_hints(1).unwrap();
    assert!(hs.contains(&Hint { exact: 1, exist: 0, null: 0 }));
    assert!(hs.contains(&Hint { exact: 0, exist: 0, null: 1 }));
    assert!(!hs.contains(&Hint { exact: 0, exist: 1, null: 0 }));
    assert_eq!(hs.len(), 2);
}

#[test]
fn hints_config_error() {
    assert_eq!(combinations_hints(0), Err(GameError::Config));
}
