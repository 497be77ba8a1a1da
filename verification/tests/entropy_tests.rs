use std::collections::HashMap;

use mastermind::checks::score;
use mastermind::entropy::best_guess;
use mastermind::entropy::log2_scaled;
use mastermind::entropy::max_entropy;
use mastermind::entropy::set_entropy;
use mastermind::space::combinations_sets;

#[test]
fn log2_scaled_exact_on_powers_of_two() {
    // log2s(n) = floor(8 * log2 n): exact multiples of 8 at powers of two.
    assert_eq!(log2_scaled(1), 0);
    assert_eq!(log2_scaled(2), 8);
    assert_eq!(log2_scaled(4), 16);
    assert_eq!(log2_scaled(1024), 80);
    assert_eq!(log2_scaled(3), 12); // floor(8 * 1.585) = 12
}

#[test]
fn entropy_weight_within_bounds() {
    let all = combinations_sets(4, 6).unwrap();
    let n = all.len() as u64;
    let guess: Vec<u32> = vec![1, 1, 2, 2];
    let w = set_entropy(&guess, &all, 4, 6);
    assert!(w <= n * log2_scaled(n));
}

#[test]
fn entropy_weight_tracks_float_entropy() {
    let all = combinations_sets(4, 6).unwrap();
    let n = all.len() as f64;
    let guess: Vec<u32> = vec![1, 1, 2, 2];
    let w = set_entropy(&guess, &all, 4, 6);

    let mut parts: HashMap<(usize, usize), u64> = HashMap::new();
    for c in &all {
        let h = score(&guess, c, 6);
        *parts.entry((h.exact, h.exist)).or_insert(0) += 1;
    }
    let mut entropy: f64 = 0.0;
    for k in parts.values() {
        let p = *k as f64 / n;
        entropy -= p * p.log2();
    }
    let scaled = w as f64 / (8.0 * n);
    assert!((scaled - entropy).abs() < 0.13);
}

#[test]
fn entropy_zero_for_single_candidate() {
    let lone: Vec<Vec<u32>> = vec![vec![1, 2, 3, 4]];
    let guess: Vec<u32> = vec![2, 2, 1, 1];
    assert_eq!(set_entropy(&guess, &lone, 4, 6), 0);
}

#[test]
fn max_entropy_reports_all_ties_in_order() {
    let entropies: Vec<(Vec<u32>, u64)> = vec![
        (vec![1, 1], 5),
        (vec![1, 2], 7),
        (vec![2, 1], 7),
        (vec![2, 2], 3),
    ];
    let (winners, best) = max_entropy(&entropies);
    assert_eq!(best, 7);
    assert_eq!(winners, vec![vec![1, 2], vec![2, 1]]);
}

#[test]
fn best_guess_attains_the_maximum() {
    let all = combinations_sets(2, 3).unwrap();
    let (winners, best) = best_guess(&all, &all, 2, 3);
    assert!(winners.len() >= 1);
    let mut seen_best: u64 = 0;
    for g in &all {
        let w = set_entropy(g, &all, 2, 3);
        assert!(w <= best);
        if w > seen_best {
            seen_best = w;
        }
    }
    assert_eq!(seen_best, best);
    for g in &winners {
        assert_eq!(set_entropy(g, &all, 2, 3), best);
        assert!(all.contains(g));
    }
}

#[test]
fn best_guess_symmetric_pool_has_ties() {
    // Over the full space the symbols are interchangeable, so several
    // guesses tie for the top weight.
    let all = combinations_sets(2, 3).unwrap();
    let (winners, _) = best_guess(&all, &all, 2, 3);
    assert!(winners.len() >= 2);
}
