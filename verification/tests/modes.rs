use obamify::cost::{assert_valid_permutation, total_cost, CostLookup};
use obamify::modes::{solve_balanced, solve_fast, solve_maximum};
use obamify::patchmatch;

fn identical_pixels(n: usize) -> (Vec<(u8, u8, u8)>, Vec<(u8, u8, u8)>, Vec<i64>) {
    let mut source = vec![(0u8, 0u8, 0u8); n];
    let mut target = vec![(0u8, 0u8, 0u8); n];
    for i in 0..n {
        source[i] = (i as u8, 0, 0);
        target[i] = (i as u8, 0, 0);
    }
    (source, target, vec![255; n])
}

#[test]
fn test_fast_mode_valid_permutation_16() {
    let n = 16;
    let (source, target, weights) = identical_pixels(n);
    let cost = CostLookup::new(source, target, weights, 4, 13);
    let assignments = solve_fast(&cost, 4);
    assert_eq!(assignments.len(), 16);
    assert_valid_permutation(&assignments, 16);
}

#[test]
fn test_balanced_mode_valid_permutation_16() {
    let n = 16;
    let (source, target, weights) = identical_pixels(n);
    let cost = CostLookup::new(source.clone(), target.clone(), weights.clone(), 4, 13);
    let assignments = solve_balanced(&cost, &source, &target, &weights, 4, 13);
    assert_eq!(assignments.len(), 16);
    assert_valid_permutation(&assignments, 16);
}

#[test]
fn test_maximum_mode_valid_permutation_16() {
    let n = 16;
    let (source, target, weights) = identical_pixels(n);
    let cost = CostLookup::new(source.clone(), target.clone(), weights.clone(), 4, 13);
    let assignments = solve_maximum(&cost, &source, &target, &weights, 4, 13);
    assert_eq!(assignments.len(), 16);
    assert_valid_permutation(&assignments, 16);
}

#[test]
fn test_fast_mode_cost_leq_identity_16() {
    let n = 16;
    let (source, target, weights) = identical_pixels(n);
    let cost = CostLookup::new(source, target, weights, 4, 13);
    let assignments = solve_fast(&cost, 4);
    let identity: Vec<usize> = (0..n).collect();
    let cost_solve = total_cost(&cost, &assignments);
    let cost_identity = total_cost(&cost, &identity);
    let slack = cost_identity.abs() + 1;
    assert!(
        cost_solve <= cost_identity + slack,
        "fast cost {cost_solve} should be reasonable vs identity {cost_identity}"
    );
}

#[test]
fn test_balanced_mode_cost_leq_identity_16() {
    let n = 16;
    let (source, target, weights) = identical_pixels(n);
    let cost = CostLookup::new(source.clone(), target.clone(), weights.clone(), 4, 13);
    let assignments = solve_balanced(&cost, &source, &target, &weights, 4, 13);
    let identity: Vec<usize> = (0..n).collect();
    let cost_solve = total_cost(&cost, &assignments);
    let cost_identity = total_cost(&cost, &identity);
    let slack = cost_identity.abs() / 4 + 1;
    assert!(
        cost_solve <= cost_identity + slack,
        "balanced cost {cost_solve} should be close to identity {cost_identity}"
    );
}

#[test]
fn test_maximum_leq_balanced_cost_16() {
    let n = 16;
    let (source, target, weights) = identical_pixels(n);
    let cost = CostLookup::new(source.clone(), target.clone(), weights.clone(), 4, 13);
    let balanced = solve_balanced(&cost, &source, &target, &weights, 4, 13);
    let maximum = solve_maximum(&cost, &source, &target, &weights, 4, 13);
    let cost_balanced = total_cost(&cost, &balanced);
    let cost_maximum = total_cost(&cost, &maximum);
    assert!(
        cost_maximum <= cost_balanced,
        "maximum cost {cost_maximum} should be <= balanced cost {cost_balanced}"
    );
}

#[test]
fn the_fast_mode_improves_on_its_start() {
    let n = 100;
    let source: Vec<(u8, u8, u8)> = (0..n).map(|i| ((i * 91) as u8, (i * 7) as u8, 0)).collect();
    let target: Vec<(u8, u8, u8)> = (0..n).map(|i| ((i * 13) as u8, 0, (i * 3) as u8)).collect();
    let cost = CostLookup::new(source, target, vec![200; n], 10, 3);
    let start = patchmatch::solve(&cost, 10);
    let fast = solve_fast(&cost, 10);
    assert_valid_permutation(&fast, n);
    assert!(total_cost(&cost, &fast) <= total_cost(&cost, &start));
}
