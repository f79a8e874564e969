use obamify::cost::{assert_valid_permutation, brute_force_assignment, total_cost, CostLookup};
use obamify::jonker_volgenant::{solve, solve_with_checkpoint, Matcher};
use obamify::progress::{Beat, MessageLog, SolverControl};

fn identical_pixel_lookup(n: usize, proximity: i64) -> CostLookup {
    // source == target: with proximity > 0, the minimum-cost assignment is the
    // identity (zero displacement).
    let mut source = vec![(0u8, 0u8, 0u8); n];
    let mut target = vec![(0u8, 0u8, 0u8); n];
    for i in 0..n {
        source[i] = (i as u8, 0, 0);
        target[i] = (i as u8, 0, 0);
    }
    let sidelen = (n as f32).sqrt() as u32;
    CostLookup::new(source, target, vec![255; n], sidelen, proximity)
}

#[test]
fn test_jv_identity_is_optimal_for_identical_pixels() {
    let cost = identical_pixel_lookup(16, 13);
    let assignments = solve(&cost);
    assert_valid_permutation(&assignments, cost.n_dst());
    let identity: Vec<usize> = (0..cost.n_dst()).collect();
    let cost_solve = total_cost(&cost, &assignments);
    let cost_identity = total_cost(&cost, &identity);
    assert_eq!(
        cost_solve, cost_identity,
        "JV should find the identity optimum, got cost {cost_solve} vs identity {cost_identity}"
    );
}

#[test]
fn test_jv_returns_valid_permutation_4x4() {
    let cost = identical_pixel_lookup(4, 13);
    let assignments = solve(&cost);
    assert_eq!(assignments.len(), 4);
    assert_valid_permutation(&assignments, 4);
}

#[test]
fn test_jv_empty_input() {
    let cost = CostLookup::new(vec![], vec![], vec![], 0, 0);
    let assignments = solve(&cost);
    assert!(assignments.is_empty());
}

#[test]
fn test_jv_1x1() {
    let cost = CostLookup::new(vec![(1, 2, 3)], vec![(4, 5, 6)], vec![255], 1, 13);
    let assignments = solve(&cost);
    assert_eq!(assignments, vec![0]);
}

#[test]
fn test_jv_9x9_valid_permutation() {
    let n = 9;
    let mut source = vec![(0u8, 0u8, 0u8); n];
    let mut target = vec![(0u8, 0u8, 0u8); n];
    for i in 0..n {
        source[i] = ((i * 7) as u8, (i * 3) as u8, i as u8);
        target[i] = ((i * 5) as u8, i as u8, (i * 2) as u8);
    }
    let cost = CostLookup::new(source, target, vec![255; n], 3, 13);
    let assignments = solve(&cost);
    assert_valid_permutation(&assignments, n);
}

#[test]
fn test_jv_optimal_cost_leq_identity_cost() {
    let cost = identical_pixel_lookup(16, 13);
    let assignments = solve(&cost);
    let identity: Vec<usize> = (0..16).collect();
    let cost_solve = total_cost(&cost, &assignments);
    let cost_identity = total_cost(&cost, &identity);
    assert!(
        cost_solve <= cost_identity,
        "JV cost {cost_solve} should be <= identity cost {cost_identity}"
    );
}

#[test]
fn test_jv_4x4_known_permutation() {
    // If target[i] = source[perm[i]], the optimum (with proximity=0) is
    // assignments[i] = perm[i].
    let n = 4;
    let source = vec![(10, 20, 30), (40, 50, 60), (70, 80, 90), (100, 110, 120)];
    let perm = [2, 0, 3, 1];
    let target: Vec<(u8, u8, u8)> = perm.iter().map(|&p| source[p]).collect();
    let cost = CostLookup::new(source, target, vec![255; n], 2, 0);
    let assignments = solve(&cost);
    assert_valid_permutation(&assignments, n);
    assert_eq!(assignments, perm.to_vec());
    let identity: Vec<usize> = (0..n).collect();
    let cost_solve = total_cost(&cost, &assignments);
    let cost_identity = total_cost(&cost, &identity);
    assert!(
        cost_solve <= cost_identity,
        "JV cost {cost_solve} should be <= identity cost {cost_identity}"
    );
}

#[test]
fn test_jv_matches_bruteforce_oracle_on_permuted_colors() {
    let source = vec![(0, 0, 0), (40, 0, 0), (90, 0, 0), (150, 0, 0)];
    let target = vec![source[2], source[0], source[3], source[1]];
    let cost = CostLookup::new(source, target, vec![255; 4], 2, 0);
    let oracle = brute_force_assignment(&cost);
    let got = solve(&cost);
    assert_valid_permutation(&got, 4);
    assert_eq!(total_cost(&cost, &got), total_cost(&cost, &oracle));
}

#[test]
fn the_exact_solver_is_as_cheap_as_trying_everything() {
    for seed in 0..12usize {
        let n = 9;
        let source: Vec<(u8, u8, u8)> = (0..n)
            .map(|i| ((i * 97 + seed * 13) as u8, (i * i * 31) as u8, (seed * i) as u8))
            .collect();
        let target: Vec<(u8, u8, u8)> = (0..n)
            .map(|i| ((i * 53 + seed * 7) as u8, (i * 19) as u8, (seed + i * 71) as u8))
            .collect();
        let weights: Vec<i64> = (0..n).map(|i| ((i + seed) * 41 % 256) as i64).collect();
        let cost = CostLookup::new(source, target, weights, 3, seed as i64);
        let oracle = brute_force_assignment(&cost);
        let got = solve(&cost);
        assert_valid_permutation(&got, n);
        assert_eq!(total_cost(&cost, &got), total_cost(&cost, &oracle));
    }
}

#[test]
fn rows_can_be_added_one_by_one() {
    let cost = identical_pixel_lookup(9, 5);
    let mut matcher = Matcher::new(&cost);
    for root in 0..9 {
        matcher.add_root(&cost, root);
        assert_eq!(matcher.xy.iter().filter(|m| m.is_some()).count(), root + 1);
    }
    assert_eq!(matcher.assignments(&cost), solve(&cost));
}

#[test]
fn a_cancelled_exact_solve_gives_nothing() {
    let cost = identical_pixel_lookup(9, 5);
    let mut log = MessageLog::new();
    let mut control = SolverControl::default();
    control.cancel();
    assert!(solve_with_checkpoint(&cost, &mut log, &mut control, Beat::silent()).is_none());
    let mut free = SolverControl::default();
    assert_eq!(
        solve_with_checkpoint(&cost, &mut log, &mut free, Beat::silent()),
        Some(solve(&cost))
    );
}
