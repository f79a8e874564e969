use obamify::cost::{assert_valid_permutation, total_cost, CostLookup};
use obamify::float::Double;
use obamify::sinkhorn::{round_to_permutation, solve, MAX_DENSE_SINKHORN_N};

fn identical_pixel_lookup(n: usize, proximity: i64) -> CostLookup {
    let mut source = vec![(0u8, 0u8, 0u8); n];
    let mut target = vec![(0u8, 0u8, 0u8); n];
    for i in 0..n {
        source[i] = (i as u8, 0, 0);
        target[i] = (i as u8, 0, 0);
    }
    let sidelen = (n as f32).sqrt() as u32;
    CostLookup::new(source, target, vec![255; n], sidelen, proximity)
}

fn log_sum(terms: &[f64]) -> f64 {
    let max = terms.iter().copied().fold(f64::NEG_INFINITY, f64::max);
    max + terms.iter().map(|t| (t - max).exp()).sum::<f64>().ln()
}

/// The plan of entropy-regularised transport, sharpened in four steps.
fn transport_plan(cost: &CostLookup) -> Vec<Vec<Double>> {
    let n = cost.n_dst();
    let costs: Vec<Vec<f64>> = (0..n)
        .map(|d| (0..n).map(|s| cost.cost(d, s) as f64).collect())
        .collect();
    let least = costs.iter().flatten().copied().fold(0.0, f64::min);
    let most = costs.iter().flatten().copied().fold(0.0, f64::max);
    let mass = (1.0 / n as f64).ln();
    let mut epsilon = (most - least).abs().max(1.0) * 0.5;
    let mut plan = vec![vec![0.0; n]; n];
    for _ in 0..4 {
        let kernel = |d: usize, s: usize| -((costs[d][s] - least) / epsilon);
        let mut u = vec![0.0; n];
        let mut v = vec![0.0; n];
        for _ in 0..50 {
            for d in 0..n {
                let terms: Vec<f64> = (0..n).map(|s| kernel(d, s) + v[s]).collect();
                u[d] = mass - log_sum(&terms);
            }
            for s in 0..n {
                let terms: Vec<f64> = (0..n).map(|d| kernel(d, s) + u[d]).collect();
                v[s] = mass - log_sum(&terms);
            }
        }
        for d in 0..n {
            for s in 0..n {
                plan[d][s] = (kernel(d, s) + u[d] + v[s]).exp().max(0.0);
            }
        }
        epsilon = (epsilon * 0.5).max(1.0);
    }
    encoded(&plan)
}

fn encoded(plan: &[Vec<f64>]) -> Vec<Vec<Double>> {
    plan.iter()
        .map(|row| row.iter().map(|w| Double::from_bits(w.to_bits())).collect())
        .collect()
}

#[test]
fn test_sinkhorn_2x2_valid_permutation() {
    let cost = identical_pixel_lookup(2, 13);
    let assignments = solve(&cost, &transport_plan(&cost)).unwrap();
    assert_eq!(assignments.len(), 2);
    assert_valid_permutation(&assignments, 2);
}

#[test]
fn test_sinkhorn_4x4_valid_permutation() {
    let cost = identical_pixel_lookup(4, 13);
    let assignments = solve(&cost, &transport_plan(&cost)).unwrap();
    assert_eq!(assignments.len(), 4);
    assert_valid_permutation(&assignments, 4);
}

#[test]
fn test_sinkhorn_identity_near_optimal_4x4() {
    let cost = identical_pixel_lookup(4, 13);
    let assignments = solve(&cost, &transport_plan(&cost)).unwrap();
    let identity: Vec<usize> = (0..4).collect();
    let cost_solve = total_cost(&cost, &assignments);
    let cost_identity = total_cost(&cost, &identity);
    // Sinkhorn + rounding should be close to optimal.
    let slack = cost_identity.abs() / 2 + 1;
    assert!(
        cost_solve <= cost_identity + slack,
        "sinkhorn cost {cost_solve} should be close to identity cost {cost_identity} (slack {slack})"
    );
}

#[test]
fn test_sinkhorn_empty_input() {
    let cost = CostLookup::new(vec![], vec![], vec![], 0, 0);
    let assignments = solve(&cost, &[]).unwrap();
    assert!(assignments.is_empty());
}

#[test]
fn test_sinkhorn_1x1() {
    let cost = CostLookup::new(vec![(1, 2, 3)], vec![(4, 5, 6)], vec![255], 1, 13);
    let assignments = solve(&cost, &[]).unwrap();
    assert_eq!(assignments, vec![0]);
}

#[test]
fn test_round_to_permutation_resolves_collisions() {
    // Two rows claim the same column.
    let n = 3;
    let plan = vec![
        vec![0.9, 0.05, 0.05], // dst 0 -> src 0
        vec![0.8, 0.1, 0.1],   // dst 1 -> src 0 (collision!)
        vec![0.1, 0.1, 0.8],   // dst 2 -> src 2
    ];
    let cost = identical_pixel_lookup(n, 13);
    let assignments = round_to_permutation(&encoded(&plan), &cost);
    assert_valid_permutation(&assignments, n);
}

#[test]
fn test_sinkhorn_refuses_unsafe_dense_size() {
    let n = MAX_DENSE_SINKHORN_N + 1;
    let cost = CostLookup::new(
        vec![(0, 0, 0); n],
        vec![(0, 0, 0); n],
        vec![255; n],
        1,
        0,
    );
    assert!(solve(&cost, &[]).is_none());
}

#[test]
fn the_heaviest_sources_are_the_candidates() {
    // Sixteen pixels of one colour; the plan wants a rotation by three, and the
    // eight heaviest sources of every target lie around it.
    let n = 16;
    let cost = CostLookup::new(
        vec![(9, 9, 9); n],
        vec![(9, 9, 9); n],
        vec![255; n],
        4,
        0,
    );
    let plan: Vec<Vec<f64>> = (0..n)
        .map(|d| {
            (0..n)
                .map(|s| if s == (d + 3) % n { 0.9 } else { 0.01 * ((s + d) % 5) as f64 })
                .collect()
        })
        .collect();
    let with_plan = round_to_permutation(&encoded(&plan), &cost);
    let even = round_to_permutation(&encoded(&vec![vec![1.0; n]; n]), &cost);
    assert_valid_permutation(&with_plan, n);
    assert_valid_permutation(&even, n);
    assert_ne!(with_plan, even);
}

#[test]
fn the_plan_tells_the_number_of_targets() {
    let cost = identical_pixel_lookup(4, 13);
    assert!(round_to_permutation(&[], &cost).is_empty());
    // Targets without a row take what is left.
    let some = round_to_permutation(&encoded(&[vec![0.1, 0.9], vec![0.9, 0.1]]), &cost);
    assert_valid_permutation(&some, 4);
    let one = CostLookup::new(vec![(1, 2, 3)], vec![(4, 5, 6)], vec![255], 1, 13);
    assert_eq!(round_to_permutation(&encoded(&vec![vec![0.5; 3]; 3]), &one), vec![0]);
}
