use obamify::cost::{assert_valid_permutation, total_cost, CostLookup};
use obamify::patchmatch::{patchmatch_search, repair_permutation, solve};

fn identical_pixel_lookup(n: usize, proximity: i64) -> CostLookup {
    let mut source = vec![(0u8, 0u8, 0u8); n];
    let mut target = vec![(0u8, 0u8, 0u8); n];
    for i in 0..n {
        source[i] = (i as u8, 0, 0);
        target[i] = (i as u8, 0, 0);
    }
    let sidelen = (n as f32).sqrt() as u32;
    CostLookup::new(source, target, vec![255; n], sidelen, proximity)
}

#[test]
fn test_patchmatch_4x4_valid_permutation() {
    let cost = identical_pixel_lookup(4, 13);
    let assignments = solve(&cost, 2);
    assert_eq!(assignments.len(), 4);
    assert_valid_permutation(&assignments, 4);
}

#[test]
fn test_patchmatch_9x9_valid_permutation() {
    let cost = identical_pixel_lookup(9, 13);
    let assignments = solve(&cost, 3);
    assert_eq!(assignments.len(), 9);
    assert_valid_permutation(&assignments, 9);
}

#[test]
fn test_patchmatch_identity_near_optimal_4x4() {
    let cost = identical_pixel_lookup(4, 13);
    let assignments = solve(&cost, 2);
    let identity: Vec<usize> = (0..4).collect();
    let cost_solve = total_cost(&cost, &assignments);
    let cost_identity = total_cost(&cost, &identity);
    // PatchMatch is a heuristic; allow generous slack.
    let slack = cost_identity.abs() + 1;
    assert!(
        cost_solve <= cost_identity + slack,
        "patchmatch cost {cost_solve} should be reasonable vs identity cost {cost_identity}"
    );
}

#[test]
fn test_patchmatch_cost_monotone_decreasing() {
    let cost = identical_pixel_lookup(9, 13);
    let raw1 = patchmatch_search(&cost, 3, 1);
    let raw4 = patchmatch_search(&cost, 3, 4);
    let cost1: i64 = (0..9).map(|dst| cost.cost(dst, raw1[dst])).sum();
    let cost4: i64 = (0..9).map(|dst| cost.cost(dst, raw4[dst])).sum();
    assert!(
        cost4 <= cost1,
        "more iters should not increase raw cost: {cost4} > {cost1}"
    );
}

#[test]
fn test_patchmatch_empty_input() {
    let cost = CostLookup::new(vec![], vec![], vec![], 0, 0);
    let assignments = solve(&cost, 0);
    assert!(assignments.is_empty());
}

#[test]
fn test_patchmatch_1x1() {
    let cost = CostLookup::new(vec![(1, 2, 3)], vec![(4, 5, 6)], vec![255], 1, 13);
    let assignments = solve(&cost, 1);
    assert_eq!(assignments, vec![0]);
}

#[test]
fn test_repair_permutation_valid() {
    let cost = identical_pixel_lookup(4, 13);
    // Raw assignment with collisions: all targets claim source 0.
    let raw = vec![0, 0, 0, 0];
    let assignments = repair_permutation(&cost, &raw, 2);
    assert_valid_permutation(&assignments, 4);
}

#[test]
fn test_patchmatch_repeated_runs_are_deterministic() {
    let cost = identical_pixel_lookup(16, 13);
    let a = solve(&cost, 4);
    let b = solve(&cost, 4);
    assert_eq!(a, b);
}

/// Propagation and random search with the generator of `frand` itself.
fn plain_search(cost: &CostLookup, side: usize, passes: usize) -> Vec<usize> {
    let n = cost.n_dst();
    let s = side as i32;
    let mut rng = frand::Rand::with_seed(42424);
    let mut chosen: Vec<usize> = Vec::new();
    for dst in 0..n {
        let t = cost.target[dst];
        let mut best = (i64::MAX, 0);
        for _ in 0..16 {
            let src = rng.gen_range(0..n as u64) as usize;
            let c = cost.source[src];
            let d = [(t.0, c.0), (t.1, c.1), (t.2, c.2)]
                .iter()
                .map(|&(a, b)| (a as i64 - b as i64) * (a as i64 - b as i64))
                .sum();
            if d < best.0 {
                best = (d, src);
            }
        }
        chosen.push(best.1);
    }
    let widest = (s as f32 * 0.5).max(1.0) as i32;
    let index = |x: i32, y: i32| (y.clamp(0, s - 1) * s + x.clamp(0, s - 1)) as usize;
    for pass in 0..passes {
        let forward = pass % 2 == 0;
        let step = if forward { -1 } else { 1 };
        for k in 0..n {
            let dst = if forward { k } else { n - 1 - k };
            let (x, y) = ((dst % side) as i32, (dst / side) as i32);
            let mut best = (cost.cost(dst, chosen[dst]), chosen[dst]);
            for (nx, ny) in [(x, y + step), (x + step, y)] {
                if nx < 0 || ny < 0 || nx >= s || ny >= s {
                    continue;
                }
                let src = chosen[(ny * s + nx) as usize];
                let shifted = index(
                    x + (src % side) as i32 - nx,
                    y + (src / side) as i32 - ny,
                );
                let c = cost.cost(dst, shifted);
                if c < best.0 {
                    best = (c, shifted);
                }
            }
            let mut radius = widest;
            while radius > 0 {
                let (bx, by) = ((best.1 % side) as i32, (best.1 / side) as i32);
                for _ in 0..8 {
                    let rx = rng.gen_range(-radius..(radius + 1));
                    let ry = rng.gen_range(-radius..(radius + 1));
                    let src = index(bx + rx, by + ry);
                    let c = cost.cost(dst, src);
                    if c < best.0 {
                        best = (c, src);
                    }
                }
                radius = (radius as f32 * 0.5) as i32;
            }
            chosen[dst] = best.1;
        }
    }
    chosen
}

#[test]
fn the_search_draws_the_numbers_of_the_seeded_generator() {
    for side in [2usize, 3, 7, 10] {
        let n = side * side;
        let source: Vec<(u8, u8, u8)> = (0..n).map(|i| ((i * 83) as u8, (i * 7) as u8, 5)).collect();
        let target: Vec<(u8, u8, u8)> = (0..n).map(|i| ((i * 31) as u8, 8, (i * 3) as u8)).collect();
        let weights: Vec<i64> = (0..n).map(|i| (i * 17 % 256) as i64).collect();
        let cost = CostLookup::new(source, target, weights, side as u32, 2);
        for passes in 0..4 {
            assert_eq!(
                patchmatch_search(&cost, side as u32, passes),
                plain_search(&cost, side, passes)
            );
        }
    }
}
