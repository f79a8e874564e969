use obamify::auction::{
    solve_dense, sparse_auction, sparse_auction_with_checkpoint, MAX_DENSE_AUCTION_N,
};
use obamify::cost::{assert_valid_permutation, brute_force_assignment, total_cost, CostLookup};
use obamify::float::Double;
use obamify::progress::{Beat, FnControl, MessageLog, SolverControl};

fn identical_pixel_lookup(n: usize, proximity: i64) -> CostLookup {
    let mut source = vec![(0u8, 0u8, 0u8); n];
    let mut target = vec![(0u8, 0u8, 0u8); n];
    for i in 0..n {
        source[i] = (i as u8, 0, 0);
        target[i] = (i as u8, 0, 0);
    }
    let sidelen = (n as f32).sqrt() as u32;
    CostLookup::new(source, target, vec![255; n], sidelen, proximity)
}

#[test]
fn test_auction_dense_valid_permutation_4x4() {
    let cost = identical_pixel_lookup(4, 13);
    let assignments = solve_dense(&cost, 5).unwrap();
    assert_eq!(assignments.len(), 4);
    assert_valid_permutation(&assignments, 4);
}

#[test]
fn test_auction_dense_identity_optimal_4x4() {
    let cost = identical_pixel_lookup(4, 13);
    let assignments = solve_dense(&cost, 8).unwrap();
    let identity: Vec<usize> = (0..4).collect();
    let cost_solve = total_cost(&cost, &assignments);
    let cost_identity = total_cost(&cost, &identity);
    assert!(
        cost_solve <= cost_identity,
        "auction cost {cost_solve} should be <= identity cost {cost_identity}"
    );
}

#[test]
fn test_auction_dense_identity_optimal_9x9() {
    let cost = identical_pixel_lookup(9, 13);
    let assignments = solve_dense(&cost, 8).unwrap();
    let identity: Vec<usize> = (0..9).collect();
    let cost_solve = total_cost(&cost, &assignments);
    let cost_identity = total_cost(&cost, &identity);
    assert!(
        cost_solve <= cost_identity,
        "auction cost {cost_solve} should be <= identity cost {cost_identity}"
    );
}

#[test]
fn test_auction_empty_input() {
    let cost = CostLookup::new(vec![], vec![], vec![], 0, 0);
    let assignments = solve_dense(&cost, 5).unwrap();
    assert!(assignments.is_empty());
}

#[test]
fn test_auction_1x1() {
    let cost = CostLookup::new(vec![(1, 2, 3)], vec![(4, 5, 6)], vec![255], 1, 13);
    let assignments = solve_dense(&cost, 5).unwrap();
    assert_eq!(assignments, vec![0]);
}

#[test]
fn test_sparse_auction_restricted_candidates_valid_permutation() {
    let cost = identical_pixel_lookup(4, 13);
    // Each target can only take 2 of 4 sources.
    let candidates = vec![
        vec![0, 3], // dst 0 <- src 0 or 3
        vec![0, 1], // dst 1 <- src 0 or 1
        vec![1, 2], // dst 2 <- src 1 or 2
        vec![2, 3], // dst 3 <- src 2 or 3
    ];
    let assignments = sparse_auction(&cost, &candidates, None, 5);
    assert_eq!(assignments.len(), 4);
    assert_valid_permutation(&assignments, 4);
}

#[test]
fn test_sparse_auction_empty_candidates_repaired() {
    let cost = identical_pixel_lookup(4, 13);
    let candidates = vec![vec![], vec![], vec![], vec![]];
    let assignments = sparse_auction(&cost, &candidates, None, 3);
    assert_valid_permutation(&assignments, 4);
}

#[test]
fn test_sparse_auction_warm_start_prices() {
    let cost = identical_pixel_lookup(4, 13);
    // Every target can take any source.
    let candidates: Vec<Vec<usize>> = (0..4).map(|_| (0..4).collect()).collect();
    let prices: Vec<Double> = vec![10.0f64, 20.0, 30.0, 40.0]
        .into_iter()
        .map(|p| Double::from_bits(p.to_bits()))
        .collect();
    let assignments = sparse_auction(&cost, &candidates, Some(&prices), 5);
    assert_valid_permutation(&assignments, 4);
}

#[test]
fn test_auction_epsilon_scaling_monotone_cost() {
    let cost = identical_pixel_lookup(9, 13);
    let coarse = solve_dense(&cost, 1).unwrap();
    let fine = solve_dense(&cost, 8).unwrap();
    let cost_coarse = total_cost(&cost, &coarse);
    let cost_fine = total_cost(&cost, &fine);
    assert!(
        cost_fine <= cost_coarse,
        "fine (8 phases) cost {cost_fine} should be <= coarse (1 phase) cost {cost_coarse}"
    );
}

#[test]
fn test_auction_dense_matches_bruteforce_oracle_on_permuted_colors() {
    let source = vec![(0, 0, 0), (40, 0, 0), (90, 0, 0), (150, 0, 0)];
    let target = vec![source[2], source[0], source[3], source[1]];
    let cost = CostLookup::new(source, target, vec![255; 4], 2, 0);
    let oracle = brute_force_assignment(&cost);
    let got = solve_dense(&cost, 8).unwrap();
    assert_valid_permutation(&got, 4);
    assert_eq!(total_cost(&cost, &got), total_cost(&cost, &oracle));
}

#[test]
fn test_dense_auction_refuses_unsafe_size() {
    let n = MAX_DENSE_AUCTION_N + 1;
    let cost = CostLookup::new(
        vec![(0, 0, 0); n],
        vec![(0, 0, 0); n],
        vec![255; n],
        1,
        0,
    );
    assert!(solve_dense(&cost, 1).is_none());
}

#[test]
fn test_sparse_auction_256_sidelen_guard_does_not_overflow() {
    let sidelen = 256;
    let n = sidelen * sidelen;
    let cost = CostLookup::new(
        vec![(0, 0, 0); n],
        vec![(0, 0, 0); n],
        vec![255; n],
        sidelen as u32,
        0,
    );
    let candidates: Vec<Vec<usize>> = (0..n).map(|i| vec![i]).collect();
    let assignments = sparse_auction(&cost, &candidates, None, 1);
    assert_valid_permutation(&assignments, n);
    assert_eq!(assignments[0], 0);
    assert_eq!(assignments[n - 1], n - 1);
}

/// The same auction, computed with hardware numbers.
fn hardware_auction(
    cost: &CostLookup,
    candidates: &[Vec<usize>],
    initial: Option<&[f64]>,
    phases: usize,
) -> Vec<usize> {
    let n = cost.n_dst();
    let mut targets: Vec<Vec<usize>> = vec![Vec::new(); n];
    let mut dearest: i64 = 0;
    for (dst, srcs) in candidates.iter().enumerate() {
        for &src in srcs {
            if src < n && !targets[src].contains(&dst) {
                targets[src].push(dst);
                dearest = dearest.max(cost.cost(dst, src).abs());
            }
        }
    }
    let edges: usize = targets.iter().map(Vec::len).sum::<usize>().max(n);
    let mut prices = match initial {
        Some(p) if p.len() == n => p.to_vec(),
        _ => vec![0.0; n],
    };
    let mut holder: Vec<Option<usize>> = vec![None; n];
    let mut epsilon = (dearest as f64 / 4.0).max(1.0);
    for _ in 0..phases.max(1) {
        let eps = epsilon.max(1.0 / (n as f64 + 1.0));
        holder = vec![None; n];
        let mut queue: std::collections::VecDeque<usize> = (0..n).collect();
        let mut bids = 0;
        while bids < edges * 16 + n * 4 {
            let Some(src) = queue.pop_front() else {
                break;
            };
            bids += 1;
            let Some(&first) = targets[src].first() else {
                continue;
            };
            let mut best = (-(cost.cost(first, src) as f64) - prices[first], first);
            let mut second = f64::MIN;
            for &dst in &targets[src][1..] {
                let value = -(cost.cost(dst, src) as f64) - prices[dst];
                if value > best.0 {
                    second = best.0;
                    best = (value, dst);
                } else if value > second {
                    second = value;
                }
            }
            if second == f64::MIN {
                second = best.0 - eps;
            }
            prices[best.1] += (best.0 - second + eps).max(0.0);
            if let Some(evicted) = holder[best.1].replace(src) {
                queue.push_back(evicted);
            }
        }
        epsilon /= 5.0;
    }
    let mut unused: Vec<usize> = (0..n).filter(|s| !holder.contains(&Some(*s))).collect();
    unused.reverse();
    holder
        .into_iter()
        .map(|h| h.unwrap_or_else(|| unused.pop().unwrap()))
        .collect()
}

fn scattered(n: usize, seed: usize) -> Vec<(u8, u8, u8)> {
    (0..n)
        .map(|i| {
            let k = (i * 37 + seed * 101) ^ (i * i * 11 + seed);
            ((k % 251) as u8, (k / 3 % 253) as u8, (k / 7 % 239) as u8)
        })
        .collect()
}

#[test]
fn the_auction_agrees_with_hardware_numbers() {
    for seed in 0..6 {
        let side = 5 + seed % 3;
        let n = side * side;
        let cost = CostLookup::new(
            scattered(n, seed),
            scattered(n, seed + 50),
            (0..n).map(|i| (i * 29 % 256) as i64).collect(),
            side as u32,
            seed as i64 * 7,
        );
        let sparse: Vec<Vec<usize>> = (0..n)
            .map(|d| (0..6).map(|k| (d * 5 + k * k * 3 + seed) % n).collect())
            .collect();
        let prices: Vec<f64> = (0..n).map(|i| i as f64 * 0.37 - 3.0).collect();
        let soft: Vec<Double> = prices.iter().map(|p| Double::from_bits(p.to_bits())).collect();
        for phases in [1, 3, 5] {
            assert_eq!(
                sparse_auction(&cost, &sparse, None, phases),
                hardware_auction(&cost, &sparse, None, phases)
            );
            assert_eq!(
                sparse_auction(&cost, &sparse, Some(&soft), phases),
                hardware_auction(&cost, &sparse, Some(&prices), phases)
            );
        }
        let all: Vec<Vec<usize>> = (0..n).map(|_| (0..n).collect()).collect();
        assert_eq!(
            solve_dense(&cost, 5).unwrap(),
            hardware_auction(&cost, &all, None, 5)
        );
    }
}

#[test]
fn prices_given_in_advance_change_who_wins() {
    // Two targets that both sources want equally: the cheaper target goes first.
    let cost = CostLookup::new(
        vec![(0, 0, 0), (0, 0, 0)],
        vec![(0, 0, 0), (0, 0, 0)],
        vec![255; 2],
        2,
        0,
    );
    let candidates = vec![vec![0, 1], vec![0, 1]];
    let cheap_first = sparse_auction(&cost, &candidates, None, 1);
    let dear: Vec<Double> = [1000.0f64, 0.0]
        .iter()
        .map(|p| Double::from_bits(p.to_bits()))
        .collect();
    let dear_first = sparse_auction(&cost, &candidates, Some(&dear), 1);
    assert_valid_permutation(&cheap_first, 2);
    assert_valid_permutation(&dear_first, 2);
    assert_ne!(cheap_first, dear_first);
}

#[test]
fn a_refusing_control_stops_the_auction() {
    // Long price wars need more bids than fit between two checkpoints.
    let n = 64;
    let cost = identical_pixel_lookup(n, 13);
    let candidates: Vec<Vec<usize>> = (0..n).map(|_| (0..n).collect()).collect();
    let mut control = SolverControl::default();
    control.cancel();
    let mut log = MessageLog::new();
    let stopped = sparse_auction_with_checkpoint(
        &cost,
        &candidates,
        None,
        8,
        &mut log,
        &mut control,
        Beat::silent(),
    );
    let free = sparse_auction(&cost, &candidates, None, 8);
    assert_valid_permutation(&free, n);
    assert!(stopped.is_none() || stopped == Some(free));
    assert!(log.messages.is_empty());
}

#[test]
fn the_control_is_asked_before_every_batch_of_bids() {
    let n = 16;
    let cost = identical_pixel_lookup(n, 13);
    let all: Vec<Vec<usize>> = (0..n).map(|_| (0..n).collect()).collect();
    let run = |candidates: &[Vec<usize>], phases: usize, passed: u32| {
        let asked = std::cell::Cell::new(0);
        let mut control = FnControl::new(|| {
            asked.set(asked.get() + 1);
            asked.get() <= passed
        });
        let mut log = MessageLog::new();
        let r = sparse_auction_with_checkpoint(
            &cost,
            candidates,
            None,
            phases,
            &mut log,
            &mut control,
            Beat { report: true, level: 1, total: 2 },
        );
        (r.is_some(), asked.get(), log.messages.len())
    };
    // A phase of fewer than 4096 bids asks once.
    assert_eq!(run(&all, 5, u32::MAX), (true, 5, 5));
    assert_eq!(run(&all, 5, 2), (false, 3, 4));
    // Sources without candidates still take their turn.
    assert_eq!(run(&[], 2, u32::MAX), (true, 2, 2));
}
