use obamify::candidates::{add_source, build_candidates};
use obamify::cost::{assert_valid_permutation, brute_force_assignment, total_cost, CostLookup};
use obamify::float::Double;
use obamify::jonker_volgenant;
use obamify::local_swap::{local_swap_refinement, local_swap_refinement_with_checkpoint};
use obamify::multiscale::{level_cost, solve, solve_inner, solve_with_checkpoint};
use obamify::progress::{Beat, FnControl, MessageLog, ProgressMsg, SolverControl};
use obamify::pyramid::{
    build_pyramid, downsample_pixels, downsample_weights, upsample_assignment, upsample_prices,
};

fn identical_pixels(n: usize) -> (Vec<(u8, u8, u8)>, Vec<(u8, u8, u8)>, Vec<i64>) {
    let mut source = vec![(0u8, 0u8, 0u8); n];
    let mut target = vec![(0u8, 0u8, 0u8); n];
    for i in 0..n {
        source[i] = (i as u8, 0, 0);
        target[i] = (i as u8, 0, 0);
    }
    (source, target, vec![255; n])
}

#[test]
fn test_build_pyramid_128() {
    let p = build_pyramid(128);
    assert_eq!(p, vec![16, 32, 64, 128]);
}

#[test]
fn test_build_pyramid_64() {
    let p = build_pyramid(64);
    assert_eq!(p, vec![16, 32, 64]);
}

#[test]
fn test_build_pyramid_16() {
    let p = build_pyramid(16);
    assert_eq!(p, vec![16]);
}

#[test]
fn test_downsample_pixels_4_to_2() {
    let pixels = vec![(10, 20, 30), (20, 30, 40), (30, 40, 50), (40, 50, 60)];
    let ds = downsample_pixels(&pixels, 2, 1);
    assert_eq!(ds, vec![(25, 35, 45)]); // average of all 4
}

#[test]
fn test_downsample_pixels_identity() {
    let pixels = vec![(10, 20, 30), (40, 50, 60)];
    let ds = downsample_pixels(&pixels, 2, 2);
    assert_eq!(ds, pixels);
}

#[test]
fn test_upsample_assignment_2_to_4() {
    // 2x2 coarse assignment: identity
    let coarse = vec![0, 1, 2, 3];
    let fine = upsample_assignment(&coarse, 2, 4);
    assert_eq!(fine.len(), 16);
    // Fine[0] should map to source 0 (top-left child of source 0)
    assert_eq!(fine[0], 0);
    // Fine[3] (top-right of top-left block) -> source 3
    assert_eq!(fine[3], 3);
}

#[test]
fn test_multiscale_solve_16_valid_permutation() {
    let n = 16;
    let (source, target, weights) = identical_pixels(n);
    let cost = CostLookup::new(source.clone(), target.clone(), weights.clone(), 4, 13);
    let assignments = solve(&cost, &source, &target, &weights, 4, 13);
    assert_eq!(assignments.len(), 16);
    assert_valid_permutation(&assignments, 16);
}

#[test]
fn test_multiscale_solve_64_valid_permutation() {
    let n = 64;
    let (source, target, weights) = identical_pixels(n);
    let cost = CostLookup::new(source.clone(), target.clone(), weights.clone(), 8, 13);
    let assignments = solve(&cost, &source, &target, &weights, 8, 13);
    assert_eq!(assignments.len(), 64);
    assert_valid_permutation(&assignments, 64);
}

#[test]
fn test_multiscale_non_power_of_two_sidelen_valid_permutation() {
    let sidelen = 20;
    let n = sidelen * sidelen;
    let (source, target, weights) = identical_pixels(n);
    let cost = CostLookup::new(
        source.clone(),
        target.clone(),
        weights.clone(),
        sidelen as u32,
        13,
    );
    let assignments = solve(&cost, &source, &target, &weights, sidelen as u32, 13);
    assert_eq!(assignments.len(), n);
    assert_valid_permutation(&assignments, n);
}

#[test]
fn test_multiscale_repeated_runs_are_deterministic() {
    let sidelen = 20;
    let n = sidelen * sidelen;
    let (source, target, weights) = identical_pixels(n);
    let cost = CostLookup::new(
        source.clone(),
        target.clone(),
        weights.clone(),
        sidelen as u32,
        13,
    );
    let a = solve(&cost, &source, &target, &weights, sidelen as u32, 13);
    let b = solve(&cost, &source, &target, &weights, sidelen as u32, 13);
    assert_eq!(a, b);
}

#[test]
fn test_multiscale_identity_optimal_16() {
    let n = 16;
    let (source, target, weights) = identical_pixels(n);
    let cost = CostLookup::new(source.clone(), target.clone(), weights.clone(), 4, 13);
    let assignments = solve(&cost, &source, &target, &weights, 4, 13);
    let identity: Vec<usize> = (0..n).collect();
    let cost_solve = total_cost(&cost, &assignments);
    let cost_identity = total_cost(&cost, &identity);
    // Multiscale should be close to optimal; allow small slack.
    let slack = cost_identity.abs() / 4 + 1;
    assert!(
        cost_solve <= cost_identity + slack,
        "multiscale cost {cost_solve} should be close to identity cost {cost_identity} (slack {slack})"
    );
}

#[test]
fn test_local_swap_refinement_reduces_cost() {
    let n = 4;
    let (source, target, weights) = identical_pixels(n);
    let cost = CostLookup::new(source, target, weights, 2, 13);
    // Start with a suboptimal assignment.
    let mut assignments = vec![1, 0, 3, 2]; // swapped pairs
    let before = total_cost(&cost, &assignments);
    local_swap_refinement(&cost, &mut assignments, 2, 5);
    let after = total_cost(&cost, &assignments);
    assert!(
        after <= before,
        "local swap should not increase cost: {after} > {before}"
    );
    assert_valid_permutation(&assignments, n);
}

#[test]
fn test_build_candidates_nonempty() {
    let n = 16;
    let (source, target, weights) = identical_pixels(n);
    let cost = CostLookup::new(source, target, weights, 4, 13);
    let predicted: Vec<usize> = (0..16).collect(); // identity prediction
    let candidates = build_candidates(&cost, &predicted, 4);
    for (dst, cands) in candidates.iter().enumerate() {
        assert!(!cands.is_empty(), "dst {dst} has empty candidates");
    }
}

#[test]
fn test_multiscale_tiny_matches_bruteforce_oracle() {
    let source = vec![(0, 0, 0), (40, 0, 0), (90, 0, 0), (150, 0, 0)];
    let target = vec![source[2], source[0], source[3], source[1]];
    let weights = vec![255; 4];
    let cost = CostLookup::new(source.clone(), target.clone(), weights.clone(), 2, 0);
    let oracle = brute_force_assignment(&cost);
    let got = solve(&cost, &source, &target, &weights, 2, 0);
    assert_valid_permutation(&got, 4);
    assert_eq!(total_cost(&cost, &got), total_cost(&cost, &oracle));
}

#[test]
fn small_pictures_are_solved_exactly() {
    let side = 12;
    let n = side * side;
    let source: Vec<(u8, u8, u8)> = (0..n).map(|i| ((i * 77) as u8, (i * 5) as u8, 9)).collect();
    let target: Vec<(u8, u8, u8)> = (0..n).map(|i| ((i * 29) as u8, 3, (i * 11) as u8)).collect();
    let weights: Vec<i64> = (0..n).map(|i| (i % 256) as i64).collect();
    let cost = CostLookup::new(source.clone(), target.clone(), weights.clone(), side as u32, 4);
    let got = solve(&cost, &source, &target, &weights, side as u32, 4);
    let exact = jonker_volgenant::solve(&cost);
    assert_eq!(total_cost(&cost, &got), total_cost(&cost, &exact));
}

#[test]
fn odd_pyramids_end_at_their_own_side() {
    assert_eq!(build_pyramid(20), vec![16, 20]);
    assert_eq!(build_pyramid(5), vec![5]);
    assert_eq!(build_pyramid(100), vec![16, 32, 64, 100]);
}

#[test]
fn downsampling_averages_and_keeps_order() {
    assert_eq!(downsample_weights(&[10, 20, 30, 41], 2, 1), vec![25]);
    let pixels: Vec<(u8, u8, u8)> = (0..16).map(|i| (i as u8, 0, 0)).collect();
    assert_eq!(
        downsample_pixels(&pixels, 4, 2),
        vec![(2, 0, 0), (4, 0, 0), (10, 0, 0), (12, 0, 0)]
    );
}

#[test]
fn upsampled_prices_repeat_those_of_the_coarse_level() {
    let coarse = vec![
        Double::from_i64(1),
        Double::from_i64(2),
        Double::from_i64(3),
        Double::from_i64(4),
    ];
    let fine = upsample_prices(&coarse, 2, 4);
    assert_eq!(fine.len(), 16);
    assert_eq!(fine[0], Double::from_i64(1));
    assert_eq!(fine[3], Double::from_i64(2));
    assert_eq!(fine[12], Double::from_i64(3));
    assert_eq!(fine[15], Double::from_i64(4));
}

#[test]
fn candidates_hold_the_prediction_and_stay_sorted() {
    let n = 64;
    let (source, target, weights) = identical_pixels(n);
    let cost = CostLookup::new(source, target, weights, 8, 13);
    let predicted: Vec<usize> = (0..n).map(|i| (i * 5) % n).collect();
    for (dst, list) in build_candidates(&cost, &predicted, 8).iter().enumerate() {
        assert!(list.contains(&predicted[dst]));
        assert!(list.windows(2).all(|w| w[0] < w[1]));
        assert!(list.iter().all(|&s| s < n));
    }
    let mut set = vec![2, 5];
    add_source(&mut set, 3);
    add_source(&mut set, 5);
    assert_eq!(set, vec![2, 3, 5]);
}

#[test]
fn a_cancelled_multiscale_solve_gives_nothing() {
    let side = 20;
    let n = side * side;
    let (source, target, weights) = identical_pixels(n);
    let cost = CostLookup::new(source.clone(), target.clone(), weights.clone(), side as u32, 1);
    let mut control = SolverControl::default();
    control.cancel();
    assert!(
        solve_with_checkpoint(&cost, &source, &target, &weights, side as u32, 1, &mut control)
            .is_none()
    );
    let mut free = SolverControl::default();
    assert_eq!(
        solve_with_checkpoint(&cost, &source, &target, &weights, side as u32, 1, &mut free),
        Some(solve(&cost, &source, &target, &weights, side as u32, 1))
    );
}

#[test]
fn a_refused_refinement_keeps_the_batches_done_before() {
    // 36 x 36 targets make two batches in a sweep.
    let side = 36u32;
    let n = (side * side) as usize;
    let source: Vec<(u8, u8, u8)> = (0..n).map(|i| ((i * 37) as u8, (i * 11) as u8, 0)).collect();
    let target: Vec<(u8, u8, u8)> = (0..n).map(|i| ((i * 5) as u8, (i * 3) as u8, 9)).collect();
    let cost = CostLookup::new(source, target, vec![255; n], side, 0);
    let start: Vec<usize> = (0..n).rev().collect();
    let refined = |passed: u32| {
        let asked = std::cell::Cell::new(0);
        let mut control = FnControl::new(|| {
            asked.set(asked.get() + 1);
            asked.get() <= passed
        });
        let mut a = start.clone();
        let go = local_swap_refinement_with_checkpoint(
            &cost,
            &mut a,
            side,
            1,
            &mut MessageLog::new(),
            &mut control,
            Beat::silent(),
        );
        (go, asked.get(), a)
    };
    let mut untouched = start.clone();
    let mut refusing = SolverControl::default();
    refusing.cancel();
    assert!(local_swap_refinement_with_checkpoint(
        &cost,
        &mut untouched,
        side,
        0,
        &mut MessageLog::new(),
        &mut refusing,
        Beat::silent(),
    ));
    assert_eq!(untouched, start);
    assert_eq!(refined(0), (false, 1, start.clone()));
    assert_eq!(refined(1), (false, 2, start.clone()));
    let (go, asked, half) = refined(2);
    assert!(!go && asked == 3);
    assert_ne!(half, start);
    assert_eq!(half[1100..], start[1100..]);
    assert!(total_cost(&cost, &half) < total_cost(&cost, &start));
    assert_valid_permutation(&half, n);
    let (go, asked, whole) = refined(3);
    assert!(go && asked == 3);
    assert!(total_cost(&cost, &whole) < total_cost(&cost, &half));
}

#[test]
fn a_refused_solve_has_reported_the_first_level() {
    let n = 32 * 32;
    let (source, target, weights) = identical_pixels(n);
    let cost = CostLookup::new(source.clone(), target.clone(), weights.clone(), 32, 1);
    for passed in [0, 1, 100, 257] {
        let asked = std::cell::Cell::new(0);
        let mut control = FnControl::new(|| {
            asked.set(asked.get() + 1);
            asked.get() <= passed
        });
        let mut log = MessageLog::new();
        let r = solve_inner(&cost, &source, &target, &weights, 32, 1, &mut log, &mut control, true);
        assert!(r.is_none());
        assert_eq!(asked.get(), passed + 1);
        assert_eq!(log.messages.len() as u32, passed + 2);
        assert!(matches!(log.messages[0], ProgressMsg::Progress { num: 0, den: 10 }));
        assert!(matches!(log.messages.last(), Some(ProgressMsg::Cancelled)));
    }
}

#[test]
fn lookups_keep_the_length_of_a_row() {
    let (source, target, weights) = identical_pixels(64);
    let coarse = level_cost(&source, &target, &weights, 8, 4, 1);
    assert_eq!(coarse.dst_pos(6), (2, 1));
    assert_eq!(coarse.src_pos(15), (3, 3));
}
