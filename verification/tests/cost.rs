use obamify::cost::{
    assert_valid_permutation, color_dist, heuristic, total_cost, validate_permutation, CostLookup,
};

fn trivial_lookup(n: usize) -> CostLookup {
    // Uniform grey pixels, uniform weights, zero proximity: every cost is 0.
    CostLookup::new(
        vec![(128, 128, 128); n],
        vec![(128, 128, 128); n],
        vec![255; n],
        (n as f32).sqrt() as u32,
        0,
    )
}

#[test]
fn test_cost_lookup_dimensions() {
    let c = trivial_lookup(16);
    assert_eq!(c.n_dst(), 16);
    assert_eq!(c.n_src(), 16);
    assert_eq!(c.sidelen, 4);
}

#[test]
fn test_cost_lookup_zero_for_identical_pixels() {
    let c = trivial_lookup(16);
    for i in 0..16 {
        assert_eq!(c.cost(i, i), 0);
    }
}

#[test]
fn test_total_cost_adds_assignment_costs() {
    let mut c = trivial_lookup(4);
    c.proximity_importance = 1;
    let assignments = vec![1, 0, 3, 2];
    assert_eq!(total_cost(&c, &assignments), 4);
}

#[test]
fn test_validate_permutation_accepts_identity() {
    assert!(validate_permutation(&[0, 1, 2, 3], 4).is_ok());
}

#[test]
fn test_validate_permutation_rejects_duplicate() {
    assert!(validate_permutation(&[0, 1, 1, 3], 4).is_err());
}

#[test]
fn test_validate_permutation_rejects_out_of_range() {
    assert!(validate_permutation(&[0, 1, 2, 4], 4).is_err());
}

#[test]
fn test_validate_permutation_rejects_wrong_length() {
    assert!(validate_permutation(&[0, 1, 2], 4).is_err());
}

#[test]
fn test_dst_src_pos_round_trip() {
    let c = trivial_lookup(16);
    for i in 0..16 {
        let (x, y) = c.dst_pos(i);
        assert_eq!(y as usize * c.sidelen + x as usize, i);
        let (x, y) = c.src_pos(i);
        assert_eq!(y as usize * c.sidelen + x as usize, i);
    }
}

#[test]
fn test_heuristic_same_position_same_color_is_zero() {
    let h = heuristic((5, 5), (5, 5), (100, 100, 100), (100, 100, 100), 255, 13);
    assert_eq!(h, 0);
}

#[test]
fn test_heuristic_color_dominates_with_high_color_weight() {
    let h_low_weight = heuristic((0, 0), (1, 1), (0, 0, 0), (255, 0, 0), 1, 0);
    let h_high_weight = heuristic((0, 0), (1, 1), (0, 0, 0), (255, 0, 0), 255, 0);
    assert!(
        h_high_weight > h_low_weight,
        "high color weight {h_high_weight} should be > low {h_low_weight}"
    );
}

#[test]
fn test_heuristic_spatial_is_quadratic_in_spatial_weight() {
    // spatial = 100, h1 = (100*1)^2 = 10000, h2 = (100*2)^2 = 40000
    let h1 = heuristic((0, 0), (10, 0), (0, 0, 0), (0, 0, 0), 0, 1);
    let h2 = heuristic((0, 0), (10, 0), (0, 0, 0), (0, 0, 0), 0, 2);
    assert_eq!(h1, 10_000);
    assert_eq!(h2, 40_000);
}

#[test]
fn the_heuristic_adds_weighted_colour_and_squared_distance() {
    // colour 9 + 16 + 144, distance 4 + 9.
    assert_eq!(color_dist((3, 0, 12), (0, 4, 0)), 169);
    assert_eq!(
        heuristic((2, 0), (0, 3), (3, 0, 12), (0, 4, 0), 10, 2),
        1690 + 26 * 26
    );
    assert_eq!(
        heuristic((0, 3), (2, 0), (0, 4, 0), (3, 0, 12), 10, 2),
        1690 + 26 * 26
    );
}

#[test]
fn the_messages_about_assignments_name_what_is_wrong() {
    assert_eq!(
        validate_permutation(&[0, 1, 2], 4),
        Err("assignment length 3 != expected 4".to_string())
    );
    assert_eq!(
        validate_permutation(&[0, 1, 2, 4], 4),
        Err("assignment value 4 out of range 0..4".to_string())
    );
    assert_eq!(
        validate_permutation(&[0, 1, 1, 3], 4),
        Err("duplicate assignment source 1".to_string())
    );
    assert_valid_permutation(&[3, 1, 0, 2], 4);
}

#[test]
fn totals_saturate() {
    let mut c = trivial_lookup(4);
    c.weights = vec![i64::MAX / 195075; 4];
    c.source = vec![(0, 0, 0); 4];
    c.target = vec![(255, 255, 255); 4];
    assert_eq!(total_cost(&c, &[0, 1, 2, 3]), i64::MAX);
    assert_eq!(total_cost(&c, &[0]), (i64::MAX / 195075) * 195075);
}
