use obamify::cost::heuristic;
use obamify::drawing::{
    accepts, frame_swap_budget, round_swap_budget, stroke_for, stroke_reward, DrawingOptimizer, DrawingPixel, PixelData,
    DRAWING_CANVAS_SIZE, STROKE_REWARD,
};
use obamify::preset::UnprocessedPreset;
use obamify::progress::{MessageLog, ProgressMsg};
use obamify::settings::{Assets, GenerationSettings};

fn make_colors(n: usize) -> Vec<(u8, u8, u8)> {
    (0..n)
        .map(|i| {
            let v = (i % 256) as f32 / 255.0;
            let c = (v * 256.0) as u8;
            (c, c, c)
        })
        .collect()
}

fn png(side: u32, color: fn(u32, u32) -> [u8; 3]) -> Vec<u8> {
    let img = image::RgbImage::from_fn(side, side, |x, y| image::Rgb(color(x, y)));
    let mut bytes = std::io::Cursor::new(Vec::new());
    img.write_to(&mut bytes, image::ImageFormat::Png).unwrap();
    bytes.into_inner()
}

fn assets() -> Assets {
    Assets {
        target: png(256, |x, y| [x as u8, y as u8, (x / 2 + y / 2) as u8]),
        weights: png(256, |x, y| [255 - (x / 4) as u8, y as u8, 0]),
    }
}

fn grid_pixels() -> Vec<DrawingPixel> {
    (0..DRAWING_CANVAS_SIZE * DRAWING_CANVAS_SIZE)
        .map(|i| {
            let x = (i % DRAWING_CANVAS_SIZE) as u16;
            let y = (i / DRAWING_CANVAS_SIZE) as u16;
            DrawingPixel::new(x, y, 0)
        })
        .collect()
}

#[test]
fn drawings_are_accepted_up_to_the_cost_limit() {
    let source = canvas(vec![255; 128 * 128 * 3]);
    let mut settings = GenerationSettings::default(7, "test".to_string());
    assert!(accepts(&source, &settings));
    settings.proximity_importance = 33_000;
    assert!(accepts(&source, &settings));
    settings.proximity_importance = 34_000;
    assert!(!accepts(&source, &settings));
    settings.proximity_importance = 13;
    settings.sidelen = 64;
    assert!(!accepts(&source, &settings));
}

#[test]
fn test_pixel_data_init_canvas_correct_count() {
    let canvas = PixelData::init_canvas();
    assert_eq!(canvas.len(), DRAWING_CANVAS_SIZE * DRAWING_CANVAS_SIZE);
    for pd in &canvas {
        assert_eq!(pd.stroke_id, 0);
    }
}

#[test]
fn test_drawing_pixel_new_stores_fields() {
    let p = DrawingPixel::new(10, 20, 999);
    assert_eq!(p.src_x, 10);
    assert_eq!(p.src_y, 20);
    assert_eq!(p.h, 999);
}

#[test]
fn test_drawing_pixel_update_heuristic() {
    let mut p = DrawingPixel::new(0, 0, 100);
    p.update_heuristic(200);
    assert_eq!(p.h, 200);
}

#[test]
fn test_drawing_pixel_calc_drawing_heuristic_zero_for_matching() {
    let colors = make_colors(DRAWING_CANVAS_SIZE * DRAWING_CANVAS_SIZE);
    let p = DrawingPixel::new(5, 5, 0);
    // When source color == target color and position matches, heuristic should be 0
    let target_col = colors[5 * DRAWING_CANVAS_SIZE + 5];
    let h = p.calc_drawing_heuristic((5, 5), target_col, 255, &colors, 0);
    assert_eq!(
        h, 0,
        "heuristic should be 0 for matching color and position"
    );
}

#[test]
fn test_stroke_reward_returns_reward_with_matching_neighbors() {
    let n = DRAWING_CANVAS_SIZE * DRAWING_CANVAS_SIZE;
    let pixel_data: Vec<PixelData> = vec![PixelData { stroke_id: 999 }; n];
    let pixels = grid_pixels();
    let reward = stroke_reward(DRAWING_CANVAS_SIZE / 2, 0, &pixel_data, &pixels);
    assert_eq!(reward, STROKE_REWARD);
}

#[test]
fn test_stroke_reward_returns_zero_with_different_stroke_ids() {
    let n = DRAWING_CANVAS_SIZE * DRAWING_CANVAS_SIZE;
    let mut pixel_data: Vec<PixelData> = vec![PixelData { stroke_id: 0 }; n];
    // Give the oldpos pixel a unique stroke_id
    pixel_data[0] = PixelData { stroke_id: 42 };
    let pixels = grid_pixels();
    let reward = stroke_reward(
        DRAWING_CANVAS_SIZE + 1, // position (1,1)
        0,                       // oldpos 0 has stroke_id 42
        &pixel_data,
        &pixels,
    );
    assert_eq!(
        reward, 0,
        "should return 0 when neighbors have different stroke_id"
    );
}

fn canvas(source_img: Vec<u8>) -> UnprocessedPreset {
    UnprocessedPreset {
        name: "test".to_string(),
        width: DRAWING_CANVAS_SIZE as u32,
        height: DRAWING_CANVAS_SIZE as u32,
        source_img,
    }
}

#[test]
fn test_drawing_optimizer_new_succeeds() {
    let sidelen = DRAWING_CANVAS_SIZE as u32;
    let source_img: Vec<u8> = (0..(sidelen * sidelen * 3) as usize)
        .map(|i| (i % 256) as u8)
        .collect();
    let settings = GenerationSettings::default(7, "test".to_string());
    let colors = make_colors(DRAWING_CANVAS_SIZE * DRAWING_CANVAS_SIZE);
    let result = DrawingOptimizer::new(&canvas(source_img), &settings, &assets(), &colors);
    assert!(
        result.is_ok(),
        "DrawingOptimizer::new should succeed with valid input"
    );
}

#[test]
fn test_drawing_optimizer_new_rejects_invalid_buffer() {
    let source = UnprocessedPreset {
        name: "test".to_string(),
        width: 128,
        height: 128,
        source_img: vec![0; 10], // way too small
    };
    let settings = GenerationSettings::default(7, "test".to_string());
    let colors = make_colors(DRAWING_CANVAS_SIZE * DRAWING_CANVAS_SIZE);
    let result = DrawingOptimizer::new(&source, &settings, &assets(), &colors);
    assert!(result.is_err(), "should reject invalid source buffer");
    assert_eq!(
        result.err().unwrap(),
        "invalid canvas source buffer: 128x128 RGB image got 10 bytes"
    );
}

#[test]
fn test_drawing_optimizer_step_returns_assignments_on_swaps() {
    let sidelen = DRAWING_CANVAS_SIZE as u32;
    // Create a source where pixels are clearly mismatched with target
    let source_img: Vec<u8> = (0..(sidelen * sidelen * 3) as usize)
        .map(|i| ((i * 7) % 256) as u8)
        .collect();
    let mut settings = GenerationSettings::default(7, "test".to_string());
    settings.proximity_importance = 1;
    let colors = make_colors(DRAWING_CANVAS_SIZE * DRAWING_CANVAS_SIZE);
    let mut optimizer =
        DrawingOptimizer::new(&canvas(source_img), &settings, &assets(), &colors).unwrap();
    let pixel_data = PixelData::init_canvas();
    // Run several steps - at least one should produce assignments
    let mut got_assignments = false;
    for _ in 0..10 {
        if optimizer.step(&colors, &pixel_data, 4096).is_some() {
            got_assignments = true;
            break;
        }
    }
    assert!(
        got_assignments,
        "optimizer step should eventually produce assignments"
    );
}

#[test]
fn test_drawing_optimizer_assignments_is_valid_permutation() {
    let sidelen = DRAWING_CANVAS_SIZE as u32;
    let source_img: Vec<u8> = vec![128; (sidelen * sidelen * 3) as usize];
    let settings = GenerationSettings::default(7, "test".to_string());
    let colors = make_colors(DRAWING_CANVAS_SIZE * DRAWING_CANVAS_SIZE);
    let mut optimizer =
        DrawingOptimizer::new(&canvas(source_img), &settings, &assets(), &colors).unwrap();
    let pixel_data = PixelData::init_canvas();
    // Run steps until we get assignments
    for _ in 0..20 {
        if let Some(assignments) = optimizer.step(&colors, &pixel_data, 8192) {
            let n = DRAWING_CANVAS_SIZE * DRAWING_CANVAS_SIZE;
            // Verify it's a valid permutation
            assert_eq!(assignments.len(), n);
            let mut seen = vec![false; n];
            for &a in &assignments {
                assert!(a < n, "assignment out of range: {a}");
                assert!(!std::mem::replace(&mut seen[a], true), "duplicate: {a}");
            }
            return;
        }
    }
    panic!("optimizer never produced assignments in 20 steps");
}

fn target_colors() -> Vec<(u8, u8, u8)> {
    (0..DRAWING_CANVAS_SIZE * DRAWING_CANVAS_SIZE)
        .map(|i| ((i * 37 % 256) as u8, (i / 128) as u8, (i % 128) as u8))
        .collect()
}

#[test]
fn steps_follow_the_seeded_generator() {
    let side = DRAWING_CANVAS_SIZE;
    let n = side * side;
    let colors = make_colors(n);
    let target = target_colors();
    let weights: Vec<i64> = (0..n).map(|i| (i % 256) as i64).collect();
    let strokes: Vec<PixelData> = (0..n)
        .map(|i| PixelData { stroke_id: (i / 700) as u32 })
        .collect();
    let mut optimizer = DrawingOptimizer::start(target.clone(), weights.clone(), 2, &colors);

    let price = |p: (usize, usize), at: usize| {
        heuristic(
            (p.0 as u16, p.1 as u16),
            ((at % side) as u16, (at / side) as u16),
            colors[p.1 * side + p.0],
            target[at],
            weights[at],
            2,
        )
    };
    let mut places: Vec<(usize, usize)> = (0..n).map(|i| (i % side, i / side)).collect();
    let mut costs: Vec<i64> = (0..n).map(|i| price(places[i], i) + STROKE_REWARD).collect();
    let mut rng = frand::Rand::with_seed(12345);
    let bonus = |to: usize, from: usize, places: &[(usize, usize)]| {
        let stroke = |at: usize| strokes[places[at].1 * side + places[at].0].stroke_id;
        let (x, y) = (to % side, to / side);
        let mut near = Vec::new();
        if y > 0 {
            near.push(to - side);
        }
        if x > 0 {
            near.push(to - 1);
        }
        if x + 1 < side {
            near.push(to + 1);
        }
        if y + 1 < side {
            near.push(to + side);
        }
        if near.iter().any(|&p| stroke(p) == stroke(from)) {
            STROKE_REWARD
        } else {
            0
        }
    };
    let mut swaps = 0;
    for _ in 0..20000 {
        let a = rng.gen_range(0..n as u64) as usize;
        let bx = ((a % side) as i16 + rng.gen_range(-32i16..33)).clamp(0, 127) as usize;
        let by = ((a / side) as i16 + rng.gen_range(-32i16..33)).clamp(0, 127) as usize;
        let b = by * side + bx;
        let a_on_b = price(places[a], b) + bonus(b, a, &places);
        let b_on_a = price(places[b], a) + bonus(a, b, &places);
        if (costs[a] - b_on_a) + (costs[b] - a_on_b) > 0 {
            places.swap(a, b);
            costs.swap(a, b);
            costs[a] = b_on_a;
            costs[b] = a_on_b;
            swaps += 1;
        }
    }
    let before: i64 = optimizer.pixels.iter().map(|p| p.h / 1000).sum();
    let got = optimizer.step(&colors, &strokes, 20000);
    let after: i64 = optimizer.pixels.iter().map(|p| p.h / 1000).sum();
    assert!(swaps > 0);
    assert!(after < before);
    assert_eq!(
        got,
        Some(places.iter().map(|p| p.1 * side + p.0).collect::<Vec<usize>>())
    );
    assert!(optimizer.pixels.iter().zip(&costs).all(|(p, &c)| p.h == c));
}

#[test]
fn a_round_reports_and_stops_when_another_drawing_is_current() {
    let side = DRAWING_CANVAS_SIZE;
    let n = side * side;
    let colors = make_colors(n);
    let strokes = PixelData::init_canvas();
    let mut optimizer = DrawingOptimizer::start(target_colors(), vec![255; n], 1, &colors);
    let mut log = MessageLog::new();
    assert!(optimizer.round(&colors, &strokes, 4096, 3, 3, &mut log));
    assert!(matches!(log.messages.last(), Some(ProgressMsg::UpdateAssignments(_))));
    assert!(!optimizer.round(&colors, &strokes, 0, 3, 4, &mut log));
    assert!(matches!(log.messages.last(), Some(ProgressMsg::Cancelled)));
    assert_eq!(log.messages.len(), 2);
}

#[test]
fn budgets_and_strokes() {
    assert_eq!(frame_swap_budget(100), 1024);
    assert_eq!(frame_swap_budget(16384), 4096);
    assert_eq!(frame_swap_budget(1_000_000), 8192);
    assert_eq!(round_swap_budget(16384), 2_097_152);
    assert_eq!(stroke_for(true, 4), 4);
    assert_eq!(stroke_for(false, 4), 5);
}
