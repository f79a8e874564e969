use obamify::catalog::Algorithm;
use obamify::cost::{assert_valid_permutation, heuristic, total_cost, CostLookup};
use obamify::float::Double;
use obamify::genetic::{run_genetic, shrink_distance};
use obamify::images::{Crop, Picture};
use obamify::job::{build_problem, check_counts, flatten, make_new_img, resolve_job, Job};
use obamify::jonker_volgenant;
use obamify::modes;
use obamify::pipeline::{
    accepts, process, process_auction, process_balanced, process_fast, process_genetic,
    process_jonker_volgenant, process_maximum, process_multiscale, process_optimal,
    process_patchmatch, process_sinkhorn,
};
use obamify::preset::{validate_presets, Preset, UnprocessedPreset};
use obamify::process::{run_jonker_volgenant, run_multiscale, run_optimal};
use obamify::progress::{FnControl, FnSink, MessageLog, ProgressMsg, SolverControl};
use obamify::pyramid::build_pyramid;
use obamify::settings::{Assets, GenerationSettings};

fn png(side: u32, color: fn(u32, u32) -> [u8; 3]) -> Vec<u8> {
    let img = image::RgbImage::from_fn(side, side, |x, y| image::Rgb(color(x, y)));
    let mut bytes = std::io::Cursor::new(Vec::new());
    img.write_to(&mut bytes, image::ImageFormat::Png).unwrap();
    bytes.into_inner()
}

fn assets() -> Assets {
    Assets {
        target: png(256, |x, y| [x as u8, y as u8, (x / 2 + y / 2) as u8]),
        weights: png(256, |x, y| [255 - (x / 4) as u8, y as u8, 0]),
    }
}

fn make_test_preset(sidelen: u32, n: usize) -> (UnprocessedPreset, GenerationSettings) {
    let source_img: Vec<u8> = (0..n)
        .flat_map(|i| {
            let v = (i % 256) as u8;
            [v, v, v]
        })
        .collect();
    let unprocessed = UnprocessedPreset {
        name: "test".to_string(),
        width: sidelen,
        height: sidelen,
        source_img,
    };
    let mut settings = GenerationSettings::default(1, "test".to_string());
    settings.sidelen = sidelen;
    settings.proximity_importance = 0; // avoid spatial dominance in small tests
    settings.algorithm = Algorithm::Optimal;
    (unprocessed, settings)
}

/// A plan that has no preference.
fn even_plan(sidelen: u32) -> Vec<Vec<Double>> {
    let n = (sidelen * sidelen) as usize;
    vec![vec![Double::one(); n]; n]
}

fn msg_type(msg: &ProgressMsg) -> &'static str {
    match msg {
        ProgressMsg::Progress { .. } => "progress",
        ProgressMsg::UpdatePreview { .. } => "update_preview",
        ProgressMsg::UpdateAssignments(_) => "update_assignments",
        ProgressMsg::Done(_) => "done",
        ProgressMsg::Error(_) => "error",
        ProgressMsg::Cancelled => "cancelled",
    }
}

fn types(log: &MessageLog) -> Vec<&'static str> {
    log.messages.iter().map(msg_type).collect()
}

fn done(log: &MessageLog) -> &Preset {
    match log.messages.last() {
        Some(ProgressMsg::Done(p)) => p,
        _ => panic!("no finished preset: {:?}", types(log)),
    }
}

#[test]
fn test_process_dispatches_every_algorithm_variant() {
    let assets = assets();
    for algorithm in Algorithm::ALL {
        let (unprocessed, mut settings) = make_test_preset(4, 16);
        settings.algorithm = algorithm;
        settings.proximity_importance = 1;
        let mut control = SolverControl::default();
        let mut log = MessageLog::new();
        let plan = even_plan(settings.sidelen);
        let result = process(&unprocessed, &settings, &assets, &plan, &mut log, &mut control);
        assert!(result.is_ok(), "{} returned an error", algorithm.label());
        assert!(
            log.messages.iter().any(|m| matches!(m, ProgressMsg::Done(_))),
            "{} did not emit Done; got {:?}",
            algorithm.label(),
            types(&log)
        );
    }
}

#[test]
fn test_process_optimal_4x4_emits_done_preset() {
    let (unprocessed, mut settings) = make_test_preset(4, 16);
    settings.algorithm = Algorithm::Optimal;
    let mut control = SolverControl::default();
    let mut log = MessageLog::new();
    let result = process_optimal(&unprocessed, &settings, &assets(), &mut log, &mut control);
    assert!(result.is_ok(), "process_optimal should succeed");
    let has_done = log.messages.iter().any(|m| matches!(m, ProgressMsg::Done(_)));
    assert!(
        has_done,
        "should emit Done message, got: {:?}",
        types(&log)
    );
}

#[test]
fn test_process_genetic_2x2_converges_to_done() {
    let (unprocessed, mut settings) = make_test_preset(2, 4);
    settings.algorithm = Algorithm::Genetic;
    settings.proximity_importance = 1;
    let mut control = SolverControl::default();
    let mut log = MessageLog::new();
    let result = process_genetic(&unprocessed, &settings, &assets(), &mut log, &mut control);
    assert!(result.is_ok());
    let has_done = log.messages.iter().any(|m| matches!(m, ProgressMsg::Done(_)));
    assert!(has_done, "genetic should converge and emit Done");
}

#[test]
fn test_process_genetic_emits_progress_messages() {
    let (unprocessed, mut settings) = make_test_preset(4, 16);
    settings.algorithm = Algorithm::Genetic;
    settings.proximity_importance = 1;
    let mut control = SolverControl::default();
    let mut log = MessageLog::new();
    let result = process_genetic(&unprocessed, &settings, &assets(), &mut log, &mut control);
    assert!(result.is_ok());
    // Should emit at least one Progress or UpdatePreview message.
    let has_progress = log.messages.iter().any(|m| {
        matches!(
            m,
            ProgressMsg::Progress { .. } | ProgressMsg::UpdatePreview { .. }
        )
    });
    assert!(
        has_progress,
        "genetic should emit progress messages, got: {:?}",
        types(&log)
    );
}

#[test]
fn test_make_new_img_rearranges_pixels() {
    let source_pixels = vec![(10, 20, 30), (40, 50, 60), (70, 80, 90), (100, 110, 120)];
    // assignments[dst] = src: dst 0 -> src 1, dst 1 -> src 0, etc.
    let assignments = vec![1, 0, 3, 2];
    let img = make_new_img(&source_pixels, &assignments, 2);
    // dst 0 should get source_pixels[1] = (40, 50, 60)
    assert_eq!(img[0], 40);
    assert_eq!(img[1], 50);
    assert_eq!(img[2], 60);
    // dst 1 should get source_pixels[0] = (10, 20, 30)
    assert_eq!(img[3], 10);
    assert_eq!(img[4], 20);
    assert_eq!(img[5], 30);
}

#[test]
fn test_make_new_img_output_size_matches_sidelen() {
    let source_pixels = vec![(0, 0, 0); 16];
    let assignments = vec![0; 16];
    let img = make_new_img(&source_pixels, &assignments, 4);
    assert_eq!(img.len(), 4 * 4 * 3);
}

fn job(side: usize, proximity: i64) -> Job {
    let n = side * side;
    Job {
        name: "job".to_string(),
        source: (0..n).map(|i| ((i * 91) as u8, (i * 7) as u8, (i * i) as u8)).collect(),
        target: (0..n).map(|i| ((i * 13) as u8, (i * 3) as u8, 200)).collect(),
        weights: (0..n).map(|i| (i * 11 % 256) as i64).collect(),
        sidelen: side as u32,
        proximity_importance: proximity,
    }
}

#[test]
fn every_finished_preset_can_be_stored_and_used_again() {
    let assets = assets();
    for algorithm in Algorithm::ALL {
        let (unprocessed, mut settings) = make_test_preset(8, 64);
        settings.algorithm = algorithm;
        settings.proximity_importance = 2;
        let mut control = SolverControl::default();
        let mut log = MessageLog::new();
        let plan = even_plan(settings.sidelen);
        process(&unprocessed, &settings, &assets, &plan, &mut log, &mut control).unwrap();
        let preset = done(&log);
        assert!(validate_presets(&[preset.clone()]), "{}", algorithm.label());
        assert_eq!(preset.inner.name, "test");
        assert_eq!(preset.inner.width, 8);
        assert_eq!(preset.inner.source_img, unprocessed.source_img);
    }
}

#[test]
fn exact_runs_deliver_the_cheapest_arrangement() {
    let lookup = job(6, 3).lookup();
    let best = total_cost(&lookup, &jonker_volgenant::solve(&lookup));
    let mut log = MessageLog::new();
    let mut control = SolverControl::default();
    assert!(run_optimal(job(6, 3), &mut log, &mut control));
    assert_eq!(total_cost(&lookup, &done(&log).assignments), best);
    assert_eq!(types(&log), vec!["progress", "update_preview", "done"]);
    let mut log = MessageLog::new();
    assert!(run_jonker_volgenant(job(6, 3), &mut log, &mut control));
    assert_eq!(total_cost(&lookup, &done(&log).assignments), best);
    assert_eq!(
        types(&log),
        vec!["progress", "update_preview", "progress", "done"]
    );
    assert!(matches!(
        log.messages[2],
        ProgressMsg::Progress { num: 95, den: 100 }
    ));
}

#[test]
fn multiscale_runs_report_every_level() {
    let total = build_pyramid(32).len() as u64;
    assert!(total > 1);
    let mut log = MessageLog::new();
    let mut control = SolverControl::default();
    assert!(run_multiscale(job(32, 3), &mut log, &mut control));
    let mut levels: Vec<u64> = log
        .messages
        .iter()
        .filter_map(|m| match m {
            ProgressMsg::Progress { num, den } if *den as u64 == 5 * total => Some(*num as u64 / 4),
            _ => None,
        })
        .collect();
    assert!(levels.windows(2).all(|w| w[0] <= w[1]));
    levels.dedup();
    assert_eq!(levels, (0..=total).collect::<Vec<u64>>());
}

#[test]
fn sizes_past_the_limit_are_answered_with_an_error() {
    let assets = assets();
    let cases = [
        (
            Algorithm::Optimal,
            65,
            "Hungarian exact solve is limited to 4096 pixels; use Multiscale or Balanced for this resolution",
        ),
        (
            Algorithm::JonkerVolgenant,
            65,
            "Jonker-Volgenant exact solve is limited to 4096 pixels; use Multiscale or Balanced for this resolution",
        ),
        (
            Algorithm::Auction,
            65,
            "dense auction is limited to 4096 pixels; use multiscale sparse auction for this resolution",
        ),
        (
            Algorithm::Sinkhorn,
            33,
            "dense Sinkhorn is limited to 1024 pixels; use multiscale sparse auction for this resolution",
        ),
    ];
    for (algorithm, side, message) in cases {
        let (unprocessed, mut settings) = make_test_preset(4, 16);
        settings.sidelen = side;
        settings.algorithm = algorithm;
        let mut control = SolverControl::default();
        let mut log = MessageLog::new();
        process(&unprocessed, &settings, &assets, &[], &mut log, &mut control).unwrap();
        match log.messages.last() {
            Some(ProgressMsg::Error(m)) => assert_eq!(m, message),
            _ => panic!("{:?}", types(&log)),
        }
        assert!(!algorithm.supports_sidelen(side));
    }
}

#[test]
fn a_cancelled_run_ends_with_the_cancellation() {
    let assets = assets();
    for algorithm in Algorithm::ALL {
        let (unprocessed, mut settings) = make_test_preset(4, 16);
        settings.sidelen = 20;
        settings.proximity_importance = 1;
        settings.algorithm = algorithm;
        let mut control = SolverControl::default();
        control.cancel();
        let mut log = MessageLog::new();
        let plan = even_plan(settings.sidelen);
        process(&unprocessed, &settings, &assets, &plan, &mut log, &mut control).unwrap();
        assert!(
            matches!(log.messages.last(), Some(ProgressMsg::Cancelled)),
            "{} {:?}",
            algorithm.label(),
            types(&log)
        );
        assert!(!types(&log).contains(&"done"));
    }
}

#[test]
fn incomplete_pictures_are_refused() {
    let (mut unprocessed, settings) = make_test_preset(4, 16);
    unprocessed.source_img.truncate(10);
    let assets = assets();
    let expected = "invalid source image buffer: 4x4 requires 48 RGB bytes, got 10";
    let mut log = MessageLog::new();
    let mut c = SolverControl::default();
    let (u, s) = (&unprocessed, &settings);
    let all = [
        process_optimal(u, s, &assets, &mut log, &mut c),
        process_jonker_volgenant(u, s, &assets, &mut log, &mut c),
        process_auction(u, s, &assets, &mut log, &mut c),
        process_multiscale(u, s, &assets, &mut log, &mut c),
        process_patchmatch(u, s, &assets, &mut log, &mut c),
        process_fast(u, s, &assets, &mut log, &mut c),
        process_balanced(u, s, &assets, &mut log, &mut c),
        process_maximum(u, s, &assets, &mut log, &mut c),
        process_genetic(u, s, &assets, &mut log, &mut c),
        process_sinkhorn(u, s, &assets, &even_plan(s.sidelen), &mut log, &mut c),
    ];
    for r in all {
        assert_eq!(r, Err(expected.to_string()));
    }
    assert!(log.messages.is_empty());
}

#[test]
fn undecodable_assets_and_outside_crops_are_errors() {
    let (unprocessed, mut settings) = make_test_preset(4, 16);
    let broken = Assets { target: vec![1, 2, 3], weights: Vec::new() };
    assert_eq!(
        resolve_job(&unprocessed, &settings, &broken).err(),
        Some("embedded picture cannot be decoded".to_string())
    );
    settings.target_crop = Crop::Window { x: 200, y: 0, side: 100 };
    assert_eq!(
        resolve_job(&unprocessed, &settings, &assets()).err(),
        Some("crop lies outside the picture".to_string())
    );
}

#[test]
fn a_custom_target_of_the_working_size_is_taken_as_it_is() {
    let (unprocessed, mut settings) = make_test_preset(4, 16);
    let data: Vec<u8> = (0..48).map(|i| (i * 5) as u8).collect();
    settings.set_raw_target(Picture::from_vec(4, 4, data.clone()).unwrap());
    let (lookup, source, target) = build_problem(&unprocessed, &settings, &assets()).unwrap();
    assert_eq!(source[3], (3, 3, 3));
    assert_eq!(flatten(&target), data);
    assert_eq!(lookup.weights, vec![255; 16]);
    assert_eq!(lookup.cost(2, 3), 255 * ((30 - 3) * (30 - 3) + (35 - 3) * (35 - 3) + (40 - 3) * (40 - 3)));
    assert_eq!(check_counts(16, 16), Ok(()));
    assert!(check_counts(16, 9).is_err());
}

#[test]
fn multiscale_runs_report_their_levels() {
    let (unprocessed, mut settings) = make_test_preset(4, 16);
    settings.sidelen = 40;
    settings.algorithm = Algorithm::Multiscale;
    settings.proximity_importance = 1;
    let mut log = MessageLog::new();
    let mut control = SolverControl::default();
    process_multiscale(&unprocessed, &settings, &assets(), &mut log, &mut control).unwrap();
    let shown = types(&log);
    assert_eq!(shown[0], "progress");
    assert_eq!(shown[shown.len() - 3..].to_vec(), vec!["update_preview", "progress", "done"]);
    assert_valid_permutation(&done(&log).assignments, 1600);
}

#[test]
fn sinkhorn_runs_round_the_given_plan() {
    let (unprocessed, mut settings) = make_test_preset(2, 4);
    settings.set_raw_target(Picture::from_vec(2, 2, vec![7; 12]).unwrap());
    let mut plan = vec![vec![Double::zero(); 4]; 4];
    for (d, s) in [(0, 2), (1, 0), (2, 3), (3, 1)] {
        plan[d][s] = Double::one();
    }
    let mut log = MessageLog::new();
    let mut control = SolverControl::default();
    process_sinkhorn(&unprocessed, &settings, &assets(), &plan, &mut log, &mut control).unwrap();
    assert_valid_permutation(&done(&log).assignments, 4);
}

/// Annealing with the generator of `frand` itself.
fn plain_annealing(j: &Job) -> Vec<usize> {
    let side = j.sidelen as usize;
    let n = side * side;
    let price = |src: usize, at: usize| {
        heuristic(
            ((src % side) as u16, (src / side) as u16),
            ((at % side) as u16, (at / side) as u16),
            j.source[src],
            j.target[at],
            j.weights[at],
            j.proximity_importance,
        )
    };
    let mut a: Vec<usize> = (0..n).collect();
    let mut h: Vec<i64> = (0..n).map(|i| price(i, i)).collect();
    let mut rng = frand::Rand::with_seed(12345);
    let mut reach = j.sidelen;
    loop {
        let mut swaps = 0;
        for _ in 0..128 * n {
            let x = rng.gen_range(0..n as u32) as usize;
            let d = reach as i16;
            let last = side as i16 - 1;
            let bx = ((x % side) as i16 + rng.gen_range(-d..(d + 1))).clamp(0, last) as usize;
            let by = ((x / side) as i16 + rng.gen_range(-d..(d + 1))).clamp(0, last) as usize;
            let y = by * side + bx;
            let (x_on_y, y_on_x) = (price(a[x], y), price(a[y], x));
            if (h[x] - y_on_x) + (h[y] - x_on_y) > 0 {
                a.swap(x, y);
                h[x] = y_on_x;
                h[y] = x_on_y;
                swaps += 1;
            }
        }
        if reach < 4 && swaps < 10 {
            return a;
        }
        reach = ((reach as f32 * 0.99) as u32).max(2);
    }
}

#[test]
fn annealing_follows_the_seeded_generator() {
    for side in [2, 5, 9] {
        let mut log = MessageLog::new();
        let mut control = SolverControl::default();
        let expected = plain_annealing(&job(side, 3));
        assert!(run_genetic(job(side, 3), &mut log, &mut control));
        assert_eq!(done(&log).assignments, expected);
        let lookup = job(side, 3).lookup();
        let identity: Vec<usize> = (0..side * side).collect();
        assert!(total_cost(&lookup, &expected) <= total_cost(&lookup, &identity));
    }
}

#[test]
fn distances_shrink_as_single_precision_does() {
    for d in 0..70000u32 {
        assert_eq!(shrink_distance(d), ((d as f32 * 0.99) as u32).max(2));
    }
}

#[test]
fn the_maximum_mode_delivers_what_its_solver_finds() {
    let j = job(7, 2);
    let lookup: CostLookup = j.lookup();
    let expected = modes::solve_maximum(&lookup, &j.source, &j.target, &j.weights, 7, 2);
    let balanced = modes::solve_balanced(&lookup, &j.source, &j.target, &j.weights, 7, 2);
    let mut log = MessageLog::new();
    let mut control = SolverControl::default();
    assert!(obamify::process::run_maximum(j, &mut log, &mut control));
    assert_eq!(done(&log).assignments, expected);
    assert!(total_cost(&lookup, &expected) <= total_cost(&lookup, &balanced));
}

#[test]
fn the_balanced_mode_is_the_multiscale_algorithm() {
    let assets = assets();
    let mut results = Vec::new();
    for algorithm in [Algorithm::Balanced, Algorithm::Multiscale] {
        let (unprocessed, mut settings) = make_test_preset(4, 16);
        settings.sidelen = 24;
        settings.proximity_importance = 3;
        settings.algorithm = algorithm;
        let mut control = SolverControl::default();
        let mut log = MessageLog::new();
        process(&unprocessed, &settings, &assets, &[], &mut log, &mut control).unwrap();
        results.push((types(&log), done(&log).assignments.clone()));
    }
    assert_eq!(results[0], results[1]);
}

#[test]
fn functions_can_watch_and_stop_a_run() {
    let seen = std::cell::RefCell::new(Vec::new());
    let mut sink = FnSink::new(|msg: ProgressMsg| seen.borrow_mut().push(msg_type(&msg)));
    let asked = std::cell::Cell::new(0);
    let mut control = FnControl::new(|| {
        asked.set(asked.get() + 1);
        asked.get() < 4
    });
    assert!(!run_optimal(job(5, 1), &mut sink, &mut control));
    assert_eq!(asked.get(), 4);
    assert_eq!(
        *seen.borrow(),
        vec!["progress", "update_preview", "cancelled"]
    );
}

#[test]
fn inputs_out_of_range_are_not_accepted() {
    let (mut unprocessed, mut settings) = make_test_preset(4, 16);
    assert!(accepts(&unprocessed, &settings));
    settings.sidelen = 37838;
    assert!(!accepts(&unprocessed, &settings));
    settings.sidelen = 256;
    settings.proximity_importance = 11000;
    assert!(accepts(&unprocessed, &settings));
    settings.proximity_importance = -12000;
    assert!(!accepts(&unprocessed, &settings));
    settings.proximity_importance = 13;
    settings.source_crop = Crop::Window { x: 1, y: 0, side: 4 };
    assert!(!accepts(&unprocessed, &settings));
    settings.source_crop = Crop::Window { x: 1, y: 0, side: 3 };
    assert!(accepts(&unprocessed, &settings));
    settings.custom_target = Some(Picture { width: 4, height: 4, data: vec![0; 47] });
    assert!(!accepts(&unprocessed, &settings));
    settings.custom_target = None;
    unprocessed.height = 0;
    assert!(!accepts(&unprocessed, &settings));
}

#[test]
fn runs_without_pixels_finish_with_an_empty_preset() {
    let assets = assets();
    for algorithm in Algorithm::ALL {
        let (unprocessed, mut settings) = make_test_preset(4, 16);
        settings.sidelen = 0;
        settings.proximity_importance = i64::MAX;
        settings.algorithm = algorithm;
        assert!(accepts(&unprocessed, &settings));
        let mut control = SolverControl::default();
        let mut log = MessageLog::new();
        process(&unprocessed, &settings, &assets, &[], &mut log, &mut control).unwrap();
        let preset = done(&log);
        assert_eq!((preset.inner.width, preset.inner.height), (0, 0));
        assert!(preset.inner.source_img.is_empty() && preset.assignments.is_empty());
        assert!(validate_presets(&[preset.clone()]), "{}", algorithm.label());
    }
}

#[test]
fn pictures_without_pixels_are_shown_black() {
    let (mut unprocessed, mut settings) = make_test_preset(4, 16);
    unprocessed.width = 0;
    unprocessed.height = 7;
    unprocessed.source_img.clear();
    settings.set_raw_target(Picture::from_vec(5, 0, vec![]).unwrap());
    assert!(accepts(&unprocessed, &settings));
    let job = resolve_job(&unprocessed, &settings, &assets()).unwrap();
    assert_eq!(job.source, vec![(0, 0, 0); 16]);
    assert_eq!(job.target, vec![(0, 0, 0); 16]);
    assert_eq!(job.weights, vec![255; 16]);
    let none = Picture::from_vec(0, 0, vec![]).unwrap();
    assert!(Crop::identity().apply(&none, 0).data.is_empty());
    assert_eq!(Crop::identity().apply(&none, 2).data, vec![0; 12]);
    let some = Picture::from_vec(2, 2, vec![9; 12]).unwrap();
    assert!(Crop::identity().apply(&some, 0).data.is_empty());
}
