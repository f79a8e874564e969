use obamify::catalog::{Algorithm, AlgorithmGroup};
use obamify::images::{decode_picture, load_weights, Crop, Picture};
use obamify::settings::{increment_name, Assets, GenerationSettings};

fn png(width: u32, height: u32, color: fn(u32, u32) -> [u8; 3]) -> Vec<u8> {
    let img = image::RgbImage::from_fn(width, height, |x, y| image::Rgb(color(x, y)));
    let mut bytes = std::io::Cursor::new(Vec::new());
    img.write_to(&mut bytes, image::ImageFormat::Png).unwrap();
    bytes.into_inner()
}

fn assets() -> Assets {
    Assets {
        target: png(256, 256, |x, y| [x as u8, y as u8, 9]),
        weights: png(256, 256, |x, y| [(x / 2 + y / 2) as u8, 1, 2]),
    }
}

fn picture(width: u32, height: u32, color: fn(u32, u32) -> [u8; 3]) -> Picture {
    let mut data = Vec::new();
    for y in 0..height {
        for x in 0..width {
            data.extend(color(x, y));
        }
    }
    Picture::from_vec(width, height, data).unwrap()
}

fn pixel(p: &Picture, x: u32, y: u32) -> [u8; 3] {
    let k = 3 * (y * p.width + x) as usize;
    [p.data[k], p.data[k + 1], p.data[k + 2]]
}

/// The window of a crop given by centre offsets and a zoom.
fn window(x: f32, y: f32, scale: f32, width: u32, height: u32) -> Crop {
    let base = width.min(height) as f32;
    let side = (base / scale.max(1.0)).floor().max(1.0);
    let slide = |v: f32, room: f32| ((v.clamp(-1.0, 1.0) + 1.0) * 0.5 * room).floor() as u32;
    Crop::Window {
        x: slide(x, width as f32 - side),
        y: slide(y, height as f32 - side),
        side: side as u32,
    }
}

#[test]
fn test_crop_scale_identity_returns_default() {
    assert_eq!(Crop::identity(), Crop::Identity);
    assert_eq!(window(0.0, 0.0, 1.0, 10, 10), Crop::Window { x: 0, y: 0, side: 10 });
}

#[test]
fn test_crop_scale_identity_apply_returns_image() {
    let img = picture(10, 10, |_, _| [50, 100, 150]);
    let result = Crop::identity().apply(&img, 10);
    assert_eq!((result.width, result.height), (10, 10));
    assert_eq!(result.data, img.data);
}

#[test]
fn test_crop_scale_zoom_in_crops_smaller_window() {
    let img = picture(20, 20, |x, y| [x as u8, y as u8, 0]);
    // With scale=2, crop_side = 20/2 = 10, which is the size asked for.
    let zoomed = window(0.0, 0.0, 2.0, 20, 20).apply(&img, 10);
    assert_eq!((zoomed.width, zoomed.height), (10, 10));
    // The center crop starts at (5,5).
    let px = pixel(&zoomed, 0, 0);
    assert!(
        (px[0] as i16 - 5).abs() <= 3,
        "R channel {} should be near 5",
        px[0]
    );
    assert_eq!(px, [5, 5, 0]);
}

#[test]
fn test_crop_scale_offset_shifts_window() {
    // Left half red, right half blue.
    let img = picture(20, 20, |x, _| if x < 10 { [255, 0, 0] } else { [0, 0, 255] });
    let left = window(-1.0, 0.0, 2.0, 20, 20).apply(&img, 10);
    let left_px = pixel(&left, 0, 0);
    assert!(
        left_px[0] > 200,
        "left offset should select red region, got R={}",
        left_px[0]
    );
    let right = window(1.0, 0.0, 2.0, 20, 20).apply(&img, 10);
    let right_px = pixel(&right, 0, 0);
    assert!(
        right_px[2] > 200,
        "right offset should select blue region, got B={}",
        right_px[2]
    );
}

#[test]
fn test_crop_scale_clamps_zoom_to_one() {
    let img = picture(10, 10, |_, _| [50, 100, 150]);
    let result = window(0.0, 0.0, 0.5, 10, 10).apply(&img, 10);
    assert_eq!((result.width, result.height), (10, 10));
}

#[test]
fn test_crop_scale_resizes_when_target_sidelen_differs() {
    let img = picture(20, 20, |_, _| [50, 100, 150]);
    let result = Crop::identity().apply(&img, 10);
    assert_eq!((result.width, result.height), (10, 10));
    assert_eq!(pixel(&result, 4, 4), [50, 100, 150]);
}

#[test]
fn test_generation_settings_default_fields() {
    let settings = GenerationSettings::default(99, "test".to_string());
    assert_eq!(settings.name, "test");
    assert_eq!(settings.proximity_importance, 13);
    assert_eq!(settings.sidelen, 128);
    assert_eq!(settings.algorithm, Algorithm::Multiscale);
    assert!(settings.custom_target.is_none());
    assert_eq!(settings.target_crop, Crop::identity());
    assert_eq!(settings.source_crop, Crop::identity());
}

#[test]
fn test_algorithm_catalog_exposes_all_variants_once() {
    assert_eq!(Algorithm::ALL.len(), 10);
    for (idx, algorithm) in Algorithm::ALL.iter().enumerate() {
        assert_eq!(Algorithm::ALL.iter().filter(|a| *a == algorithm).count(), 1);
        assert!(!algorithm.label().is_empty(), "missing label at {idx}");
        assert!(
            !algorithm.short_label().is_empty(),
            "missing short label at {idx}"
        );
        assert!(
            !algorithm.info().description.is_empty(),
            "missing description at {idx}"
        );
    }
}

#[test]
fn test_algorithm_size_caps_match_dense_backend_guardrails() {
    assert_eq!(Algorithm::Auction.max_sidelen(), Some(64));
    assert_eq!(Algorithm::Sinkhorn.max_sidelen(), Some(32));
    assert_eq!(Algorithm::Optimal.max_sidelen(), Some(64));
    assert_eq!(Algorithm::JonkerVolgenant.max_sidelen(), Some(64));
    assert!(Algorithm::Multiscale.supports_sidelen(256));
    assert!(!Algorithm::Sinkhorn.supports_sidelen(64));
}

#[test]
fn test_clone_with_new_id_no_version_appends_v2() {
    let settings = GenerationSettings::default(99, "mypreset".to_string());
    let cloned = settings.clone_with_new_id();
    assert_eq!(cloned.name, "mypreset v2");
    assert_ne!(cloned.id, settings.id);
}

#[test]
fn test_clone_with_new_id_increments_existing_version() {
    let settings = GenerationSettings::default(99, "mypreset v3".to_string());
    let cloned = settings.clone_with_new_id();
    assert_eq!(cloned.name, "mypreset v4");
    assert_ne!(cloned.id, settings.id);
}

#[test]
fn test_get_target_default_loads_target_and_weights() {
    let settings = GenerationSettings::default(99, "test".to_string());
    let (target, weights) = settings.get_target(&assets()).unwrap();
    assert_eq!((target.width, target.height), (settings.sidelen, settings.sidelen));
    assert_eq!(
        weights.len(),
        (settings.sidelen * settings.sidelen) as usize,
        "weights length {} should equal the square of the side {}",
        weights.len(),
        settings.sidelen * settings.sidelen
    );
}

#[test]
fn test_get_target_custom_uses_uniform_weights() {
    let mut settings = GenerationSettings::default(99, "test".to_string());
    settings.sidelen = 64;
    settings.set_raw_target(picture(64, 64, |_, _| [128, 128, 128]));
    let (target, weights) = settings.get_target(&assets()).unwrap();
    assert_eq!((target.width, target.height), (64, 64));
    assert_eq!(weights.len(), 64 * 64);
    // All weights should be 255 (uniform).
    for &w in &weights {
        assert_eq!(w, 255, "custom target should have uniform weight 255");
    }
}

#[test]
fn test_load_weights_uses_red_channel() {
    let img = Picture::from_vec(3, 1, vec![10, 20, 30, 40, 50, 60, 70, 80, 90]).unwrap();
    let weights = load_weights(&img);
    assert_eq!(weights, vec![10, 40, 70]); // only red channel
}

#[test]
fn resizing_agrees_with_the_image_crate() {
    let settings = GenerationSettings::default(99, "test".to_string());
    let (target, weights) = settings.get_target(&assets()).unwrap();
    let scaled = |bytes: &[u8]| {
        let img = image::load_from_memory(bytes).unwrap().to_rgb8();
        image::imageops::resize(&img, 128, 128, image::imageops::FilterType::Lanczos3)
    };
    assert_eq!(target.data, scaled(&assets().target).into_raw());
    let reds: Vec<i64> = scaled(&assets().weights).pixels().map(|p| p[0] as i64).collect();
    assert_eq!(weights, reds);
}

#[test]
fn decoding_gives_the_pixels_that_were_encoded() {
    let bytes = png(5, 3, |x, y| [x as u8 * 10, y as u8 * 20, 7]);
    let decoded = decode_picture(&bytes).unwrap();
    let expected = picture(5, 3, |x, y| [x as u8 * 10, y as u8 * 20, 7]);
    assert_eq!((decoded.width, decoded.height), (5, 3));
    assert_eq!(decoded.data, expected.data);
    assert!(decode_picture(&[1, 2, 3]).is_none());
}

#[test]
fn the_default_crop_is_the_centred_square() {
    let img = picture(9, 4, |x, y| [x as u8, y as u8, 0]);
    let shown = Crop::identity().apply(&img, 4);
    assert_eq!(pixel(&shown, 0, 0), [2, 0, 0]);
    assert_eq!(pixel(&shown, 3, 3), [5, 3, 0]);
    assert!(Picture::from_vec(4, 4, vec![0; 47]).is_none());
}

#[test]
fn versions_count_on() {
    let next = |s: &str| increment_name(&s.to_string());
    assert_eq!(next("cat"), "cat v2");
    assert_eq!(next("cat v9"), "cat v10");
    assert_eq!(next(&next("cat v41")), "cat v43");
    assert_eq!(next("a v2 v7"), "a v2 v8");
    assert_eq!(next("cat vx"), "cat vx v2");
    assert_eq!(next("cat v+3"), "cat v4");
    assert_eq!(next("cat v4294967296"), "cat v4294967296 v2");
    assert_eq!(next("v3"), "v3 v2");
    assert_eq!(next("caf\u{e9} v3"), "caf\u{e9} v4");
}

#[test]
fn fresh_identifiers_differ() {
    let settings = GenerationSettings::default(0, "x".to_string());
    let one = settings.clone_with_new_id();
    let two = settings.clone_with_new_id();
    assert_ne!(one.id, two.id);
    for id in [one.id, two.id] {
        assert_eq!(id >> 76 & 0xf, 4);
        assert_eq!(id >> 62 & 0x3, 2);
    }
    assert_eq!(settings.clone_with_id(5).id, 5);
    assert_eq!(settings.clone_with_id(5).sidelen, settings.sidelen);
}

#[test]
fn modes_and_algorithms_are_grouped() {
    let modes: Vec<&str> = Algorithm::ALL
        .iter()
        .filter(|a| a.info().group == AlgorithmGroup::Mode)
        .map(|a| a.label())
        .collect();
    assert_eq!(modes.len(), 3);
    assert_eq!(Algorithm::default(), Algorithm::Multiscale);
}

#[test]
fn the_raw_target_is_the_custom_one_if_there_is_one() {
    let mut settings = GenerationSettings::default(0, "x".to_string());
    assert_eq!(settings.get_raw_target(&assets()).unwrap().width, 256);
    settings.set_raw_target(picture(3, 2, |_, _| [1, 2, 3]));
    let raw = settings.get_raw_target(&assets()).unwrap();
    assert_eq!((raw.width, raw.height), (3, 2));
    assert_eq!(raw.data, vec![1, 2, 3, 1, 2, 3, 1, 2, 3, 1, 2, 3, 1, 2, 3, 1, 2, 3]);
}
