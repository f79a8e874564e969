use obamify::recorder::{
    padded_bytes_per_row, unpadded, FinishStep, GifError, GifRecorder, GifStatus, SaveOutcome,
    GIF_MAX_FRAMES, GIF_MIN_FRAMES,
};

fn colors() -> Vec<u8> {
    (0..1024u32)
        .flat_map(|i| [(i % 256) as u8, (i / 4) as u8, (i * 7 % 256) as u8, 255])
        .collect()
}

fn frame(shift: u32) -> Vec<u8> {
    (0..160000u32)
        .flat_map(|i| {
            let c = (i / 400 + shift) % 256;
            [c as u8, (c / 2) as u8, (255 - c) as u8, 255]
        })
        .collect()
}

#[test]
fn a_recording_holds_its_palette_and_its_frames() {
    let mut recorder = GifRecorder::new();
    assert!(recorder.not_recording());
    assert!(recorder.init_encoder(&colors()).is_ok());
    assert!(recorder.is_recording());
    assert!(matches!(recorder.try_write_frame(None), Ok(false)));
    assert!(matches!(recorder.try_write_frame(Some(frame(0))), Ok(true)));
    assert!(matches!(recorder.try_write_frame(Some(frame(40))), Ok(true)));
    let bytes = match recorder.finish() {
        FinishStep::Save(bytes) => bytes,
        _ => panic!("nothing to save"),
    };

    let quant = color_quant::NeuQuant::new(1, 256, &colors());
    let palette = quant.color_map_rgb();
    assert_eq!(bytes[..6].to_vec(), b"GIF89a".to_vec());
    assert_eq!(bytes[6..13].to_vec(), vec![144, 1, 144, 1, 0xF7, 0, 0]);
    assert_eq!(bytes[13..781].to_vec(), palette);
    assert_eq!(
        bytes[781..800].to_vec(),
        b"\x21\xFF\x0BNETSCAPE2.0\x03\x01\x00\x00\x00".to_vec()
    );
    assert_eq!(bytes.last(), Some(&0x3B));

    let mut decoder = gif::DecodeOptions::new().read_info(&bytes[..]).unwrap();
    for shift in [0, 40] {
        let shown = decoder.read_next_frame().unwrap().unwrap();
        assert_eq!(shown.delay, 8);
        let expected: Vec<u8> = frame(shift)
            .chunks_exact(4)
            .map(|p| quant.index_of(p) as u8)
            .collect();
        assert_eq!(shown.buffer.to_vec(), expected);
    }
    assert!(decoder.read_next_frame().unwrap().is_none());
}

#[test]
fn frames_need_an_encoder_and_a_palette() {
    let mut recorder = GifRecorder::new();
    let err = recorder.try_write_frame(Some(frame(0))).err().unwrap();
    assert!(matches!(err, GifError::NoEncoder));
    assert_eq!(err.message(), Some("encoder was None during try_write_frame"));
    assert!(recorder.init_encoder(&colors()).is_ok());
    recorder.palette = None;
    let err = recorder.try_write_frame(Some(frame(0))).err().unwrap();
    assert!(matches!(err, GifError::NoPalette));
    assert_eq!(err.message(), Some("No GIF palette"));
}

#[test]
fn recordings_stop_between_their_limits() {
    let mut recorder = GifRecorder::new();
    recorder.should_stop = true;
    recorder.frame_count = GIF_MIN_FRAMES - 1;
    assert!(!recorder.should_stop());
    recorder.frame_count = GIF_MIN_FRAMES;
    assert!(recorder.should_stop());
    recorder.should_stop = false;
    assert!(!recorder.should_stop());
    recorder.frame_count = GIF_MAX_FRAMES;
    assert!(recorder.should_stop());
    recorder.stop();
    assert_eq!(recorder.id, 1);
    assert_eq!(recorder.frame_count, 0);
    assert!(recorder.not_recording());
}

#[test]
fn a_frame_that_would_make_the_file_too_large_is_not_written() {
    let mut recorder = GifRecorder::new();
    let greys: Vec<u8> = (0..2048u32).flat_map(|i| [(i % 256) as u8; 3].into_iter().chain([255])).collect();
    assert!(recorder.init_encoder(&greys).is_ok());
    let noisy: Vec<u8> = (0..160000u32)
        .flat_map(|i| {
            let g = ((i.wrapping_mul(2654435761) >> 13) % 256) as u8;
            [g, g, g, 255]
        })
        .collect();
    let mut written = 0;
    while !recorder.should_stop {
        assert!(matches!(recorder.try_write_frame(Some(noisy.clone())), Ok(true)));
        written += 1;
        assert!(written < 500);
    }
    match recorder.finish() {
        FinishStep::Save(bytes) => assert!(bytes.len() + 160032 > 10 * 1024 * 1024),
        _ => panic!("nothing to save"),
    }
    assert!(!recorder.should_stop);
}

#[test]
fn the_end_of_a_recording_is_noted() {
    let mut recorder = GifRecorder::new();
    assert!(matches!(recorder.finish(), FinishStep::NoEncoder));
    assert!(matches!(&recorder.status, GifStatus::Error(m) if m == "No encoder"));
    assert!(recorder.init_encoder(&colors()).is_ok());
    assert!(!recorder.saved(SaveOutcome::Dismissed));
    assert!(recorder.is_recording());
    assert!(recorder.saved(SaveOutcome::Failed("disk full".to_string())));
    assert!(
        matches!(&recorder.status, GifStatus::Error(m) if m == "failed to save gif: disk full")
    );
    assert!(matches!(recorder.finish(), FinishStep::Unexpected(_)));
    assert!(recorder.saved(SaveOutcome::Written("a.gif".to_string())));
    assert!(matches!(&recorder.status, GifStatus::Complete(p) if p == "a.gif"));
    assert_eq!(recorder.get_name("cat", false), "obamify_cat");
    assert_eq!(recorder.get_name("cat", true), "unobamify_cat");
}

#[test]
fn padding_is_removed_from_rows() {
    assert_eq!(padded_bytes_per_row(400), 1792);
    assert_eq!(padded_bytes_per_row(64), 256);
    assert_eq!(padded_bytes_per_row(65), 512);
    let mut mapped = vec![0u8; 3 * 256];
    for y in 0..3usize {
        for x in 0..8usize {
            mapped[y * 256 + x] = (y * 8 + x) as u8;
        }
    }
    assert_eq!(unpadded(&mapped, 2, 3), (0..24).collect::<Vec<u8>>());
    assert!(unpadded(&mapped, 0, 3).is_empty());
    assert!(unpadded(&mapped, 2, 0).is_empty());
}
