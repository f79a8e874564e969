use obamify::drawing::DRAWING_CANVAS_SIZE;
use obamify::morph::{bin_seeds, init_canvas, init_image, neighbours, CellBody, Sim};
use obamify::preset::{parse_assignments, validate_presets, Preset, UnprocessedPreset};
use obamify::single::grid_side;

fn make_sim(n: usize) -> Sim {
    let mut sim = Sim::new("test".to_string());
    sim.cells = vec![CellBody::new(0, 0, 0, 0); n];
    sim
}

#[test]
fn test_sim_set_assignments_remaps_cells() {
    let n = 4;
    let mut sim = make_sim(n);
    // Assign: dst 0 -> src 2, dst 1 -> src 0, dst 2 -> src 3, dst 3 -> src 1
    let assignments = vec![2, 0, 3, 1];
    sim.set_assignments(&assignments);
    // On a picture of side two, a cell is one unit wide.
    let pixelsize = 2.0 / 2.0;
    let centre = |place: usize| (place as f32 + 0.5) * pixelsize;
    assert!(
        (centre(sim.cells[2].dstx) - 0.5).abs() < 0.01,
        "cell[2].dstx should be ~0.5, got {}",
        centre(sim.cells[2].dstx)
    );
    assert!(
        (centre(sim.cells[0].dstx) - 1.5).abs() < 0.01,
        "cell[0].dstx should be ~1.5 (assigned to dst 1), got {}",
        centre(sim.cells[0].dstx)
    );
}

#[test]
fn test_sim_switch_toggles_src_dst_and_reversed_flag() {
    let n = 4;
    let mut sim = make_sim(n);
    // Set some distinct src/dst values.
    for i in 0..n {
        sim.cells[i].srcx = i;
        sim.cells[i].srcy = 0;
        sim.cells[i].dstx = i + 10;
        sim.cells[i].dsty = 0;
    }
    sim.switch();
    assert!(sim.reversed);
    for i in 0..n {
        assert_eq!(sim.cells[i].srcx, i + 10, "src/dst should be swapped");
        assert_eq!(sim.cells[i].dstx, i, "src/dst should be swapped");
    }
    // Switch back.
    sim.switch();
    assert!(!sim.reversed);
    for i in 0..n {
        assert_eq!(sim.cells[i].srcx, i, "double switch should restore");
        assert_eq!(sim.cells[i].dstx, i + 10, "double switch should restore");
    }
}

#[test]
fn test_sim_prepare_play_resets_seeds_to_source() {
    let n = 4;
    let mut sim = make_sim(n);
    for i in 0..n {
        sim.cells[i].srcx = i;
        sim.cells[i].srcy = i * 2;
        sim.cells[i].dstx = i + 100;
        sim.cells[i].dsty = i + 200;
    }
    let positions = sim.prepare_play(false);
    // After prepare_play (not reversed), positions should be at src.
    for (i, pos) in positions.iter().enumerate().take(n) {
        assert_eq!(pos.0, sim.cells[i].srcx, "pos should reset to src");
        assert_eq!(pos.1, sim.cells[i].srcy, "pos should reset to src");
    }
}

#[test]
fn test_init_image_builds_correct_cell_count() {
    // A minimal preset: 4x4 source image with identity assignments.
    let sidelen = 4;
    let source_img: Vec<u8> = (0..16).flat_map(|i| [i as u8, i as u8, i as u8]).collect();
    let preset = Preset {
        inner: UnprocessedPreset {
            name: "test".to_string(),
            width: sidelen,
            height: sidelen,
            source_img,
        },
        assignments: (0..16).collect(),
    };
    let (seeds_n, seeds, colors, sim) = init_image(preset);
    assert_eq!(seeds_n, 16, "should have 16 seeds for 4x4 image");
    assert_eq!(seeds.len(), 16);
    assert_eq!(sim.cells.len(), 16);
    assert_eq!(seeds[6], (2, 1));
    assert_eq!(colors[6], (6, 6, 6));
}

#[test]
fn test_init_canvas_creates_identity_assignments() {
    let sidelen = DRAWING_CANVAS_SIZE as u32;
    let n = sidelen * sidelen;
    let source_img: Vec<u8> = (0..n).flat_map(|i| [(i % 256) as u8; 3]).collect();
    let source = UnprocessedPreset {
        name: "canvas".to_string(),
        width: sidelen,
        height: sidelen,
        source_img,
    };
    let (seeds_n, _seeds, _colors, sim) = init_canvas(source);
    assert_eq!(seeds_n as usize, n as usize);
    assert_eq!(sim.cells.len(), n as usize);
    for (i, c) in sim.cells.iter().enumerate() {
        assert_eq!((c.srcx, c.srcy), (i % 128, i / 128));
        assert_eq!((c.dstx, c.dsty), (i % 128, i / 128));
    }
}

#[test]
fn test_cell_body_update_increments_age() {
    let mut cell = CellBody::new(0, 0, 0, 0);
    cell.set_age(5);
    cell.update();
    assert_eq!(cell.age, 6);
}

#[test]
fn test_sim_switch_resets_age() {
    let mut sim = make_sim(4);
    for i in 0..4 {
        sim.cells[i].set_age(99);
    }
    sim.switch();
    for cell in &sim.cells {
        assert_eq!(cell.age, 0, "age should reset after switch");
    }
}

#[test]
fn test_sim_name_returns_str() {
    let sim = Sim::new("hello".to_string());
    assert_eq!(sim.name(), "hello");
}

#[test]
fn playing_in_reverse_starts_at_the_destinations() {
    let mut sim = make_sim(4);
    sim.set_assignments(&vec![2, 0, 3, 1]);
    sim.cells[1].set_stroke_id(8);
    let starts = sim.prepare_play(true);
    assert!(sim.reversed);
    // Source 2 goes to place 0, source 0 to 1, source 3 to 2, source 1 to 3.
    assert_eq!(starts, vec![(1, 0), (1, 1), (0, 0), (0, 1)]);
    let again = sim.prepare_play(true);
    assert_eq!(again, starts);
    let forwards = sim.prepare_play(false);
    assert_eq!(forwards, vec![(0, 0), (1, 0), (0, 1), (1, 1)]);
    assert_eq!(sim.cells[1].stroke_id, 8);
}

#[test]
fn the_side_of_a_grid_is_a_root_in_single_precision() {
    assert_eq!(grid_side(0), 0);
    assert_eq!(grid_side(16), 4);
    assert_eq!(grid_side(17), 4);
    // Just below 4097 squared, and rounded up to 4097.
    assert_eq!(grid_side(16_785_408), 4097);
    let mut counts: Vec<usize> = (0..3000).collect();
    for side in [4095usize, 4096, 4097, 5000, 8191, 10_007, 46_341, 65_535, 65_536, 94_000] {
        counts.extend((side * side - 40)..(side * side + 40));
    }
    for n in counts {
        assert_eq!(grid_side(n), (n as f32).sqrt() as usize, "{n}");
    }
}

#[test]
fn bins_and_neighbours() {
    let grid = bin_seeds(&[0, 4, 0, 5, 10, 15], 16);
    assert_eq!(grid[0], vec![0, 2]);
    assert_eq!(grid[4], vec![1]);
    assert!(grid[1].is_empty());
    // Around the corner: the bins (0,0), (1,0), (0,1) and (1,1), without seed 0.
    assert_eq!(neighbours(&grid, 4, 0, 0, 0), vec![2, 1, 3]);
    // The last column and row are not looked at.
    assert_eq!(neighbours(&grid, 4, 3, 3, 9), vec![4]);
}

#[test]
fn lists_of_indices_are_read_strictly() {
    assert_eq!(parse_assignments(b"[3,0,2,1]"), Some(vec![3, 0, 2, 1]));
    assert_eq!(parse_assignments(b"[7]"), Some(vec![7]));
    assert_eq!(parse_assignments(b"[+7,007]"), Some(vec![7, 7]));
    assert_eq!(
        parse_assignments(b"[18446744073709551615]"),
        Some(vec![18446744073709551615])
    );
    for bad in [
        &b"[18446744073709551616]"[..],
        b"[]",
        b"[1, 2]",
        b"[1,]",
        b"[1]\n",
        b"1,2",
        b"[",
        b"",
        b"[+]",
        b"[-1]",
    ] {
        assert_eq!(parse_assignments(bad), None);
    }
}

#[test]
fn stored_presets_are_validated() {
    let good = Preset {
        inner: UnprocessedPreset {
            name: "p".to_string(),
            width: 2,
            height: 2,
            source_img: vec![0; 12],
        },
        assignments: vec![3, 1, 0, 2],
    };
    assert!(validate_presets(&[good.clone()]));
    assert!(!validate_presets(&[]));
    let mut short = good.clone();
    short.inner.source_img.pop();
    assert!(!validate_presets(&[good.clone(), short]));
    let mut oblong = good.clone();
    oblong.inner.width = 4;
    oblong.inner.height = 1;
    assert!(!validate_presets(&[oblong]));
    let mut twice = good.clone();
    twice.assignments[0] = 1;
    assert!(!validate_presets(&[twice]));
    let mut far = good;
    far.assignments[0] = 4;
    assert!(!validate_presets(&[far]));
}
