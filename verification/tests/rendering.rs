use obamify::render::{ends_in_second, flood_passes, texture_rows, GuiMode};
use obamify::web::{worker_script, worker_url};

#[test]
fn flooding_halves_its_jumps() {
    let passes = flood_passes(2048, 2048);
    let steps: Vec<u32> = passes.iter().map(|p| p.step).collect();
    assert_eq!(steps, vec![1024, 512, 256, 128, 64, 32, 16, 8, 4, 2, 1]);
    assert!(ends_in_second(&passes));
    for (i, p) in passes.iter().enumerate() {
        assert_eq!(p.into_second, i % 2 == 0);
        assert_eq!(p.clear, i == 0);
    }
    let steps: Vec<u32> = flood_passes(5, 400).iter().map(|p| p.step).collect();
    assert_eq!(steps, vec![256, 128, 64, 32, 16, 8, 4, 2, 1]);
    assert!(flood_passes(1, 1).is_empty());
    assert!(!ends_in_second(&flood_passes(1, 0)));
    assert_eq!(flood_passes(2, 1).len(), 1);
}

#[test]
fn textures_have_rows_for_all_seeds() {
    assert_eq!(texture_rows(0), 0);
    assert_eq!(texture_rows(1), 1);
    assert_eq!(texture_rows(1024), 1);
    assert_eq!(texture_rows(1025), 2);
    assert_eq!(texture_rows(u32::MAX), 4194304);
    assert_ne!(GuiMode::Draw, GuiMode::Transform);
}

#[test]
fn the_worker_loads_the_running_script() {
    let some = |s: &str| Some(s.to_string());
    assert_eq!(
        worker_script(some("https://example.org/a/obamify-1f.js"), None),
        "./obamify-1f.js"
    );
    assert_eq!(worker_script(some("plain.js"), some("obamify-2.js")), "./plain.js");
    assert_eq!(worker_script(some("a/"), None), "./");
    assert_eq!(
        worker_script(None, some("Error\n at f (http://h/obamify-9ab.js:1:2) obamify-x.js")),
        "./obamify-9ab.js"
    );
    assert_eq!(worker_script(None, some("at obamify-9ab.wasm")), "./obamify.js");
    assert_eq!(worker_script(None, some("nothing .js")), "./obamify.js");
    assert_eq!(worker_script(None, None), "./obamify.js");
    assert_eq!(worker_url("./x.js"), "./worker.js?script=./x.js");
}
