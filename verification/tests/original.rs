use lapdw::paths::display_windows_path;
use lapdw::state::{build_segments, PathProbe, PathSearch, SearchStep};

#[test]
fn segments_cover_total() {
    let segs = build_segments(1000, 4);
    assert_eq!(segs.len(), 4);
    assert_eq!(segs[0].start, 0);
    assert_eq!(segs[3].end, 999);
    let covered: u64 = segs.iter().map(|s| s.end - s.start + 1).sum();
    assert_eq!(covered, 1000);
}

#[test]
fn choose_path_renames_on_conflict() {
    // `file.bin` exists and its marker names another URL, so it is skipped;
    // `file(1).bin` is free.
    let url = "https://b.example/file.bin";
    let taken = PathProbe {
        exists: true,
        part_exists: false,
        marker_url: Some("https://a.example/file.bin".to_string()),
        state_url: None,
    };
    let free = PathProbe { exists: false, part_exists: false, marker_url: None, state_url: None };
    let (mut search, mut step) = PathSearch::new("file.bin", url);
    let chosen = loop {
        match step {
            SearchStep::Chosen(name) => break name,
            SearchStep::Probe(_) => {
                let probe = if search.attempt == 0 { &taken } else { &free };
                step = search.feed(probe);
            }
        }
    };
    assert!(chosen.contains("(1)"));
}

#[test]
fn display_path_strips_verbatim_prefix() {
    assert_eq!(display_windows_path(r"\\?\D:\Dev\foo"), r"D:\Dev\foo");
    assert_eq!(display_windows_path(r"\\?\UNC\server\share"), r"\\server\share");
    assert_eq!(display_windows_path(r"D:\Dev\foo"), r"D:\Dev\foo");
}
