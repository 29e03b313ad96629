use lapdw::client::{auth_headers, pool_size, proxy_setting};
use lapdw::digest::{check_digest, normalize_expected_sha256, Sha256Hasher};
use lapdw::engine::{
    absorb_outcome, begin_sequential, check_not_cancelled, check_segment_status,
    check_sequential_status, download_result, finish_parallel, finish_segment, finish_sequential,
    interpret_probe, plan_file, FileAction, is_retryable, parse_content_range_total,
    pick_filename, plan_parallel, plan_sequential, resume_range_header, retry_delay,
    segment_range_header, segment_retry_step, sequential_retry_step, should_flush, use_parallel,
    DownloadResult, ProbeResponse, ProgressEvent, RetryStep, WorkerOutcome,
};
use lapdw::filename::{
    filename_from_headers, filename_from_url, filename_from_url_path, from_hex,
    parse_content_disposition, percent_decode, percent_decode_bytes, sanitize_filename,
};
use lapdw::locale::{locale_candidates, locale_id_from_path, locale_name, sort_locales, LocaleInfo};
use lapdw::paths::{app_path, display_windows_path, to_display_path, AppPath};
use lapdw::settings::{Settings, SettingsPatch};
use lapdw::state::{
    accepts_candidate, build_segments, candidate_name, conflict_path_name, marker_matches,
    PathSearch, SearchStep,
    marker_text, part_path, split_name, state_path, url_marker_path, DownloadState, PathProbe,
    Segment,
};
use lapdw::tasks::{QueueRunner, TaskList, TaskRecord, TaskStatus};
use lapdw::window_state::{
    decoration_delta, frame_from_rect, is_normal_position, is_normal_size, record_window,
    restore_plan, RestoredFrame, WindowSnapshot, WindowState,
};

fn seg(index: u32, start: u64, end: u64, cursor: u64) -> Segment {
    Segment { index, start, end, cursor }
}

#[test]
fn plan_with_remainder_goes_to_last_worker() {
    let segs = build_segments(10, 3);
    assert_eq!(segs, vec![seg(0, 0, 2, 0), seg(1, 3, 5, 3), seg(2, 6, 9, 6)]);
}

#[test]
fn plan_zero_threads_means_one_worker() {
    assert_eq!(build_segments(5, 0), vec![seg(0, 0, 4, 0)]);
}

#[test]
fn plan_fewer_bytes_than_workers_is_one_byte() {
    assert_eq!(build_segments(3, 4), vec![seg(0, 0, 0, 0)]);
    assert_eq!(build_segments(0, 1), vec![seg(0, 0, 0, 0)]);
}

#[test]
fn segment_progress_counts() {
    assert!(!seg(0, 10, 19, 10).done());
    assert_eq!(seg(0, 10, 19, 10).downloaded(), 0);
    assert_eq!(seg(0, 10, 19, 15).downloaded(), 5);
    assert_eq!(seg(0, 10, 19, 25).downloaded(), 10);
    assert!(seg(0, 10, 19, 20).done());
}

#[test]
fn state_completion_matches_byte_count() {
    let mut st = DownloadState { url: "u".into(), total: 10, threads: 2, segments: build_segments(10, 2) };
    assert_eq!(st.completed_bytes(), 0);
    assert!(!st.all_done());
    st.set_cursor(0, 5);
    st.set_cursor(1, 10);
    assert_eq!(st.completed_bytes(), 10);
    assert!(st.all_done());
    let empty = DownloadState { url: "u".into(), total: 0, threads: 1, segments: vec![] };
    assert!(!empty.all_done());
}

#[test]
fn set_cursor_unknown_index_changes_nothing() {
    let mut st = DownloadState { url: "u".into(), total: 10, threads: 2, segments: build_segments(10, 2) };
    st.set_cursor(7, 3);
    assert_eq!(st.segments, build_segments(10, 2));
}

#[test]
fn side_file_names() {
    assert_eq!(part_path("/d/a.bin"), "/d/a.bin.part");
    assert_eq!(state_path("/d/a.bin"), "/d/a.bin.lapdwstate");
    assert_eq!(url_marker_path("/d/a.bin"), "/d/a.bin.lapdwurl");
}

#[test]
fn marker_text_trims() {
    assert_eq!(marker_text("  https://x/a \n"), Some("https://x/a".to_string()));
    assert_eq!(marker_text(" \n\t"), None);
}

#[test]
fn split_name_cases() {
    assert_eq!(split_name("a.tar.gz"), ("a.tar".to_string(), "gz".to_string()));
    assert_eq!(split_name("noext"), ("noext".to_string(), String::new()));
    assert_eq!(split_name(".hidden"), (".hidden".to_string(), String::new()));
    assert_eq!(split_name("trail."), ("trail.".to_string(), String::new()));
}

#[test]
fn candidate_names_in_order() {
    assert_eq!(candidate_name("a.bin", 0), Some("a.bin".to_string()));
    assert_eq!(candidate_name("a.bin", 2), Some("a(2).bin".to_string()));
    assert_eq!(candidate_name("readme", 12), Some("readme(12)".to_string()));
    assert_eq!(candidate_name("a.bin", 9999), Some("a(9999).bin".to_string()));
    assert_eq!(candidate_name("a.bin", 10000), None);
    assert_eq!(conflict_path_name("a.bin"), "a.conflict");
}

#[test]
fn candidate_acceptance() {
    let url = "https://x/a.bin";
    let partial_same = PathProbe {
        exists: false,
        part_exists: true,
        marker_url: None,
        state_url: Some(url.to_string()),
    };
    assert!(accepts_candidate(true, &partial_same, url));
    assert!(!accepts_candidate(false, &partial_same, url));
    let finished_unknown = PathProbe { exists: true, part_exists: false, marker_url: None, state_url: None };
    assert!(!accepts_candidate(true, &finished_unknown, url));
    let same_marker = PathProbe {
        exists: true,
        part_exists: false,
        marker_url: Some(url.to_string()),
        state_url: None,
    };
    assert!(accepts_candidate(false, &same_marker, url));
    assert!(marker_matches(None, url));
    assert!(!marker_matches(Some("https://y"), url));
}

#[test]
fn hex_digits() {
    assert_eq!(from_hex(b'7'), Some(7));
    assert_eq!(from_hex(b'c'), Some(12));
    assert_eq!(from_hex(b'F'), Some(15));
    assert_eq!(from_hex(b'g'), None);
}

#[test]
fn percent_decoding() {
    assert_eq!(percent_decode_bytes(b"a%20b+c%2"), b"a b c%2".to_vec());
    assert_eq!(percent_decode("%E4%B8%AD.bin"), "中.bin");
    assert_eq!(percent_decode("%FF"), "\u{FFFD}");
    assert_eq!(percent_decode("%zz"), "%zz");
}

#[test]
fn sanitizing() {
    assert_eq!(sanitize_filename("  \"a:b?.txt\"  "), "a_b_.txt");
    assert_eq!(sanitize_filename("name..."), "name");
    assert_eq!(sanitize_filename("tab\there"), "tab_here");
    assert_eq!(sanitize_filename("'quoted'"), "quoted");
}

#[test]
fn content_disposition_forms() {
    assert_eq!(
        parse_content_disposition("attachment; filename=\"model.safetensors\""),
        Some("model.safetensors".to_string())
    );
    assert_eq!(
        parse_content_disposition("attachment; filename=\"a.bin\"; filename*=UTF-8''%E4%B8%AD.bin"),
        Some("中.bin".to_string())
    );
    assert_eq!(parse_content_disposition("attachment; FILENAME=x.zip"), Some("x.zip".to_string()));
    assert_eq!(parse_content_disposition("inline"), None);
    assert_eq!(parse_content_disposition("attachment; filename=\"\""), None);
}

#[test]
fn url_names() {
    assert_eq!(filename_from_url("https://example.com/a/b/file.zip?x=1"), "file.zip");
    assert_eq!(filename_from_url("https://example.com/dir/"), "dir");
    assert_eq!(filename_from_url("https://example.com"), "download.bin");
    assert_eq!(filename_from_url("not a url"), "download.bin");
    assert_eq!(filename_from_url("https://example.com/%E4%B8%AD%20x.bin"), "中 x.bin");
    assert_eq!(filename_from_url_path(Some("/a/..")), "download.bin");
    assert_eq!(filename_from_url_path(None), "download.bin");
}

#[test]
fn header_names() {
    assert_eq!(
        filename_from_headers(Some("attachment; filename=\"w/x.bin\""), "https://h/y.bin"),
        "w_x.bin"
    );
    assert_eq!(filename_from_headers(Some("inline"), "https://h/y.bin"), "y.bin");
    assert_eq!(filename_from_headers(None, "https://h/y.bin"), "y.bin");
}

#[test]
fn content_range_totals() {
    assert_eq!(parse_content_range_total("bytes 0-0/12345"), Some(12345));
    assert_eq!(parse_content_range_total("BYTES 0-0/7"), Some(7));
    assert_eq!(parse_content_range_total("bytes 0-0/*"), None);
    assert_eq!(parse_content_range_total("bytes0-0/5"), None);
    assert_eq!(parse_content_range_total("bytes 0-0"), None);
    assert_eq!(parse_content_range_total("bytes 0-0/+9"), Some(9));
    assert_eq!(parse_content_range_total("bytes 0-0/99999999999999999999"), None);
}

#[test]
fn retry_classification() {
    assert!(is_retryable("segment 1 connection closed early (remaining 5)"));
    assert!(is_retryable("GET failed: 503 Service Unavailable"));
    assert!(!is_retryable("probe failed: 403 Forbidden"));
    assert!(!is_retryable("Unauthorized: connection"));
    assert!(!is_retryable("disk full"));
}

#[test]
fn retry_delays() {
    assert_eq!(retry_delay(0), 500);
    assert_eq!(retry_delay(1), 500);
    assert_eq!(retry_delay(2), 1000);
    assert_eq!(retry_delay(4), 4000);
    assert_eq!(retry_delay(5), 8000);
    assert_eq!(retry_delay(100), 8000);
}

#[test]
fn retry_steps() {
    match segment_retry_step(3, 0, "read: connection reset") {
        RetryStep::Retry { attempt, delay_ms, message } => {
            assert_eq!(attempt, 1);
            assert_eq!(delay_ms, 500);
            assert_eq!(message, "segment 3 retry 1/8: read: connection reset");
        }
        RetryStep::GiveUp(_) => panic!("expected a retry"),
    }
    match segment_retry_step(3, 8, "read: connection reset") {
        RetryStep::GiveUp(e) => assert_eq!(e, "segment 3 failed after 8 retries: read: connection reset"),
        RetryStep::Retry { .. } => panic!("expected to give up"),
    }
    match sequential_retry_step(0, "cancelled") {
        RetryStep::GiveUp(e) => assert_eq!(e, "cancelled"),
        RetryStep::Retry { .. } => panic!("expected to give up"),
    }
    match sequential_retry_step(2, "timeout") {
        RetryStep::Retry { attempt, delay_ms, message } => {
            assert_eq!((attempt, delay_ms), (3, 2000));
            assert_eq!(message, "retry 3/8: timeout");
        }
        RetryStep::GiveUp(_) => panic!("expected a retry"),
    }
    match sequential_retry_step(8, "timeout") {
        RetryStep::GiveUp(e) => assert_eq!(e, "download failed after 8 retries: timeout"),
        RetryStep::Retry { .. } => panic!("expected to give up"),
    }
}

fn probe(status: u16, text: &str) -> ProbeResponse {
    ProbeResponse {
        status,
        status_text: text.to_string(),
        content_range: None,
        content_length: None,
        accept_ranges: None,
        content_disposition: None,
        final_url: "https://cdn.example/files/model.bin".to_string(),
    }
}

#[test]
fn probe_partial_content() {
    let mut r = probe(206, "206 Partial Content");
    r.content_range = Some("bytes 0-0/4096".to_string());
    r.content_length = Some("1".to_string());
    let info = interpret_probe(&r).unwrap();
    assert_eq!(info.size, 4096);
    assert!(info.supports_range);
    assert_eq!(info.filename, "model.bin");
    assert_eq!(info.resolved_url, "https://cdn.example/files/model.bin");
}

#[test]
fn probe_full_response() {
    let mut r = probe(200, "200 OK");
    r.content_length = Some("777".to_string());
    r.accept_ranges = Some("Bytes".to_string());
    r.content_disposition = Some("attachment; filename=x.gguf".to_string());
    let info = interpret_probe(&r).unwrap();
    assert_eq!(info.size, 777);
    assert!(info.supports_range);
    assert_eq!(info.filename, "x.gguf");
    let mut r = probe(206, "206 Partial Content");
    r.content_length = Some("1".to_string());
    let info = interpret_probe(&r).unwrap();
    assert_eq!(info.size, 0);
}

#[test]
fn probe_failures() {
    assert_eq!(
        interpret_probe(&probe(403, "403 Forbidden")).err().unwrap(),
        "probe failed: 403 Forbidden (check Hugging Face token / cookie in settings)"
    );
    assert_eq!(
        interpret_probe(&probe(404, "404 Not Found")).err().unwrap(),
        "probe failed: 404 Not Found"
    );
}

#[test]
fn naming_and_mode() {
    assert_eq!(pick_filename(Some("  "), "remote.bin"), "remote.bin");
    assert_eq!(pick_filename(Some("mine.bin"), "remote.bin"), "mine.bin");
    assert_eq!(pick_filename(None, "remote.bin"), "remote.bin");
    assert!(use_parallel(10, true, 4));
    assert!(!use_parallel(10, true, 1));
    assert!(!use_parallel(0, true, 4));
    assert!(!use_parallel(10, false, 4));
}

#[test]
fn parallel_plan_resumes_same_download() {
    let mut segs = build_segments(100, 2);
    segs[0].cursor = 30;
    let saved = DownloadState { url: "https://a/x".into(), total: 100, threads: 2, segments: segs.clone() };
    let p = plan_parallel(Some(saved), "https://a/x", 100, 4);
    assert!(!p.discard_part && !p.discard_state && !p.finished);
    assert_eq!(p.state.segments, segs);
    let other = DownloadState { url: "https://b/x".into(), total: 100, threads: 2, segments: segs };
    let p = plan_parallel(Some(other), "https://a/x", 100, 4);
    assert!(p.discard_part && p.discard_state);
    assert_eq!(p.state.segments, build_segments(100, 4));
    let p = plan_parallel(None, "https://a/x", 100, 4);
    assert!(p.discard_part && !p.discard_state);
    assert_eq!(p.state.url, "https://a/x");
}

#[test]
fn parallel_plan_finished() {
    let mut segs = build_segments(10, 2);
    for s in segs.iter_mut() {
        s.cursor = s.end + 1;
    }
    let saved = DownloadState { url: "u".into(), total: 10, threads: 2, segments: segs };
    assert!(plan_parallel(Some(saved), "u", 10, 2).finished);
}

#[test]
fn sequential_plan() {
    let saved = DownloadState { url: "u".into(), total: 50, threads: 1, segments: vec![seg(0, 0, 49, 20)] };
    let p = plan_sequential(Some(saved), "u", 0, Some(7));
    assert_eq!((p.offset, p.total, p.finished), (20, 50, false));
    let p = plan_sequential(None, "u", 40, Some(40));
    assert_eq!((p.offset, p.total, p.finished), (40, 40, true));
    let other = DownloadState { url: "v".into(), total: 50, threads: 1, segments: vec![] };
    let p = plan_sequential(Some(other), "u", 0, Some(9));
    assert_eq!((p.offset, p.total), (0, 0));
}

#[test]
fn request_headers() {
    assert_eq!(segment_range_header(&seg(1, 100, 199, 150)), "bytes=150-199");
    assert_eq!(resume_range_header(0), None);
    assert_eq!(resume_range_header(42), Some("bytes=42-".to_string()));
}

#[test]
fn status_checks() {
    assert!(check_segment_status(2, 206, "206 Partial Content").is_ok());
    assert_eq!(check_segment_status(2, 200, "200 OK").err().unwrap(), "segment 2 range failed: 200 OK");
    assert!(check_sequential_status(200, "200 OK", 0).is_ok());
    assert_eq!(
        check_sequential_status(200, "200 OK", 10).err().unwrap(),
        "server does not support resume at offset 10"
    );
    assert_eq!(check_sequential_status(500, "500 Internal Server Error", 0).err().unwrap(), "GET failed: 500 Internal Server Error");
}

#[test]
fn sequential_bookkeeping() {
    let mut st = DownloadState { url: "u".into(), total: 0, threads: 1, segments: vec![] };
    let total = begin_sequential(&mut st, 0, Some(90), 10);
    assert_eq!(total, 100);
    assert_eq!(st.total, 100);
    assert_eq!(st.segments, vec![seg(0, 0, 99, 10)]);
    st.set_first_cursor(60);
    assert_eq!(st.segments[0].cursor, 60);
    let mut st2 = DownloadState { url: "u".into(), total: 0, threads: 1, segments: vec![] };
    assert_eq!(begin_sequential(&mut st2, 0, None, 0), 0);
    assert!(st2.segments.is_empty());
    assert!(finish_sequential(0, 5).is_ok());
    assert!(finish_sequential(100, 100).is_ok());
    assert_eq!(finish_sequential(100, 60).err().unwrap(), "connection closed early (remaining 40)");
}

#[test]
fn segment_completion() {
    assert!(finish_segment(&seg(0, 0, 9, 10)).is_ok());
    assert_eq!(
        finish_segment(&seg(4, 0, 9, 6)).err().unwrap(),
        "segment 4 connection closed early (remaining 4)"
    );
    assert!(should_flush(true, 0, 0));
    assert!(should_flush(false, 512 * 1024, 0));
    assert!(should_flush(false, 0, 300));
    assert!(!should_flush(false, 1000, 299));
}

#[test]
fn worker_outcomes() {
    let (e, stop) = absorb_outcome(None, WorkerOutcome::Finished);
    assert!(e.is_none() && !stop);
    let (e, stop) = absorb_outcome(None, WorkerOutcome::Failed("cancelled".into()));
    assert!(e.is_none() && stop);
    let (e, stop) = absorb_outcome(None, WorkerOutcome::Failed("boom".into()));
    assert_eq!(e.as_deref(), Some("boom"));
    assert!(stop);
    let (e, _) = absorb_outcome(Some("first".into()), WorkerOutcome::JoinFailed("panic".into()));
    assert_eq!(e.as_deref(), Some("first"));
    let (e, _) = absorb_outcome(None, WorkerOutcome::JoinFailed("panic".into()));
    assert_eq!(e.as_deref(), Some("worker join: panic"));
}

#[test]
fn progress_event_fields() {
    let ev = ProgressEvent::new("t1", 5, 10, 99, "downloading");
    assert_eq!((ev.task_id.as_str(), ev.downloaded, ev.total, ev.speed_bps, ev.message.as_str()), ("t1", 5, 10, 99, "downloading"));
}

#[test]
fn sha256_of_abc() {
    let mut h = Sha256Hasher::new();
    h.update(b"a");
    h.update(b"bc");
    assert_eq!(h.finish_hex(), "ba7816bf8f01cfea414140de5dae2223b00361a396177a9cb410ff61f20015ad");
}

#[test]
fn sha256_expectations() {
    let good = " BA7816BF8F01CFEA414140DE5DAE2223B00361A396177A9CB410FF61F20015AD ";
    assert_eq!(
        normalize_expected_sha256(good).unwrap(),
        "ba7816bf8f01cfea414140de5dae2223b00361a396177a9cb410ff61f20015ad"
    );
    assert_eq!(normalize_expected_sha256("abc").err().unwrap(), "invalid sha256 value");
    assert!(check_digest("aa", "aa").is_ok());
    assert_eq!(check_digest("aa", "bb").err().unwrap(), "sha256 mismatch: got aa, want bb");
}

fn settings() -> Settings {
    Settings::default()
}

#[test]
fn settings_defaults_and_normal_form() {
    let d = settings();
    assert_eq!((d.theme.as_str(), d.locale.as_str(), d.threads), ("dark", "zh", 16));
    assert_eq!(d.proxy, "http://127.0.0.1:6990");
    let mut s = settings();
    s.theme = " light ".into();
    s.locale = "fr".into();
    s.threads = 0;
    s.hf_token = "  hf_x ".into();
    s.save_dir = r"  \\?\D:\Dl  ".into();
    let n = s.normalized();
    assert_eq!((n.theme.as_str(), n.locale.as_str(), n.threads), ("light", "zh", 1));
    assert_eq!(n.hf_token, "hf_x");
    assert_eq!(n.save_dir, r"D:\Dl");
    let mut s = settings();
    s.threads = 500;
    assert_eq!(s.normalized().threads, 64);
}

#[test]
fn settings_normalize_twice() {
    let mut s = settings();
    s.theme = "light".into();
    s.cookie = " c=1 ".into();
    let once = s.normalized();
    let copy = Settings {
        theme: once.theme.clone(),
        locale: once.locale.clone(),
        hf_token: once.hf_token.clone(),
        token: once.token.clone(),
        cookie: once.cookie.clone(),
        use_proxy: once.use_proxy,
        proxy: once.proxy.clone(),
        threads: once.threads,
        save_dir: once.save_dir.clone(),
    };
    let twice = copy.normalized();
    assert_eq!((twice.theme, twice.cookie), (once.theme, once.cookie));
}

#[test]
fn tokens_and_headers() {
    let mut s = settings();
    assert_eq!(s.effective_token(), None);
    s.token = "gen".into();
    assert_eq!(s.effective_token(), Some("gen"));
    s.hf_token = "hf".into();
    assert_eq!(s.effective_token(), Some("hf"));
    s.cookie = "k=v".into();
    let h = auth_headers(&s);
    assert_eq!(h.authorization.as_deref(), Some("Bearer hf"));
    assert_eq!(h.cookie.as_deref(), Some("k=v"));
    assert_eq!(s.resolve_save_dir("/home/u/Downloads/lapdw"), "/home/u/Downloads/lapdw");
    s.save_dir = "/data".into();
    assert_eq!(s.resolve_save_dir("/home/u/Downloads/lapdw"), "/data");
}

#[test]
fn proxy_and_pool() {
    let mut s = settings();
    assert_eq!(proxy_setting(&s), Ok(None));
    s.use_proxy = true;
    assert_eq!(proxy_setting(&s), Ok(Some("http://127.0.0.1:6990".to_string())));
    s.proxy = String::new();
    assert_eq!(proxy_setting(&s), Err("proxy enabled but proxy address is empty".to_string()));
    s.threads = 0;
    assert_eq!(pool_size(&s), 1);
    s.threads = 8;
    assert_eq!(pool_size(&s), 8);
}

#[test]
fn settings_patch() {
    let patch = SettingsPatch {
        theme: Some("light".into()),
        locale: None,
        hf_token: None,
        token: Some(" t ".into()),
        cookie: None,
        use_proxy: Some(true),
        proxy: None,
        threads: Some(100),
        save_dir: None,
    };
    let s = settings().apply_patch(patch);
    assert_eq!((s.theme.as_str(), s.token.as_str(), s.use_proxy, s.threads), ("light", "t", true, 64));
    assert_eq!(s.locale, "zh");
}

fn record(id: &str, url: &str, status: TaskStatus) -> TaskRecord {
    TaskRecord {
        id: id.into(),
        url: url.into(),
        save_path: String::new(),
        sha256: String::new(),
        status,
        downloaded: 0,
        total: 0,
        speed_bps: 7,
        message: String::new(),
        error: String::new(),
    }
}

#[test]
fn restore_requeues_running() {
    let list = TaskList::restored(vec![record("a", "https://x/1", TaskStatus::Running), record("b", "https://x/2", TaskStatus::Completed)]);
    assert_eq!(list.tasks[0].status, TaskStatus::Queued);
    assert_eq!(list.tasks[0].message, "interrupted");
    assert_eq!(list.tasks[0].speed_bps, 0);
    assert_eq!(list.tasks[1].status, TaskStatus::Completed);
}

#[test]
fn add_urls_dedups_and_orders() {
    let mut list = TaskList { tasks: vec![record("a", "https://x/done", TaskStatus::Completed), record("b", "https://x/failed", TaskStatus::Failed)] };
    let added = list
        .add_urls(vec![
            "https://x/new1\r\n# comment\n\n  https://x/done  \nhttps://x/failed\n".to_string(),
            "https://x/new1\nhttps://x/new2".to_string(),
        ])
        .unwrap();
    let urls: Vec<&str> = added.iter().map(|t| t.url.as_str()).collect();
    assert_eq!(urls, vec!["https://x/new1", "https://x/failed", "https://x/new2"]);
    let all: Vec<&str> = list.tasks.iter().map(|t| t.url.as_str()).collect();
    assert_eq!(all, vec!["https://x/new2", "https://x/failed", "https://x/new1", "https://x/done", "https://x/failed"]);
    assert!(added.iter().all(|t| t.status == TaskStatus::Queued && !t.id.is_empty()));
    assert_ne!(added[0].id, added[1].id);
}

#[test]
fn add_urls_rejects_non_http() {
    let mut list = TaskList { tasks: vec![] };
    let err = list.add_urls(vec!["https://x/ok\nftp://x/bad\nhttps://x/after".to_string()]).err().unwrap();
    assert_eq!(err, "invalid url: ftp://x/bad");
    assert_eq!(list.tasks.len(), 1);
    assert_eq!(list.tasks[0].url, "https://x/ok");
}

#[test]
fn remove_clear_cancel() {
    let mut list = TaskList {
        tasks: vec![
            record("a", "u1", TaskStatus::Queued),
            record("b", "u2", TaskStatus::Running),
            record("c", "u3", TaskStatus::Completed),
            record("d", "u4", TaskStatus::Failed),
        ],
    };
    list.cancel("a");
    list.cancel("b");
    assert_eq!(list.tasks[0].status, TaskStatus::Cancelled);
    assert_eq!(list.tasks[0].message, "cancelled");
    assert_eq!(list.tasks[1].status, TaskStatus::Running);
    list.remove("b");
    assert_eq!(list.tasks.len(), 3);
    list.clear_finished();
    assert!(list.tasks.is_empty());
}

#[test]
fn queue_runs_oldest_first() {
    let mut list = TaskList {
        tasks: vec![
            record("new", "u1", TaskStatus::Queued),
            record("old", "u2", TaskStatus::Queued),
            record("done", "u3", TaskStatus::Completed),
        ],
    };
    assert_eq!(list.next_queued().as_deref(), Some("old"));
    let started = list.begin_run("old").unwrap();
    assert_eq!(started, ("u2".to_string(), String::new()));
    assert_eq!(list.tasks[1].status, TaskStatus::Running);
    assert_eq!(list.tasks[1].message, "starting");
    assert_eq!(list.next_queued().as_deref(), Some("new"));
    assert!(list.begin_run("missing").is_none());
    list.apply_progress("old", 5, 10, 3, "downloading");
    assert_eq!((list.tasks[1].downloaded, list.tasks[1].total, list.tasks[1].speed_bps), (5, 10, 3));
}

#[test]
fn finishing_runs() {
    let mut list = TaskList { tasks: vec![record("a", "u1", TaskStatus::Running), record("b", "u2", TaskStatus::Running), record("c", "u3", TaskStatus::Running)] };
    list.finish_run("a", &Ok(DownloadResult { path: r"\\?\D:\x.bin".into(), skipped: false, resumed: true, verified: true }));
    assert_eq!(list.tasks[0].status, TaskStatus::Completed);
    assert_eq!(list.tasks[0].save_path, r"D:\x.bin");
    assert_eq!(list.tasks[0].message, "resumed complete · sha256 ok");
    assert_eq!(list.tasks[0].speed_bps, 0);
    list.finish_run("b", &Err("cancelled".to_string()));
    assert_eq!(list.tasks[1].status, TaskStatus::Cancelled);
    list.finish_run("c", &Err("boom".to_string()));
    assert_eq!((list.tasks[2].status, list.tasks[2].message.as_str(), list.tasks[2].error.as_str()), (TaskStatus::Failed, "failed", "boom"));
    let mut list = TaskList { tasks: vec![record("s", "u", TaskStatus::Running)] };
    list.finish_run("s", &Ok(DownloadResult { path: "p".into(), skipped: true, resumed: false, verified: false }));
    assert_eq!((list.tasks[0].status, list.tasks[0].message.as_str()), (TaskStatus::Skipped, "already completed"));
}

#[test]
fn listing_shows_display_paths() {
    let mut t = record("a", "u", TaskStatus::Completed);
    t.save_path = r"\\?\UNC\srv\share\f".into();
    let list = TaskList { tasks: vec![t, record("b", "u2", TaskStatus::Queued)] };
    let shown = list.list();
    assert_eq!(shown[0].save_path, r"\\srv\share\f");
    assert_eq!(shown[1].save_path, "");
}

#[test]
fn locale_helpers() {
    assert_eq!(locale_id_from_path("en.json"), Some("en".to_string()));
    assert_eq!(locale_id_from_path("a.b.json"), Some("a.b".to_string()));
    assert_eq!(locale_id_from_path(".json"), None);
    assert_eq!(locale_id_from_path("readme.md"), None);
    assert_eq!(locale_name("ja", ""), "ja");
    assert_eq!(locale_name("ja", "日本語"), "日本語");
    let c = locale_candidates("fr");
    assert_eq!(c[0], ("fr.json".to_string(), "fr".to_string()));
    assert_eq!(c[1], ("zh.json".to_string(), "zh".to_string()));
    assert_eq!(c[2], ("en.json".to_string(), "en".to_string()));
}

#[test]
fn locale_order_zh_first() {
    let mk = |id: &str| LocaleInfo { id: id.into(), name: id.to_uppercase() };
    let sorted = sort_locales(vec![mk("ja"), mk("en"), mk("zh"), mk("de")]);
    let ids: Vec<&str> = sorted.iter().map(|l| l.id.as_str()).collect();
    assert_eq!(ids, vec!["zh", "de", "en", "ja"]);
}

#[test]
fn window_rules() {
    assert!(is_normal_position(0, 0));
    assert!(!is_normal_position(-10_000, 0));
    assert!(is_normal_size(720, 480));
    assert!(!is_normal_size(719, 480));
    assert_eq!(decoration_delta((800, 600), (780, 570)), (20, 30));
    assert_eq!(decoration_delta((10, 10), (20, 5)), (0, 5));
    let f = frame_from_rect(10, 20, 1010, 820).unwrap();
    assert_eq!((f.x, f.y, f.width, f.height), (10, 20, 1000, 800));
    assert!(frame_from_rect(10, 20, 10, 820).is_none());
}

#[test]
fn window_record_and_restore() {
    let mut st = WindowState::default();
    record_window(&mut st, &WindowSnapshot { minimized: false, maximized: false, normal_frame: Some(((100, 50), (1280, 800))), restored: None, pad: (0, 0) });
    let plan = restore_plan(&st);
    assert_eq!(plan.size, Some((1280, 800)));
    assert_eq!(plan.position, Some((100, 50)));
    assert!(!plan.maximize);
    record_window(&mut st, &WindowSnapshot { minimized: false, maximized: true, normal_frame: None, restored: Some(RestoredFrame { x: 5, y: 6, width: 1300, height: 900 }), pad: (16, 39) });
    assert_eq!((st.x, st.y, st.width, st.height, st.maximized), (Some(5), Some(6), Some(1284), Some(861), true));
    let before = st;
    record_window(&mut st, &WindowSnapshot { minimized: true, maximized: false, normal_frame: None, restored: None, pad: (0, 0) });
    assert_eq!(st, before);
    let tiny = WindowState { x: Some(0), y: Some(0), width: Some(100), height: Some(100), maximized: false };
    assert_eq!(restore_plan(&tiny).size, None);
}

#[test]
fn display_paths() {
    assert_eq!(to_display_path(r"\\?\C:\a"), r"C:\a");
    assert_eq!(display_windows_path(r"\\?\"), "");
    assert_eq!(display_windows_path("/home/u"), "/home/u");
}

#[test]
fn parallel_end_prefers_first_error_then_cancel() {
    assert_eq!(finish_parallel(Some("boom".into()), true), Err("boom".to_string()));
    assert_eq!(finish_parallel(None, true), Err("cancelled".to_string()));
    assert_eq!(finish_parallel(None, false), Ok(()));
    assert_eq!(check_not_cancelled(true), Err("cancelled".to_string()));
    assert_eq!(check_not_cancelled(false), Ok(()));
}

#[test]
fn parallel_ok_leaves_every_segment_done() {
    let mut st = DownloadState {
        url: "https://x/f".into(),
        total: 10,
        threads: 3,
        segments: build_segments(10, 3),
    };
    assert_eq!(st.completed_bytes(), 0);
    let mut first_err = None;
    for s in st.segments.clone() {
        st.set_cursor(s.index, s.start + 1);
        st.set_cursor(s.index, s.end + 1);
        let (e, stop) = absorb_outcome(first_err, WorkerOutcome::Finished);
        first_err = e;
        assert!(!stop);
    }
    assert_eq!(finish_parallel(first_err, false), Ok(()));
    assert!(st.all_done());
    assert_eq!(st.completed_bytes(), 10);
}

#[test]
fn partial_tiling_counts_written_bytes() {
    let st = DownloadState {
        url: "u".into(),
        total: 10,
        threads: 2,
        segments: vec![seg(0, 0, 4, 3), seg(1, 5, 9, 10)],
    };
    assert_eq!(st.completed_bytes(), 8);
    assert!(!st.all_done());
    let empty = DownloadState { url: "u".into(), total: 0, threads: 1, segments: vec![] };
    assert!(!empty.all_done());
}

#[test]
fn plan_file_skips_complete_target() {
    let url = "https://h/f.bin";
    assert!(matches!(
        plan_file(true, false, false, Some(url), url, true),
        FileAction::Skip { verify: true }
    ));
    assert!(matches!(plan_file(true, false, true, None, url, false), FileAction::Skip { verify: false }));
    assert!(matches!(
        plan_file(true, false, false, Some("https://other/f.bin"), url, false),
        FileAction::Transfer { resumed: false, verify: false }
    ));
}

#[test]
fn plan_file_resumes_with_part_and_state() {
    let url = "https://h/f.bin";
    assert!(matches!(
        plan_file(true, true, true, None, url, true),
        FileAction::Transfer { resumed: true, verify: true }
    ));
    assert!(matches!(
        plan_file(false, true, false, None, url, false),
        FileAction::Transfer { resumed: false, verify: false }
    ));
    assert!(matches!(
        plan_file(false, false, true, None, url, false),
        FileAction::Transfer { resumed: false, verify: false }
    ));
}

#[test]
fn download_result_reports_action() {
    let r = download_result("/d/f.bin".into(), &FileAction::Skip { verify: true });
    assert_eq!(r.path, "/d/f.bin");
    assert!(r.skipped && !r.resumed && r.verified);
    let r = download_result("/d/f.bin".into(), &FileAction::Transfer { resumed: true, verify: false });
    assert!(!r.skipped && r.resumed && !r.verified);
}

#[test]
fn disposition_never_gives_empty_name() {
    assert_eq!(parse_content_disposition("attachment; filename=\"\""), None);
    assert_eq!(parse_content_disposition("attachment; filename*=UTF-8''"), None);
    assert_eq!(parse_content_disposition("inline"), None);
    assert_eq!(parse_content_disposition("attachment; name=\"a.bin\""), None);
    assert_eq!(parse_content_disposition("attachment; FILENAME=a.bin").as_deref(), Some("a.bin"));
}

#[test]
fn only_one_queue_runner_at_a_time() {
    let mut runner = QueueRunner::new();
    assert!(runner.claim());
    assert!(!runner.claim());
    let mut list = TaskList {
        tasks: vec![record("new", "u1", TaskStatus::Queued), record("old", "u2", TaskStatus::Queued)],
    };
    assert_eq!(runner.next_task(&list).as_deref(), Some("old"));
    assert!(runner.running);
    assert!(!runner.claim());
    list.begin_run("old").unwrap();
    list.begin_run("new").unwrap();
    assert_eq!(runner.next_task(&list), None);
    assert!(!runner.running);
    assert!(runner.claim());
}

#[test]
fn path_search_takes_first_accepted_candidate() {
    let url = "https://x/a.bin";
    let taken = PathProbe {
        exists: true,
        part_exists: false,
        marker_url: Some("https://y/a.bin".to_string()),
        state_url: None,
    };
    let same = PathProbe { exists: true, part_exists: false, marker_url: Some(url.to_string()), state_url: None };
    let (mut search, step) = PathSearch::new("a.bin", url);
    assert!(matches!(step, SearchStep::Probe(ref n) if n == "a.bin"));
    let step = search.feed(&taken);
    assert!(matches!(step, SearchStep::Probe(ref n) if n == "a(1).bin"));
    assert_eq!(search.attempt, 1);
    let step = search.feed(&same);
    assert!(matches!(step, SearchStep::Chosen(ref n) if n == "a(1).bin"));
}

#[test]
fn path_search_settles_on_conflict_name() {
    let url = "https://x/a.bin";
    let taken = PathProbe { exists: true, part_exists: false, marker_url: None, state_url: None };
    let (mut search, mut step) = PathSearch::new("a.bin", url);
    let mut probes = 0u32;
    let chosen = loop {
        match step {
            SearchStep::Chosen(name) => break name,
            SearchStep::Probe(_) => {
                probes += 1;
                step = search.feed(&taken);
            }
        }
    };
    assert_eq!(probes, 10000);
    assert_eq!(chosen, "a.conflict");
}

fn is_uuid_v4_text(id: &str) -> bool {
    let c: Vec<char> = id.chars().collect();
    c.len() == 36
        && c.iter().enumerate().all(|(i, &ch)| {
            if i == 8 || i == 13 || i == 18 || i == 23 {
                ch == '-'
            } else {
                ch.is_ascii_digit() || ('a'..='f').contains(&ch)
            }
        })
        && c[14] == '4'
        && matches!(c[19], '8' | '9' | 'a' | 'b')
}

#[test]
fn added_tasks_get_uuid_v4_ids() {
    let mut list = TaskList { tasks: vec![] };
    let added = list.add_urls(vec!["https://x/1\nhttps://x/2\nhttps://x/3".to_string()]).unwrap();
    assert_eq!(added.len(), 3);
    for t in &added {
        assert!(is_uuid_v4_text(&t.id), "{}", t.id);
    }
    assert!(list.tasks.iter().all(|t| is_uuid_v4_text(&t.id)));
    assert_ne!(added[0].id, added[1].id);
    assert_ne!(added[1].id, added[2].id);
}

#[test]
fn app_layout_under_root() {
    assert_eq!(app_path(AppPath::ConfigDir), vec!["config"]);
    assert_eq!(app_path(AppPath::DataDir), vec!["data"]);
    assert_eq!(app_path(AppPath::WebviewDataDir), vec!["data", "webview"]);
    assert_eq!(app_path(AppPath::Settings), vec!["config", "settings.json"]);
    assert_eq!(app_path(AppPath::WindowState), vec!["config", "window.json"]);
    assert_eq!(app_path(AppPath::Tasks), vec!["data", "tasks.json"]);
}
