//! The decisions of the download engine: reading the probe response, choosing
//! between segmented and sequential transfer, resuming, retrying and
//! deciding when a transfer is complete. The network and disk work that
//! feeds these decisions is done by the caller.
use vstd::prelude::*;

use crate::filename::{filename_from_headers, name_from_headers};
use crate::state::{
    apply_cursors, build_segments, distinct_indices, last_cursor, lemma_apply_cursors,
    marker_matches, planned_segments, seg_done, DownloadState, Segment,
};
use crate::text::{
    all_digits, free_of, free_of_char, in_set, is_digit, keep_nonempty, lemma_dec_seq_digits,
    lemma_split_char_two, lemma_split_set_two,
    chars_eq, chars_of, contains, contains_exec, dec_seq, lower, lower_exec, parse_u64,
    parse_u64_exec, push_all, push_dec, push_str, split_char, split_char_exec, string_of, trim, trim_exec, views,
    words, words_exec, CharSet,
};

verus! {

/// Attempts after the first one before a failing transfer gives up.
pub const MAX_RETRIES: u32 = 8;

/// A progress report sent to the UI.
#[derive(Debug)]
pub struct ProgressEvent {
    pub task_id: String,
    pub downloaded: u64,
    pub total: u64,
    pub speed_bps: u64,
    pub message: String,
}

impl ProgressEvent {
    pub fn new(task_id: &str, downloaded: u64, total: u64, speed_bps: u64, message: &str) -> (r:
        ProgressEvent)
        ensures
            r.task_id@ == task_id@,
            r.downloaded == downloaded,
            r.total == total,
            r.speed_bps == speed_bps,
            r.message@ == message@,
    {
        ProgressEvent {
            task_id: string_of(&chars_of(task_id)),
            downloaded,
            total,
            speed_bps,
            message: string_of(&chars_of(message)),
        }
    }
}

/// How a download ended.
#[derive(Debug)]
pub struct DownloadResult {
    pub path: String,
    pub skipped: bool,
    pub resumed: bool,
    pub verified: bool,
}

/// The total size in a `Content-Range` value such as `bytes 0-0/12345`:
/// exactly two whitespace-separated words, the first `bytes` in any ASCII
/// case, and the text between the first and second `/` of the second word
/// parsed as `u64`.
pub open spec fn content_range_total(h: Seq<char>) -> Option<u64> {
    let ws = words(h);
    if ws.len() != 2 || lower(ws[0]) != lower("bytes"@) {
        None
    } else {
        let ps = split_char(ws[1], '/');
        if ps.len() < 2 {
            None
        } else {
            parse_u64(ps[1])
        }
    }
}

pub fn parse_content_range_total(header: &str) -> (r: Option<u64>)
    ensures
        r == content_range_total(header@),
{
    let hv = chars_of(header);
    let parts = words_exec(&hv);
    if parts.len() != 2 {
        return None;
    }
    let w0 = lower_exec(parts[0].as_slice());
    let b = lower_exec(chars_of("bytes").as_slice());
    if !chars_eq(&w0, &b) {
        return None;
    }
    let pieces = split_char_exec(parts[1].as_slice(), '/');
    if pieces.len() < 2 {
        return None;
    }
    assert(views(pieces@)[1] == pieces@[1]@);
    parse_u64_exec(pieces[1].as_slice())
}

/// A `Content-Range` value `<unit> <range>/<n>`, whose unit reads `bytes` in
/// any ASCII case and whose range holds no whitespace and no `/`, gives the
/// total `n`, for every `u64` `n`: the total is the parsed number, with no
/// further bound.
pub proof fn lemma_content_range_total_any(unit: Seq<char>, range: Seq<char>, n: u64)
    requires
        lower(unit) == lower("bytes"@),
        unit.len() > 0,
        free_of(unit, CharSet::Space),
        free_of(range, CharSet::Space),
        free_of_char(range, '/'),
    ensures
        content_range_total(unit + " "@ + range + "/"@ + dec_seq(n as nat)) == Some(n),
{
    reveal_strlit(" ");
    reveal_strlit("/");
    let d = dec_seq(n as nat);
    lemma_dec_seq_digits(n as nat);
    let r = range + seq!['/'] + d;
    let h = unit + " "@ + range + "/"@ + d;
    assert(h =~= unit + seq![' '] + r);
    assert(free_of(r, CharSet::Space)) by {
        assert forall|i: int| 0 <= i < r.len() implies !in_set(CharSet::Space, #[trigger] r[i]) by {
            if i < range.len() {
                assert(r[i] == range[i]);
            } else if i > range.len() {
                assert(r[i] == d[i - range.len() - 1]);
                assert(is_digit(d[i - range.len() - 1]));
            }
        }
    }
    lemma_split_set_two(unit, ' ', r, CharSet::Space);
    let ps = seq![unit, r];
    assert(ps.drop_last() =~= seq![unit]);
    assert(seq![unit].drop_last() =~= Seq::<Seq<char>>::empty());
    assert(keep_nonempty(Seq::<Seq<char>>::empty()) =~= Seq::<Seq<char>>::empty());
    assert(seq![unit].last() == unit);
    assert(keep_nonempty(seq![unit]) =~= Seq::<Seq<char>>::empty().push(unit));
    assert(keep_nonempty(seq![unit]) =~= seq![unit]);
    assert(ps.last() == r && r.len() > 0);
    assert(keep_nonempty(ps) =~= ps);
    assert(words(h) == ps);
    assert(free_of_char(d, '/')) by {
        assert forall|i: int| 0 <= i < d.len() implies #[trigger] d[i] != '/' by {
            assert(is_digit(d[i]));
        }
    }
    lemma_split_char_two(range, '/', d);
    assert(split_char(r, '/')[1] == d);
    assert(d[0] != '+') by {
        assert(is_digit(d[0]));
    }
    assert(all_digits(d));
}

/// The probe's answer `bytes 0-0/<n>` gives the total `n`, for every `u64` `n`.
pub proof fn lemma_content_range_total(n: u64)
    ensures
        content_range_total("bytes 0-0/"@ + dec_seq(n as nat)) == Some(n),
{
    reveal_strlit("bytes 0-0/");
    reveal_strlit("bytes");
    reveal_strlit("0-0");
    reveal_strlit(" ");
    reveal_strlit("/");
    let z = "0-0"@;
    assert(free_of("bytes"@, CharSet::Space));
    assert(free_of(z, CharSet::Space));
    assert(free_of_char(z, '/'));
    assert("bytes 0-0/"@ + dec_seq(n as nat) =~= "bytes"@ + " "@ + z + "/"@ + dec_seq(n as nat));
    lemma_content_range_total_any("bytes"@, z, n);
}

/// Error texts that mean authentication failed.
pub open spec fn auth_failure(l: Seq<char>) -> bool {
    contains(l, "401"@) || contains(l, "403"@) || contains(l, "unauthorized"@)
}

/// Error texts that mean a transient network fault.
pub open spec fn transient_failure(l: Seq<char>) -> bool {
    ||| contains(l, "connection"@)
    ||| contains(l, "timed out"@)
    ||| contains(l, "timeout"@)
    ||| contains(l, "reset"@)
    ||| contains(l, "broken pipe"@)
    ||| contains(l, "closed early"@)
    ||| contains(l, "eof"@)
    ||| contains(l, "502"@)
    ||| contains(l, "503"@)
    ||| contains(l, "504"@)
    ||| contains(l, "429"@)
    ||| contains(l, "408"@)
}

/// An error is worth retrying when its lower-cased text names a transient
/// fault and no authentication failure.
pub open spec fn retryable(err: Seq<char>) -> bool {
    !auth_failure(lower(err)) && transient_failure(lower(err))
}

/// A failure is retried exactly when its lower-cased text names a transient
/// fault (`connection`, `timed out`, `timeout`, `reset`, `broken pipe`,
/// `closed early`, `eof`, `502`, `503`, `504`, `429`, `408`) and names no
/// authentication failure (`401`, `403`, `unauthorized`).
pub proof fn lemma_retryable_keywords(err: Seq<char>)
    ensures
        ({
            let l = lower(err);
            let transient = contains(l, "connection"@) || contains(l, "timed out"@) || contains(
                l,
                "timeout"@,
            ) || contains(l, "reset"@) || contains(l, "broken pipe"@) || contains(
                l,
                "closed early"@,
            ) || contains(l, "eof"@) || contains(l, "502"@) || contains(l, "503"@) || contains(
                l,
                "504"@,
            ) || contains(l, "429"@) || contains(l, "408"@);
            let auth = contains(l, "401"@) || contains(l, "403"@) || contains(l, "unauthorized"@);
            retryable(err) == (transient && !auth)
        }),
{
}

fn has(l: &[char], k: &str) -> (r: bool)
    ensures
        r == contains(l@, k@),
{
    let kv = chars_of(k);
    contains_exec(l, &kv)
}

pub fn is_retryable(err: &str) -> (r: bool)
    ensures
        r == retryable(err@),
{
    let ev = chars_of(err);
    let l = lower_exec(&ev);
    if has(&l, "401") || has(&l, "403") || has(&l, "unauthorized") {
        return false;
    }
    has(&l, "connection") || has(&l, "timed out") || has(&l, "timeout") || has(&l, "reset") || has(
        &l,
        "broken pipe",
    ) || has(&l, "closed early") || has(&l, "eof") || has(&l, "502") || has(&l, "503") || has(
        &l,
        "504",
    ) || has(&l, "429") || has(&l, "408")
}

/// Back-off before retry number `attempt`: 500 ms doubled per earlier
/// attempt, capped at 8 s.
pub open spec fn retry_delay_ms(attempt: u32) -> u64 {
    if attempt <= 1 {
        500
    } else if attempt == 2 {
        1000
    } else if attempt == 3 {
        2000
    } else if attempt == 4 {
        4000
    } else {
        8000
    }
}

/// The back-off before retry number `attempt`, in milliseconds.
pub fn retry_delay(attempt: u32) -> (ms: u64)
    ensures
        ms == retry_delay_ms(attempt),
{
    let s = attempt.saturating_sub(1);
    let shift: u64 = if s < 4 {
        s as u64
    } else {
        4
    };
    let ms = 500u64 << shift;
    assert(shift == 0 ==> ms == 500) by (bit_vector)
        requires
            ms == 500u64 << shift,
    ;
    assert(shift == 1 ==> ms == 1000) by (bit_vector)
        requires
            ms == 500u64 << shift,
    ;
    assert(shift == 2 ==> ms == 2000) by (bit_vector)
        requires
            ms == 500u64 << shift,
    ;
    assert(shift == 3 ==> ms == 4000) by (bit_vector)
        requires
            ms == 500u64 << shift,
    ;
    assert(shift == 4 ==> ms == 8000) by (bit_vector)
        requires
            ms == 500u64 << shift,
    ;
    if ms < 8000 {
        ms
    } else {
        8000
    }
}

/// What to do after a failed transfer attempt.
pub enum RetryStep {
    /// Stop and report this error.
    GiveUp(String),
    /// Report `message`, wait `delay_ms`, then make attempt number `attempt`.
    Retry { attempt: u32, delay_ms: u64, message: String },
}

/// The retry decision: `cancelled` and non-transient errors end the transfer;
/// otherwise the attempt count grows, and past `MAX_RETRIES` the transfer
/// gives up with `give_up_prefix ++ err`, else it waits and reports
/// `retry_prefix ++ "<attempt>/8: " ++ err`.
pub open spec fn retry_step_spec(
    give_up_prefix: Seq<char>,
    retry_prefix: Seq<char>,
    attempt: u32,
    err: Seq<char>,
    r: RetryStep,
) -> bool {
    if err == "cancelled"@ || !retryable(err) {
        r matches RetryStep::GiveUp(e) && e@ == err
    } else if attempt + 1 > MAX_RETRIES {
        r matches RetryStep::GiveUp(e) && e@ == give_up_prefix + err
    } else {
        r matches RetryStep::Retry { attempt: a, delay_ms: d, message: m } && a == attempt + 1 && d
            == retry_delay_ms(a) && m@ == retry_prefix + dec_seq(a as nat) + "/8: "@ + err
    }
}

fn retry_step(give_up_prefix: &[char], retry_prefix: &[char], attempt: u32, err: &str) -> (r:
    RetryStep)
    requires
        attempt < u32::MAX,
    ensures
        retry_step_spec(give_up_prefix@, retry_prefix@, attempt, err@, r),
{
    let ev = chars_of(err);
    let cancelled = chars_of("cancelled");
    if chars_eq(&ev, &cancelled) || !is_retryable(err) {
        return RetryStep::GiveUp(string_of(&ev));
    }
    let a = attempt + 1;
    if a > MAX_RETRIES {
        let mut m: Vec<char> = Vec::new();
        push_all(&mut m, give_up_prefix);
        push_all(&mut m, &ev);
        return RetryStep::GiveUp(string_of(&m));
    }
    let mut m: Vec<char> = Vec::new();
    push_all(&mut m, retry_prefix);
    push_dec(a as u64, &mut m);
    push_str(&mut m, "/8: ");
    push_all(&mut m, &ev);
    RetryStep::Retry { attempt: a, delay_ms: retry_delay(a), message: string_of(&m) }
}

/// `"segment <index> "`.
pub open spec fn segment_label(index: u32) -> Seq<char> {
    "segment "@ + dec_seq(index as nat) + " "@
}

/// Retry decision for one segment of a parallel download, after attempt
/// `attempt` failed with `err`.
pub fn segment_retry_step(index: u32, attempt: u32, err: &str) -> (r: RetryStep)
    requires
        attempt < u32::MAX,
    ensures
        retry_step_spec(
            segment_label(index) + "failed after 8 retries: "@,
            segment_label(index) + "retry "@,
            attempt,
            err@,
            r,
        ),
{
    let mut label: Vec<char> = Vec::new();
    push_str(&mut label, "segment ");
    push_dec(index as u64, &mut label);
    push_str(&mut label, " ");
    let mut give_up = label.clone();
    push_str(&mut give_up, "failed after 8 retries: ");
    let mut retry = label.clone();
    push_str(&mut retry, "retry ");
    retry_step(&give_up, &retry, attempt, err)
}

/// Retry decision for a sequential download, after attempt `attempt` failed with `err`.
pub fn sequential_retry_step(attempt: u32, err: &str) -> (r: RetryStep)
    requires
        attempt < u32::MAX,
    ensures
        retry_step_spec("download failed after 8 retries: "@, "retry "@, attempt, err@, r),
{
    let give_up = chars_of("download failed after 8 retries: ");
    let retry = chars_of("retry ");
    retry_step(&give_up, &retry, attempt, err)
}

/// What the probe request returned, as plain values: the status code and its
/// display text, the header values that could be read as text, and the URL
/// after redirects.
pub struct ProbeResponse {
    pub status: u16,
    pub status_text: String,
    pub content_range: Option<String>,
    pub content_length: Option<String>,
    pub accept_ranges: Option<String>,
    pub content_disposition: Option<String>,
    pub final_url: String,
}

/// What the probe learned of the remote file.
pub struct RemoteInfo {
    pub size: u64,
    pub supports_range: bool,
    pub filename: String,
    pub resolved_url: String,
}

pub open spec fn opt_view(o: Option<String>) -> Option<Seq<char>> {
    match o {
        Some(s) => Some(s@),
        None => None,
    }
}

/// Size from the probe: the `Content-Range` total when it parses, else (when
/// that is absent or zero) the `Content-Length` of a `200` response, else 0.
pub open spec fn probe_size(r: ProbeResponse) -> u64 {
    let from_range = match opt_view(r.content_range) {
        Some(c) => content_range_total(c),
        None => None,
    };
    let size0: u64 = match from_range {
        Some(t) => t,
        None => 0,
    };
    if size0 != 0 {
        size0
    } else {
        match opt_view(r.content_length) {
            Some(c) => match parse_u64(c) {
                Some(v) => if r.status == 200 {
                    v
                } else {
                    0
                },
                None => 0,
            },
            None => 0,
        }
    }
}

/// Range support: a `206` answer, a parsable `Content-Range`, or an
/// `Accept-Ranges` value mentioning `bytes` in any ASCII case.
pub open spec fn probe_supports_range(r: ProbeResponse) -> bool {
    ||| r.status == 206
    ||| (match opt_view(r.content_range) {
        Some(c) => content_range_total(c) is Some,
        None => false,
    })
    ||| (match opt_view(r.accept_ranges) {
        Some(a) => contains(lower(a), "bytes"@),
        None => false,
    })
}

/// The probe is accepted for any 2xx status.
pub open spec fn probe_status_ok(status: u16) -> bool {
    200 <= status <= 299
}

/// The error for a refused probe.
pub open spec fn probe_error(status: u16, text: Seq<char>) -> Seq<char> {
    if status == 401 || status == 403 {
        "probe failed: "@ + text + " (check Hugging Face token / cookie in settings)"@
    } else {
        "probe failed: "@ + text
    }
}

fn opt_chars(o: &Option<String>) -> (r: Option<Vec<char>>)
    ensures
        match r {
            Some(v) => opt_view(*o) == Some(v@),
            None => opt_view(*o) is None,
        },
{
    match o {
        Some(s) => Some(chars_of(s.as_str())),
        None => None,
    }
}

/// Interprets the probe response.
pub fn interpret_probe(resp: &ProbeResponse) -> (r: Result<RemoteInfo, String>)
    ensures
        match r {
            Ok(info) => {
                &&& probe_status_ok(resp.status)
                &&& info.size == probe_size(*resp)
                &&& info.supports_range == probe_supports_range(*resp)
                &&& info.filename@ == name_from_headers(
                    opt_view(resp.content_disposition),
                    resp.final_url@,
                )
                &&& info.resolved_url@ == resp.final_url@
            },
            Err(e) => !probe_status_ok(resp.status) && e@ == probe_error(
                resp.status,
                resp.status_text@,
            ),
        },
{
    let mut supports_range = resp.status == 206;
    let mut size: u64 = 0;
    let mut from_range: Option<u64> = None;
    match &resp.content_range {
        Some(cr) => {
            from_range = parse_content_range_total(cr.as_str());
        },
        None => {},
    }
    match from_range {
        Some(total) => {
            size = total;
            supports_range = true;
        },
        None => {},
    }
    if size == 0 {
        match &resp.content_length {
            Some(cl) => {
                let cv = chars_of(cl.as_str());
                match parse_u64_exec(&cv) {
                    Some(v) => {
                        if resp.status == 200 {
                            size = v;
                        }
                    },
                    None => {},
                }
            },
            None => {},
        }
    }
    if !supports_range {
        match &resp.accept_ranges {
            Some(ar) => {
                let av = chars_of(ar.as_str());
                let l = lower_exec(&av);
                if has(&l, "bytes") {
                    supports_range = true;
                }
            },
            None => {},
        }
    }
    if resp.status == 401 || resp.status == 403 {
        let mut m: Vec<char> = Vec::new();
        push_str(&mut m, "probe failed: ");
        push_str(&mut m, resp.status_text.as_str());
        push_str(&mut m, " (check Hugging Face token / cookie in settings)");
        return Err(string_of(&m));
    }
    if !(200 <= resp.status && resp.status <= 299) {
        let mut m: Vec<char> = Vec::new();
        push_str(&mut m, "probe failed: ");
        push_str(&mut m, resp.status_text.as_str());
        return Err(string_of(&m));
    }
    let cd: Option<&str> = match &resp.content_disposition {
        Some(v) => Some(v.as_str()),
        None => None,
    };
    let filename = filename_from_headers(cd, resp.final_url.as_str());
    Ok(
        RemoteInfo {
            size,
            supports_range,
            filename,
            resolved_url: string_of(&chars_of(resp.final_url.as_str())),
        },
    )
}

/// The file name to save under: the caller's preferred name unless it is
/// blank, else the one the server suggested.
pub open spec fn chosen_name(preferred: Option<Seq<char>>, remote: Seq<char>) -> Seq<char> {
    match preferred {
        Some(p) => if trim(p, CharSet::Space).len() > 0 {
            p
        } else {
            remote
        },
        None => remote,
    }
}

pub fn pick_filename(preferred: Option<&str>, remote: &str) -> (r: String)
    ensures
        r@ == chosen_name(
            match preferred {
                Some(p) => Some(p@),
                None => None,
            },
            remote@,
        ),
{
    match preferred {
        Some(p) => {
            let pv = chars_of(p);
            let t = trim_exec(&pv, CharSet::Space);
            if t.len() > 0 {
                return string_of(&pv);
            }
        },
        None => {},
    }
    string_of(&chars_of(remote))
}

/// Segmented transfer needs a known size, range support and more than one worker.
pub fn use_parallel(size: u64, supports_range: bool, threads: u32) -> (r: bool)
    ensures
        r == (size > 0 && supports_range && threads > 1),
{
    let t = if threads > 1 {
        threads
    } else {
        1
    };
    size > 0 && supports_range && t > 1
}

/// How an existing resume state is treated by a segmented transfer.
pub struct ParallelStart {
    pub state: DownloadState,
    /// The partial file must be deleted before starting.
    pub discard_part: bool,
    /// The resume state file must be deleted before starting.
    pub discard_state: bool,
    /// Every segment is already complete.
    pub finished: bool,
}

/// Plans a segmented transfer of `total` bytes of `url` with `threads`
/// workers: a saved state for the same URL and size is resumed, anything else
/// starts over with freshly planned segments (deleting the partial file, and
/// the stale state file if there was one).
pub fn plan_parallel(existing: Option<DownloadState>, url: &str, total: u64, threads: u32) -> (r:
    ParallelStart)
    ensures
        ({
            let reuse = existing matches Some(e) && e.url@ == url@ && e.total == total;
            &&& reuse ==> r.state.url@ == existing->0.url@ && r.state.total == total
                && r.state.threads == existing->0.threads && r.state.segments@ == if existing->0.segments@.len()
                == 0 {
                planned_segments(total, threads)
            } else {
                existing->0.segments@
            } && !r.discard_part && !r.discard_state
            &&& !reuse ==> r.state.url@ == url@ && r.state.total == total && r.state.threads
                == threads && r.state.segments@ == planned_segments(total, threads)
                && r.discard_part && r.discard_state == (existing is Some)
            &&& r.finished == (r.state.segments@.len() > 0 && forall|i: int|
                0 <= i < r.state.segments@.len() ==> seg_done(r.state.segments@[i]))
        }),
{
    let uv = chars_of(url);
    let (mut state, discard_part, discard_state) = match existing {
        Some(e) => {
            let ev = chars_of(e.url.as_str());
            if chars_eq(&ev, &uv) && e.total == total {
                (e, false, false)
            } else {
                (
                    DownloadState {
                        url: string_of(&uv),
                        total,
                        threads,
                        segments: build_segments(total, threads),
                    },
                    true,
                    true,
                )
            }
        },
        None => (
            DownloadState {
                url: string_of(&uv),
                total,
                threads,
                segments: build_segments(total, threads),
            },
            true,
            false,
        ),
    };
    if state.segments.len() == 0 {
        state.segments = build_segments(total, threads);
    }
    let finished = state.all_done();
    ParallelStart { state, discard_part, discard_state, finished }
}

/// Where a sequential transfer starts.
pub struct SequentialStart {
    pub state: DownloadState,
    pub offset: u64,
    pub total: u64,
    /// The whole file is already there.
    pub finished: bool,
}

/// Plans a sequential transfer of `url` whose probed size is `remote_size`
/// (0 when unknown); `part_len` is the length of the partial file on disk,
/// if it exists. A saved state for the same URL is resumed from its first
/// segment's cursor (or the partial file's length when it has no segment)
/// and its recorded total; without a saved state the partial file's length
/// is the offset; a state for another URL is ignored and the transfer starts at 0.
pub fn plan_sequential(
    existing: Option<DownloadState>,
    url: &str,
    remote_size: u64,
    part_len: Option<u64>,
) -> (r: SequentialStart)
    ensures
        ({
            let (state_ok, offset, total) = match existing {
                Some(e) => if e.url@ == url@ {
                    (
                        true,
                        if e.segments@.len() > 0 {
                            e.segments@[0].cursor
                        } else {
                            match part_len {
                                Some(n) => n,
                                None => 0,
                            }
                        },
                        if e.total > 0 {
                            e.total
                        } else {
                            remote_size
                        },
                    )
                } else {
                    (false, 0u64, remote_size)
                },
                None => (
                    false,
                    match part_len {
                        Some(n) => n,
                        None => 0,
                    },
                    remote_size,
                ),
            };
            &&& r.offset == offset
            &&& r.total == total
            &&& state_ok ==> r.state.url@ == existing->0.url@ && r.state.total == existing->0.total
                && r.state.threads == existing->0.threads && r.state.segments@
                == existing->0.segments@
            &&& !state_ok ==> r.state.url@ == url@ && r.state.total == remote_size
                && r.state.threads == 1 && r.state.segments@.len() == 0
            &&& r.finished == (total > 0 && offset >= total)
        }),
{
    let uv = chars_of(url);
    let mut offset: u64 = 0;
    let mut total = remote_size;
    let fresh = DownloadState { url: string_of(&uv), total, threads: 1, segments: Vec::new() };
    let state = match existing {
        Some(e) => {
            let ev = chars_of(e.url.as_str());
            if chars_eq(&ev, &uv) {
                if e.total > 0 {
                    total = e.total;
                }
                if e.segments.len() > 0 {
                    offset = e.segments[0].cursor;
                } else {
                    match part_len {
                        Some(n) => {
                            offset = n;
                        },
                        None => {},
                    }
                }
                e
            } else {
                fresh
            }
        },
        None => {
            match part_len {
                Some(n) => {
                    offset = n;
                },
                None => {},
            }
            fresh
        },
    };
    let finished = total > 0 && offset >= total;
    SequentialStart { state, offset, total, finished }
}

/// The range request for a segment: `bytes=<cursor>-<end>`.
pub fn segment_range_header(seg: &Segment) -> (r: String)
    ensures
        r@ == "bytes="@ + dec_seq(seg.cursor as nat) + "-"@ + dec_seq(seg.end as nat),
{
    let mut m: Vec<char> = Vec::new();
    push_str(&mut m, "bytes=");
    push_dec(seg.cursor, &mut m);
    push_str(&mut m, "-");
    push_dec(seg.end, &mut m);
    string_of(&m)
}

/// The range request resuming a sequential transfer: `bytes=<offset>-`,
/// sent only when `offset > 0`.
pub fn resume_range_header(offset: u64) -> (r: Option<String>)
    ensures
        match r {
            Some(h) => offset > 0 && h@ == "bytes="@ + dec_seq(offset as nat) + "-"@,
            None => offset == 0,
        },
{
    if offset == 0 {
        return None;
    }
    let mut m: Vec<char> = Vec::new();
    push_str(&mut m, "bytes=");
    push_dec(offset, &mut m);
    push_str(&mut m, "-");
    Some(string_of(&m))
}

/// A segment request must be answered with `206 Partial Content`.
pub fn check_segment_status(index: u32, status: u16, status_text: &str) -> (r: Result<(), String>)
    ensures
        match r {
            Ok(()) => status == 206,
            Err(e) => status != 206 && e@ == segment_label(index) + "range failed: "@
                + status_text@,
        },
{
    if status == 206 {
        return Ok(());
    }
    let mut m: Vec<char> = Vec::new();
    push_str(&mut m, "segment ");
    push_dec(index as u64, &mut m);
    push_str(&mut m, " ");
    push_str(&mut m, "range failed: ");
    push_str(&mut m, status_text);
    Err(string_of(&m))
}

/// A sequential request must be answered with `200` from the start or `206`;
/// a `200` to a resumed request means the server ignored the range.
pub fn check_sequential_status(status: u16, status_text: &str, offset: u64) -> (r: Result<
    (),
    String,
>)
    ensures
        match r {
            Ok(()) => (status == 200 && offset == 0) || status == 206,
            Err(e) => if status == 200 && offset > 0 {
                e@ == "server does not support resume at offset "@ + dec_seq(offset as nat)
            } else {
                status != 200 && status != 206 && e@ == "GET failed: "@ + status_text@
            },
        },
{
    if status == 200 && offset > 0 {
        let mut m: Vec<char> = Vec::new();
        push_str(&mut m, "server does not support resume at offset ");
        push_dec(offset, &mut m);
        return Err(string_of(&m));
    }
    if !(status == 200 || status == 206) {
        let mut m: Vec<char> = Vec::new();
        push_str(&mut m, "GET failed: ");
        push_str(&mut m, status_text);
        return Err(string_of(&m));
    }
    Ok(())
}

/// Size bookkeeping when a sequential response arrives: an unknown total is
/// taken from `Content-Length` plus the resume offset; a known total makes the
/// state a single segment with its cursor at `offset`. Returns the total.
pub fn begin_sequential(
    state: &mut DownloadState,
    total: u64,
    content_length: Option<u64>,
    offset: u64,
) -> (new_total: u64)
    requires
        total == 0 ==> (content_length matches Some(cl) ==> cl + offset <= u64::MAX),
    ensures
        new_total == (if total == 0 {
            match content_length {
                Some(cl) => (cl + offset) as u64,
                None => 0,
            }
        } else {
            total
        }),
        final(state).url == old(state).url,
        final(state).threads == old(state).threads,
        final(state).total == (if total == 0 && content_length is Some {
            new_total
        } else {
            old(state).total
        }),
        final(state).segments@ == (if new_total > 0 {
            seq![
                Segment {
                    index: 0,
                    start: 0,
                    end: (new_total - 1) as u64,
                    cursor: offset,
                },
            ]
        } else {
            old(state).segments@
        }),
{
    let mut t = total;
    if t == 0 {
        match content_length {
            Some(cl) => {
                t = cl + offset;
                state.total = t;
            },
            None => {},
        }
    }
    if t > 0 {
        state.set_single_segment(t, offset);
    }
    t
}

/// Whether the resume state should be written now: the segment just
/// finished, 512 KiB arrived since the last write, or 300 ms passed.
pub fn should_flush(segment_done: bool, since_flush: u64, elapsed_ms: u64) -> (r: bool)
    ensures
        r == (segment_done || since_flush >= 512 * 1024 || elapsed_ms >= 300),
{
    segment_done || since_flush >= 512 * 1024 || elapsed_ms >= 300
}

/// A segment stream that ended must have reached the end of the segment.
pub fn finish_segment(seg: &Segment) -> (r: Result<(), String>)
    requires
        seg.end < u64::MAX,
    ensures
        match r {
            Ok(()) => seg_done(*seg),
            Err(e) => !seg_done(*seg) && e@ == segment_label(seg.index)
                + "connection closed early (remaining "@ + dec_seq(
                (seg.end + 1 - seg.cursor) as nat,
            ) + ")"@,
        },
{
    if seg.done() {
        return Ok(());
    }
    let mut m: Vec<char> = Vec::new();
    push_str(&mut m, "segment ");
    push_dec(seg.index as u64, &mut m);
    push_str(&mut m, " ");
    push_str(&mut m, "connection closed early (remaining ");
    push_dec(seg.end + 1 - seg.cursor, &mut m);
    push_str(&mut m, ")");
    Err(string_of(&m))
}

/// A sequential stream that ended must have delivered the known total.
pub fn finish_sequential(total: u64, offset: u64) -> (r: Result<(), String>)
    ensures
        match r {
            Ok(()) => total == 0 || offset >= total,
            Err(e) => total > 0 && offset < total && e@ == "connection closed early (remaining "@
                + dec_seq((total - offset) as nat) + ")"@,
        },
{
    if total > 0 && offset < total {
        let mut m: Vec<char> = Vec::new();
        push_str(&mut m, "connection closed early (remaining ");
        push_dec(total - offset, &mut m);
        push_str(&mut m, ")");
        return Err(string_of(&m));
    }
    Ok(())
}

/// How one worker of a segmented transfer ended.
pub enum WorkerOutcome {
    Finished,
    Failed(String),
    /// The worker task itself failed; the text describes why.
    JoinFailed(String),
}

/// The first error and the stop request after one worker outcome, given the
/// first error so far. Any failure asks the other workers to stop;
/// `cancelled` is never recorded as the error.
pub open spec fn absorbed(first_err: Option<Seq<char>>, outcome: WorkerOutcome) -> (
    Option<Seq<char>>,
    bool,
) {
    match outcome {
        WorkerOutcome::Finished => (first_err, false),
        WorkerOutcome::Failed(e) => (
            if first_err is None && e@ != "cancelled"@ {
                Some(e@)
            } else {
                first_err
            },
            true,
        ),
        WorkerOutcome::JoinFailed(msg) => (
            if first_err is None {
                Some("worker join: "@ + msg@)
            } else {
                first_err
            },
            true,
        ),
    }
}

/// Folds one worker outcome into the first error seen.
pub fn absorb_outcome(first_err: Option<String>, outcome: WorkerOutcome) -> (r: (
    Option<String>,
    bool,
))
    ensures
        (opt_view(r.0), r.1) == absorbed(opt_view(first_err), outcome),
{
    match outcome {
        WorkerOutcome::Finished => (first_err, false),
        WorkerOutcome::Failed(e) => {
            if first_err.is_none() {
                let ev = chars_of(e.as_str());
                let c = chars_of("cancelled");
                if !chars_eq(&ev, &c) {
                    return (Some(e), true);
                }
            }
            (first_err, true)
        },
        WorkerOutcome::JoinFailed(msg) => {
            if first_err.is_none() {
                let mut m: Vec<char> = Vec::new();
                push_str(&mut m, "worker join: ");
                push_str(&mut m, msg.as_str());
                return (Some(string_of(&m)), true);
            }
            (first_err, true)
        },
    }
}

/// The first error and whether any stop was asked, after the outcomes of the
/// workers were folded in turn from no error.
pub open spec fn fold_outcomes(outs: Seq<WorkerOutcome>) -> (Option<Seq<char>>, bool)
    decreases outs.len(),
{
    if outs.len() == 0 {
        (None, false)
    } else {
        let (err, stop) = fold_outcomes(outs.drop_last());
        let (err2, stop2) = absorbed(err, outs.last());
        (err2, stop || stop2)
    }
}

/// When the folded outcomes hold no error and no stop request, every worker finished.
pub proof fn lemma_fold_quiet(outs: Seq<WorkerOutcome>)
    requires
        fold_outcomes(outs).0 is None,
        !fold_outcomes(outs).1,
    ensures
        forall|j: int| 0 <= j < outs.len() ==> #[trigger] outs[j] is Finished,
    decreases outs.len(),
{
    if outs.len() > 0 {
        let d = outs.drop_last();
        lemma_fold_quiet(d);
        assert(outs.last() is Finished);
        assert forall|j: int| 0 <= j < outs.len() implies #[trigger] outs[j] is Finished by {
            if j < outs.len() - 1 {
                assert(outs[j] == d[j]);
            }
        }
    }
}

/// How a segmented transfer ends once every worker is joined: the first
/// error, else `cancelled` when the transfer was asked to stop, else success.
pub open spec fn parallel_end(first_err: Option<Seq<char>>, cancelled: bool) -> Result<
    (),
    Seq<char>,
> {
    match first_err {
        Some(e) => Err(e),
        None => if cancelled {
            Err("cancelled"@)
        } else {
            Ok(())
        },
    }
}

/// A transfer asked to stop ends with the error `cancelled`.
pub fn check_not_cancelled(cancelled: bool) -> (r: Result<(), String>)
    ensures
        match r {
            Ok(()) => !cancelled,
            Err(e) => cancelled && e@ == "cancelled"@,
        },
{
    if cancelled {
        Err(string_of(&chars_of("cancelled")))
    } else {
        Ok(())
    }
}

/// The end of a segmented transfer, from the first error of its workers and
/// the cancel flag.
pub fn finish_parallel(first_err: Option<String>, cancelled: bool) -> (r: Result<(), String>)
    ensures
        match r {
            Ok(()) => parallel_end(opt_view(first_err), cancelled) is Ok,
            Err(e) => parallel_end(opt_view(first_err), cancelled) == Err::<(), Seq<char>>(e@),
        },
{
    match first_err {
        Some(e) => Err(e),
        None => check_not_cancelled(cancelled),
    }
}

/// A segmented transfer that ends in `Ok` has every segment done.
///
/// One worker runs for each segment that was not done (`workers[j]` is the
/// position of worker `j`'s segment, `outs[j]` its outcome), and the workers'
/// cursor reports reach the state as `ops`. A worker that finished last
/// reported a cursor past its segment's end; no report names a segment that
/// was done already; the cancel flag was raised whenever a failure asked the
/// others to stop. Then, if the segment numbers are distinct and the end
/// decision is `Ok`, every segment of the state after the reports is done, as
/// `all_done` checks.
pub proof fn lemma_parallel_ok_all_done(
    segs: Seq<Segment>,
    workers: Seq<int>,
    outs: Seq<WorkerOutcome>,
    ops: Seq<(u32, u64)>,
    cancelled: bool,
)
    requires
        segs.len() > 0,
        distinct_indices(segs),
        outs.len() == workers.len(),
        forall|j: int| 0 <= j < workers.len() ==> 0 <= #[trigger] workers[j] < segs.len(),
        forall|k: int|
            0 <= k < segs.len() && !seg_done(#[trigger] segs[k]) ==> exists|j: int|
                0 <= j < workers.len() && workers[j] == k,
        forall|k: int|
            0 <= k < segs.len() && seg_done(#[trigger] segs[k]) ==> last_cursor(
                ops,
                segs[k].index,
            ) is None,
        forall|j: int|
            0 <= j < workers.len() && #[trigger] outs[j] is Finished ==> (last_cursor(
                ops,
                segs[workers[j]].index,
            ) matches Some(c) && c > segs[workers[j]].end),
        fold_outcomes(outs).1 ==> cancelled,
        parallel_end(fold_outcomes(outs).0, cancelled) is Ok,
    ensures
        apply_cursors(segs, ops).len() > 0,
        forall|k: int|
            0 <= k < apply_cursors(segs, ops).len() ==> #[trigger] seg_done(
                apply_cursors(segs, ops)[k],
            ),
{
    lemma_fold_quiet(outs);
    lemma_apply_cursors(segs, ops);
    let r = apply_cursors(segs, ops);
    assert forall|k: int| 0 <= k < r.len() implies #[trigger] seg_done(r[k]) by {
        if !seg_done(segs[k]) {
            let j = choose|j: int| 0 <= j < workers.len() && workers[j] == k;
            assert(outs[j] is Finished);
        }
    }
}

/// What a download does once its target path is chosen.
pub enum FileAction {
    /// The target is already complete and is reported as it is, after its
    /// digest is checked when `verify` is set.
    Skip { verify: bool },
    /// The file is transferred; `resumed` tells whether an earlier partial
    /// transfer is picked up, `verify` whether the digest is checked after it.
    Transfer { resumed: bool, verify: bool },
}

/// Decides between reporting a complete target and transferring it. The
/// target counts as complete when it exists without a partial file and its
/// URL marker, if there is one, names the same URL. A transfer resumes when
/// both the partial file and the resume state exist.
pub fn plan_file(
    final_exists: bool,
    part_exists: bool,
    state_exists: bool,
    marker: Option<&str>,
    url: &str,
    digest_expected: bool,
) -> (r: FileAction)
    ensures
        r == if final_exists && !part_exists && match marker {
            Some(m) => m@ == url@,
            None => true,
        } {
            FileAction::Skip { verify: digest_expected }
        } else {
            FileAction::Transfer { resumed: part_exists && state_exists, verify: digest_expected }
        },
{
    if final_exists && !part_exists && marker_matches(marker, url) {
        FileAction::Skip { verify: digest_expected }
    } else {
        FileAction::Transfer { resumed: part_exists && state_exists, verify: digest_expected }
    }
}

/// What a download that went through `action` reports for the file at `path`.
pub fn download_result(path: String, action: &FileAction) -> (r: DownloadResult)
    ensures
        r.path@ == path@,
        match *action {
            FileAction::Skip { verify } => r.skipped && !r.resumed && r.verified == verify,
            FileAction::Transfer { resumed, verify } => !r.skipped && r.resumed == resumed
                && r.verified == verify,
        },
{
    match action {
        FileAction::Skip { verify } => DownloadResult {
            path,
            skipped: true,
            resumed: false,
            verified: *verify,
        },
        FileAction::Transfer { resumed, verify } => DownloadResult {
            path,
            skipped: false,
            resumed: *resumed,
            verified: *verify,
        },
    }
}

/// A `206` probe answers the one-byte range request, so its `Content-Length`
/// (1) never becomes the file size: the size comes from `Content-Range` or stays unknown.
pub proof fn lemma_partial_probe_size(r: ProbeResponse)
    requires
        r.status == 206,
    ensures
        probe_size(r) == match opt_view(r.content_range) {
            Some(c) => match content_range_total(c) {
                Some(t) => t,
                None => 0,
            },
            None => 0,
        },
        probe_supports_range(r),
{
}

/// Authentication failures are never retried, and after `MAX_RETRIES`
/// failed retries the transfer gives up.
pub proof fn lemma_retry_stops(
    give_up_prefix: Seq<char>,
    retry_prefix: Seq<char>,
    attempt: u32,
    err: Seq<char>,
    r: RetryStep,
)
    requires
        retry_step_spec(give_up_prefix, retry_prefix, attempt, err, r),
    ensures
        auth_failure(lower(err)) ==> (r matches RetryStep::GiveUp(e) && e@ == err),
        attempt >= MAX_RETRIES ==> r is GiveUp,
        r matches RetryStep::Retry { attempt: a, .. } ==> a == attempt + 1 && a <= MAX_RETRIES,
{
}

/// The attempt number that decision `i` of a run follows: 0 for the first,
/// else the attempt the previous decision scheduled.
pub open spec fn attempt_before(steps: Seq<RetryStep>, i: int) -> u32 {
    if i <= 0 {
        0
    } else {
        match steps[i - 1] {
            RetryStep::Retry { attempt, .. } => attempt,
            RetryStep::GiveUp(_) => 0,
        }
    }
}

proof fn lemma_attempt_index(
    give_up_prefix: Seq<char>,
    retry_prefix: Seq<char>,
    errs: Seq<Seq<char>>,
    steps: Seq<RetryStep>,
    i: int,
)
    requires
        steps.len() == errs.len(),
        forall|j: int|
            0 <= j < steps.len() ==> retry_step_spec(
                give_up_prefix,
                retry_prefix,
                attempt_before(steps, j),
                errs[j],
                #[trigger] steps[j],
            ),
        forall|j: int| 0 <= j < steps.len() - 1 ==> #[trigger] steps[j] is Retry,
        0 <= i < steps.len(),
    ensures
        attempt_before(steps, i) == i,
        i <= MAX_RETRIES,
    decreases i,
{
    if i > 0 {
        lemma_attempt_index(give_up_prefix, retry_prefix, errs, steps, i - 1);
        assert(steps[i - 1] is Retry);
        assert(retry_step_spec(
            give_up_prefix,
            retry_prefix,
            attempt_before(steps, i - 1),
            errs[i - 1],
            steps[i - 1],
        ));
    }
}

/// A transfer that keeps failing makes at most `MAX_RETRIES + 1` attempts.
/// In a run of retry decisions where each one but the last retried, decision
/// `i` follows attempt `i`, a retry at decision `i` waits
/// `retry_delay_ms(i + 1)`, and there are at most `MAX_RETRIES + 1` decisions.
pub proof fn lemma_retry_run(
    give_up_prefix: Seq<char>,
    retry_prefix: Seq<char>,
    errs: Seq<Seq<char>>,
    steps: Seq<RetryStep>,
)
    requires
        steps.len() == errs.len(),
        forall|j: int|
            0 <= j < steps.len() ==> retry_step_spec(
                give_up_prefix,
                retry_prefix,
                attempt_before(steps, j),
                errs[j],
                #[trigger] steps[j],
            ),
        forall|j: int| 0 <= j < steps.len() - 1 ==> #[trigger] steps[j] is Retry,
    ensures
        steps.len() <= MAX_RETRIES + 1,
        forall|i: int| 0 <= i < steps.len() ==> attempt_before(steps, i) == i,
        forall|i: int|
            0 <= i < steps.len() ==> (#[trigger] steps[i] matches RetryStep::Retry {
                delay_ms: d,
                ..
            } ==> d == retry_delay_ms((i + 1) as u32)),
{
    assert forall|i: int| 0 <= i < steps.len() implies attempt_before(steps, i) == i by {
        lemma_attempt_index(give_up_prefix, retry_prefix, errs, steps, i);
    }
    if steps.len() > MAX_RETRIES + 1 {
        lemma_attempt_index(give_up_prefix, retry_prefix, errs, steps, MAX_RETRIES as int + 1);
    }
    assert forall|i: int| 0 <= i < steps.len() implies (#[trigger] steps[i] matches RetryStep::Retry {
        delay_ms: d,
        ..
    } ==> d == retry_delay_ms((i + 1) as u32)) by {
        lemma_attempt_index(give_up_prefix, retry_prefix, errs, steps, i);
    }
}

/// Back-off never shrinks from one retry to the next and never exceeds 8 s.
pub proof fn lemma_retry_delay_monotone(a: u32, b: u32)
    requires
        a <= b,
    ensures
        retry_delay_ms(a) <= retry_delay_ms(b) <= 8000,
        retry_delay_ms(a) >= 500,
{
}

} // verus!
