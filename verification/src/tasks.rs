//! The download queue: the task records and every change the UI and the
//! runner make to them.
use vstd::prelude::*;

use crate::engine::DownloadResult;
use crate::paths::{display_path, display_windows_path};
use crate::text::{
    chars_eq, chars_of, has_prefix, slice_chars, split_char, split_char_exec, starts_with,
    string_of, trim, trim_exec, views, CharSet,
};

verus! {

#[derive(Clone, Copy, Debug, PartialEq, Eq, Structural)]
pub enum TaskStatus {
    Queued,
    Running,
    Completed,
    Skipped,
    Failed,
    Cancelled,
}

/// One download in the queue.
#[derive(Debug)]
pub struct TaskRecord {
    pub id: String,
    pub url: String,
    pub save_path: String,
    pub sha256: String,
    pub status: TaskStatus,
    pub downloaded: u64,
    pub total: u64,
    pub speed_bps: u64,
    pub message: String,
    pub error: String,
}

/// The content of a task record.
pub struct TaskView {
    pub id: Seq<char>,
    pub url: Seq<char>,
    pub save_path: Seq<char>,
    pub sha256: Seq<char>,
    pub status: TaskStatus,
    pub downloaded: u64,
    pub total: u64,
    pub speed_bps: u64,
    pub message: Seq<char>,
    pub error: Seq<char>,
}

impl View for TaskRecord {
    type V = TaskView;

    open spec fn view(&self) -> TaskView {
        TaskView {
            id: self.id@,
            url: self.url@,
            save_path: self.save_path@,
            sha256: self.sha256@,
            status: self.status,
            downloaded: self.downloaded,
            total: self.total,
            speed_bps: self.speed_bps,
            message: self.message@,
            error: self.error@,
        }
    }
}

fn copy_str(s: &String) -> (r: String)
    ensures
        r@ == s@,
{
    s.clone()
}

impl TaskRecord {
    /// A copy of the record.
    pub fn duplicate(&self) -> (r: TaskRecord)
        ensures
            r@ == self@,
    {
        TaskRecord {
            id: copy_str(&self.id),
            url: copy_str(&self.url),
            save_path: copy_str(&self.save_path),
            sha256: copy_str(&self.sha256),
            status: self.status,
            downloaded: self.downloaded,
            total: self.total,
            speed_bps: self.speed_bps,
            message: copy_str(&self.message),
            error: copy_str(&self.error),
        }
    }
}

/// The views of a list of records.
pub open spec fn task_views(ts: Seq<TaskRecord>) -> Seq<TaskView> {
    ts.map_values(|t: TaskRecord| t@)
}

/// The queue of download tasks, newest first.
pub struct TaskList {
    pub tasks: Vec<TaskRecord>,
}

impl View for TaskList {
    type V = Seq<TaskView>;

    open spec fn view(&self) -> Seq<TaskView> {
        task_views(self.tasks@)
    }
}

/// After a restart a task that was running is queued again.
pub open spec fn restored_task(t: TaskView) -> TaskView {
    if t.status == TaskStatus::Running {
        TaskView { status: TaskStatus::Queued, message: "interrupted"@, speed_bps: 0, ..t }
    } else {
        t
    }
}

/// A task as listed to the UI: its save path in display form.
pub open spec fn listed_task(t: TaskView) -> TaskView {
    if t.save_path.len() > 0 {
        TaskView { save_path: display_path(t.save_path), ..t }
    } else {
        t
    }
}

/// A task with this status keeps a second task for the same URL from being added.
pub open spec fn blocks_url(t: TaskView, url: Seq<char>) -> bool {
    t.url == url && (t.status == TaskStatus::Queued || t.status == TaskStatus::Running
        || t.status == TaskStatus::Completed || t.status == TaskStatus::Skipped)
}

/// A finished task, removed by `clear_finished`.
pub open spec fn is_finished(t: TaskView) -> bool {
    t.status == TaskStatus::Completed || t.status == TaskStatus::Skipped || t.status
        == TaskStatus::Cancelled || t.status == TaskStatus::Failed
}

/// `str::lines` of `raw`, each trimmed: the `\n`-separated pieces without an
/// empty final piece. (The `\r` of a `\r\n` ending is whitespace, so the
/// trim removes it as `lines` would.)
pub open spec fn trimmed_lines(raw: Seq<char>) -> Seq<Seq<char>> {
    let ps = split_char(raw, '\n');
    let kept = if ps.last().len() == 0 {
        ps.drop_last()
    } else {
        ps
    };
    kept.map_values(|p: Seq<char>| trim(p, CharSet::Space))
}

/// All trimmed lines of all inputs, in order.
pub open spec fn all_lines(raws: Seq<Seq<char>>) -> Seq<Seq<char>>
    decreases raws.len(),
{
    if raws.len() == 0 {
        seq![]
    } else {
        all_lines(raws.drop_last()) + trimmed_lines(raws.last())
    }
}

/// The URL is already held by a blocking task, or was accepted earlier in this call.
pub open spec fn known_url(old: Seq<TaskView>, accepted: Seq<Seq<char>>, url: Seq<char>) -> bool {
    (exists|i: int| 0 <= i < old.len() && blocks_url(old[i], url)) || accepted.contains(url)
}

/// One line of input: blank lines and `#` comments are skipped, a line that
/// is not an `http://` or `https://` URL is an error, a URL already queued,
/// running, completed or skipped is skipped, any other URL is accepted.
pub open spec fn scan_line(
    old: Seq<TaskView>,
    st: (Seq<Seq<char>>, Option<Seq<char>>),
    line: Seq<char>,
) -> (Seq<Seq<char>>, Option<Seq<char>>) {
    let (acc, err) = st;
    if err is Some {
        st
    } else if line.len() == 0 || line[0] == '#' {
        st
    } else if !(has_prefix(line, "http://"@) || has_prefix(line, "https://"@)) {
        (acc, Some("invalid url: "@ + line))
    } else if known_url(old, acc, line) {
        st
    } else {
        (acc.push(line), None)
    }
}

/// The URLs accepted from `lines`, and the error that stopped the scan, if any.
pub open spec fn scan_lines(old: Seq<TaskView>, lines: Seq<Seq<char>>) -> (
    Seq<Seq<char>>,
    Option<Seq<char>>,
)
    decreases lines.len(),
{
    if lines.len() == 0 {
        (seq![], None)
    } else {
        scan_line(old, scan_lines(old, lines.drop_last()), lines.last())
    }
}

/// A line that is neither blank, nor a `#` comment, nor an `http(s)://` URL.
pub open spec fn invalid_line(line: Seq<char>) -> bool {
    line.len() > 0 && line[0] != '#' && !(has_prefix(line, "http://"@) || has_prefix(
        line,
        "https://"@,
    ))
}

/// Lines without an invalid one are scanned without error.
pub proof fn lemma_scan_valid(old: Seq<TaskView>, lines: Seq<Seq<char>>)
    requires
        forall|j: int| 0 <= j < lines.len() ==> !invalid_line(#[trigger] lines[j]),
    ensures
        scan_lines(old, lines).1 is None,
    decreases lines.len(),
{
    if lines.len() > 0 {
        let d = lines.drop_last();
        assert forall|j: int| 0 <= j < d.len() implies !invalid_line(#[trigger] d[j]) by {
            assert(d[j] == lines[j]);
        }
        lemma_scan_valid(old, d);
        assert(!invalid_line(lines[lines.len() - 1]));
    }
}

/// Adding URLs stops at the first invalid line: the error is
/// `invalid url: ` and that line, and only the lines before it are accepted.
pub proof fn lemma_scan_stops_at_invalid(old: Seq<TaskView>, lines: Seq<Seq<char>>, m: int)
    requires
        0 <= m < lines.len(),
        invalid_line(lines[m]),
        forall|j: int| 0 <= j < m ==> !invalid_line(#[trigger] lines[j]),
    ensures
        scan_lines(old, lines).1 == Some("invalid url: "@ + lines[m]),
        scan_lines(old, lines).0 == scan_lines(old, lines.take(m)).0,
    decreases lines.len(),
{
    let d = lines.drop_last();
    if lines.len() == m + 1 {
        assert(d =~= lines.take(m));
        assert forall|j: int| 0 <= j < d.len() implies !invalid_line(#[trigger] d[j]) by {
            assert(d[j] == lines[j]);
        }
        lemma_scan_valid(old, d);
        assert(lines.last() == lines[m]);
    } else {
        assert forall|j: int| 0 <= j < m implies !invalid_line(#[trigger] d[j]) by {
            assert(d[j] == lines[j]);
        }
        assert(d[m] == lines[m]);
        lemma_scan_stops_at_invalid(old, d, m);
        assert(d.take(m) =~= lines.take(m));
    }
}

/// A newly added task for `url`, with identifier `id`.
pub open spec fn new_task(id: Seq<char>, url: Seq<char>) -> TaskView {
    TaskView {
        id: id,
        url: url,
        save_path: seq![],
        sha256: seq![],
        status: TaskStatus::Queued,
        downloaded: 0,
        total: 0,
        speed_bps: 0,
        message: seq![],
        error: seq![],
    }
}

/// `ts[k]` is the first task with identifier `id`.
pub open spec fn is_first_id(ts: Seq<TaskView>, id: Seq<char>, k: int) -> bool {
    0 <= k < ts.len() && ts[k].id == id && forall|j: int| 0 <= j < k ==> ts[j].id != id
}

/// The position of the first task with identifier `id`.
pub open spec fn id_pos(ts: Seq<TaskView>, id: Seq<char>) -> Option<int> {
    if exists|k: int| 0 <= k < ts.len() && ts[k].id == id {
        Some(choose|k: int| is_first_id(ts, id, k))
    } else {
        None
    }
}

/// The tasks other than those with identifier `id`.
pub open spec fn without_id(ts: Seq<TaskView>, id: Seq<char>) -> Seq<TaskView>
    decreases ts.len(),
{
    if ts.len() == 0 {
        seq![]
    } else {
        let r = without_id(ts.drop_last(), id);
        if ts.last().id != id {
            r.push(ts.last())
        } else {
            r
        }
    }
}

/// The tasks that are not finished.
pub open spec fn unfinished(ts: Seq<TaskView>) -> Seq<TaskView>
    decreases ts.len(),
{
    if ts.len() == 0 {
        seq![]
    } else {
        let r = unfinished(ts.drop_last());
        if !is_finished(ts.last()) {
            r.push(ts.last())
        } else {
            r
        }
    }
}

/// The queued task that was added first (the queue is newest first).
pub open spec fn is_oldest_queued(ts: Seq<TaskView>, k: int) -> bool {
    0 <= k < ts.len() && ts[k].status == TaskStatus::Queued && forall|j: int|
        k < j < ts.len() ==> ts[j].status != TaskStatus::Queued
}

/// Cancelling: a queued task becomes cancelled; other states are left to the runner.
pub open spec fn cancelled_task(t: TaskView) -> TaskView {
    if t.status == TaskStatus::Queued {
        TaskView { status: TaskStatus::Cancelled, message: "cancelled"@, ..t }
    } else {
        t
    }
}

/// The task as the runner starts it.
pub open spec fn started_task(t: TaskView) -> TaskView {
    TaskView { status: TaskStatus::Running, error: seq![], message: "starting"@, ..t }
}

/// The task after a progress report.
pub open spec fn progressed_task(
    t: TaskView,
    downloaded: u64,
    total: u64,
    speed_bps: u64,
    message: Seq<char>,
) -> TaskView {
    TaskView { downloaded, total, speed_bps, message, ..t }
}

/// The message of a successful download.
pub open spec fn success_message(skipped: bool, resumed: bool, verified: bool) -> Seq<char> {
    let base = if skipped {
        "already completed"@
    } else if resumed {
        "resumed complete"@
    } else {
        "done"@
    };
    if verified {
        base + " · sha256 ok"@
    } else {
        base
    }
}

/// The task once its download ended with `outcome` (the saved path, the
/// skipped, resumed and verified flags, or the error).
pub open spec fn finished_task(
    t: TaskView,
    outcome: Result<(Seq<char>, bool, bool, bool), Seq<char>>,
) -> TaskView {
    match outcome {
        Ok((path, skipped, resumed, verified)) => TaskView {
            save_path: display_path(path),
            status: if skipped {
                TaskStatus::Skipped
            } else {
                TaskStatus::Completed
            },
            message: success_message(skipped, resumed, verified),
            speed_bps: 0,
            error: seq![],
            ..t
        },
        Err(e) => if e == "cancelled"@ {
            TaskView {
                status: TaskStatus::Cancelled,
                message: "cancelled"@,
                speed_bps: 0,
                error: seq![],
                ..t
            }
        } else {
            TaskView {
                status: TaskStatus::Failed,
                message: "failed"@,
                speed_bps: 0,
                error: e,
                ..t
            }
        },
    }
}

/// A lower-case hexadecimal digit.
pub open spec fn is_lower_hex(c: char) -> bool {
    ('0' <= c && c <= '9') || ('a' <= c && c <= 'f')
}

/// The hyphenated lower-case text of a version-4 UUID: 36 characters, `-`
/// at positions 8, 13, 18 and 23, lower-case hex digits elsewhere, the
/// version digit `4` at position 14 and a variant digit `8`, `9`, `a` or `b`
/// at position 19.
pub open spec fn uuid_v4_text(s: Seq<char>) -> bool {
    &&& s.len() == 36
    &&& forall|i: int|
        0 <= i < 36 ==> if i == 8 || i == 13 || i == 18 || i == 23 {
            #[trigger] s[i] == '-'
        } else {
            is_lower_hex(s[i])
        }
    &&& s[14] == '4'
    &&& (s[19] == '8' || s[19] == '9' || s[19] == 'a' || s[19] == 'b')
}

/// Calls `uuid::Uuid::new_v4` and formats the UUID as text with `to_string`
/// (hyphenated, lower case). The UUID's bits are random, so only the form of
/// the text is promised: the version and variant digits that `new_v4` fixes
/// and the layout of the hyphenated lower-case format. Nothing is promised of
/// the other digits, in particular not that two identifiers differ.
#[verifier::external_body]
fn new_task_id() -> (id: String)
    ensures
        uuid_v4_text(id@),
{
    uuid::Uuid::new_v4().to_string()
}

fn str_eq(a: &str, b: &str) -> (r: bool)
    ensures
        r == (a@ == b@),
{
    let x = chars_of(a);
    let y = chars_of(b);
    chars_eq(&x, &y)
}

proof fn lemma_task_views_push(ts: Seq<TaskRecord>, t: TaskRecord)
    ensures
        task_views(ts.push(t)) == task_views(ts).push(t@),
{
    assert(task_views(ts.push(t)) =~= task_views(ts).push(t@));
}

impl TaskList {
    /// The queue as reloaded after a restart: interrupted tasks are queued again.
    pub fn restored(tasks: Vec<TaskRecord>) -> (r: TaskList)
        ensures
            r@ == task_views(tasks@).map_values(|t: TaskView| restored_task(t)),
    {
        let mut out: Vec<TaskRecord> = Vec::new();
        let mut i: usize = 0;
        while i < tasks.len()
            invariant
                i <= tasks@.len(),
                task_views(out@) == task_views(tasks@.take(i as int)).map_values(
                    |t: TaskView| restored_task(t),
                ),
            decreases tasks@.len() - i,
        {
            let mut t = tasks[i].duplicate();
            if t.status == TaskStatus::Running {
                t.status = TaskStatus::Queued;
                t.message = string_of(&chars_of("interrupted"));
                t.speed_bps = 0;
            }
            proof {
                lemma_task_views_push(out@, t);
                assert(tasks@.take(i + 1) =~= tasks@.take(i as int).push(tasks@[i as int]));
                assert(task_views(tasks@.take(i + 1)).map_values(|t: TaskView| restored_task(t))
                    =~= task_views(tasks@.take(i as int)).map_values(
                    |t: TaskView| restored_task(t),
                ).push(restored_task(tasks@[i as int]@)));
            }
            out.push(t);
            i = i + 1;
        }
        assert(tasks@.take(tasks@.len() as int) =~= tasks@);
        TaskList { tasks: out }
    }

    /// The tasks as shown to the UI.
    pub fn list(&self) -> (r: Vec<TaskRecord>)
        ensures
            task_views(r@) == self@.map_values(|t: TaskView| listed_task(t)),
    {
        let mut out: Vec<TaskRecord> = Vec::new();
        let mut i: usize = 0;
        while i < self.tasks.len()
            invariant
                i <= self.tasks@.len(),
                task_views(out@) == task_views(self.tasks@.take(i as int)).map_values(
                    |t: TaskView| listed_task(t),
                ),
            decreases self.tasks@.len() - i,
        {
            let mut t = self.tasks[i].duplicate();
            if !t.save_path.as_str().is_empty() {
                assert(t.save_path@.len() > 0);
                t.save_path = display_windows_path(t.save_path.as_str());
            } else {
                assert(t.save_path@.len() == 0);
            }
            proof {
                lemma_task_views_push(out@, t);
                assert(self.tasks@.take(i + 1) =~= self.tasks@.take(i as int).push(
                    self.tasks@[i as int],
                ));
                assert(task_views(self.tasks@.take(i + 1)).map_values(
                    |t: TaskView| listed_task(t),
                ) =~= task_views(self.tasks@.take(i as int)).map_values(
                    |t: TaskView| listed_task(t),
                ).push(listed_task(self.tasks@[i as int]@)));
            }
            out.push(t);
            i = i + 1;
        }
        assert(self.tasks@.take(self.tasks@.len() as int) =~= self.tasks@);
        out
    }
}


/// The trimmed lines of one input text.
fn trimmed_lines_exec(raw: &str) -> (r: Vec<Vec<char>>)
    ensures
        views(r@) == trimmed_lines(raw@),
{
    let v = chars_of(raw);
    let ps = split_char_exec(&v, '\n');
    let ghost pv = views(ps@);
    proof {
        crate::text::lemma_split_char_nonempty(v@, '\n');
    }
    let n = if ps[ps.len() - 1].len() == 0 {
        ps.len() - 1
    } else {
        ps.len()
    };
    let ghost kept = if pv.last().len() == 0 {
        pv.drop_last()
    } else {
        pv
    };
    assert(kept =~= pv.take(n as int));
    let mut out: Vec<Vec<char>> = Vec::new();
    let mut i: usize = 0;
    while i < n
        invariant
            i <= n <= ps@.len(),
            pv == views(ps@),
            views(out@) == pv.take(i as int).map_values(|p: Seq<char>| trim(p, CharSet::Space)),
        decreases n - i,
    {
        let t = trim_exec(ps[i].as_slice(), CharSet::Space);
        proof {
            crate::text::lemma_views_push(out@, t);
            assert(pv.take(i + 1).map_values(|p: Seq<char>| trim(p, CharSet::Space))
                =~= pv.take(i as int).map_values(|p: Seq<char>| trim(p, CharSet::Space)).push(
                trim(pv[i as int], CharSet::Space),
            ));
        }
        out.push(t);
        i = i + 1;
    }
    out
}

fn all_lines_exec(urls: &Vec<String>) -> (r: Vec<Vec<char>>)
    ensures
        views(r@) == all_lines(urls@.map_values(|u: String| u@)),
{
    let ghost raws = urls@.map_values(|u: String| u@);
    let mut out: Vec<Vec<char>> = Vec::new();
    let mut i: usize = 0;
    while i < urls.len()
        invariant
            i <= urls@.len(),
            raws == urls@.map_values(|u: String| u@),
            views(out@) == all_lines(raws.take(i as int)),
        decreases urls@.len() - i,
    {
        let ls = trimmed_lines_exec(urls[i].as_str());
        let ghost before = views(out@);
        let mut j: usize = 0;
        while j < ls.len()
            invariant
                j <= ls@.len(),
                views(out@) == before + views(ls@).take(j as int),
            decreases ls@.len() - j,
        {
            let piece = slice_chars(ls[j].as_slice(), 0, ls[j].len());
            proof {
                assert(ls@[j as int]@.subrange(0, ls@[j as int]@.len() as int) =~= ls@[j as int]@);
                crate::text::lemma_views_push(out@, piece);
                assert(before + views(ls@).take(j + 1) =~= (before + views(ls@).take(j as int)).push(
                    piece@,
                ));
            }
            out.push(piece);
            j = j + 1;
        }
        proof {
            assert(views(ls@).take(ls@.len() as int) =~= views(ls@));
            assert(raws.take(i + 1).drop_last() =~= raws.take(i as int));
            assert(raws.take(i + 1).last() == urls@[i as int]@);
        }
        i = i + 1;
    }
    assert(raws.take(urls@.len() as int) =~= raws);
    out
}

/// A task that keeps the URL busy: queued, running, completed or skipped.
pub open spec fn is_active(t: TaskView) -> bool {
    t.status == TaskStatus::Queued || t.status == TaskStatus::Running || t.status
        == TaskStatus::Completed || t.status == TaskStatus::Skipped
}

/// No two active tasks download the same URL.
pub open spec fn distinct_active(ts: Seq<TaskView>) -> bool {
    forall|i: int, j: int|
        0 <= i < ts.len() && 0 <= j < ts.len() && i != j && is_active(#[trigger] ts[i])
            && is_active(#[trigger] ts[j]) ==> ts[i].url != ts[j].url
}

proof fn lemma_scan_fresh(old: Seq<TaskView>, lines: Seq<Seq<char>>)
    ensures
        ({
            let acc = scan_lines(old, lines).0;
            &&& forall|a: int, b: int|
                0 <= a < acc.len() && 0 <= b < acc.len() && a != b ==> acc[a] != acc[b]
            &&& forall|k: int, i: int|
                0 <= k < acc.len() && 0 <= i < old.len() ==> !blocks_url(#[trigger] old[i], #[trigger] acc[k])
        }),
    decreases lines.len(),
{
    if lines.len() > 0 {
        lemma_scan_fresh(old, lines.drop_last());
        let st = scan_lines(old, lines.drop_last());
        let acc0 = st.0;
        let acc = scan_lines(old, lines).0;
        if acc != acc0 {
            let line = lines.last();
            assert(acc == acc0.push(line));
            assert(!known_url(old, acc0, line));
            assert forall|a: int, b: int|
                0 <= a < acc.len() && 0 <= b < acc.len() && a != b implies acc[a] != acc[b] by {
                if a == acc0.len() && b < acc0.len() {
                    assert(acc0.contains(acc0[b]));
                } else if b == acc0.len() && a < acc0.len() {
                    assert(acc0.contains(acc0[a]));
                } else {
                    assert(acc[a] == acc0[a] && acc[b] == acc0[b]);
                }
            }
            assert forall|k: int, i: int|
                0 <= k < acc.len() && 0 <= i < old.len() implies !blocks_url(
                #[trigger] old[i],
                #[trigger] acc[k],
            ) by {
                if k < acc0.len() {
                    assert(acc[k] == acc0[k]);
                }
            }
        }
    }
}

proof fn lemma_added_distinct(
    old: Seq<TaskView>,
    acc: Seq<Seq<char>>,
    new: Seq<TaskView>,
)
    requires
        distinct_active(old),
        forall|a: int, b: int| 0 <= a < acc.len() && 0 <= b < acc.len() && a != b ==> acc[a] != acc[b],
        forall|k: int, i: int| 0 <= k < acc.len() && 0 <= i < old.len() ==> !blocks_url(#[trigger] old[i], #[trigger] acc[k]),
        new.len() == old.len() + acc.len(),
        new.skip(acc.len() as int) == old,
        forall|k: int|
            0 <= k < acc.len() ==> #[trigger] new[acc.len() - 1 - k] == new_task(
                new[acc.len() - 1 - k].id,
                acc[k],
            ),
    ensures
        distinct_active(new),
{
    let n = acc.len() as int;
    assert forall|i: int, j: int|
        0 <= i < new.len() && 0 <= j < new.len() && i != j && is_active(#[trigger] new[i])
            && is_active(#[trigger] new[j]) implies new[i].url != new[j].url by {
        if i < n && j < n {
            assert(new[n - 1 - (n - 1 - i)] == new_task(new[i].id, acc[n - 1 - i]));
            assert(new[n - 1 - (n - 1 - j)] == new_task(new[j].id, acc[n - 1 - j]));
        } else if i < n && j >= n {
            assert(new[n - 1 - (n - 1 - i)] == new_task(new[i].id, acc[n - 1 - i]));
            assert(new[j] == old[j - n]);
            assert(!blocks_url(old[j - n], acc[n - 1 - i]));
        } else if i >= n && j < n {
            assert(new[n - 1 - (n - 1 - j)] == new_task(new[j].id, acc[n - 1 - j]));
            assert(new[i] == old[i - n]);
            assert(!blocks_url(old[i - n], acc[n - 1 - j]));
        } else {
            assert(new[i] == old[i - n]);
            assert(new[j] == old[j - n]);
        }
    }
}

proof fn lemma_scan_error_sticks(old: Seq<TaskView>, ls: Seq<Seq<char>>, i: int)
    requires
        0 <= i <= ls.len(),
        scan_lines(old, ls.take(i)).1 is Some,
    ensures
        scan_lines(old, ls) == scan_lines(old, ls.take(i)),
    decreases ls.len() - i,
{
    if i < ls.len() {
        assert(ls.take(i + 1).drop_last() =~= ls.take(i));
        lemma_scan_error_sticks(old, ls, i + 1);
    } else {
        assert(ls.take(i) =~= ls);
    }
}

impl TaskList {
    /// The position of the first task with identifier `id`.
    pub fn find(&self, id: &str) -> (r: Option<usize>)
        ensures
            match r {
                Some(k) => id_pos(self@, id@) == Some(k as int) && is_first_id(self@, id@, k as int),
                None => id_pos(self@, id@) is None,
            },
    {
        let mut k: usize = 0;
        while k < self.tasks.len()
            invariant
                k <= self.tasks@.len(),
                forall|j: int| 0 <= j < k ==> self@[j].id != id@,
            decreases self.tasks@.len() - k,
        {
            if str_eq(self.tasks[k].id.as_str(), id) {
                proof {
                    let ts = self@;
                    assert(is_first_id(ts, id@, k as int));
                    let c = choose|c: int| is_first_id(ts, id@, c);
                    assert(is_first_id(ts, id@, c));
                    if c < k {
                        assert(ts[c].id != id@);
                    }
                    if k < c {
                        assert(ts[k as int].id != id@);
                    }
                }
                return Some(k);
            }
            k = k + 1;
        }
        None
    }

    fn has_blocking(&self, url: &[char]) -> (r: bool)
        ensures
            r == exists|i: int| 0 <= i < self@.len() && blocks_url(self@[i], url@),
    {
        let mut k: usize = 0;
        while k < self.tasks.len()
            invariant
                k <= self.tasks@.len(),
                forall|j: int| 0 <= j < k ==> !blocks_url(self@[j], url@),
            decreases self.tasks@.len() - k,
        {
            let t = &self.tasks[k];
            let tu = chars_of(t.url.as_str());
            if chars_eq(&tu, url) && (t.status == TaskStatus::Queued || t.status
                == TaskStatus::Running || t.status == TaskStatus::Completed || t.status
                == TaskStatus::Skipped) {
                assert(blocks_url(self@[k as int], url@));
                return true;
            }
            k = k + 1;
        }
        false
    }

    /// Adds one task per new URL found in the lines of `urls`, newest first.
    /// Stops at the first line that is not an `http(s)://` URL; tasks added
    /// before that line stay in the queue. Each new task's identifier is the
    /// text of a random version-4 UUID.
    pub fn add_urls(&mut self, urls: Vec<String>) -> (r: Result<Vec<TaskRecord>, String>)
        ensures
            ({
                let (acc, err) = scan_lines(old(self)@, all_lines(urls@.map_values(|u: String| u@)));
                let n = acc.len();
                &&& final(self)@.len() == old(self)@.len() + n
                &&& final(self)@.skip(n as int) == old(self)@
                &&& forall|k: int|
                    0 <= k < n ==> #[trigger] final(self)@[n - 1 - k] == new_task(
                        final(self)@[n - 1 - k].id,
                        acc[k],
                    )
                &&& forall|k: int| 0 <= k < n ==> uuid_v4_text(#[trigger] final(self)@[k].id)
                &&& match r {
                    Ok(added) => err is None && task_views(added@) == Seq::new(
                        n,
                        |k: int| final(self)@[n - 1 - k],
                    ),
                    Err(e) => err == Some(e@),
                }
            }),
            distinct_active(old(self)@) ==> distinct_active(final(self)@),
    {
        let lines = all_lines_exec(&urls);
        let ghost ls = views(lines@);
        let ghost old_tasks = self@;
        let mut added: Vec<TaskRecord> = Vec::new();
        let mut i: usize = 0;
        let http = chars_of("http://");
        let https = chars_of("https://");
        while i < lines.len()
            invariant
                i <= lines@.len(),
                ls == views(lines@),
                ls == all_lines(urls@.map_values(|u: String| u@)),
                old_tasks == old(self)@,
                http@ == "http://"@,
                https@ == "https://"@,
                ({
                    let (acc, err) = scan_lines(old_tasks, ls.take(i as int));
                    let n = acc.len();
                    &&& err is None
                    &&& self@.len() == old_tasks.len() + n
                    &&& self@.skip(n as int) == old_tasks
                    &&& forall|k: int|
                        0 <= k < n ==> #[trigger] self@[n - 1 - k] == new_task(
                            self@[n - 1 - k].id,
                            acc[k],
                        )
                    &&& forall|k: int| 0 <= k < n ==> uuid_v4_text(#[trigger] self@[k].id)
                    &&& task_views(added@) == Seq::new(n, |k: int| self@[n - 1 - k])
                }),
            decreases lines@.len() - i,
        {
            let ghost st = scan_lines(old_tasks, ls.take(i as int));
            assert(ls.take(i + 1).drop_last() =~= ls.take(i as int));
            assert(ls.take(i + 1).last() == lines@[i as int]@);
            let line = &lines[i];
            if line.len() == 0 || line[0] == '#' {
                i = i + 1;
                continue ;
            }
            if !(starts_with(line, &http) || starts_with(line, &https)) {
                let mut m = chars_of("invalid url: ");
                crate::text::push_all(&mut m, line);
                proof {
                    assert(has_prefix(line@, "http://"@) == has_prefix(line@, http@));
                    assert(scan_lines(old_tasks, ls.take(i + 1)) == (st.0, Some(m@)));
                    lemma_scan_error_sticks(old_tasks, ls, i + 1);
                    lemma_scan_fresh(old_tasks, ls);
                    if distinct_active(old_tasks) {
                        lemma_added_distinct(old_tasks, st.0, self@);
                    }
                }
                return Err(string_of(&m));
            }
            let ghost acc = st.0;
            let known_old = self.has_blocking(line);
            let mut known_new = false;
            proof {
                assert(task_views(added@).len() == added@.len());
                assert forall|k: int| 0 <= k < acc.len() implies #[trigger] self@[acc.len() - 1
                    - k].url == acc[k] by {
                    assert(self@[acc.len() - 1 - k] == new_task(self@[acc.len() - 1 - k].id, acc[k]));
                }
            }
            let mut j: usize = 0;
            while j < added.len()
                invariant
                    j <= added@.len(),
                    task_views(added@) == Seq::new(acc.len(), |k: int| self@[acc.len() - 1 - k]),
                    added@.len() == acc.len(),
                    forall|k: int|
                        0 <= k < acc.len() ==> #[trigger] self@[acc.len() - 1 - k].url == acc[k],
                    known_new == exists|k: int| 0 <= k < j && acc[k] == line@,
                decreases added@.len() - j,
            {
                let au = chars_of(added[j].url.as_str());
                assert(task_views(added@)[j as int] == added@[j as int]@);
                assert(task_views(added@)[j as int] == self@[acc.len() - 1 - j]);
                assert(self@[acc.len() - 1 - j].url == acc[j as int]);
                assert(au@ == acc[j as int]);
                if chars_eq(&au, line) {
                    known_new = true;
                }
                j = j + 1;
            }
            proof {
                // A task for the URL that is among the tasks already in the
                // queue is either an old one or one accepted in this call.
                let n = acc.len();
                assert forall|t: int| 0 <= t < old_tasks.len() && blocks_url(old_tasks[t], line@)
                    implies exists|q: int| 0 <= q < self@.len() && blocks_url(self@[q], line@) by {
                    assert(self@[n + t] == self@.skip(n as int)[t]);
                }
                if known_old {
                    let q = choose|q: int| 0 <= q < self@.len() && blocks_url(self@[q], line@);
                    if q < n {
                        assert(self@[n - 1 - (n - 1 - q)].url == acc[n - 1 - q]);
                        assert(acc.contains(line@));
                    } else {
                        assert(self@[q] == self@.skip(n as int)[q - n]);
                    }
                }
                if known_new {
                    let k = choose|k: int| 0 <= k < acc.len() && acc[k] == line@;
                    assert(acc.contains(line@));
                }
                if acc.contains(line@) {
                    let k = choose|k: int| 0 <= k < acc.len() && acc[k] == line@;
                    assert(known_new);
                }
            }
            if known_old || known_new {
                i = i + 1;
                continue ;
            }
            let task = TaskRecord {
                id: new_task_id(),
                url: string_of(line),
                save_path: String::new(),
                sha256: String::new(),
                status: TaskStatus::Queued,
                downloaded: 0,
                total: 0,
                speed_bps: 0,
                message: String::new(),
                error: String::new(),
            };
            let copy = task.duplicate();
            let ghost prev = self@;
            let ghost prev_added = added@;
            self.tasks.insert(0, task);
            added.push(copy);
            proof {
                let n = acc.len() as int;
                let acc2 = acc.push(line@);
                assert(scan_lines(old_tasks, ls.take(i + 1)) == (acc2, None::<Seq<char>>));
                assert(self@ =~= prev.insert(0, copy@));
                assert(self@.skip(n + 1) =~= prev.skip(n));
                assert forall|k: int| 0 <= k < n + 1 implies #[trigger] self@[n - k] == new_task(
                    self@[n - k].id,
                    acc2[k],
                ) by {
                    if k < n {
                        assert(self@[n - k] == prev[n - 1 - k]);
                        assert(prev[n - 1 - k] == new_task(prev[n - 1 - k].id, acc[k]));
                    }
                }
                assert forall|k: int| 0 <= k < n + 1 implies uuid_v4_text(#[trigger] self@[k].id) by {
                    if k > 0 {
                        assert(self@[k] == prev[k - 1]);
                    }
                }
                lemma_task_views_push(prev_added, copy);
                assert(task_views(added@) =~= Seq::new((n + 1) as nat, |k: int| self@[n - k]));
            }
            i = i + 1;
        }
        assert(ls.take(lines@.len() as int) =~= ls);
        proof {
            lemma_scan_fresh(old_tasks, ls);
            if distinct_active(old_tasks) {
                lemma_added_distinct(old_tasks, scan_lines(old_tasks, ls).0, self@);
            }
        }
        Ok(added)
    }
}

impl TaskList {
    /// Drops every task with identifier `id`.
    pub fn remove(&mut self, id: &str)
        ensures
            final(self)@ == without_id(old(self)@, id@),
    {
        let mut kept: Vec<TaskRecord> = Vec::new();
        let mut i: usize = 0;
        while i < self.tasks.len()
            invariant
                i <= self.tasks@.len(),
                self.tasks@ == old(self).tasks@,
                task_views(kept@) == without_id(self@.take(i as int), id@),
            decreases self.tasks@.len() - i,
        {
            assert(self@.take(i + 1).drop_last() =~= self@.take(i as int));
            assert(self@.take(i + 1).last() == self.tasks@[i as int]@);
            if !str_eq(self.tasks[i].id.as_str(), id) {
                let t = self.tasks[i].duplicate();
                proof {
                    lemma_task_views_push(kept@, t);
                }
                kept.push(t);
            }
            i = i + 1;
        }
        assert(self@.take(self@.len() as int) =~= self@);
        self.tasks = kept;
    }

    /// Drops the completed, skipped, cancelled and failed tasks.
    pub fn clear_finished(&mut self)
        ensures
            final(self)@ == unfinished(old(self)@),
    {
        let mut kept: Vec<TaskRecord> = Vec::new();
        let mut i: usize = 0;
        while i < self.tasks.len()
            invariant
                i <= self.tasks@.len(),
                self.tasks@ == old(self).tasks@,
                task_views(kept@) == unfinished(self@.take(i as int)),
            decreases self.tasks@.len() - i,
        {
            assert(self@.take(i + 1).drop_last() =~= self@.take(i as int));
            assert(self@.take(i + 1).last() == self.tasks@[i as int]@);
            let st = self.tasks[i].status;
            if !(st == TaskStatus::Completed || st == TaskStatus::Skipped || st
                == TaskStatus::Cancelled || st == TaskStatus::Failed) {
                let t = self.tasks[i].duplicate();
                proof {
                    lemma_task_views_push(kept@, t);
                }
                kept.push(t);
            }
            i = i + 1;
        }
        assert(self@.take(self@.len() as int) =~= self@);
        self.tasks = kept;
    }

    /// Cancels the first task with identifier `id` if it is still queued.
    pub fn cancel(&mut self, id: &str)
        ensures
            final(self)@ == match id_pos(old(self)@, id@) {
                Some(k) => old(self)@.update(k, cancelled_task(old(self)@[k])),
                None => old(self)@,
            },
    {
        match self.find(id) {
            None => {},
            Some(k) => {
                if self.tasks[k].status == TaskStatus::Queued {
                    let mut t = self.tasks[k].duplicate();
                    t.status = TaskStatus::Cancelled;
                    t.message = string_of(&chars_of("cancelled"));
                    self.tasks.set(k, t);
                    assert(self@ =~= old(self)@.update(k as int, cancelled_task(old(self)@[k as int])));
                }
            },
        }
    }

    /// The identifier of the queued task that was added first, if any.
    pub fn next_queued(&self) -> (r: Option<String>)
        ensures
            match r {
                Some(id) => exists|k: int| is_oldest_queued(self@, k) && self@[k].id == id@,
                None => forall|k: int| 0 <= k < self@.len() ==> self@[k].status != TaskStatus::Queued,
            },
    {
        let mut k = self.tasks.len();
        while k > 0
            invariant
                k <= self.tasks@.len(),
                forall|j: int| k <= j < self@.len() ==> self@[j].status != TaskStatus::Queued,
            decreases k,
        {
            if self.tasks[k - 1].status == TaskStatus::Queued {
                assert(is_oldest_queued(self@, k - 1));
                return Some(copy_str(&self.tasks[k - 1].id));
            }
            k = k - 1;
        }
        None
    }

    /// Marks the first task with identifier `id` as running and returns its
    /// URL and expected SHA-256; `None` when there is no such task.
    pub fn begin_run(&mut self, id: &str) -> (r: Option<(String, String)>)
        ensures
            match id_pos(old(self)@, id@) {
                Some(k) => r matches Some((url, sha)) && url@ == old(self)@[k].url && sha@ == old(
                    self,
                )@[k].sha256 && final(self)@ == old(self)@.update(
                    k,
                    started_task(old(self)@[k]),
                ),
                None => r is None && final(self)@ == old(self)@,
            },
    {
        match self.find(id) {
            None => None,
            Some(k) => {
                let mut t = self.tasks[k].duplicate();
                t.status = TaskStatus::Running;
                t.error = String::new();
                t.message = string_of(&chars_of("starting"));
                let url = copy_str(&t.url);
                let sha = copy_str(&t.sha256);
                self.tasks.set(k, t);
                assert(self@ =~= old(self)@.update(k as int, started_task(old(self)@[k as int])));
                Some((url, sha))
            },
        }
    }

    /// Records a progress report on the first task with identifier `id`.
    pub fn apply_progress(&mut self, id: &str, downloaded: u64, total: u64, speed_bps: u64, message: &str)
        ensures
            final(self)@ == match id_pos(old(self)@, id@) {
                Some(k) => old(self)@.update(
                    k,
                    progressed_task(old(self)@[k], downloaded, total, speed_bps, message@),
                ),
                None => old(self)@,
            },
    {
        match self.find(id) {
            None => {},
            Some(k) => {
                let mut t = self.tasks[k].duplicate();
                t.downloaded = downloaded;
                t.total = total;
                t.speed_bps = speed_bps;
                t.message = string_of(&chars_of(message));
                self.tasks.set(k, t);
                assert(self@ =~= old(self)@.update(
                    k as int,
                    progressed_task(old(self)@[k as int], downloaded, total, speed_bps, message@),
                ));
            },
        }
    }

    /// Records how the download of the first task with identifier `id` ended.
    pub fn finish_run(&mut self, id: &str, outcome: &Result<DownloadResult, String>)
        ensures
            final(self)@ == match id_pos(old(self)@, id@) {
                Some(k) => old(self)@.update(
                    k,
                    finished_task(
                        old(self)@[k],
                        match outcome {
                            Ok(res) => Ok((res.path@, res.skipped, res.resumed, res.verified)),
                            Err(e) => Err(e@),
                        },
                    ),
                ),
                None => old(self)@,
            },
    {
        match self.find(id) {
            None => {},
            Some(k) => {
                let mut t = self.tasks[k].duplicate();
                match outcome {
                    Ok(res) => {
                        t.save_path = display_windows_path(res.path.as_str());
                        t.status = if res.skipped {
                            TaskStatus::Skipped
                        } else {
                            TaskStatus::Completed
                        };
                        let mut m = if res.skipped {
                            chars_of("already completed")
                        } else if res.resumed {
                            chars_of("resumed complete")
                        } else {
                            chars_of("done")
                        };
                        if res.verified {
                            crate::text::push_str(&mut m, " · sha256 ok");
                        }
                        t.message = string_of(&m);
                        t.speed_bps = 0;
                        t.error = String::new();
                    },
                    Err(e) => {
                        if str_eq(e.as_str(), "cancelled") {
                            t.status = TaskStatus::Cancelled;
                            t.message = string_of(&chars_of("cancelled"));
                            t.speed_bps = 0;
                            t.error = String::new();
                        } else {
                            t.status = TaskStatus::Failed;
                            t.message = string_of(&chars_of("failed"));
                            t.speed_bps = 0;
                            t.error = copy_str(e);
                        }
                    },
                }
                self.tasks.set(k, t);
                assert(self@ =~= old(self)@.update(
                    k as int,
                    finished_task(
                        old(self)@[k as int],
                        match outcome {
                            Ok(res) => Ok((res.path@, res.skipped, res.resumed, res.verified)),
                            Err(e) => Err(e@),
                        },
                    ),
                ));
            },
        }
    }
}

/// The single worker that runs queued tasks one after another.
pub struct QueueRunner {
    pub running: bool,
}

/// A claim of the runner: whether it starts, and whether a runner is active after it.
pub open spec fn claimed(running: bool) -> (bool, bool) {
    (!running, true)
}

/// One turn of an active runner over the queue `ts`: whether a task is
/// taken, and whether the runner stays active (it stops when none is queued).
pub open spec fn runner_turn(ts: Seq<TaskView>) -> (bool, bool) {
    let found = exists|k: int| 0 <= k < ts.len() && ts[k].status == TaskStatus::Queued;
    (found, found)
}

impl QueueRunner {
    /// No runner is active yet.
    pub fn new() -> (r: QueueRunner)
        ensures
            !r.running,
    {
        QueueRunner { running: false }
    }

    /// Claims the runner. Returns `true` when no runner was active; a runner
    /// is active afterwards either way.
    pub fn claim(&mut self) -> (started: bool)
        ensures
            (started, final(self).running) == claimed(old(self).running),
    {
        if self.running {
            return false;
        }
        self.running = true;
        true
    }

    /// The next task for the active runner: the queued task added first.
    /// When none is queued the runner stops.
    pub fn next_task(&mut self, list: &TaskList) -> (r: Option<String>)
        ensures
            (r is Some, final(self).running) == runner_turn(list@),
            match r {
                Some(id) => exists|k: int| is_oldest_queued(list@, k) && list@[k].id == id@,
                None => forall|k: int|
                    0 <= k < list@.len() ==> list@[k].status != TaskStatus::Queued,
            },
    {
        let r = list.next_queued();
        proof {
            if r is Some {
                let k = choose|k: int| is_oldest_queued(list@, k) && list@[k].id == r->0@;
                assert(0 <= k < list@.len() && list@[k].status == TaskStatus::Queued);
            }
        }
        self.running = r.is_some();
        r
    }
}

/// At most one runner is active at a time: while one is active, a second
/// claim starts nothing, and the active one gives its claim up only when no
/// task is queued, after which a claim starts a runner again.
pub proof fn lemma_single_runner(running: bool, ts: Seq<TaskView>)
    ensures
        claimed(claimed(running).1).0 == false,
        running ==> !claimed(running).0,
        !runner_turn(ts).1 <==> forall|k: int|
            0 <= k < ts.len() ==> ts[k].status != TaskStatus::Queued,
        !runner_turn(ts).1 ==> claimed(runner_turn(ts).1).0,
{
}

/// After a restart no task is left running: every task keeps its identity
/// and URL, the ones that were running are queued again as `interrupted`
/// with no speed and all else kept, and every other task (cancelled, failed,
/// completed, skipped or queued) is left exactly as it was.
pub proof fn lemma_restore_requeues(ts: Seq<TaskView>)
    ensures
        ({
            let r = ts.map_values(|t: TaskView| restored_task(t));
            &&& r.len() == ts.len()
            &&& forall|k: int|
                0 <= k < r.len() && ts[k].status != TaskStatus::Running ==> #[trigger] r[k] == ts[k]
            &&& forall|k: int|
                0 <= k < r.len() && ts[k].status == TaskStatus::Running ==> #[trigger] r[k]
                    == TaskView {
                    status: TaskStatus::Queued,
                    message: "interrupted"@,
                    speed_bps: 0,
                    ..ts[k]
                }
            &&& forall|k: int|
                0 <= k < r.len() ==> #[trigger] r[k].status != TaskStatus::Running && r[k].id
                    == ts[k].id && r[k].url == ts[k].url
            &&& forall|k: int|
                0 <= k < r.len() && ts[k].status == TaskStatus::Running ==> #[trigger] r[k].status
                    == TaskStatus::Queued
        }),
{
}

/// Removing by identifier drops exactly the tasks with that identifier.
pub proof fn lemma_without_id(ts: Seq<TaskView>, id: Seq<char>)
    ensures
        forall|k: int| 0 <= k < without_id(ts, id).len() ==> #[trigger] without_id(ts, id)[k].id != id,
        forall|k: int| 0 <= k < ts.len() && ts[k].id != id ==> without_id(ts, id).contains(#[trigger] ts[k]),
        forall|t: TaskView| #[trigger] without_id(ts, id).contains(t) ==> ts.contains(t),
    decreases ts.len(),
{
    if ts.len() > 0 {
        let d = ts.drop_last();
        lemma_without_id(d, id);
        let r = without_id(ts, id);
        let r0 = without_id(d, id);
        assert forall|k: int| 0 <= k < ts.len() && ts[k].id != id implies r.contains(
            #[trigger] ts[k],
        ) by {
            if k < ts.len() - 1 {
                assert(d[k] == ts[k]);
                assert(r0.contains(d[k]));
                let q = choose|q: int| 0 <= q < r0.len() && r0[q] == d[k];
                if ts.last().id != id {
                    assert(r[q] == r0[q]);
                }
            } else {
                assert(r[r.len() - 1] == ts[k]);
            }
        }
        assert forall|t: TaskView| #[trigger] r.contains(t) implies ts.contains(t) by {
            let q = choose|q: int| 0 <= q < r.len() && r[q] == t;
            if q < r0.len() {
                assert(r0[q] == t);
                assert(r0.contains(t));
                let p = choose|p: int| 0 <= p < d.len() && d[p] == t;
                assert(ts[p] == t);
            } else {
                assert(ts[ts.len() - 1] == t);
            }
        }
        assert forall|k: int| 0 <= k < r.len() implies #[trigger] r[k].id != id by {
            if k < r0.len() {
                assert(r[k] == r0[k]);
            }
        }
    }
}

/// Clearing keeps exactly the tasks that are not finished.
pub proof fn lemma_unfinished(ts: Seq<TaskView>)
    ensures
        forall|k: int| 0 <= k < unfinished(ts).len() ==> !is_finished(#[trigger] unfinished(ts)[k]),
        forall|k: int| 0 <= k < ts.len() && !is_finished(ts[k]) ==> unfinished(ts).contains(#[trigger] ts[k]),
        forall|t: TaskView| #[trigger] unfinished(ts).contains(t) ==> ts.contains(t),
    decreases ts.len(),
{
    if ts.len() > 0 {
        let d = ts.drop_last();
        lemma_unfinished(d);
        let r = unfinished(ts);
        let r0 = unfinished(d);
        assert forall|k: int| 0 <= k < ts.len() && !is_finished(ts[k]) implies r.contains(
            #[trigger] ts[k],
        ) by {
            if k < ts.len() - 1 {
                assert(d[k] == ts[k]);
                assert(r0.contains(d[k]));
                let q = choose|q: int| 0 <= q < r0.len() && r0[q] == d[k];
                if !is_finished(ts.last()) {
                    assert(r[q] == r0[q]);
                }
            } else {
                assert(r[r.len() - 1] == ts[k]);
            }
        }
        assert forall|t: TaskView| #[trigger] r.contains(t) implies ts.contains(t) by {
            let q = choose|q: int| 0 <= q < r.len() && r[q] == t;
            if q < r0.len() {
                assert(r0[q] == t);
                assert(r0.contains(t));
                let p = choose|p: int| 0 <= p < d.len() && d[p] == t;
                assert(ts[p] == t);
            } else {
                assert(ts[ts.len() - 1] == t);
            }
        }
        assert forall|k: int| 0 <= k < r.len() implies !is_finished(#[trigger] r[k]) by {
            if k < r0.len() {
                assert(r[k] == r0[k]);
            }
        }
    }
}

/// Cancelling never touches a task that is not queued: a running download is
/// stopped through its cancel flag, not by rewriting its record.
pub proof fn lemma_cancel_only_queued(t: TaskView)
    ensures
        t.status != TaskStatus::Queued ==> cancelled_task(t) == t,
        t.status == TaskStatus::Queued ==> cancelled_task(t).status == TaskStatus::Cancelled
            && cancelled_task(t).id == t.id && cancelled_task(t).url == t.url,
{
}
} // verus!
