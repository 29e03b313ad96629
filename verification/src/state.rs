//! Resume bookkeeping of a download: the byte segments that the workers
//! fetch, their progress, and the side files that sit next to the target.
use vstd::prelude::*;

use crate::text::{chars_eq, chars_of, string_of, trim, trim_exec, CharSet};


verus! {

/// One byte range `[start, end]` of the remote file, fetched by one worker;
/// `cursor` is the next byte that worker will write.
#[derive(Clone, Copy, Debug, PartialEq, Eq)]
pub struct Segment {
    pub index: u32,
    pub start: u64,
    pub end: u64,
    pub cursor: u64,
}

/// A segment whose subtraction `end - start + 1` does not overflow.
pub open spec fn seg_well_formed(s: Segment) -> bool {
    s.cursor > s.start ==> (s.start <= s.end && s.end - s.start < u64::MAX)
}

pub open spec fn seg_done(s: Segment) -> bool {
    s.cursor > s.end
}

/// Bytes of the segment already written: the distance the cursor has moved,
/// capped at the segment's length.
pub open spec fn seg_downloaded(s: Segment) -> nat {
    if s.cursor <= s.start {
        0
    } else {
        let moved = s.cursor - s.start;
        let len = s.end - s.start + 1;
        (if moved <= len {
            moved
        } else {
            len
        }) as nat
    }
}

impl Segment {
    pub fn done(&self) -> (b: bool)
        ensures
            b == seg_done(*self),
    {
        self.cursor > self.end
    }

    pub fn downloaded(&self) -> (n: u64)
        requires
            seg_well_formed(*self),
        ensures
            n == seg_downloaded(*self),
    {
        if self.cursor <= self.start {
            0
        } else {
            let moved = self.cursor - self.start;
            let len = self.end - self.start + 1;
            if moved <= len {
                moved
            } else {
                len
            }
        }
    }
}

/// The segment `[start, end]` numbered `i`, with nothing written yet.
pub open spec fn fresh_segment(i: int, start: int, end: int) -> Segment {
    Segment { index: i as u32, start: start as u64, end: end as u64, cursor: start as u64 }
}

/// `threads.max(1)`.
pub open spec fn worker_count(threads: u32) -> int {
    if threads == 0 {
        1
    } else {
        threads as int
    }
}

/// The segments planned for a file of `total` bytes and `threads` workers.
/// With at least one byte per worker, worker `i` gets `[i * chunk, (i + 1) * chunk - 1]`
/// (`chunk = total / workers`) and the last one also takes the remainder.
/// With fewer bytes than workers, a single segment `[0, 0]` is planned.
pub open spec fn planned_segments(total: u64, threads: u32) -> Seq<Segment> {
    let t = worker_count(threads);
    let chunk = total as int / t;
    if chunk == 0 {
        seq![fresh_segment(0, 0, 0)]
    } else {
        Seq::new(
            t as nat,
            |i: int|
                fresh_segment(
                    i,
                    i * chunk,
                    if i == t - 1 {
                        total - 1
                    } else {
                        (i + 1) * chunk - 1
                    },
                ),
        )
    }
}

proof fn lemma_chunk_step(total: int, t: int, chunk: int, i: int)
    requires
        t >= 1,
        chunk == total / t,
        chunk >= 1,
        0 <= i < t,
        total >= 0,
    ensures
        i * chunk + chunk == (i + 1) * chunk,
        i + 1 < t ==> (i + 1) * chunk + chunk <= total,
        i * chunk + chunk <= total,
        i * chunk >= 0,
{
    assert(t * chunk <= total) by (nonlinear_arith)
        requires
            chunk == total / t,
            t >= 1,
            total >= 0,
    ;
    assert(i * chunk + chunk == (i + 1) * chunk) by (nonlinear_arith);
    assert(i + 1 < t ==> (i + 2) * chunk <= t * chunk) by (nonlinear_arith)
        requires
            chunk >= 1,
            i >= 0,
    ;
    assert((i + 1) * chunk <= t * chunk) by (nonlinear_arith)
        requires
            chunk >= 1,
            i + 1 <= t,
    ;
    assert((i + 1) * chunk + chunk == (i + 2) * chunk) by (nonlinear_arith);
    assert(i * chunk >= 0) by (nonlinear_arith)
        requires
            chunk >= 1,
            i >= 0,
    ;
}

/// Splits `total` bytes among `threads` workers (at least one).
pub fn build_segments(total: u64, threads: u32) -> (segs: Vec<Segment>)
    ensures
        segs@ == planned_segments(total, threads),
{
    let t: u64 = if threads > 1 {
        threads as u64
    } else {
        1
    };
    let chunk = total / t;
    let ghost plan = planned_segments(total, threads);
    let mut segs: Vec<Segment> = Vec::new();
    let mut start: u64 = 0;
    let mut i: u64 = 0;
    loop
        invariant
            t == worker_count(threads),
            t <= u32::MAX,
            chunk == total / t,
            plan == planned_segments(total, threads),
            i < t,
            chunk >= 1 ==> start == i * chunk && segs@ == plan.take(i as int) && start < total,
            chunk == 0 ==> (i == 0 && start == 0 && segs@.len() == 0) || (i == 1 && start == 1
                && segs@ == plan && total >= 2 && t >= 3),
        decreases t - i,
    {
        proof {
            if chunk >= 1 {
                lemma_chunk_step(total as int, t as int, chunk as int, i as int);
            } else {
                assert(total < t) by (nonlinear_arith)
                    requires
                        chunk == total / t,
                        chunk == 0,
                        t >= 1,
                ;
                assert(plan =~= seq![fresh_segment(0, 0, 0)]);
            }
        }
        let end = if i == t - 1 {
            total.saturating_sub(1)
        } else {
            let a = (start + chunk).saturating_sub(1);
            let b = total.saturating_sub(1);
            if a <= b {
                a
            } else {
                b
            }
        };
        if start > end {
            return segs;
        }
        segs.push(Segment { index: i as u32, start, end, cursor: start });
        start = end + 1;
        if start >= total {
            proof {
                if chunk >= 1 {
                    if i + 1 < t {
                        assert(start == (i + 1) * chunk);
                    }
                    assert(i == t - 1);
                    assert(segs@[i as int] == plan[i as int]);
                    assert(segs@ =~= plan);
                } else {
                    assert(i == 0);
                    assert(segs@ =~= plan);
                }
            }
            return segs;
        }
        proof {
            if chunk >= 1 {
                assert(segs@ =~= plan.take(i + 1));
            } else {
                assert(segs@ =~= plan);
            }
        }
        i = i + 1;
    }
}

/// Total bytes written over all segments.
pub open spec fn downloaded_sum(segs: Seq<Segment>) -> nat
    decreases segs.len(),
{
    if segs.len() == 0 {
        0
    } else {
        downloaded_sum(segs.drop_last()) + seg_downloaded(segs.last())
    }
}

/// Sum of the segment lengths `end - start + 1`.
pub open spec fn span_sum(segs: Seq<Segment>) -> int
    decreases segs.len(),
{
    if segs.len() == 0 {
        0
    } else {
        span_sum(segs.drop_last()) + (segs.last().end - segs.last().start + 1)
    }
}

/// What a download has fetched so far, persisted next to the partial file.
#[derive(Debug)]
pub struct DownloadState {
    pub url: String,
    pub total: u64,
    pub threads: u32,
    pub segments: Vec<Segment>,
}

/// `segs[k]` is the first segment numbered `index`.
pub open spec fn is_first_index(segs: Seq<Segment>, index: u32, k: int) -> bool {
    0 <= k < segs.len() && segs[k].index == index && forall|j: int|
        0 <= j < k ==> segs[j].index != index
}

/// The segments after the first one numbered `index` has moved its cursor.
pub open spec fn with_cursor(segs: Seq<Segment>, index: u32, cursor: u64) -> Seq<Segment> {
    if exists|k: int| 0 <= k < segs.len() && segs[k].index == index {
        let k = choose|k: int| is_first_index(segs, index, k);
        segs.update(k, Segment { cursor: cursor, ..segs[k] })
    } else {
        segs
    }
}

impl DownloadState {
    pub fn completed_bytes(&self) -> (n: u64)
        requires
            forall|i: int| 0 <= i < self.segments@.len() ==> seg_well_formed(self.segments@[i]),
            downloaded_sum(self.segments@) <= u64::MAX,
        ensures
            n == downloaded_sum(self.segments@),
    {
        let mut sum: u64 = 0;
        let mut i: usize = 0;
        while i < self.segments.len()
            invariant
                i <= self.segments@.len(),
                forall|j: int| 0 <= j < self.segments@.len() ==> seg_well_formed(self.segments@[j]),
                downloaded_sum(self.segments@) <= u64::MAX,
                sum == downloaded_sum(self.segments@.take(i as int)),
            decreases self.segments@.len() - i,
        {
            assert(self.segments@.take(i + 1).drop_last() =~= self.segments@.take(i as int));
            proof {
                lemma_downloaded_sum_prefix(self.segments@, i + 1);
            }
            let d = self.segments[i].downloaded();
            sum = sum + d;
            i = i + 1;
        }
        assert(self.segments@.take(i as int) =~= self.segments@);
        sum
    }

    pub fn all_done(&self) -> (b: bool)
        ensures
            b == (self.segments@.len() > 0 && forall|i: int|
                0 <= i < self.segments@.len() ==> seg_done(self.segments@[i])),
    {
        if self.segments.len() == 0 {
            return false;
        }
        let mut i: usize = 0;
        while i < self.segments.len()
            invariant
                i <= self.segments@.len(),
                forall|j: int| 0 <= j < i ==> seg_done(self.segments@[j]),
            decreases self.segments@.len() - i,
        {
            if !self.segments[i].done() {
                return false;
            }
            i = i + 1;
        }
        true
    }

    /// Moves the cursor of the first segment numbered `index`; no change when there is none.
    pub fn set_cursor(&mut self, index: u32, cursor: u64)
        ensures
            final(self).url == old(self).url,
            final(self).total == old(self).total,
            final(self).threads == old(self).threads,
            final(self).segments@ == with_cursor(old(self).segments@, index, cursor),
    {
        let mut k: usize = 0;
        while k < self.segments.len()
            invariant
                k <= self.segments@.len(),
                self.segments@ == old(self).segments@,
                self.url == old(self).url,
                self.total == old(self).total,
                self.threads == old(self).threads,
                forall|j: int| 0 <= j < k ==> self.segments@[j].index != index,
            decreases self.segments@.len() - k,
        {
            if self.segments[k].index == index {
                let ghost segs = self.segments@;
                proof {
                    assert(is_first_index(segs, index, k as int));
                    let c = choose|c: int| is_first_index(segs, index, c);
                    assert(is_first_index(segs, index, c));
                    if c < k {
                        assert(segs[c].index != index);
                    }
                    if k < c {
                        assert(segs[k as int].index != index);
                    }
                }
                let mut seg = self.segments[k];
                seg.cursor = cursor;
                self.segments.set(k, seg);
                return;
            }
            k = k + 1;
        }
    }

    /// Replaces the segments by the single range `[0, total - 1]` (saturating)
    /// with its cursor at `offset`; a sequential download keeps this shape.
    pub fn set_single_segment(&mut self, total: u64, offset: u64)
        ensures
            final(self).url == old(self).url,
            final(self).total == old(self).total,
            final(self).threads == old(self).threads,
            final(self).segments@ == seq![
                Segment {
                    index: 0,
                    start: 0,
                    end: if total == 0 {
                        0
                    } else {
                        (total - 1) as u64
                    },
                    cursor: offset,
                },
            ],
    {
        let mut v: Vec<Segment> = Vec::new();
        v.push(Segment { index: 0, start: 0, end: total.saturating_sub(1), cursor: offset });
        self.segments = v;
    }

    /// Moves the cursor of the first segment, when there is one.
    pub fn set_first_cursor(&mut self, offset: u64)
        ensures
            final(self).url == old(self).url,
            final(self).total == old(self).total,
            final(self).threads == old(self).threads,
            final(self).segments@ == if old(self).segments@.len() > 0 {
                old(self).segments@.update(0, Segment { cursor: offset, ..old(self).segments@[0] })
            } else {
                old(self).segments@
            },
    {
        if self.segments.len() > 0 {
            let mut seg = self.segments[0];
            seg.cursor = offset;
            self.segments.set(0, seg);
        }
    }

    /// A copy of the state.
    pub fn duplicate(&self) -> (r: DownloadState)
        ensures
            r.url@ == self.url@,
            r.total == self.total,
            r.threads == self.threads,
            r.segments@ == self.segments@,
    {
        let mut segs: Vec<Segment> = Vec::new();
        let mut i: usize = 0;
        while i < self.segments.len()
            invariant
                i <= self.segments@.len(),
                segs@ == self.segments@.take(i as int),
            decreases self.segments@.len() - i,
        {
            segs.push(self.segments[i]);
            assert(segs@ =~= self.segments@.take(i + 1));
            i = i + 1;
        }
        assert(segs@ =~= self.segments@);
        DownloadState {
            url: self.url.clone(),
            total: self.total,
            threads: self.threads,
            segments: segs,
        }
    }
}

proof fn lemma_downloaded_sum_prefix(segs: Seq<Segment>, i: int)
    requires
        0 <= i <= segs.len(),
    ensures
        downloaded_sum(segs.take(i)) <= downloaded_sum(segs),
    decreases segs.len() - i,
{
    if i < segs.len() {
        lemma_downloaded_sum_prefix(segs, i + 1);
        assert(segs.take(i + 1).drop_last() =~= segs.take(i));
    } else {
        assert(segs.take(i) =~= segs);
    }
}

/// Consecutive ranges starting at byte 0, each non-empty.
pub open spec fn tiles_from_zero(segs: Seq<Segment>) -> bool {
    &&& segs.len() > 0
    &&& segs[0].start == 0
    &&& forall|i: int| 0 < i < segs.len() ==> #[trigger] segs[i].start == segs[i - 1].end + 1
    &&& forall|i: int| 0 <= i < segs.len() ==> #[trigger] segs[i].start <= segs[i].end
}

/// The lengths of consecutive ranges from byte 0 add up to one past the last end.
pub proof fn lemma_span_sum_tiles(segs: Seq<Segment>)
    requires
        tiles_from_zero(segs),
    ensures
        span_sum(segs) == segs.last().end + 1,
    decreases segs.len(),
{
    if segs.len() > 1 {
        let d = segs.drop_last();
        assert(tiles_from_zero(d)) by {
            assert forall|i: int| 0 < i < d.len() implies #[trigger] d[i].start == d[i - 1].end + 1 by {
                assert(d[i] == segs[i] && d[i - 1] == segs[i - 1]);
            }
            assert forall|i: int| 0 <= i < d.len() implies #[trigger] d[i].start <= d[i].end by {
                assert(d[i] == segs[i]);
            }
        }
        lemma_span_sum_tiles(d);
        assert(segs[segs.len() - 1].start == segs[segs.len() - 2].end + 1);
    } else {
        assert(span_sum(segs.drop_last()) == 0);
    }
}

/// Segments whose cursors all sit at their starts count no byte as downloaded.
pub proof fn lemma_fresh_downloaded_zero(segs: Seq<Segment>)
    requires
        forall|i: int| 0 <= i < segs.len() ==> #[trigger] segs[i].cursor == segs[i].start,
    ensures
        downloaded_sum(segs) == 0,
    decreases segs.len(),
{
    if segs.len() > 0 {
        let d = segs.drop_last();
        assert forall|i: int| 0 <= i < d.len() implies #[trigger] d[i].cursor == d[i].start by {
            assert(d[i] == segs[i]);
        }
        lemma_fresh_downloaded_zero(d);
        assert(segs.last() == segs[segs.len() - 1]);
    }
}

/// When every worker gets at least one byte, the planned segments tile the
/// file: one per worker, numbered in order, consecutive from byte 0 to byte
/// `total - 1`, each non-empty and not started, their lengths adding up to
/// `total`, and no byte counted as downloaded.
pub proof fn lemma_plan_tiles(total: u64, threads: u32)
    requires
        total >= worker_count(threads),
    ensures
        ({
            let p = planned_segments(total, threads);
            &&& p.len() == worker_count(threads)
            &&& tiles_from_zero(p)
            &&& p.last().end == total - 1
            &&& forall|i: int| 0 <= i < p.len() ==> #[trigger] p[i].index == i && p[i].cursor == p[i].start
            &&& span_sum(p) == total
            &&& downloaded_sum(p) == 0
        }),
{
    let t = worker_count(threads);
    let chunk = total as int / t;
    assert(chunk >= 1) by (nonlinear_arith)
        requires
            chunk == total as int / t,
            total >= t,
            t >= 1,
    ;
    assert(t * chunk <= total) by (nonlinear_arith)
        requires
            chunk == total as int / t,
            t >= 1,
            total >= 0,
    ;
    let p = planned_segments(total, threads);
    assert forall|i: int| 0 <= i < t implies 0 <= #[trigger] (i * chunk) && (i + 1) * chunk - 1
        >= i * chunk && (i + 1) * chunk == i * chunk + chunk && (i + 1 < t ==> (i + 1) * chunk
        <= total - chunk) && (i == t - 1 ==> i * chunk <= total - 1) by {
        assert(0 <= i * chunk) by (nonlinear_arith)
            requires
                i >= 0,
                chunk >= 1,
        ;
        assert((i + 1) * chunk == i * chunk + chunk) by (nonlinear_arith);
        assert(i + 1 < t ==> (i + 1) * chunk <= (t - 1) * chunk) by (nonlinear_arith)
            requires
                chunk >= 1,
        ;
        assert((t - 1) * chunk == t * chunk - chunk) by (nonlinear_arith);
        assert(i == t - 1 ==> i * chunk == t * chunk - chunk);
    }
    assert forall|i: int| 0 < i < p.len() implies #[trigger] p[i].start == p[i - 1].end + 1 by {
        assert(0 <= (i - 1) * chunk);
        assert(i * chunk == (i - 1) * chunk + chunk);
    }
    assert forall|i: int| 0 <= i < p.len() implies #[trigger] p[i].start <= p[i].end by {
        assert(0 <= i * chunk);
    }
    assert forall|i: int| 0 <= i < p.len() implies #[trigger] p[i].index == i && p[i].cursor
        == p[i].start by {
        assert(0 <= i * chunk);
    }
    assert(0 <= 0 * chunk);
    assert(tiles_from_zero(p));
    lemma_span_sum_tiles(p);
    lemma_fresh_downloaded_zero(p);
}

/// A freshly planned download counts no byte as downloaded, whatever the
/// file size and worker count.
pub proof fn lemma_plan_nothing_downloaded(total: u64, threads: u32)
    ensures
        downloaded_sum(planned_segments(total, threads)) == 0,
{
    let p = planned_segments(total, threads);
    assert forall|i: int| 0 <= i < p.len() implies #[trigger] p[i].cursor == p[i].start by {}
    lemma_fresh_downloaded_zero(p);
}

/// Segments over the same byte ranges as `b`, whatever their progress.
pub open spec fn same_ranges(a: Seq<Segment>, b: Seq<Segment>) -> bool {
    a.len() == b.len() && forall|i: int|
        #![trigger a[i]]
        0 <= i < a.len() ==> a[i].start == b[i].start && a[i].end == b[i].end
}

/// Over non-empty ranges, the downloaded bytes never exceed the ranges'
/// total length, and reach it exactly when every segment is done.
pub proof fn lemma_downloaded_le_span(segs: Seq<Segment>)
    requires
        forall|i: int| 0 <= i < segs.len() ==> #[trigger] segs[i].start <= segs[i].end,
    ensures
        downloaded_sum(segs) <= span_sum(segs),
        downloaded_sum(segs) == span_sum(segs) <==> forall|i: int|
            0 <= i < segs.len() ==> #[trigger] seg_done(segs[i]),
    decreases segs.len(),
{
    if segs.len() > 0 {
        let d = segs.drop_last();
        assert forall|i: int| 0 <= i < d.len() implies #[trigger] d[i].start <= d[i].end by {
            assert(d[i] == segs[i]);
        }
        lemma_downloaded_le_span(d);
        let l = segs.last();
        assert(l == segs[segs.len() - 1]);
        if forall|i: int| 0 <= i < segs.len() ==> #[trigger] seg_done(segs[i]) {
            assert forall|i: int| 0 <= i < d.len() implies #[trigger] seg_done(d[i]) by {
                assert(d[i] == segs[i]);
                assert(seg_done(segs[i]));
            }
            assert(seg_done(segs[segs.len() - 1]));
        }
        if downloaded_sum(segs) == span_sum(segs) {
            assert forall|i: int| 0 <= i < segs.len() implies #[trigger] seg_done(segs[i]) by {
                if i < segs.len() - 1 {
                    assert(d[i] == segs[i]);
                    assert(seg_done(d[i]));
                }
            }
        }
    }
}

/// A download over the planned segments is complete exactly when its byte
/// count reaches the file size: every segment is done if and only if the
/// downloaded bytes add up to `total`.
pub proof fn lemma_done_iff_complete(segs: Seq<Segment>, total: u64, threads: u32)
    requires
        total >= worker_count(threads),
        same_ranges(segs, planned_segments(total, threads)),
    ensures
        (forall|i: int| 0 <= i < segs.len() ==> #[trigger] seg_done(segs[i]))
            <==> downloaded_sum(segs) == total,
{
    let p = planned_segments(total, threads);
    lemma_plan_tiles(total, threads);
    assert(tiles_from_zero(segs)) by {
        assert forall|i: int| 0 < i < segs.len() implies #[trigger] segs[i].start == segs[i - 1].end
            + 1 by {
            assert(p[i].start == p[i - 1].end + 1);
            assert(segs[i - 1].end == p[i - 1].end);
        }
        assert forall|i: int| 0 <= i < segs.len() implies #[trigger] segs[i].start <= segs[i].end by {
            assert(p[i].start <= p[i].end);
        }
        assert(segs[0].start == p[0].start);
    }
    lemma_span_sum_tiles(segs);
    assert(segs.last().end == p.last().end);
    lemma_downloaded_le_span(segs);
}

proof fn lemma_tile_ends(segs: Seq<Segment>)
    requires
        tiles_from_zero(segs),
    ensures
        forall|i: int| 0 <= i < segs.len() ==> #[trigger] segs[i].end <= segs.last().end,
    decreases segs.len(),
{
    if segs.len() > 1 {
        let d = segs.drop_last();
        assert(tiles_from_zero(d)) by {
            assert forall|i: int| 0 < i < d.len() implies #[trigger] d[i].start == d[i - 1].end + 1 by {
                assert(d[i] == segs[i] && d[i - 1] == segs[i - 1]);
            }
            assert forall|i: int| 0 <= i < d.len() implies #[trigger] d[i].start <= d[i].end by {
                assert(d[i] == segs[i]);
            }
        }
        lemma_tile_ends(d);
        assert(segs[segs.len() - 1].start == segs[segs.len() - 2].end + 1);
        assert(segs[segs.len() - 1].start <= segs[segs.len() - 1].end);
        assert forall|i: int| 0 <= i < segs.len() implies #[trigger] segs[i].end <= segs.last().end by {
            if i < segs.len() - 1 {
                assert(d[i] == segs[i]);
                assert(d[i].end <= d.last().end);
            }
        }
    }
}

/// Whatever their progress, segments that tile the file `[0, total - 1]` are
/// well formed, their downloaded bytes never exceed `total` (so
/// `completed_bytes` can add them up), and every segment is done exactly when
/// those bytes reach `total`.
pub proof fn lemma_tiling_progress(segs: Seq<Segment>, total: u64)
    requires
        tiles_from_zero(segs),
        segs.last().end == total - 1,
    ensures
        forall|i: int| 0 <= i < segs.len() ==> #[trigger] seg_well_formed(segs[i]),
        downloaded_sum(segs) <= total,
        (forall|i: int| 0 <= i < segs.len() ==> #[trigger] seg_done(segs[i])) <==> downloaded_sum(
            segs,
        ) == total,
{
    lemma_tile_ends(segs);
    assert forall|i: int| 0 <= i < segs.len() implies #[trigger] seg_well_formed(segs[i]) by {
        assert(segs[i].start <= segs[i].end);
        assert(segs[i].end <= segs.last().end);
    }
    lemma_span_sum_tiles(segs);
    lemma_downloaded_le_span(segs);
}

/// No two segments carry the same number.
pub open spec fn distinct_indices(segs: Seq<Segment>) -> bool {
    forall|i: int, j: int|
        #![trigger segs[i], segs[j]]
        0 <= i < segs.len() && 0 <= j < segs.len() && i != j ==> segs[i].index != segs[j].index
}

/// The segments after the cursor reports `(index, cursor)` of `ops` have been
/// applied in turn, as `set_cursor` applies one.
pub open spec fn apply_cursors(segs: Seq<Segment>, ops: Seq<(u32, u64)>) -> Seq<Segment>
    decreases ops.len(),
{
    if ops.len() == 0 {
        segs
    } else {
        with_cursor(apply_cursors(segs, ops.drop_last()), ops.last().0, ops.last().1)
    }
}

/// The cursor of the last report in `ops` for segment `index`, if there is one.
pub open spec fn last_cursor(ops: Seq<(u32, u64)>, index: u32) -> Option<u64>
    decreases ops.len(),
{
    if ops.len() == 0 {
        None
    } else if ops.last().0 == index {
        Some(ops.last().1)
    } else {
        last_cursor(ops.drop_last(), index)
    }
}

/// With distinct numbers, moving a cursor changes exactly the segment that
/// carries that number.
pub proof fn lemma_with_cursor_distinct(segs: Seq<Segment>, index: u32, cursor: u64)
    requires
        distinct_indices(segs),
    ensures
        with_cursor(segs, index, cursor).len() == segs.len(),
        distinct_indices(with_cursor(segs, index, cursor)),
        forall|k: int|
            0 <= k < segs.len() ==> #[trigger] with_cursor(segs, index, cursor)[k] == if segs[k].index
                == index {
                Segment { cursor: cursor, ..segs[k] }
            } else {
                segs[k]
            },
{
    let r = with_cursor(segs, index, cursor);
    if exists|k: int| 0 <= k < segs.len() && segs[k].index == index {
        let k0 = choose|k: int| 0 <= k < segs.len() && segs[k].index == index;
        assert forall|j: int| 0 <= j < k0 implies segs[j].index != index by {
            assert(segs[j].index != segs[k0].index);
        }
        assert(is_first_index(segs, index, k0));
        let k = choose|k: int| is_first_index(segs, index, k);
        assert(is_first_index(segs, index, k));
        if k != k0 {
            assert(segs[k].index != segs[k0].index);
        }
        assert(r == segs.update(k0, Segment { cursor: cursor, ..segs[k0] }));
        assert forall|k: int| 0 <= k < segs.len() implies #[trigger] r[k] == if segs[k].index
            == index {
            Segment { cursor: cursor, ..segs[k] }
        } else {
            segs[k]
        } by {
            if k != k0 && segs[k].index == index {
                assert(segs[k].index != segs[k0].index);
            }
        }
        assert forall|i: int, j: int|
            0 <= i < r.len() && 0 <= j < r.len() && i != j implies #[trigger] r[i].index
            != #[trigger] r[j].index by {
            assert(segs[i].index != segs[j].index);
        }
    }
}

/// Applying cursor reports to segments with distinct numbers keeps every
/// segment's number and range and leaves its cursor at its last report (or
/// where it was, when there is none).
pub proof fn lemma_apply_cursors(segs: Seq<Segment>, ops: Seq<(u32, u64)>)
    requires
        distinct_indices(segs),
    ensures
        apply_cursors(segs, ops).len() == segs.len(),
        distinct_indices(apply_cursors(segs, ops)),
        forall|k: int|
            0 <= k < segs.len() ==> #[trigger] apply_cursors(segs, ops)[k] == match last_cursor(
                ops,
                segs[k].index,
            ) {
                Some(c) => Segment { cursor: c, ..segs[k] },
                None => segs[k],
            },
    decreases ops.len(),
{
    if ops.len() > 0 {
        let d = ops.drop_last();
        let prev = apply_cursors(segs, d);
        lemma_apply_cursors(segs, d);
        lemma_with_cursor_distinct(prev, ops.last().0, ops.last().1);
        assert forall|k: int| 0 <= k < segs.len() implies #[trigger] apply_cursors(segs, ops)[k]
            == match last_cursor(ops, segs[k].index) {
            Some(c) => Segment { cursor: c, ..segs[k] },
            None => segs[k],
        } by {
            assert(prev[k].index == segs[k].index);
        }
    }
}

fn concat(a: &str, b: &str) -> (r: String)
    ensures
        r@ == a@ + b@,
{
    let mut v = chars_of(a);
    crate::text::push_str(&mut v, b);
    string_of(&v)
}

/// The partial file a download writes into: `<final>.part`.
pub fn part_path(final_path: &str) -> (r: String)
    ensures
        r@ == final_path@ + ".part"@,
{
    concat(final_path, ".part")
}

/// The resume state file: `<final>.lapdwstate`.
pub fn state_path(final_path: &str) -> (r: String)
    ensures
        r@ == final_path@ + ".lapdwstate"@,
{
    concat(final_path, ".lapdwstate")
}

/// The file remembering which URL produced the target: `<final>.lapdwurl`.
pub fn url_marker_path(final_path: &str) -> (r: String)
    ensures
        r@ == final_path@ + ".lapdwurl"@,
{
    concat(final_path, ".lapdwurl")
}

/// The URL stored in a marker file: its trimmed text, unless that is empty.
pub open spec fn marker_url(text: Seq<char>) -> Option<Seq<char>> {
    let t = trim(text, CharSet::Space);
    if t.len() > 0 {
        Some(t)
    } else {
        None
    }
}

/// What a marker file holds for `url`: the URL trimmed.
pub fn marker_contents(url: &str) -> (r: String)
    ensures
        r@ == trim(url@, CharSet::Space),
{
    let v = chars_of(url);
    string_of(&trim_exec(&v, CharSet::Space))
}

/// Reading a marker gives back the trimmed URL that was written, unless it is blank.
pub proof fn lemma_marker_round_trip(url: Seq<char>)
    ensures
        marker_url(trim(url, CharSet::Space)) == if trim(url, CharSet::Space).len() > 0 {
            Some(trim(url, CharSet::Space))
        } else {
            None
        },
{
    crate::text::lemma_trim_idempotent(url, CharSet::Space);
}

/// Reads the URL out of the text of a marker file.
pub fn marker_text(text: &str) -> (r: Option<String>)
    ensures
        match r {
            Some(u) => marker_url(text@) == Some(u@),
            None => marker_url(text@) is None,
        },
{
    let v = chars_of(text);
    let t = trim_exec(&v, CharSet::Space);
    if t.len() > 0 {
        Some(string_of(&t))
    } else {
        None
    }
}

/// The index of the last `.` in `s`, if any.
pub open spec fn last_dot(s: Seq<char>) -> Option<int> {
    if exists|i: int| 0 <= i < s.len() && s[i] == '.' {
        Some(choose|i: int| 0 <= i < s.len() && s[i] == '.' && forall|j: int| i < j < s.len() ==> s[j] != '.')
    } else {
        None
    }
}

/// `(stem, extension)` of a file name: split at the last `.` when both sides
/// are non-empty and the extension holds no `/`; else the whole name and `""`.
pub open spec fn name_parts(name: Seq<char>) -> (Seq<char>, Seq<char>) {
    match last_dot(name) {
        Some(i) => {
            let stem = name.subrange(0, i);
            let ext = name.subrange(i + 1, name.len() as int);
            if stem.len() > 0 && ext.len() > 0 && !ext.contains('/') {
                (stem, ext)
            } else {
                (name, seq![])
            }
        },
        None => (name, seq![]),
    }
}

fn split_name_chars(name: &[char]) -> (r: (Vec<char>, Vec<char>))
    ensures
        (r.0@, r.1@) == name_parts(name@),
{
    let mut i = name.len();
    while i > 0
        invariant
            i <= name@.len(),
            forall|j: int| i <= j < name@.len() ==> name@[j] != '.',
        decreases i,
    {
        if name[i - 1] == '.' {
            let d = i - 1;
            proof {
                let c = choose|c: int|
                    0 <= c < name@.len() && name@[c] == '.' && forall|j: int|
                        c < j < name@.len() ==> name@[j] != '.';
                assert(0 <= c < name@.len() && name@[c] == '.' && forall|j: int|
                    c < j < name@.len() ==> name@[j] != '.');
                if c < d {
                    assert(name@[d as int] != '.');
                }
                if d < c {
                    assert(name@[c] != '.');
                }
            }
            let stem = crate::text::slice_chars(name, 0, d);
            let ext = crate::text::slice_chars(name, d + 1, name.len());
            let mut has_slash = false;
            let mut j: usize = 0;
            while j < ext.len()
                invariant
                    j <= ext@.len(),
                    has_slash == exists|t: int| 0 <= t < j && ext@[t] == '/',
                decreases ext@.len() - j,
            {
                if ext[j] == '/' {
                    has_slash = true;
                }
                j = j + 1;
            }
            assert(has_slash == ext@.contains('/'));
            if stem.len() > 0 && ext.len() > 0 && !has_slash {
                return (stem, ext);
            } else {
                let whole = crate::text::slice_chars(name, 0, name.len());
                assert(whole@ =~= name@);
                return (whole, Vec::new());
            }
        }
        i = i - 1;
    }
    let whole = crate::text::slice_chars(name, 0, name.len());
    assert(whole@ =~= name@);
    (whole, Vec::new())
}

/// Splits a file name into stem and extension at its last dot.
pub fn split_name(filename: &str) -> (r: (String, String))
    ensures
        (r.0@, r.1@) == name_parts(filename@),
{
    let v = chars_of(filename);
    let (a, b) = split_name_chars(&v);
    (string_of(&a), string_of(&b))
}

/// Number of renamed candidates tried before giving up on a free name.
pub const RENAME_LIMIT: u32 = 10000;

/// `stem(i).ext`, or `stem(i)` when the name has no extension.
pub open spec fn numbered_name(name: Seq<char>, i: nat) -> Seq<char> {
    let (stem, ext) = name_parts(name);
    if ext.len() == 0 {
        stem + "("@ + crate::text::dec_seq(i) + ")"@
    } else {
        stem + "("@ + crate::text::dec_seq(i) + ")."@ + ext
    }
}

/// The name used once every numbered candidate is taken: `stem.conflict`.
pub open spec fn conflict_name(name: Seq<char>) -> Seq<char> {
    name_parts(name).0 + ".conflict"@
}

/// The candidate names in the order they are tried: the name itself, then
/// `stem(1).ext` up to `stem(9999).ext`.
pub open spec fn candidate(name: Seq<char>, attempt: nat) -> Option<Seq<char>> {
    if attempt == 0 {
        Some(name)
    } else if attempt < RENAME_LIMIT {
        Some(numbered_name(name, attempt))
    } else {
        None
    }
}

/// The name tried at step `attempt` when choosing where to save `filename`,
/// or `None` once the candidates are exhausted.
pub fn candidate_name(filename: &str, attempt: u32) -> (r: Option<String>)
    ensures
        match r {
            Some(n) => candidate(filename@, attempt as nat) == Some(n@),
            None => candidate(filename@, attempt as nat) is None,
        },
{
    if attempt == 0 {
        let v = chars_of(filename);
        return Some(string_of(&v));
    }
    if attempt >= RENAME_LIMIT {
        return None;
    }
    let v = chars_of(filename);
    let (stem, ext) = split_name_chars(&v);
    let mut out: Vec<char> = Vec::new();
    crate::text::push_all(&mut out, &stem);
    crate::text::push_str(&mut out, "(");
    crate::text::push_dec(attempt as u64, &mut out);
    if ext.len() == 0 {
        crate::text::push_str(&mut out, ")");
    } else {
        crate::text::push_str(&mut out, ").");
        crate::text::push_all(&mut out, &ext);
    }
    Some(string_of(&out))
}

/// The fallback name `stem.conflict`.
pub fn conflict_path_name(filename: &str) -> (r: String)
    ensures
        r@ == conflict_name(filename@),
{
    let v = chars_of(filename);
    let (stem, _ext) = split_name_chars(&v);
    let mut out: Vec<char> = Vec::new();
    crate::text::push_all(&mut out, &stem);
    crate::text::push_str(&mut out, ".conflict");
    string_of(&out)
}

/// What is on disk at a candidate path: the file, its partial file, the URL
/// in its marker file and the URL in its resume state.
pub struct PathProbe {
    pub exists: bool,
    pub part_exists: bool,
    pub marker_url: Option<String>,
    pub state_url: Option<String>,
}

/// Whether a candidate path may be used for `url`: nothing is there yet, or
/// its marker names the same URL; for the first candidate also an unfinished
/// download without marker whose resume state names the same URL.
pub open spec fn candidate_ok(first: bool, probe: PathProbe, url: Seq<char>) -> bool {
    ||| !probe.exists && !probe.part_exists
    ||| (probe.marker_url matches Some(m) && m@ == url)
    ||| (first && probe.marker_url is None && probe.part_exists && (probe.state_url matches Some(
        s,
    ) && s@ == url))
}

fn str_eq(a: &str, b: &str) -> (r: bool)
    ensures
        r == (a@ == b@),
{
    let x = chars_of(a);
    let y = chars_of(b);
    chars_eq(&x, &y)
}

/// Decides one candidate path for `url`.
pub fn accepts_candidate(first: bool, probe: &PathProbe, url: &str) -> (r: bool)
    ensures
        r == candidate_ok(first, *probe, url@),
{
    if !probe.exists && !probe.part_exists {
        return true;
    }
    match &probe.marker_url {
        Some(m) => str_eq(m.as_str(), url),
        None => {
            if first && probe.part_exists {
                match &probe.state_url {
                    Some(st) => str_eq(st.as_str(), url),
                    None => false,
                }
            } else {
                false
            }
        },
    }
}

/// An existing finished file counts as this download unless its marker names another URL.
pub fn marker_matches(marker: Option<&str>, url: &str) -> (r: bool)
    ensures
        r == match marker {
            Some(m) => m@ == url@,
            None => true,
        },
{
    match marker {
        Some(m) => str_eq(m, url),
        None => true,
    }
}

/// The name of candidate `i` for `name`, or the conflict name past the last candidate.
pub open spec fn candidate_text(name: Seq<char>, i: nat) -> Seq<char> {
    match candidate(name, i) {
        Some(n) => n,
        None => conflict_name(name),
    }
}

/// The next step when choosing where to save a download.
pub enum SearchStep {
    /// Look at what is on disk at this candidate name.
    Probe(String),
    /// Save under this name.
    Chosen(String),
}

/// A step as plain values: whether the name is chosen, and the name.
pub open spec fn step_view(s: SearchStep) -> (bool, Seq<char>) {
    match s {
        SearchStep::Probe(n) => (false, n@),
        SearchStep::Chosen(n) => (true, n@),
    }
}

/// The decision on candidate `attempt` for `url`, given what is on disk
/// there: take it when it is accepted; else probe the next candidate, or,
/// when none is left, settle on the conflict name.
pub open spec fn search_step(filename: Seq<char>, url: Seq<char>, attempt: nat, probe: PathProbe) -> (
    bool,
    Seq<char>,
) {
    if candidate_ok(attempt == 0, probe, url) {
        (true, candidate_text(filename, attempt))
    } else if attempt + 1 < RENAME_LIMIT {
        (false, candidate_text(filename, attempt + 1))
    } else {
        (true, conflict_name(filename))
    }
}

/// Where the search stands once the candidates `0..probes.len()` were
/// probed in turn with `probes` (probes after a choice change nothing).
pub open spec fn search_run(filename: Seq<char>, url: Seq<char>, probes: Seq<PathProbe>) -> (
    bool,
    Seq<char>,
)
    decreases probes.len(),
{
    if probes.len() == 0 {
        (false, candidate_text(filename, 0))
    } else {
        let prev = search_run(filename, url, probes.drop_last());
        if prev.0 {
            prev
        } else {
            search_step(filename, url, (probes.len() - 1) as nat, probes.last())
        }
    }
}

/// Candidate `i` is the first one whose probe accepts it.
pub open spec fn is_first_accepted(probes: Seq<PathProbe>, url: Seq<char>, i: int) -> bool {
    &&& 0 <= i < probes.len()
    &&& candidate_ok(i == 0, probes[i], url)
    &&& forall|j: int| 0 <= j < i ==> !candidate_ok(j == 0, #[trigger] probes[j], url)
}

/// The search for a path to save `filename`, downloaded from `url`:
/// candidates are probed in turn, `attempt` being the one probed now.
pub struct PathSearch {
    pub filename: String,
    pub url: String,
    pub attempt: u32,
}

impl PathSearch {
    /// Starts the search: the name itself is probed first.
    pub fn new(filename: &str, url: &str) -> (r: (PathSearch, SearchStep))
        ensures
            r.0.filename@ == filename@,
            r.0.url@ == url@,
            r.0.attempt == 0,
            step_view(r.1) == search_run(filename@, url@, seq![]),
    {
        let s = PathSearch {
            filename: string_of(&chars_of(filename)),
            url: string_of(&chars_of(url)),
            attempt: 0,
        };
        (s, SearchStep::Probe(string_of(&chars_of(filename))))
    }

    /// Decides on the candidate probed now, given what is on disk there.
    pub fn feed(&mut self, probe: &PathProbe) -> (r: SearchStep)
        requires
            old(self).attempt < RENAME_LIMIT,
        ensures
            final(self).filename@ == old(self).filename@,
            final(self).url@ == old(self).url@,
            step_view(r) == search_step(
                old(self).filename@,
                old(self).url@,
                old(self).attempt as nat,
                *probe,
            ),
            final(self).attempt == if r is Probe {
                old(self).attempt + 1
            } else {
                old(self).attempt as int
            },
    {
        let first = self.attempt == 0;
        if accepts_candidate(first, probe, self.url.as_str()) {
            return match candidate_name(self.filename.as_str(), self.attempt) {
                Some(n) => SearchStep::Chosen(n),
                None => SearchStep::Chosen(conflict_path_name(self.filename.as_str())),
            };
        }
        if self.attempt + 1 < RENAME_LIMIT {
            self.attempt = self.attempt + 1;
            return match candidate_name(self.filename.as_str(), self.attempt) {
                Some(n) => SearchStep::Probe(n),
                None => SearchStep::Chosen(conflict_path_name(self.filename.as_str())),
            };
        }
        SearchStep::Chosen(conflict_path_name(self.filename.as_str()))
    }
}

/// Which candidates are taken: a free one (neither the file nor its partial
/// file exists) always; an occupied one whose marker names another URL
/// never; an occupied one without marker only when it is the name itself,
/// its partial file exists and its resume state names the URL.
pub proof fn lemma_candidate_rules(first: bool, probe: PathProbe, url: Seq<char>)
    ensures
        !probe.exists && !probe.part_exists ==> candidate_ok(first, probe, url),
        (probe.exists || probe.part_exists) && (probe.marker_url matches Some(m) && m@ != url)
            ==> !candidate_ok(first, probe, url),
        (probe.exists || probe.part_exists) && probe.marker_url is None ==> (candidate_ok(
            first,
            probe,
            url,
        ) <==> (first && probe.part_exists && (probe.state_url matches Some(s) && s@ == url))),
{
}

/// A target whose URL marker names the download's own URL is reused,
/// whether it is the name itself or a numbered one; in particular the search
/// stops at the name itself when its marker names the URL.
pub proof fn lemma_same_url_marker_reused(
    filename: Seq<char>,
    url: Seq<char>,
    first: bool,
    probe: PathProbe,
)
    requires
        probe.marker_url matches Some(m) && m@ == url,
    ensures
        candidate_ok(first, probe, url),
        search_run(filename, url, seq![probe]) == (true, filename),
{
    let probes = seq![probe];
    assert(probes.drop_last() =~= Seq::<PathProbe>::empty());
    assert(probes.last() == probe);
    assert(candidate_ok(true, probe, url));
    assert(candidate_text(filename, 0) == filename);
    assert(search_run(filename, url, Seq::<PathProbe>::empty()) == (false, filename));
    assert(search_step(filename, url, 0, probe) == (true, filename));
}

/// Choosing a path takes the first candidate whose probe accepts it. Fed
/// the probes of candidates `0..n` in turn, the search has chosen candidate
/// `i` when that is the first one accepted; when none is, it asks to probe
/// candidate `n` next or, once all `RENAME_LIMIT` candidates are refused,
/// settles on `stem.conflict`.
pub proof fn lemma_search_run(filename: Seq<char>, url: Seq<char>, probes: Seq<PathProbe>)
    requires
        probes.len() <= RENAME_LIMIT,
    ensures
        forall|i: int|
            #[trigger] is_first_accepted(probes, url, i) ==> search_run(filename, url, probes) == (
                true,
                candidate_text(filename, i as nat),
            ),
        (forall|j: int| 0 <= j < probes.len() ==> !candidate_ok(j == 0, #[trigger] probes[j], url))
            ==> search_run(filename, url, probes) == if probes.len() < RENAME_LIMIT {
            (false, candidate_text(filename, probes.len()))
        } else {
            (true, conflict_name(filename))
        },
    decreases probes.len(),
{
    if probes.len() > 0 {
        let n = probes.len() - 1;
        let d = probes.drop_last();
        lemma_search_run(filename, url, d);
        assert forall|i: int| #[trigger] is_first_accepted(probes, url, i) implies search_run(
            filename,
            url,
            probes,
        ) == (true, candidate_text(filename, i as nat)) by {
            if i < n {
                assert forall|j: int| 0 <= j < i implies !candidate_ok(j == 0, #[trigger] d[j], url) by {
                    assert(d[j] == probes[j]);
                }
                assert(d[i] == probes[i]);
                assert(is_first_accepted(d, url, i));
            } else {
                assert forall|j: int| 0 <= j < d.len() implies !candidate_ok(
                    j == 0,
                    #[trigger] d[j],
                    url,
                ) by {
                    assert(d[j] == probes[j]);
                }
                assert(probes.last() == probes[n]);
            }
        }
        if forall|j: int| 0 <= j < probes.len() ==> !candidate_ok(j == 0, #[trigger] probes[j], url) {
            assert forall|j: int| 0 <= j < d.len() implies !candidate_ok(j == 0, #[trigger] d[j], url) by {
                assert(d[j] == probes[j]);
            }
            assert(probes.last() == probes[n]);
            assert(!candidate_ok(n == 0, probes[n], url));
        }
    }
}

} // verus!
