//! What a ledger says after any run of writes, and what its hashes notice.

use crate::resume;
use crate::resume::{ResumeMetadata, ResumeRecorder};
use vstd::prelude::*;

verus! {

/// The number that undoes a multiplication with the hash's prime, modulo 2^64.
spec fn undoing() -> int {
    14886173955864302971
}

/// One step of the hash can be undone: the mixed value follows from the result.
proof fn lemma_step_can_be_undone(x: u64)
    ensures
        (x.wrapping_mul(resume::FNV_PRIME) * undoing()) % 0x1_0000_0000_0000_0000 == x,
{
    let m: int = 0x1_0000_0000_0000_0000;
    let p = resume::FNV_PRIME as int;
    let q = undoing();
    let y = x.wrapping_mul(resume::FNV_PRIME) as int;
    assert(y == (x * p) % m);
    vstd::arithmetic::div_mod::lemma_mul_mod_noop_left(x * p, q, m);
    assert((x * p) * q == x * (p * q)) by (nonlinear_arith);
    assert((p * q) % m == 1);
    vstd::arithmetic::div_mod::lemma_mul_mod_noop_right(x as int, p * q, m);
    vstd::arithmetic::div_mod::lemma_small_mod(x as nat, m as nat);
}

/// Two steps with the same result mixed the same value.
proof fn lemma_steps_differ(h: u64, a: u8, k: u64, b: u8)
    requires
        resume::hash_step(h, a) == resume::hash_step(k, b),
    ensures
        h ^ (a as u64) == k ^ (b as u64),
{
    lemma_step_can_be_undone(h ^ (a as u64));
    lemma_step_can_be_undone(k ^ (b as u64));
}

/// A segment in which one byte was changed never keeps its hash.
pub proof fn law_one_changed_byte_changes_the_hash(a: Seq<u8>, b: Seq<u8>, i: int)
    requires
        a.len() == b.len(),
        0 <= i < a.len(),
        a[i] != b[i],
        forall|j: int| 0 <= j < a.len() && j != i ==> #[trigger] a[j] == b[j],
    ensures
        resume::fnv(a) != resume::fnv(b),
    decreases a.len(),
{
    let x = a.drop_last();
    let y = b.drop_last();
    let h = resume::fnv(x);
    let k = resume::fnv(y);
    if resume::fnv(a) == resume::fnv(b) {
        lemma_steps_differ(h, a.last(), k, b.last());
        if i == a.len() - 1 {
            assert(x =~= y);
            let s = a.last() as u64;
            let t = b.last() as u64;
            assert(s == t) by (bit_vector)
                requires
                    h ^ s == h ^ t,
            ;
        } else {
            law_one_changed_byte_changes_the_hash(x, y, i);
            let s = a.last() as u64;
            assert(a[a.len() - 1] == b[a.len() - 1]);
            assert(h == k) by (bit_vector)
                requires
                    h ^ s == k ^ s,
            ;
        }
    }
}

/// A write that was noted, with what followed: the segments that it made complete were read back and
/// hashed one after the other. `moments` are the recorder after the write and after each hash.
pub struct NotedWrite {
    pub offset: u64,
    pub len: u64,
    pub ready: Seq<usize>,
    pub read: Seq<Seq<u8>>,
    pub moments: Seq<ResumeRecorder>,
}

/// The `k`-th complete segment was hashed.
pub open spec fn hashed_in_turn(w: NotedWrite, k: int) -> bool {
    resume::segment_hashed(w.moments[k], w.moments[k + 1], w.ready[k], w.read[k])
}

/// A write was noted and the segments that it made complete were hashed.
pub open spec fn carried_out(before: ResumeRecorder, w: NotedWrite, after: ResumeRecorder) -> bool {
    &&& w.read.len() == w.ready.len()
    &&& w.moments.len() == w.ready.len() + 1
    &&& resume::write_noted(before, w.moments[0], w.offset, w.len, w.ready)
    &&& forall|k: int| 0 <= k < w.ready.len() ==> #[trigger] hashed_in_turn(w, k)
    &&& after.metadata == w.moments.last().metadata
    &&& after.covered_ranges == w.moments.last().covered_ranges
}

proof fn lemma_turns(before: ResumeRecorder, w: NotedWrite, after: ResumeRecorder, n: int)
    requires
        before.wf(),
        carried_out(before, w, after),
        0 <= n <= w.ready.len(),
    ensures
        w.moments[n].covered_ranges == w.moments[0].covered_ranges,
        w.moments[n].metadata.file_size == before.metadata.file_size,
        w.moments[n].metadata.segment_size == before.metadata.segment_size,
        w.moments[n].metadata.segments@.len() == before.metadata.segments@.len(),
        forall|i: int|
            0 <= i < before.metadata.segments@.len() ==> {
                let seg = #[trigger] w.moments[n].metadata.segments@[i];
                &&& seg.start == before.metadata.segments@[i].start
                &&& seg.end == before.metadata.segments@[i].end
                &&& (forall|k: int| 0 <= k < n ==> #[trigger] w.ready[k] != i) ==> seg
                    == before.metadata.segments@[i]
            },
        forall|k: int|
            0 <= k < n ==> w.moments[n].metadata.segments@[(#[trigger] w.ready[k]) as int].hash
                == Some(resume::fnv(w.read[k])),
    decreases n,
{
    if n > 0 {
        lemma_turns(before, w, after, n - 1);
        assert(hashed_in_turn(w, n - 1));
        assert(before.completes(w.ready[n - 1] as int, w.offset, w.len));
        let now = w.moments[n].metadata.segments@;
        let then = w.moments[n - 1].metadata.segments@;
        assert forall|k: int| 0 <= k < n implies now[(#[trigger] w.ready[k]) as int].hash == Some(
            resume::fnv(w.read[k]),
        ) by {
            if k < n - 1 {
                assert(w.ready[k] < w.ready[n - 1]);
            }
        }
        assert forall|i: int| 0 <= i < before.metadata.segments@.len() implies {
            let seg = #[trigger] now[i];
            &&& seg.start == before.metadata.segments@[i].start
            &&& seg.end == before.metadata.segments@[i].end
            &&& (forall|k: int| 0 <= k < n ==> #[trigger] w.ready[k] != i) ==> seg
                == before.metadata.segments@[i]
        } by {
            assert(then[i].start == before.metadata.segments@[i].start);
            if forall|k: int| 0 <= k < n ==> #[trigger] w.ready[k] != i {
                assert(w.ready[n - 1] != i);
                assert(forall|k: int| 0 <= k < n - 1 ==> #[trigger] w.ready[k] != i);
            }
        }
    }
}

/// A write hashes exactly the segments that it makes complete, each with the hash of what was read
/// back of it, and leaves the others as they are. A write of no bytes changes nothing.
pub proof fn law_a_write_hashes_what_it_completes(
    before: ResumeRecorder,
    w: NotedWrite,
    after: ResumeRecorder,
    i: int,
)
    requires
        before.wf(),
        carried_out(before, w, after),
        0 <= i < before.metadata.segments@.len(),
    ensures
        after.wf(),
        after.metadata.file_size == before.metadata.file_size,
        after.metadata.segment_size == before.metadata.segment_size,
        after.metadata.segments@.len() == before.metadata.segments@.len(),
        after.metadata.segments@[i].start == before.metadata.segments@[i].start,
        after.metadata.segments@[i].end == before.metadata.segments@[i].end,
        after.covered_ranges@[i]@ == before.covered_after(i, w.offset, w.len),
        before.completes(i, w.offset, w.len) ==> exists|k: int|
            0 <= k < w.ready.len() && #[trigger] w.ready[k] == i
                && after.metadata.segments@[i].hash == Some(resume::fnv(w.read[k])),
        !before.completes(i, w.offset, w.len) ==> after.metadata.segments@[i]
            == before.metadata.segments@[i],
        w.len == 0 ==> after.metadata.segments@[i] == before.metadata.segments@[i]
            && after.covered_ranges@[i]@ == before.covered_ranges@[i]@,
{
    let n = w.ready.len() as int;
    lemma_turns(before, w, after, n);
    assert(w.moments.last() == w.moments[n]);
    let seg = w.moments[n].metadata.segments@[i];
    let covered = w.moments[0].covered_ranges@[i];
    if before.completes(i, w.offset, w.len) {
        assert(before.metadata.segments.len() <= usize::MAX);
        assert(w.ready.contains(i as usize));
        let k = choose|k: int| 0 <= k < w.ready.len() && w.ready[k] == i as usize;
        assert(w.ready[k] == i);
    } else {
        assert forall|k: int| 0 <= k < n implies #[trigger] w.ready[k] != i by {
            assert(before.completes(w.ready[k] as int, w.offset, w.len));
        }
    }
}

/// One write of a run was carried out.
pub open spec fn done_in_turn(
    moments: Seq<ResumeRecorder>,
    writes: Seq<NotedWrite>,
    k: int,
) -> bool {
    carried_out(moments[k], writes[k], moments[k + 1])
}

/// A recorder took a run of writes: `moments` are the recorder before the first one and after each.
pub open spec fn ledger_run(moments: Seq<ResumeRecorder>, writes: Seq<NotedWrite>) -> bool {
    &&& moments.len() == writes.len() + 1
    &&& forall|k: int| 0 <= k < writes.len() ==> #[trigger] done_in_turn(moments, writes, k)
}

/// One of the writes wrote the byte `x`.
pub open spec fn was_written(writes: Seq<NotedWrite>, x: u64) -> bool {
    exists|k: int|
        0 <= k < writes.len() && (#[trigger] writes[k]).offset <= x < writes[k].offset
            + writes[k].len
}

/// Every write lies within the file.
pub open spec fn all_inside(writes: Seq<NotedWrite>, file_size: u64) -> bool {
    forall|k: int|
        0 <= k < writes.len() ==> (#[trigger] writes[k]).offset + writes[k].len <= file_size
}

/// The segments of a ledger are those of its file, hashed or not.
pub open spec fn laid_out(m: ResumeMetadata) -> bool {
    &&& m.segments@.len() == resume::segment_count(m.file_size, m.segment_size)
    &&& forall|i: int|
        0 <= i < m.segments@.len() ==> {
            let seg = #[trigger] m.segments@[i];
            let plan = resume::segment_at(m.file_size, m.segment_size, i);
            seg.start == plan.start && seg.end == plan.end
        }
}

/// In which segment a byte lies.
proof fn lemma_place_of_byte(x: int, size: int, i: int)
    requires
        x >= 0,
        size >= 1,
    ensures
        (x / size <= i) == (x < i * size + size),
        (i <= x / size) == (i * size <= x),
{
    let q = x / size;
    assert(q * size <= x < q * size + size) by (nonlinear_arith)
        requires
            size >= 1,
            q == x / size,
    ;
    if q <= i {
        assert(q * size <= i * size) by (nonlinear_arith)
            requires
                q <= i,
                size >= 1,
        ;
    } else {
        assert(i * size + size <= q * size) by (nonlinear_arith)
            requires
                i + 1 <= q,
                size >= 1,
        ;
    }
    if i <= q {
        assert(i * size <= q * size) by (nonlinear_arith)
            requires
                i <= q,
                size >= 1,
        ;
    } else {
        assert(q * size + size <= i * size) by (nonlinear_arith)
            requires
                q + 1 <= i,
                size >= 1,
        ;
    }
}

/// Where a segment lies.
proof fn lemma_segment_bounds(m: ResumeMetadata, i: int)
    requires
        laid_out(m),
        0 <= i < m.segments@.len(),
    ensures
        ({
            let size = resume::effective_size(m.segment_size);
            let seg = m.segments@[i];
            &&& size >= 1
            &&& seg.start == i * size
            &&& seg.end < i * size + size
            &&& seg.start <= seg.end < m.file_size
            &&& seg.end + 1 == i * size + size || seg.end + 1 == m.file_size
        }),
{
    let size = resume::effective_size(m.segment_size);
    resume::lemma_before_end(m.file_size as int, size, i);
    assert(i * size >= 0) by (nonlinear_arith)
        requires
            i >= 0,
            size >= 1,
    ;
    let seg = m.segments@[i];
}

/// Joining ordered ranges leaves at least one byte between any two.
proof fn lemma_joined_are_separated(s: Seq<(u64, u64)>)
    requires
        resume::all_nonempty(s),
        resume::in_order(s),
    ensures
        resume::separated(resume::contiguous(s)),
    decreases s.len(),
{
    if s.len() > 0 {
        let t = s.drop_last();
        assert(resume::all_nonempty(t)) by {
            assert forall|i: int| 0 <= i < t.len() implies (#[trigger] t[i]).0 <= t[i].1 by {
                assert(s[i].0 <= s[i].1);
            }
        }
        assert(resume::in_order(t)) by {
            assert forall|i: int, j: int| 0 <= i <= j < t.len() implies (#[trigger] t[i]).0 <= (
            #[trigger] t[j]).0 by {
                assert(s[i].0 <= s[j].0);
            }
        }
        lemma_joined_are_separated(t);
        let front = resume::contiguous(t);
        let now = resume::contiguous(s);
        let r = s.last();
        assert(s[s.len() - 1].0 <= s[s.len() - 1].1);
        if front.len() > 0 {
            assert(front[front.len() - 1].0 <= front[front.len() - 1].1);
        }
        assert forall|i: int| 0 <= i < now.len() implies (#[trigger] now[i]).0 <= now[i].1 by {
            if i < front.len() {
                assert(front[i].0 <= front[i].1);
            }
        }
        assert forall|i: int, j: int| 0 <= i < j < now.len() implies (#[trigger] now[i]).1 + 1 < (
        #[trigger] now[j]).0 by {
            if j < front.len() {
                assert(front[i].1 + 1 < front[j].0);
            } else if i < front.len() - 1 {
                assert(front[i].1 + 1 < front[front.len() - 1].0);
            }
        }
    }
}

/// A byte of ranges lies in one of them.
proof fn lemma_within_some(s: Seq<(u64, u64)>, x: u64) -> (k: int)
    requires
        resume::within(s, x),
    ensures
        0 <= k < s.len(),
        s[k].0 <= x <= s[k].1,
    decreases s.len(),
{
    if resume::within(s.drop_last(), x) {
        lemma_within_some(s.drop_last(), x)
    } else {
        s.len() - 1
    }
}

/// Ranges with gaps between them that hold every byte of `start..=end` cover it with one of them.
proof fn lemma_full_is_covered(s: Seq<(u64, u64)>, start: u64, end: u64)
    requires
        resume::separated(s),
        start <= end,
        forall|x: u64| start <= x <= end ==> #[trigger] resume::within(s, x),
    ensures
        resume::covers(s, start, end),
{
    assert(resume::within(s, start));
    let k = lemma_within_some(s, start);
    if s[k].1 < end {
        let x = (s[k].1 + 1) as u64;
        assert(resume::within(s, x));
        let j = lemma_within_some(s, x);
        if j < k {
            assert(s[j].1 + 1 < s[k].0);
        } else if k < j {
            assert(s[k].1 + 1 < s[j].0);
        }
    }
}

/// Where the segment `i` stands after the writes: its ranges are the bytes written so far, unless it
/// is hashed, and it is not hashed while one of its bytes is missing.
spec fn on_record(first: ResumeRecorder, rec: ResumeRecorder, writes: Seq<NotedWrite>, i: int) -> bool {
    let seg = rec.metadata.segments@[i];
    let cov = rec.covered_ranges@[i]@;
    if first.metadata.segments@[i].hash is Some {
        seg.hash == first.metadata.segments@[i].hash
    } else if seg.hash is Some {
        forall|x: u64| seg.start <= x <= seg.end ==> #[trigger] was_written(writes, x)
    } else {
        &&& resume::separated(cov)
        &&& forall|x: u64| #[trigger]
            resume::within(cov, x) <==> seg.start <= x <= seg.end && was_written(writes, x)
        &&& !resume::covers(cov, seg.start, seg.end)
    }
}

proof fn lemma_written_by_last(writes: Seq<NotedWrite>, x: u64)
    requires
        writes.len() > 0,
    ensures
        was_written(writes, x) == (was_written(writes.drop_last(), x) || writes.last().offset <= x
            < writes.last().offset + writes.last().len),
{
    let front = writes.drop_last();
    if was_written(front, x) {
        let k = choose|k: int|
            0 <= k < front.len() && (#[trigger] front[k]).offset <= x < front[k].offset
                + front[k].len;
        assert(writes[k] == front[k]);
    }
    if was_written(writes, x) {
        let k = choose|k: int|
            0 <= k < writes.len() && (#[trigger] writes[k]).offset <= x < writes[k].offset
                + writes[k].len;
        if k < front.len() {
            assert(front[k] == writes[k]);
        }
    }
    assert(writes[writes.len() - 1] == writes.last());
}

/// What one more write does to the ranges of a segment that is not hashed.
proof fn lemma_write_extends(before: ResumeRecorder, w: NotedWrite, i: int)
    requires
        before.wf(),
        laid_out(before.metadata),
        0 <= i < before.metadata.segments@.len(),
        before.metadata.segments@[i].hash is None,
        w.offset + w.len <= before.metadata.file_size,
        resume::separated(before.covered_ranges@[i]@),
    ensures
        resume::separated(before.covered_after(i, w.offset, w.len)),
        !before.concerned(i, w.offset, w.len) ==> before.covered_after(i, w.offset, w.len)
            == before.covered_ranges@[i]@,
        forall|x: u64| #[trigger]
            resume::within(before.covered_after(i, w.offset, w.len), x) <==> resume::within(
                before.covered_ranges@[i]@,
                x,
            ) || (before.metadata.segments@[i].start <= x <= before.metadata.segments@[i].end
                && w.offset <= x < w.offset + w.len),
{
    let m = before.metadata;
    let seg = m.segments@[i];
    let size = resume::effective_size(m.segment_size);
    let cov = before.covered_ranges@[i]@;
    let after = before.covered_after(i, w.offset, w.len);
    lemma_segment_bounds(m, i);
    if w.len > 0 {
        let last = resume::write_end(w.offset, w.len);
        assert(last == w.offset + w.len - 1);
        lemma_place_of_byte(w.offset as int, size, i);
        lemma_place_of_byte(last as int, size, i);
        if before.concerned(i, w.offset, w.len) {
            let from = resume::later_of(w.offset, seg.start);
            let to = resume::earlier_of(last, seg.end);
            assert(from <= to);
            let t = cov.push((from, to));
            assert(resume::all_nonempty(t)) by {
                assert forall|k: int| 0 <= k < t.len() implies (#[trigger] t[k]).0 <= t[k].1 by {
                    if k < cov.len() {
                        assert(cov[k].0 <= cov[k].1);
                    }
                }
            }
            resume::lemma_ordered_within(t, 0);
            lemma_joined_are_separated(resume::ordered(t));
            assert forall|x: u64| #[trigger] resume::within(after, x) <==> resume::within(cov, x)
                || (seg.start <= x <= seg.end && w.offset <= x < w.offset + w.len) by {
                resume::law_covered_bytes_are_the_written_bytes(cov, from, to, x);
            }
        }
    }
}

proof fn lemma_run_is_on_record(moments: Seq<ResumeRecorder>, writes: Seq<NotedWrite>, i: int)
    requires
        ledger_run(moments, writes),
        moments[0].wf(),
        laid_out(moments[0].metadata),
        all_inside(writes, moments[0].metadata.file_size),
        0 <= i < moments[0].metadata.segments@.len(),
        moments[0].metadata.segments@[i].hash is None ==> moments[0].covered_ranges@[i]@.len() == 0,
    ensures
        moments.last().wf(),
        moments.last().metadata.file_size == moments[0].metadata.file_size,
        moments.last().metadata.segment_size == moments[0].metadata.segment_size,
        laid_out(moments.last().metadata),
        moments.last().metadata.segments@.len() == moments[0].metadata.segments@.len(),
        on_record(moments[0], moments.last(), writes, i),
    decreases writes.len(),
{
    let first = moments[0];
    if writes.len() == 0 {
        assert(moments.last() == first);
        let cov = first.covered_ranges@[i]@;
        let seg = first.metadata.segments@[i];
        lemma_segment_bounds(first.metadata, i);
        if seg.hash is None {
            assert(!resume::covers(cov, seg.start, seg.end));
        }
    } else {
        let front = moments.drop_last();
        let earlier = writes.drop_last();
        let w = writes.last();
        let before = front.last();
        let after = moments.last();
        assert(before == moments[writes.len() - 1]);
        assert forall|k: int| 0 <= k < earlier.len() implies #[trigger] done_in_turn(
            front,
            earlier,
            k,
        ) by {
            assert(done_in_turn(moments, writes, k));
        }
        assert(all_inside(earlier, first.metadata.file_size)) by {
            assert forall|k: int| 0 <= k < earlier.len() implies (#[trigger] earlier[k]).offset
                + earlier[k].len <= first.metadata.file_size by {
                assert(writes[k] == earlier[k]);
            }
        }
        assert(front[0] == first);
        lemma_run_is_on_record(front, earlier, i);
        assert(done_in_turn(moments, writes, writes.len() - 1));
        assert(writes[writes.len() - 1] == w);
        assert(w.offset + w.len <= first.metadata.file_size);
        assert forall|j: int| 0 <= j < after.metadata.segments@.len() implies {
            let seg = #[trigger] after.metadata.segments@[j];
            let plan = resume::segment_at(
                after.metadata.file_size,
                after.metadata.segment_size,
                j,
            );
            seg.start == plan.start && seg.end == plan.end
        } by {
            law_a_write_hashes_what_it_completes(before, w, after, i);
            law_a_write_hashes_what_it_completes(before, w, after, j);
            assert(before.metadata.segments@[j].start == resume::segment_at(
                before.metadata.file_size,
                before.metadata.segment_size,
                j,
            ).start);
        }
        law_a_write_hashes_what_it_completes(before, w, after, i);
        let seg = after.metadata.segments@[i];
        lemma_segment_bounds(before.metadata, i);
        assert forall|x: u64| #[trigger] was_written(earlier, x) implies was_written(writes, x) by {
            lemma_written_by_last(writes, x);
        }
        if first.metadata.segments@[i].hash is None {
            if before.metadata.segments@[i].hash is None {
                lemma_write_extends(before, w, i);
                let cov = before.covered_after(i, w.offset, w.len);
                assert forall|x: u64| #[trigger] resume::within(cov, x) <==> seg.start <= x
                    <= seg.end && was_written(writes, x) by {
                    lemma_written_by_last(writes, x);
                    assert(resume::within(before.covered_ranges@[i]@, x) <==> seg.start <= x
                        <= seg.end && was_written(earlier, x));
                }
                if before.completes(i, w.offset, w.len) {
                    let k = choose|k: int|
                        0 <= k < cov.len() && (#[trigger] cov[k]).0 <= seg.start && cov[k].1
                            >= seg.end;
                    assert forall|x: u64| seg.start <= x <= seg.end implies #[trigger] was_written(
                        writes,
                        x,
                    ) by {
                        resume::lemma_within(cov, k, x);
                        assert(resume::within(cov, x));
                    }
                }
            } else {
                assert(!before.completes(i, w.offset, w.len));
                assert forall|x: u64| seg.start <= x <= seg.end implies #[trigger] was_written(
                    writes,
                    x,
                ) by {
                    assert(was_written(earlier, x));
                }
            }
        }
    }
}

/// After any run of writes within the file, a segment of a new recorder has a hash exactly if it had
/// one at the start or every one of its bytes was written; a hash that it had stays.
pub proof fn law_hashed_segments_are_the_written_ones(
    moments: Seq<ResumeRecorder>,
    writes: Seq<NotedWrite>,
    i: int,
    now: u64,
)
    requires
        ledger_run(moments, writes),
        moments[0].fresh(now),
        laid_out(moments[0].metadata),
        all_inside(writes, moments[0].metadata.file_size),
        0 <= i < moments[0].metadata.segments@.len(),
    ensures
        ({
            let first = moments[0].metadata.segments@[i];
            let last = moments.last().metadata.segments@[i];
            &&& moments.last().metadata.segments@.len() == moments[0].metadata.segments@.len()
            &&& last.start == first.start && last.end == first.end
            &&& last.hash is Some <==> first.hash is Some || forall|x: u64|
                first.start <= x <= first.end ==> #[trigger] was_written(writes, x)
            &&& first.hash is Some ==> last.hash == first.hash
        }),
{
    let covered = moments[0].covered_ranges@[i];
    lemma_run_is_on_record(moments, writes, i);
    let last = moments.last();
    let seg = last.metadata.segments@[i];
    let cov = last.covered_ranges@[i]@;
    lemma_segment_bounds(last.metadata, i);
    lemma_segment_bounds(moments[0].metadata, i);
    assert(seg.start == moments[0].metadata.segments@[i].start);
    if moments[0].metadata.segments@[i].hash is None && seg.hash is None {
        if forall|x: u64| seg.start <= x <= seg.end ==> #[trigger] was_written(writes, x) {
            assert forall|x: u64| seg.start <= x <= seg.end implies #[trigger] resume::within(
                cov,
                x,
            ) by {
                assert(was_written(writes, x));
            }
            lemma_full_is_covered(cov, seg.start, seg.end);
        }
    }
}

/// A ledger of a file that was begun anew is laid out as the law on runs of writes asks, and none of
/// its segments has a hash.
pub proof fn law_new_ledgers_are_laid_out(m: ResumeMetadata, segment_size: u64)
    requires
        m.segment_size == resume::effective_size(segment_size),
        m.segments@ == resume::blank_segments(m.file_size, segment_size),
    ensures
        laid_out(m),
        forall|i: int| 0 <= i < m.segments@.len() ==> (#[trigger] m.segments@[i]).hash is None,
{
    let size = resume::effective_size(m.segment_size);
    assert((m.file_size + size - 1) / size >= 0) by (nonlinear_arith)
        requires
            size >= 1,
            m.file_size >= 0,
    ;
}

} // verus!
