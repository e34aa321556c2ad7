//! How patient a download is: which failures are final, how long a range waits before it is requested
//! again, and which waiting ranges are joined.

use crate::chunk;
use crate::chunk::{ChunkEventView, ChunkRun};
use crate::monitor;
use crate::monitor::{ActionView, EventView, MonitorModel};
use crate::retry;
use crate::retry::{DelayedChunkInfo, FailedChunkInfo, RetryModel};
use crate::text;
use crate::types::{ChunkId, DownloadCmd, InfoView};
use vstd::prelude::*;

verus! {

/// The error speaks of the local writer.
pub open spec fn blames_the_writer(error: Seq<char>) -> bool {
    ||| text::has_part(error, "写入通道已关闭"@)
    ||| text::has_part(error, "writer closed"@)
    ||| text::has_part(error, "BrokenPipe"@)
    ||| text::has_part(error, "os error 5"@)
}

/// How often the chunk `id` has failed, by a count of failures.
pub open spec fn failures(counts: Map<ChunkId, u32>, id: ChunkId) -> int {
    if counts.contains_key(id) {
        counts[id] as int
    } else {
        0
    }
}

/// `n`, or the largest moment that there is.
pub open spec fn moment(n: int) -> int {
    if n <= u64::MAX {
        n
    } else {
        u64::MAX as int
    }
}

/// A range that failed is given up only for the writer's sake, or after thirty failures in all. In
/// every other case exactly this range waits for another try, and no range is given up. Of the first
/// ten failures in a row each waits a second, or longer where failures come in a batch; the next one
/// waits ten seconds.
pub proof fn law_failed_ranges_are_tried_again(
    m: RetryModel,
    id: ChunkId,
    start: u64,
    end: u64,
    error: Seq<char>,
    now: u64,
)
    requires
        !blames_the_writer(error),
        failures(m.in_all, id) < 30,
    ensures
        ({
            let n = retry::failure_model(m, id, start, end, error, now);
            let row = failures(m.in_row, id);
            let batch = m.last_failure is Some && now - m.last_failure->0 < 500_000_000
                && m.retry.len() >= 3;
            &&& n.lost == m.lost
            &&& n.in_all == m.in_all.insert(id, (failures(m.in_all, id) + 1) as u32)
            &&& n.last_failure == Some(now)
            &&& row < 10 ==> {
                &&& n.delayed == m.delayed
                &&& n.retry.len() == m.retry.len() + 1
                &&& n.retry.drop_last() == m.retry
                &&& n.retry.last().id == id
                &&& n.retry.last().start == start
                &&& n.retry.last().end == end
                &&& n.retry.last().attempts == row + 1
                &&& n.in_row == m.in_row.insert(id, (row + 1) as u32)
                &&& !batch ==> n.retry.last().ready_at == moment(now + 1_000_000_000)
                &&& batch ==> n.retry.last().ready_at == moment(
                    now + 1_000_000_000 + 200_000_000 * (m.retry.len() + 1),
                )
            }
            &&& row >= 10 ==> {
                &&& n.retry == m.retry
                &&& n.delayed.len() == m.delayed.len() + 1
                &&& n.delayed.drop_last() == m.delayed
                &&& n.delayed.last().chunk.id == id
                &&& n.delayed.last().chunk.start == start
                &&& n.delayed.last().chunk.end == end
                &&& n.delayed.last().retry_at == moment(now + 10_000_000_000)
                &&& !n.in_row.contains_key(id)
            }
        }),
{
    let n = retry::failure_model(m, id, start, end, error, now);
    if failures(m.in_row, id) < 10 {
        assert(n.retry.drop_last() =~= m.retry);
    } else {
        assert(n.delayed.drop_last() =~= m.delayed);
    }
}

/// A range whose writer is lost, or that has failed thirty times before, is given up at once: it is
/// noted as lost, whole, and waits no more.
pub proof fn law_final_failures_are_noted(
    m: RetryModel,
    id: ChunkId,
    start: u64,
    end: u64,
    error: Seq<char>,
    now: u64,
)
    requires
        blames_the_writer(error) || failures(m.in_all, id) >= 30,
    ensures
        ({
            let n = retry::failure_model(m, id, start, end, error, now);
            &&& n.retry == m.retry
            &&& n.delayed == m.delayed
            &&& n.lost.len() == m.lost.len() + 1
            &&& n.lost.drop_last() == m.lost
            &&& n.lost.last().id == id
            &&& n.lost.last().start == start
            &&& n.lost.last().end == end
            &&& !n.in_row.contains_key(id)
        }),
{
    let n = retry::failure_model(m, id, start, end, error, now);
    assert(n.lost.drop_last() =~= m.lost);
}

/// A monitor that hears of a failure lets the range wait, or gives it up, as the failure deserves: in
/// the first case the range is among those that wait and nothing is lost, in the second it is lost.
/// It says which, with the status of a retry soon, of a retry later, or of a failure.
pub proof fn law_a_monitor_keeps_what_failed(
    m: MonitorModel,
    id: ChunkId,
    start: u64,
    end: u64,
    error: Seq<char>,
    now: u64,
)
    ensures
        ({
            let (n, acts) = monitor::on_event(
                m,
                EventView::Reliable { info: InfoView::ChunkFailed { id, start, end, error } },
                now,
            );
            let last = blames_the_writer(error) || failures(m.retry.in_all, id) >= 30;
            let soon = failures(m.retry.in_row, id) < 10;
            &&& acts.len() == 1
            &&& acts[0] matches ActionView::Notify { info } && (
            info matches InfoView::ChunkStatusChanged { id: who, status, .. } && who == id && status
                == (if last {
                5u8
            } else if soon {
                2
            } else {
                3
            }))
            &&& last ==> n.retry.lost.len() == m.retry.lost.len() + 1 && n.retry.lost.last().start
                == start && n.retry.lost.last().end == end && n.retry.retry == m.retry.retry
                && n.retry.delayed == m.retry.delayed
            &&& !last ==> n.retry.lost == m.retry.lost
            &&& !last && soon ==> n.retry.retry.len() == m.retry.retry.len() + 1
                && n.retry.retry.last().id == id && n.retry.retry.last().start == start
                && n.retry.retry.last().end == end && n.retry.delayed == m.retry.delayed
            &&& !last && !soon ==> n.retry.delayed.len() == m.retry.delayed.len() + 1
                && n.retry.delayed.last().chunk.id == id && n.retry.delayed.last().chunk.start
                == start && n.retry.delayed.last().chunk.end == end && n.retry.retry
                == m.retry.retry
        }),
{
}

/// A download fails with the first failure that is final, and goes on after any other.
pub proof fn law_only_final_failures_fail_a_download(
    m: MonitorModel,
    id: ChunkId,
    start: u64,
    end: u64,
    error: Seq<char>,
    now: u64,
)
    requires
        m.retry.lost.len() == 0,
    ensures
        ({
            let e = EventView::Reliable { info: InfoView::ChunkFailed { id, start, end, error } };
            let n = monitor::on_event(m, e, now).0;
            monitor::failed(n, e) <==> blames_the_writer(error) || failures(m.retry.in_all, id)
                >= 30
        }),
{
}

/// A download of which a range is lost fails, unless it ends with the same event.
pub proof fn law_a_lost_range_fails_the_download(m: MonitorModel, e: EventView)
    ensures
        m.retry.lost.len() > 0 && !monitor::ended(m, e) ==> monitor::failed(m, e),
        m.retry.lost.len() == 0 ==> !monitor::failed(m, e),
        monitor::ended(m, e) ==> !monitor::failed(m, e),
{
}

/// A text that lacks a character of another one does not contain it.
proof fn lemma_lacks(s: Seq<char>, needle: Seq<char>, k: int)
    requires
        0 <= k < needle.len(),
        forall|i: int| 0 <= i < s.len() ==> #[trigger] s[i] != needle[k],
    ensures
        !text::has_part(s, needle),
{
    assert forall|i: int|
        0 <= i && i + needle.len() <= s.len() implies #[trigger] s.subrange(i, i + needle.len())
        != needle by {
        assert(s.subrange(i, i + needle.len())[k] == s[i + k]);
    }
}

/// A text in which no two `r` stand side by side does not contain "os error 5".
proof fn lemma_no_double_r(s: Seq<char>)
    requires
        forall|i: int| 0 <= i < s.len() && i != 2 ==> #[trigger] s[i] != 'r',
    ensures
        !text::has_part(s, "os error 5"@),
{
    reveal_strlit("os error 5");
    let needle = "os error 5"@;
    assert forall|i: int|
        0 <= i && i + needle.len() <= s.len() implies #[trigger] s.subrange(i, i + needle.len())
        != needle by {
        let part = s.subrange(i, i + needle.len());
        assert(part[4] == s[i + 4]);
        assert(part[5] == s[i + 5]);
        if part == needle {
            assert(part[4] == 'r' && part[5] == 'r');
        }
    }
}

/// The messages of a connection that was given up, of a chunk that was stopped and of a body that ended
/// too soon do not speak of the writer.
pub proof fn law_own_messages_blame_no_writer(c: ChunkRun)
    ensures
        !blames_the_writer("connection stalled"@),
        !blames_the_writer("chunk stopped"@),
        !blames_the_writer(chunk::early_eof_text(c)),
{
    reveal_strlit("connection stalled");
    reveal_strlit("chunk stopped");
    reveal_strlit("写入通道已关闭");
    reveal_strlit("writer closed");
    reveal_strlit("BrokenPipe");
    reveal_strlit("os error 5");
    let a = "connection stalled"@;
    lemma_lacks(a, "写入通道已关闭"@, 0);
    lemma_lacks(a, "writer closed"@, 0);
    lemma_lacks(a, "BrokenPipe"@, 0);
    lemma_lacks(a, "os error 5"@, 9);
    let b = "chunk stopped"@;
    lemma_lacks(b, "写入通道已关闭"@, 0);
    lemma_lacks(b, "writer closed"@, 0);
    lemma_lacks(b, "BrokenPipe"@, 0);
    lemma_lacks(b, "os error 5"@, 9);
    lemma_early_eof(c);
}

proof fn lemma_early_eof(c: ChunkRun)
    ensures
        !blames_the_writer(chunk::early_eof_text(c)),
{
    let s = chunk::early_eof_text(c);
    reveal_strlit("early EOF: expected ");
    reveal_strlit(" bytes (");
    reveal_strlit("-");
    reveal_strlit("), got ");
    reveal_strlit("写入通道已关闭");
    reveal_strlit("writer closed");
    reveal_strlit("BrokenPipe");
    let d1 = text::digits(chunk::span(c.start_byte, c.end) as nat);
    let d2 = text::digits(c.start_byte as nat);
    let d3 = text::digits(c.end as nat);
    let d4 = text::digits(c.received() as nat);
    text::lemma_digits(chunk::span(c.start_byte, c.end) as nat);
    text::lemma_digits(c.start_byte as nat);
    text::lemma_digits(c.end as nat);
    text::lemma_digits(c.received() as nat);
    let p0 = "early EOF: expected "@;
    let p1 = p0 + d1;
    let p2 = p1 + " bytes ("@;
    let dash = chunk::dashed(c.start_byte, c.end);
    let p3 = p2 + dash;
    let p4 = p3 + "), got "@;
    assert(s =~= p4 + d4);
    assert forall|i: int| 0 <= i < dash.len() implies (#[trigger] dash[i] == '-' || text::is_digit(
        dash[i],
    )) by {
        if i < d2.len() {
            assert(dash[i] == d2[i]);
        } else if i > d2.len() {
            assert(dash[i] == d3[i - d2.len() - 1]);
        }
    }
    assert forall|i: int| 0 <= i < s.len() implies (#[trigger] s[i] != 'w' && s[i] != 'B' && s[i]
        != '写' && (i != 2 ==> s[i] != 'r')) by {
        if i < p0.len() {
            assert(s[i] == p0[i]);
        } else if i < p1.len() {
            assert(s[i] == d1[i - p0.len()]);
            assert(text::is_digit(s[i]));
        } else if i < p2.len() {
            assert(s[i] == " bytes ("@[i - p1.len()]);
        } else if i < p3.len() {
            assert(s[i] == dash[i - p2.len()]);
        } else if i < p4.len() {
            assert(s[i] == "), got "@[i - p3.len()]);
        } else {
            assert(s[i] == d4[i - p4.len()]);
            assert(text::is_digit(s[i]));
        }
    }
    lemma_lacks(s, "写入通道已关闭"@, 0);
    lemma_lacks(s, "writer closed"@, 0);
    lemma_lacks(s, "BrokenPipe"@, 0);
    lemma_no_double_r(s);
}

/// The error of a chunk's last report.
pub open spec fn reason(words: Seq<InfoView>) -> Seq<char> {
    words.last()->ChunkFailed_error
}

/// A chunk whose connection was given up, that was stopped, or whose body ended too soon is tried again
/// from where it stood: unless it failed thirty times before, the rest of its range waits and nothing
/// is lost.
pub proof fn law_stalled_and_cut_chunks_are_tried_again(
    m: RetryModel,
    c: ChunkRun,
    e: ChunkEventView,
    now: u64,
)
    requires
        c.offset <= c.end < u64::MAX,
        failures(m.in_all, c.id) < 30,
        e == (ChunkEventView::Command { cmd: DownloadCmd::TerminateChunk { id: c.id } }) || e
            == (ChunkEventView::Command { cmd: DownloadCmd::TerminateAll }) || e
            == ChunkEventView::CommandsClosed || e == ChunkEventView::Ended,
    ensures
        ({
            let words = chunk::on_chunk_event(c, e, now).1;
            let n = retry::failure_model(m, c.id, c.offset, c.end, reason(words), now);
            &&& words.last() is ChunkFailed
            &&& n.lost == m.lost
            &&& n.retry.len() + n.delayed.len() == m.retry.len() + m.delayed.len() + 1
        }),
{
    law_own_messages_blame_no_writer(c);
    let words = chunk::on_chunk_event(c, e, now).1;
    law_failed_ranges_are_tried_again(m, c.id, c.offset, c.end, reason(words), now);
}

/// A chunk that lost its writer is not tried again.
pub proof fn law_a_lost_writer_is_final(m: RetryModel, c: ChunkRun, now: u64)
    ensures
        ({
            let words = chunk::on_chunk_event(c, ChunkEventView::WriterClosed, now).1;
            let n = retry::failure_model(m, c.id, c.offset, c.end, reason(words), now);
            &&& words.last() is ChunkFailed
            &&& n.retry == m.retry
            &&& n.delayed == m.delayed
            &&& n.lost.len() == m.lost.len() + 1
        }),
{
    let words = chunk::on_chunk_event(c, ChunkEventView::WriterClosed, now).1;
    let error = reason(words);
    reveal_strlit("写入通道已关闭");
    reveal_strlit("] 文件写入通道已关闭");
    reveal_strlit("[Chunk ");
    let tail = "] 文件写入通道已关闭"@;
    let at = error.len() - 7;
    assert(error == "[Chunk "@ + text::digits(c.id as nat) + tail);
    assert(error.subrange(at, at + 7) =~= "写入通道已关闭"@);
    assert(text::has_part(error, "写入通道已关闭"@));
    law_final_failures_are_noted(m, c.id, c.offset, c.end, error, now);
}

/// A range that waited for the long delay is ready at once when it comes back, with its count of
/// failures in a row started anew. It is the one that waited longest, and those behind it that are not
/// due stay.
pub proof fn law_due_ranges_are_ready(m: RetryModel, now: u64)
    requires
        m.delayed.len() > 0,
        m.delayed[0].retry_at <= now,
    ensures
        ({
            let n = retry::processed(m, now);
            let back = n.retry[m.retry.len() as int];
            let first = m.delayed[0].chunk;
            &&& n.retry.len() > m.retry.len()
            &&& n.retry.take(m.retry.len() as int) == m.retry
            &&& n.retry.len() + n.delayed.len() == m.retry.len() + m.delayed.len()
            &&& back.id == first.id && back.start == first.start && back.end == first.end
            &&& back.ready_at == now
            &&& back.attempts == 0
            &&& n.lost == m.lost && n.in_row == m.in_row && n.in_all == m.in_all
            &&& n.delayed.len() > 0 ==> n.delayed[0].retry_at > now
        }),
{
    lemma_due(m.delayed, now);
    let n = retry::processed(m, now);
    assert(n.retry.take(m.retry.len() as int) =~= m.retry);
}

proof fn lemma_due(s: Seq<DelayedChunkInfo>, now: u64)
    ensures
        0 <= retry::due_count(s, now) <= s.len(),
        s.len() > 0 && s[0].retry_at <= now ==> retry::due_count(s, now) >= 1,
        retry::due_count(s, now) < s.len() ==> s[retry::due_count(s, now)].retry_at > now,
    decreases s.len(),
{
    if s.len() > 0 && s[0].retry_at <= now {
        lemma_due(s.skip(1), now);
    }
}

/// Before the first delayed range is due, none comes back.
pub proof fn law_nothing_comes_back_early(m: RetryModel, now: u64)
    requires
        m.delayed.len() > 0 ==> m.delayed[0].retry_at > now,
    ensures
        retry::processed(m, now).retry == m.retry,
        retry::processed(m, now).delayed == m.delayed,
{
    let n = retry::processed(m, now);
    assert(n.retry =~= m.retry);
    assert(n.delayed =~= m.delayed);
}

/// A range of the queue `f` that holds the range `c`, was tried no less often, and starts no later; a
/// range of 256 KiB or more is held by itself alone.
pub open spec fn held(c: FailedChunkInfo, f: Seq<FailedChunkInfo>) -> bool {
    exists|k: int|
        #![trigger f[k]]
        0 <= k < f.len() && f[k].start <= c.start && c.end <= f[k].end && f[k].attempts
            >= c.attempts && f[k].ready_at <= c.ready_at && (c.end - c.start + 1 >= 262_144
            ==> f[k] == c)
}

proof fn lemma_fused_holds(s: Seq<FailedChunkInfo>)
    requires
        forall|i: int| 0 <= i < s.len() ==> (#[trigger] s[i]).start <= s[i].end,
    ensures
        forall|i: int| 0 <= i < s.len() ==> held(#[trigger] s[i], retry::fused(s)),
        forall|k: int|
            0 <= k < retry::fused(s).len() ==> (#[trigger] retry::fused(s)[k]).start
                <= retry::fused(s)[k].end && (s.contains(retry::fused(s)[k]) || retry::fused(
                s,
            )[k].end - retry::fused(s)[k].start + 1 < 524_288),
    decreases s.len(),
{
    if s.len() > 0 {
        let front = s.drop_last();
        assert forall|i: int| 0 <= i < front.len() implies (#[trigger] front[i]).start
            <= front[i].end by {
            assert(front[i] == s[i]);
        }
        lemma_fused_holds(front);
        let m = retry::fused(front);
        let f = retry::fused(s);
        let c = s.last();
        assert(s[s.len() - 1] == c);
        let joined = m.len() > 0 && retry::mergeable(m.last(), c);
        if m.len() > 0 {
            assert(m[m.len() - 1].start <= m[m.len() - 1].end);
        }
        assert forall|i: int| 0 <= i < s.len() implies held(#[trigger] s[i], f) by {
            if i < front.len() {
                assert(front[i] == s[i]);
                assert(held(front[i], m));
                let k = choose|k: int|
                    #![trigger m[k]]
                    0 <= k < m.len() && m[k].start <= s[i].start && s[i].end <= m[k].end
                        && m[k].attempts >= s[i].attempts && m[k].ready_at <= s[i].ready_at && (
                    s[i].end - s[i].start + 1 >= 262_144 ==> m[k] == s[i]);
                if joined && k == m.len() - 1 {
                    assert(f[k] == retry::merge(m.last(), c));
                } else {
                    assert(f[k] == m[k]);
                }
            } else if joined {
                assert(f[f.len() - 1] == retry::merge(m.last(), c));
            } else {
                assert(f[f.len() - 1] == c);
            }
        }
        assert forall|k: int| 0 <= k < f.len() implies (#[trigger] f[k]).start <= f[k].end && (
        s.contains(f[k]) || f[k].end - f[k].start + 1 < 524_288) by {
            if joined && k == f.len() - 1 {
                assert(f[k] == retry::merge(m.last(), c));
            } else if k < m.len() {
                assert(f[k] == m[k]);
                if front.contains(m[k]) {
                    let w = choose|w: int| 0 <= w < front.len() && front[w] == m[k];
                    assert(s[w] == m[k]);
                }
            } else {
                assert(f[k] == c);
                assert(s.contains(c));
            }
        }
    }
}

proof fn lemma_inserted_same(s: Seq<FailedChunkInfo>, c: FailedChunkInfo, x: FailedChunkInfo)
    ensures
        retry::inserted(s, c).contains(x) <==> s.contains(x) || x == c,
    decreases s.len(),
{
    let t = retry::inserted(s, c);
    if s.len() == 0 || s.last().start <= c.start {
        assert(t[t.len() - 1] == c);
        if s.contains(x) {
            let w = choose|w: int| 0 <= w < s.len() && s[w] == x;
            assert(t[w] == x);
        }
        if t.contains(x) && x != c {
            let w = choose|w: int| 0 <= w < t.len() && t[w] == x;
            assert(s[w] == x);
        }
    } else {
        lemma_inserted_same(s.drop_last(), c, x);
        let r = retry::inserted(s.drop_last(), c);
        assert(t[t.len() - 1] == s.last());
        if s.contains(x) {
            let w = choose|w: int| 0 <= w < s.len() && s[w] == x;
            if w < s.len() - 1 {
                assert(s.drop_last()[w] == x);
            }
        }
        if s.drop_last().contains(x) {
            let w = choose|w: int| 0 <= w < s.drop_last().len() && s.drop_last()[w] == x;
            assert(s[w] == x);
        }
        if r.contains(x) {
            let w = choose|w: int| 0 <= w < r.len() && r[w] == x;
            assert(t[w] == x);
        }
        if t.contains(x) {
            let w = choose|w: int| 0 <= w < t.len() && t[w] == x;
            if w < r.len() {
                assert(r[w] == x);
            } else {
                assert(s[s.len() - 1] == x);
            }
        }
    }
}

proof fn lemma_sorted_same(s: Seq<FailedChunkInfo>, x: FailedChunkInfo)
    ensures
        retry::by_start(s).contains(x) <==> s.contains(x),
    decreases s.len(),
{
    if s.len() > 0 {
        let front = s.drop_last();
        lemma_sorted_same(front, x);
        lemma_inserted_same(retry::by_start(front), s.last(), x);
        assert(s[s.len() - 1] == s.last());
        if s.contains(x) && x != s.last() {
            let w = choose|w: int| 0 <= w < s.len() && s[w] == x;
            assert(front[w] == x);
        }
        if front.contains(x) {
            let w = choose|w: int| 0 <= w < front.len() && front[w] == x;
            assert(s[w] == x);
        }
    }
}

/// Joining waiting ranges joins small neighbours, and only those. A range of 256 KiB or more stays as
/// it is, with its id; every other one is part of a range that was tried no less often and is ready no
/// later; what was joined is smaller than 512 KiB; and no two neighbours below 256 KiB are left of
/// which one continues the other.
pub proof fn law_only_small_neighbours_are_joined(s: Seq<FailedChunkInfo>)
    requires
        forall|i: int| 0 <= i < s.len() ==> (#[trigger] s[i]).start <= s[i].end,
    ensures
        ({
            let f = retry::fused(retry::by_start(s));
            &&& forall|i: int| 0 <= i < s.len() ==> held(#[trigger] s[i], f)
            &&& forall|k: int|
                0 <= k < f.len() ==> s.contains(#[trigger] f[k]) || f[k].end - f[k].start + 1
                    < 524_288
            &&& forall|j: int, k: int|
                0 <= j < f.len() && k == j + 1 && k < f.len() && (#[trigger] f[j]).end + 1 == (
                #[trigger] f[k]).start ==> f[j].end - f[j].start + 1 >= 262_144 || f[k].end
                    - f[k].start + 1 >= 262_144
            &&& forall|j: int, k: int|
                0 <= j <= k < f.len() ==> (#[trigger] f[j]).start <= (#[trigger] f[k]).start
        }),
{
    let b = retry::by_start(s);
    let f = retry::fused(b);
    assert forall|i: int| 0 <= i < b.len() implies (#[trigger] b[i]).start <= b[i].end by {
        lemma_sorted_same(s, b[i]);
        let w = choose|w: int| 0 <= w < s.len() && s[w] == b[i];
        assert(s[w].start <= s[w].end);
    }
    lemma_fused_holds(b);
    assert forall|i: int| 0 <= i < s.len() implies held(#[trigger] s[i], f) by {
        lemma_sorted_same(s, s[i]);
        let w = choose|w: int| 0 <= w < b.len() && b[w] == s[i];
        assert(held(b[w], f));
    }
    assert forall|k: int| 0 <= k < f.len() implies s.contains(#[trigger] f[k]) || f[k].end
        - f[k].start + 1 < 524_288 by {
        lemma_sorted_same(s, f[k]);
    }
    assert(retry::all_sound(s)) by {
        assert forall|i: int| 0 <= i < s.len() implies retry::sound(#[trigger] s[i]) by {}
    }
    retry::law_coalescing_twice_changes_nothing(s);
    assert forall|j: int, k: int|
        0 <= j < f.len() && k == j + 1 && k < f.len() && (#[trigger] f[j]).end + 1 == (
        #[trigger] f[k]).start implies f[j].end - f[j].start + 1 >= 262_144 || f[k].end - f[k].start
        + 1 >= 262_144 by {
        assert(!retry::mergeable(f[k - 1], f[k]));
        assert(f[j].start <= f[j].end && f[k].start <= f[k].end);
    }
    retry::lemma_coalesced_in_order(s);
    assert(retry::in_start_order(f));
}

/// The text ends with the other one.
pub open spec fn ends_with(t: Seq<char>, tail: Seq<char>) -> bool {
    t.len() >= tail.len() && t.skip(t.len() - tail.len()) == tail
}

/// What is said of a failure that is final ends with its reason; what is said of a retry soon tells how
/// many failures in a row there were.
pub proof fn law_notices_tell_the_reason(m: RetryModel, id: ChunkId, error: Seq<char>)
    ensures
        ({
            let last = blames_the_writer(error) || failures(m.in_all, id) >= 30;
            let row = failures(m.in_row, id);
            retry::failure_notice(m, id, error) matches InfoView::ChunkStatusChanged {
                id: who,
                status,
                message,
            } && who == id && message is Some && (last ==> status == 5 && ends_with(
                message->0,
                error,
            )) && (!last && row < 10 ==> status == 2 && text::has_part(
                message->0,
                text::digits((row + 1) as nat),
            )) && (!last && row >= 10 ==> status == 3)
        }),
{
    if let InfoView::ChunkStatusChanged { id: who, status, message } = retry::failure_notice(
        m,
        id,
        error,
    ) {
        let t = message->0;
        let row = failures(m.in_row, id);
        if blames_the_writer(error) || failures(m.in_all, id) >= 30 {
            assert(t.skip(t.len() - error.len()) =~= error);
        } else if row < 10 {
            text::law_parts_stand_between_two_ends(t, text::digits((row + 1) as nat));
            assert(t == "将进行第 "@ + text::digits((row + 1) as nat) + " 次重试 (共 10 次)"@);
        }
    }
}

/// What is said of a range that is lost tells its chunk, its first and last byte, and how often it was
/// tried.
pub proof fn law_lost_ranges_are_named(f: FailedChunkInfo)
    ensures
        text::has_part(retry::lost_text(f), text::digits(f.id as nat)),
        text::has_part(
            retry::lost_text(f),
            text::digits(f.start as nat) + "-"@ + text::digits(f.end as nat),
        ),
        text::has_part(retry::lost_text(f), text::digits(f.attempts as nat)),
{
    let t = retry::lost_text(f);
    let i = text::digits(f.id as nat);
    let a = text::digits(f.start as nat);
    let b = text::digits(f.end as nat);
    let n = text::digits(f.attempts as nat);
    let range = a + "-"@ + b;
    text::law_parts_stand_between_two_ends(t, i);
    text::law_parts_stand_between_two_ends(t, range);
    text::law_parts_stand_between_two_ends(t, n);
    let tail = " 永久失败，已重试 "@ + n + " 次"@;
    assert(t =~= "块 "@ + i + (" 区间 "@ + range + tail));
    assert(t =~= ("块 "@ + i + " 区间 "@) + range + tail);
    assert(t =~= ("块 "@ + i + " 区间 "@ + range + " 永久失败，已重试 "@) + n + " 次"@);
}

} // verus!
