//! What happens to the ranges of failed chunks: when they are tried again, and when that ends.

use crate::chunk;
use crate::chunk::span_len;
use crate::state;
use crate::state::DownloadState;
use crate::text;
use crate::text::{contains_text, push_number, push_text};
use crate::types::{joined, ChunkId, DownloadInfo, InfoView};
use std::collections::{HashMap, VecDeque};
use vstd::prelude::*;

verus! {

broadcast use vstd::std_specs::hash::group_hash_axioms;

/// A chunk is retried at once this many times in a row.
pub const MAX_RETRIES: u32 = 10;

/// The time before a retry, in nanoseconds: 1 s.
pub const RETRY_DELAY: u64 = 1_000_000_000;

/// The longer time after which a chunk that used up its retries is tried again: 10 s.
pub const DELAYED_RETRY_DURATION: u64 = 10_000_000_000;

/// A chunk that fails more often than this in all fails for good.
pub const MAX_TOTAL_ATTEMPTS: u32 = 30;

/// Failures closer together than this count as a batch: 500 ms.
pub const BATCH_WINDOW: u64 = 500_000_000;

/// A batch is at least this many waiting retries.
pub const BATCH_SIZE: usize = 3;

/// The extra delay per waiting retry within a batch: 200 ms.
pub const BATCH_BACKOFF: u64 = 200_000_000;

/// Only retries smaller than this are merged: 256 KiB.
pub const FRAGMENT_SIZE: u64 = 262_144;

/// The largest merged retry: 1 MiB.
pub const MERGED_LIMIT: u64 = 1_048_576;

/// A range that has to be requested again.
#[derive(Debug, Clone, Copy, PartialEq, Eq, Structural)]
pub struct FailedChunkInfo {
    pub id: ChunkId,
    pub start: u64,
    pub end: u64,
    /// From when on the retry may start, in nanoseconds.
    pub ready_at: u64,
    /// How often the chunk failed in a row.
    pub attempts: u32,
}

/// A range that waits longer before it is requested again.
#[derive(Debug, Clone, Copy, PartialEq, Eq, Structural)]
pub struct DelayedChunkInfo {
    pub chunk: FailedChunkInfo,
    /// When it goes back among the retries.
    pub retry_at: u64,
}

/// Keeps the ranges that failed, and counts how often they did.
#[derive(Debug)]
pub struct RetryHandler {
    pub retry_queue: VecDeque<FailedChunkInfo>,
    pub delayed_retry_queue: VecDeque<DelayedChunkInfo>,
    /// Failures in a row, per chunk.
    pub retry_attempts: HashMap<ChunkId, u32>,
    /// Failures in all, per chunk.
    pub total_attempts: HashMap<ChunkId, u32>,
    pub permanent_failures: Vec<FailedChunkInfo>,
    pub last_failure_time: Option<u64>,
}

/// The handler's state in mathematical terms.
#[verifier::ext_equal]
pub struct RetryModel {
    pub retry: Seq<FailedChunkInfo>,
    pub delayed: Seq<DelayedChunkInfo>,
    /// Failures in a row, per chunk.
    pub in_row: Map<ChunkId, u32>,
    /// Failures in all, per chunk.
    pub in_all: Map<ChunkId, u32>,
    pub lost: Seq<FailedChunkInfo>,
    pub last_failure: Option<u64>,
}

/// What is decided if chunk `id` fails now.
pub open spec fn course_for(m: RetryModel, id: ChunkId, error: Seq<char>) -> FailureCourse {
    course(count_of(m.in_row, id), count_of(m.in_all, id), is_writer_error(error))
}

/// What is decided on a failure.
#[derive(Debug, Clone, Copy, PartialEq, Eq, Structural)]
pub enum FailureCourse {
    /// The local file cannot be written: no retry can help.
    WriterLost,
    /// The chunk failed too often.
    GivenUp,
    /// The chunk is tried again after the short delay.
    RetrySoon,
    /// The chunk is tried again after the long delay.
    RetryLater,
}

/// An error of the local writer.
pub open spec fn is_writer_error(error: Seq<char>) -> bool {
    ||| text::has_part(error, "写入通道已关闭"@)
    ||| text::has_part(error, "writer closed"@)
    ||| text::has_part(error, "BrokenPipe"@)
    ||| text::has_part(error, "os error 5"@)
}

/// Whether an error is one of the local writer.
pub fn writer_error(error: &str) -> (r: bool)
    ensures
        r == is_writer_error(error@),
{
    contains_text(error, "写入通道已关闭") || contains_text(error, "writer closed")
        || contains_text(error, "BrokenPipe") || contains_text(error, "os error 5")
}

/// A counter, 0 where none was started.
pub open spec fn count_of(m: Map<ChunkId, u32>, id: ChunkId) -> u32 {
    if m.contains_key(id) {
        m[id]
    } else {
        0
    }
}

/// The next value of a counter.
pub open spec fn next_count(n: u32) -> u32 {
    if n < u32::MAX {
        (n + 1) as u32
    } else {
        n
    }
}

/// What is decided on a failure of a chunk that failed `row` times in a row and `total` times in
/// all before.
pub open spec fn course(row: u32, total: u32, writer_lost: bool) -> FailureCourse {
    if writer_lost {
        FailureCourse::WriterLost
    } else if next_count(total) > MAX_TOTAL_ATTEMPTS {
        FailureCourse::GivenUp
    } else if next_count(row) <= MAX_RETRIES {
        FailureCourse::RetrySoon
    } else {
        FailureCourse::RetryLater
    }
}

/// The failure belongs to a batch.
pub open spec fn in_batch(last: Option<u64>, waiting: int, now: u64) -> bool {
    last matches Some(t) && now - t < BATCH_WINDOW && waiting >= BATCH_SIZE
}

/// When a retry may start: after the delay, and later within a batch.
pub open spec fn ready_time(last: Option<u64>, waiting: int, now: u64) -> u64 {
    state::capped(
        now + RETRY_DELAY + if in_batch(last, waiting, now) {
            BATCH_BACKOFF * (waiting + 1)
        } else {
            0
        },
    )
}

/// The message that goes with a decision.
pub open spec fn course_text(c: FailureCourse, row: u32, error: Seq<char>) -> Seq<char> {
    match c {
        FailureCourse::WriterLost => "本地写入失败，终止重试: "@ + error,
        FailureCourse::GivenUp => "永久失败，已重试 30 次: "@ + error,
        FailureCourse::RetrySoon => "将进行第 "@ + text::digits(row as nat) + " 次重试 (共 10 次)"@,
        FailureCourse::RetryLater => "将在 10s 后重试"@,
    }
}

/// The status code that goes with a decision.
pub open spec fn course_status(c: FailureCourse) -> u8 {
    match c {
        FailureCourse::WriterLost => 5,
        FailureCourse::GivenUp => 5,
        FailureCourse::RetrySoon => 2,
        FailureCourse::RetryLater => 3,
    }
}

/// The report of a decision.
pub open spec fn failure_notice(m: RetryModel, id: ChunkId, error: Seq<char>) -> InfoView {
    InfoView::ChunkStatusChanged {
        id,
        status: course_status(course_for(m, id, error)),
        message: Some(
            course_text(course_for(m, id, error), next_count(count_of(m.in_row, id)), error),
        ),
    }
}

impl RetryHandler {
    /// The handler in mathematical terms.
    pub open spec fn model(self) -> RetryModel {
        RetryModel {
            retry: self.retry_queue@,
            delayed: self.delayed_retry_queue@,
            in_row: self.retry_attempts@,
            in_all: self.total_attempts@,
            lost: self.permanent_failures@,
            last_failure: self.last_failure_time,
        }
    }

    /// Nothing failed yet.
    pub fn new() -> (r: Self)
        ensures
            r.retry_queue@ == Seq::<FailedChunkInfo>::empty(),
            r.delayed_retry_queue@ == Seq::<DelayedChunkInfo>::empty(),
            r.retry_attempts@ == Map::<ChunkId, u32>::empty(),
            r.total_attempts@ == Map::<ChunkId, u32>::empty(),
            r.permanent_failures@ == Seq::<FailedChunkInfo>::empty(),
            r.last_failure_time is None,
    {
        RetryHandler {
            retry_queue: VecDeque::new(),
            delayed_retry_queue: VecDeque::new(),
            retry_attempts: HashMap::new(),
            total_attempts: HashMap::new(),
            permanent_failures: Vec::new(),
            last_failure_time: None,
        }
    }

    /// The number of waiting retries.
    pub fn retry_queue_len(&self) -> (r: usize)
        ensures
            r == self.retry_queue@.len(),
    {
        self.retry_queue.len()
    }

    /// The number of retries that wait longer.
    pub fn delayed_queue_len(&self) -> (r: usize)
        ensures
            r == self.delayed_retry_queue@.len(),
    {
        self.delayed_retry_queue.len()
    }

    /// Takes a failed chunk out of the download's state, accounts for what it received, and decides
    /// what happens to the rest, `start..=end`. Gives the report of that decision.
    pub fn on_chunk_failed(
        &mut self,
        id: ChunkId,
        start: u64,
        end: u64,
        error: &str,
        state: &mut DownloadState,
        now: u64,
    ) -> (r: DownloadInfo)
        ensures
            final(state).model() =~= old(state).model().failed_at(id, start),
            final(self).model() =~= failure_model(old(self).model(), id, start, end, error@, now),
            r@ == failure_notice(old(self).model(), id, error@),
    {
        let known: Option<u64> = match state.chunks.get(id) {
            Some(c) => Some(start.saturating_sub(c.start_byte)),
            None => None,
        };
        match known {
            Some(exact) => state.preserve_partial_exact(id, exact),
            None => state.preserve_partial(id),
        }
        let _ = state.chunks.remove(id);

        let row_before: u32 = match self.retry_attempts.get(&id) {
            Some(n) => *n,
            None => 0,
        };
        let total_before: u32 = match self.total_attempts.get(&id) {
            Some(n) => *n,
            None => 0,
        };
        let total: u32 = total_before.saturating_add(1);
        if writer_error(error) {
            self.permanent_failures.push(
                FailedChunkInfo { id, start, end, ready_at: now, attempts: total },
            );
            let _ = self.retry_attempts.remove(&id);
            return DownloadInfo::ChunkStatusChanged {
                id,
                status: 5,
                message: Some(joined("本地写入失败，终止重试: ", error)),
            };
        }
        let _ = self.total_attempts.insert(id, total);
        if total > MAX_TOTAL_ATTEMPTS {
            self.permanent_failures.push(
                FailedChunkInfo { id, start, end, ready_at: now, attempts: total },
            );
            let _ = self.retry_attempts.remove(&id);
            return DownloadInfo::ChunkStatusChanged {
                id,
                status: 5,
                message: Some(joined("永久失败，已重试 30 次: ", error)),
            };
        }
        let attempts: u32 = row_before.saturating_add(1);
        let waiting: usize = self.retry_queue.len();
        let batch: bool = match self.last_failure_time {
            Some(t) => now.saturating_sub(t) < BATCH_WINDOW && waiting >= BATCH_SIZE,
            None => false,
        };
        let ready_at: u64 = later(now, waiting, batch);
        self.last_failure_time = Some(now);
        if attempts <= MAX_RETRIES {
            let _ = self.retry_attempts.insert(id, attempts);
            self.retry_queue.push_back(FailedChunkInfo { id, start, end, ready_at, attempts });
            let mut m: String = String::new();
            push_text(&mut m, "将进行第 ");
            push_number(&mut m, attempts as u64);
            push_text(&mut m, " 次重试 (共 10 次)");
            assert(m@ =~= "将进行第 "@ + text::digits(attempts as nat) + " 次重试 (共 10 次)"@);
            DownloadInfo::ChunkStatusChanged { id, status: 2, message: Some(m) }
        } else {
            self.delayed_retry_queue.push_back(
                DelayedChunkInfo {
                    chunk: FailedChunkInfo { id, start, end, ready_at: now, attempts },
                    retry_at: now.saturating_add(DELAYED_RETRY_DURATION),
                },
            );
            let _ = self.retry_attempts.remove(&id);
            DownloadInfo::ChunkStatusChanged {
                id,
                status: 3,
                message: Some("将在 10s 后重试".to_owned()),
            }
        }
    }
}

/// When a retry may start.
fn later(now: u64, waiting: usize, batch: bool) -> (r: u64)
    ensures
        r == state::capped(
            now + RETRY_DELAY + if batch {
                BATCH_BACKOFF * (waiting + 1)
            } else {
                0
            },
        ),
{
    let extra: u128 = if batch {
        (BATCH_BACKOFF as u128) * (waiting as u128 + 1)
    } else {
        0
    };
    let sum: u128 = (now as u128) + (RETRY_DELAY as u128) + extra;
    if sum <= u64::MAX as u128 {
        sum as u64
    } else {
        u64::MAX
    }
}

/// The handler after a failure of chunk `id` that leaves `start..=end`.
pub open spec fn failure_model(
    m: RetryModel,
    id: ChunkId,
    start: u64,
    end: u64,
    error: Seq<char>,
    now: u64,
) -> RetryModel {
    let row = next_count(count_of(m.in_row, id));
    let total = next_count(count_of(m.in_all, id));
    let lost = FailedChunkInfo { id, start, end, ready_at: now, attempts: total };
    match course_for(m, id, error) {
        FailureCourse::WriterLost => RetryModel {
            in_row: m.in_row.remove(id),
            lost: m.lost.push(lost),
            ..m
        },
        FailureCourse::GivenUp => RetryModel {
            in_row: m.in_row.remove(id),
            in_all: m.in_all.insert(id, total),
            lost: m.lost.push(lost),
            ..m
        },
        FailureCourse::RetrySoon => RetryModel {
            retry: m.retry.push(
                FailedChunkInfo {
                    id,
                    start,
                    end,
                    ready_at: ready_time(m.last_failure, m.retry.len() as int, now),
                    attempts: row,
                },
            ),
            in_row: m.in_row.insert(id, row),
            in_all: m.in_all.insert(id, total),
            last_failure: Some(now),
            ..m
        },
        FailureCourse::RetryLater => RetryModel {
            delayed: m.delayed.push(
                DelayedChunkInfo {
                    chunk: FailedChunkInfo { id, start, end, ready_at: now, attempts: row },
                    retry_at: state::capped(now + DELAYED_RETRY_DURATION),
                },
            ),
            in_row: m.in_row.remove(id),
            in_all: m.in_all.insert(id, total),
            last_failure: Some(now),
            ..m
        },
    }
}

/// A range back among the retries, ready at once and with its count started anew.
pub open spec fn revived(c: FailedChunkInfo, now: u64) -> FailedChunkInfo {
    FailedChunkInfo { ready_at: now, attempts: 0, ..c }
}

/// The ranges of a delayed queue, revived.
pub open spec fn all_revived(s: Seq<DelayedChunkInfo>, now: u64) -> Seq<FailedChunkInfo> {
    Seq::new(s.len(), |i: int| revived(s[i].chunk, now))
}

/// How many of the front entries are due.
pub open spec fn due_count(s: Seq<DelayedChunkInfo>, now: u64) -> int
    decreases s.len(),
{
    if s.len() == 0 || s[0].retry_at > now {
        0
    } else {
        1 + due_count(s.skip(1), now)
    }
}

/// The delayed ranges that are due are back among the retries.
pub open spec fn processed(m: RetryModel, now: u64) -> RetryModel {
    let n = due_count(m.delayed, now);
    RetryModel {
        retry: m.retry + all_revived(m.delayed.take(n), now),
        delayed: m.delayed.skip(n),
        ..m
    }
}

/// The counts of chunk `id` are forgotten.
pub open spec fn forgotten(m: RetryModel, id: ChunkId) -> RetryModel {
    RetryModel { in_row: m.in_row.remove(id), in_all: m.in_all.remove(id), ..m }
}

/// The place of the first retry that is ready, or -1.
pub open spec fn ready_place(s: Seq<FailedChunkInfo>, now: u64) -> int
    decreases s.len(),
{
    if s.len() == 0 {
        -1
    } else if ready_place(s.drop_last(), now) >= 0 {
        ready_place(s.drop_last(), now)
    } else if s.last().ready_at <= now {
        s.len() - 1
    } else {
        -1
    }
}

/// Where `ready_place` points a retry is ready, and none before it is.
pub proof fn lemma_ready_place(s: Seq<FailedChunkInfo>, now: u64)
    ensures
        -1 <= ready_place(s, now) < s.len(),
        ready_place(s, now) >= 0 ==> s[ready_place(s, now)].ready_at <= now,
        forall|i: int|
            0 <= i < s.len() && (ready_place(s, now) < 0 || i < ready_place(s, now)) ==> (
            #[trigger] s[i]).ready_at > now,
    decreases s.len(),
{
    if s.len() > 0 {
        lemma_ready_place(s.drop_last(), now);
        assert forall|i: int|
            0 <= i < s.len() && (ready_place(s, now) < 0 || i < ready_place(s, now)) implies (
        #[trigger] s[i]).ready_at > now by {
            if i < s.len() - 1 {
                assert(s.drop_last()[i] == s[i]);
            }
        }
    }
}

/// The range is not empty.
pub open spec fn sound(c: FailedChunkInfo) -> bool {
    c.start <= c.end
}

/// Two retries are merged: they are adjacent, both are small, and the sum is not too large.
pub open spec fn mergeable(a: FailedChunkInfo, b: FailedChunkInfo) -> bool {
    &&& a.end + 1 == b.start
    &&& chunk::span(a.start, a.end) < FRAGMENT_SIZE && chunk::span(b.start, b.end) < FRAGMENT_SIZE
    &&& chunk::span(a.start, a.end) + chunk::span(b.start, b.end) <= MERGED_LIMIT
}

/// The merged retry: it keeps the first id, the higher count and the earlier time.
pub open spec fn merge(a: FailedChunkInfo, b: FailedChunkInfo) -> FailedChunkInfo {
    FailedChunkInfo {
        end: b.end,
        attempts: if a.attempts >= b.attempts {
            a.attempts
        } else {
            b.attempts
        },
        ready_at: if b.ready_at < a.ready_at {
            b.ready_at
        } else {
            a.ready_at
        },
        ..a
    }
}

/// `c` put into a queue behind everything that starts no later.
pub open spec fn inserted(s: Seq<FailedChunkInfo>, c: FailedChunkInfo) -> Seq<FailedChunkInfo>
    decreases s.len(),
{
    if s.len() == 0 || s.last().start <= c.start {
        s.push(c)
    } else {
        inserted(s.drop_last(), c).push(s.last())
    }
}

/// A queue in the order of the ranges' starts; ranges with equal starts keep their order.
pub open spec fn by_start(s: Seq<FailedChunkInfo>) -> Seq<FailedChunkInfo>
    decreases s.len(),
{
    if s.len() == 0 {
        s
    } else {
        inserted(by_start(s.drop_last()), s.last())
    }
}

/// A queue in which neighbours were merged from front to back.
pub open spec fn fused(s: Seq<FailedChunkInfo>) -> Seq<FailedChunkInfo>
    decreases s.len(),
{
    if s.len() == 0 {
        s
    } else {
        let m = fused(s.drop_last());
        if m.len() > 0 && mergeable(m.last(), s.last()) {
            m.drop_last().push(merge(m.last(), s.last()))
        } else {
            m.push(s.last())
        }
    }
}

/// `inserted` is an insertion at the place behind the last range that starts no later.
proof fn lemma_inserted(s: Seq<FailedChunkInfo>, c: FailedChunkInfo, p: int)
    requires
        0 <= p <= s.len(),
        p > 0 ==> s[p - 1].start <= c.start,
        forall|i: int| p <= i < s.len() ==> (#[trigger] s[i]).start > c.start,
    ensures
        inserted(s, c) == s.insert(p, c),
    decreases s.len(),
{
    if p == s.len() {
        assert(s.insert(p, c) =~= s.push(c));
    } else {
        assert(s.last() == s[s.len() - 1]);
        assert forall|i: int| p <= i < s.len() - 1 implies (#[trigger] s.drop_last()[i]).start
            > c.start by {
            assert(s.drop_last()[i] == s[i]);
        }
        lemma_inserted(s.drop_last(), c, p);
        assert(s.insert(p, c) =~= s.drop_last().insert(p, c).push(s.last()));
    }
}

impl RetryHandler {
    /// Moves the delayed ranges that are due back among the retries.
    pub fn process_queues(&mut self, now: u64)
        ensures
            final(self).model() =~= processed(old(self).model(), now),
    {
        let ghost d0 = self.delayed_retry_queue@;
        let ghost q0 = self.retry_queue@;
        let ghost mut n: int = 0;
        assert(d0.skip(0) =~= d0);
        assert(q0 + all_revived(d0.take(0), now) =~= q0);
        while self.delayed_retry_queue.len() > 0 && self.delayed_retry_queue[0].retry_at <= now
            invariant
                0 <= n <= d0.len(),
                self.delayed_retry_queue@ == d0.skip(n),
                self.retry_queue@ == q0 + all_revived(d0.take(n), now),
                due_count(d0, now) == n + due_count(d0.skip(n), now),
                self.retry_attempts@ == old(self).retry_attempts@,
                self.total_attempts@ == old(self).total_attempts@,
                self.permanent_failures@ == old(self).permanent_failures@,
                self.last_failure_time == old(self).last_failure_time,
            decreases self.delayed_retry_queue@.len(),
        {
            if let Some(d) = self.delayed_retry_queue.pop_front() {
                let mut c: FailedChunkInfo = d.chunk;
                c.ready_at = now;
                c.attempts = 0;
                self.retry_queue.push_back(c);
                proof {
                    assert(d == d0[n]);
                    assert(d0.skip(n).skip(1) =~= d0.skip(n + 1));
                    assert(all_revived(d0.take(n + 1), now) =~= all_revived(d0.take(n), now).push(
                        c,
                    ));
                    assert(self.delayed_retry_queue@ =~= d0.skip(n + 1));
                    n = n + 1;
                }
            }
        }
    }

    /// Moves all delayed ranges back among the retries, due or not.
    pub fn force_drain_delayed(&mut self, now: u64)
        ensures
            final(self).model() =~= (RetryModel {
                retry: old(self).model().retry + all_revived(old(self).model().delayed, now),
                delayed: Seq::empty(),
                ..old(self).model()
            }),
    {
        let ghost d0 = self.delayed_retry_queue@;
        let ghost q0 = self.retry_queue@;
        let ghost mut n: int = 0;
        assert(d0.skip(0) =~= d0);
        assert(q0 + all_revived(d0.take(0), now) =~= q0);
        while self.delayed_retry_queue.len() > 0
            invariant
                0 <= n <= d0.len(),
                self.delayed_retry_queue@ == d0.skip(n),
                self.retry_queue@ == q0 + all_revived(d0.take(n), now),
                self.retry_attempts@ == old(self).retry_attempts@,
                self.total_attempts@ == old(self).total_attempts@,
                self.permanent_failures@ == old(self).permanent_failures@,
                self.last_failure_time == old(self).last_failure_time,
            decreases self.delayed_retry_queue@.len(),
        {
            if let Some(d) = self.delayed_retry_queue.pop_front() {
                let mut c: FailedChunkInfo = d.chunk;
                c.ready_at = now;
                c.attempts = 0;
                self.retry_queue.push_back(c);
                proof {
                    assert(d == d0[n]);
                    assert(all_revived(d0.take(n + 1), now) =~= all_revived(d0.take(n), now).push(
                        c,
                    ));
                    assert(self.delayed_retry_queue@ =~= d0.skip(n + 1));
                    n = n + 1;
                }
            }
        }
        assert(d0.take(n) =~= d0);
        assert(self.delayed_retry_queue@ =~= Seq::<DelayedChunkInfo>::empty());
    }

    /// Orders the waiting retries by their starts and merges small neighbours.
    pub fn coalesce_small_fragments(&mut self)
        ensures
            final(self).model() =~= (RetryModel {
                retry: fused(by_start(old(self).model().retry)),
                ..old(self).model()
            }),
    {
        let ghost q0 = self.retry_queue@;
        let count: usize = self.retry_queue.len();
        let mut sorted: Vec<FailedChunkInfo> = Vec::new();
        let mut i: usize = 0;
        assert(by_start(q0.take(0)) =~= Seq::<FailedChunkInfo>::empty());
        while i < count
            invariant
                i <= count,
                count == q0.len(),
                self.retry_queue@ == q0,
                sorted@ == by_start(q0.take(i as int)),
            decreases count - i,
        {
            let c: FailedChunkInfo = self.retry_queue[i];
            let mut p: usize = sorted.len();
            while p > 0 && sorted[p - 1].start > c.start
                invariant
                    p <= sorted@.len(),
                    forall|k: int| p <= k < sorted@.len() ==> (#[trigger] sorted@[k]).start
                        > c.start,
                decreases p,
            {
                p = p - 1;
            }
            proof {
                lemma_inserted(sorted@, c, p as int);
                assert(q0.take(i + 1).drop_last() =~= q0.take(i as int));
            }
            sorted.insert(p, c);
            i = i + 1;
        }
        assert(q0.take(i as int) =~= q0);
        let mut merged: VecDeque<FailedChunkInfo> = VecDeque::new();
        let mut j: usize = 0;
        assert(fused(sorted@.take(0)) =~= Seq::<FailedChunkInfo>::empty());
        while j < sorted.len()
            invariant
                j <= sorted@.len(),
                merged@ == fused(sorted@.take(j as int)),
            decreases sorted.len() - j,
        {
            let c: FailedChunkInfo = sorted[j];
            assert(sorted@.take(j + 1).drop_last() =~= sorted@.take(j as int));
            let mut whole: FailedChunkInfo = c;
            if merged.len() > 0 {
                let last: FailedChunkInfo = merged[merged.len() - 1];
                let last_size: u64 = span_len(last.start, last.end);
                let size: u64 = span_len(c.start, c.end);
                if last.end < u64::MAX && last.end + 1 == c.start && last_size < FRAGMENT_SIZE && size
                    < FRAGMENT_SIZE && last_size + size <= MERGED_LIMIT {
                    let _ = merged.pop_back();
                    whole = FailedChunkInfo {
                        id: last.id,
                        start: last.start,
                        end: c.end,
                        ready_at: if c.ready_at < last.ready_at {
                            c.ready_at
                        } else {
                            last.ready_at
                        },
                        attempts: if last.attempts >= c.attempts {
                            last.attempts
                        } else {
                            c.attempts
                        },
                    };
                }
            }
            merged.push_back(whole);
            j = j + 1;
        }
        assert(sorted@.take(j as int) =~= sorted@);
        self.retry_queue = merged;
    }

    /// Takes the first waiting retry, ready or not.
    pub fn pop_ready_chunk_starved(&mut self) -> (r: Option<FailedChunkInfo>)
        ensures
            r == (if old(self).model().retry.len() > 0 {
                Some(old(self).model().retry[0])
            } else {
                None
            }),
            final(self).model() =~= (if old(self).model().retry.len() > 0 {
                RetryModel { retry: old(self).model().retry.skip(1), ..old(self).model() }
            } else {
                old(self).model()
            }),
    {
        let r = self.retry_queue.pop_front();
        assert(old(self).retry_queue@.len() > 0 ==> self.retry_queue@
            =~= old(self).retry_queue@.skip(1));
        r
    }

    /// Takes the first retry that is ready, also from behind others that are not.
    pub fn pop_ready_chunk(&mut self, now: u64) -> (r: Option<FailedChunkInfo>)
        ensures
            ({
                let m = old(self).model();
                let p = ready_place(m.retry, now);
                if p >= 0 {
                    &&& r == Some(m.retry[p])
                    &&& final(self).model() =~= (RetryModel { retry: m.retry.remove(p), ..m })
                } else {
                    r is None && final(self).model() =~= m
                }
            }),
    {
        let mut i: usize = 0;
        proof {
            lemma_ready_place(self.retry_queue@, now);
        }
        while i < self.retry_queue.len()
            invariant
                i <= self.retry_queue@.len(),
                *self == *old(self),
                ready_place(self.retry_queue@, now) < 0 || i <= ready_place(self.retry_queue@, now),
                ready_place(self.retry_queue@, now) >= 0 ==> self.retry_queue@[ready_place(
                    self.retry_queue@,
                    now,
                )].ready_at <= now,
                forall|k: int|
                    0 <= k < self.retry_queue@.len() && (ready_place(self.retry_queue@, now) < 0
                        || k < ready_place(self.retry_queue@, now)) ==> (
                    #[trigger] self.retry_queue@[k]).ready_at > now,
                ready_place(self.retry_queue@, now) < self.retry_queue@.len(),
            decreases self.retry_queue@.len() - i,
        {
            if self.retry_queue[i].ready_at <= now {
                return self.retry_queue.remove(i);
            }
            i = i + 1;
        }
        None
    }

    /// Puts a retry before all others.
    pub fn push_front_retry(&mut self, chunk: FailedChunkInfo)
        ensures
            final(self).model() =~= (RetryModel {
                retry: seq![chunk] + old(self).model().retry,
                ..old(self).model()
            }),
    {
        self.retry_queue.push_front(chunk);
    }

    /// Puts a retry behind all others.
    pub fn push_back_retry(&mut self, chunk: FailedChunkInfo)
        ensures
            final(self).model() =~= (RetryModel {
                retry: old(self).model().retry.push(chunk),
                ..old(self).model()
            }),
    {
        self.retry_queue.push_back(chunk);
    }

    /// Puts a retry behind all others and has it wait anew.
    pub fn push_back_retry_with_backoff(&mut self, chunk: FailedChunkInfo, now: u64)
        ensures
            final(self).model() =~= (RetryModel {
                retry: old(self).model().retry.push(put_off(chunk, now)),
                ..old(self).model()
            }),
    {
        let mut c: FailedChunkInfo = chunk;
        c.ready_at = now.saturating_add(RETRY_DELAY);
        self.retry_queue.push_back(c);
    }

    /// Forgets the counts of a chunk that completed.
    pub fn on_download_complete(&mut self, id: &ChunkId)
        ensures
            final(self).model() =~= forgotten(old(self).model(), *id),
    {
        let _ = self.retry_attempts.remove(id);
        let _ = self.total_attempts.remove(id);
    }

    /// Whether no range waits for a retry.
    pub fn are_all_tasks_done(&self) -> (r: bool)
        ensures
            r == (self.retry_queue@.len() == 0 && self.delayed_retry_queue@.len() == 0),
    {
        self.retry_queue.len() == 0 && self.delayed_retry_queue.len() == 0
    }

    /// Whether some range failed for good.
    pub fn has_permanent_failure(&self) -> (r: bool)
        ensures
            r == (self.permanent_failures@.len() > 0),
    {
        self.permanent_failures.len() > 0
    }

    /// The message about the first range that failed for good.
    pub fn permanent_failure_message(&self) -> (r: Option<String>)
        ensures
            chunk::text_of(r) == (if self.permanent_failures@.len() > 0 {
                Some(lost_text(self.permanent_failures@[0]))
            } else {
                None
            }),
    {
        if self.permanent_failures.len() == 0 {
            return None;
        }
        let f: FailedChunkInfo = self.permanent_failures[0];
        let mut m: String = String::new();
        push_text(&mut m, "块 ");
        push_number(&mut m, f.id);
        push_text(&mut m, " 区间 ");
        push_number(&mut m, f.start);
        push_text(&mut m, "-");
        push_number(&mut m, f.end);
        push_text(&mut m, " 永久失败，已重试 ");
        push_number(&mut m, f.attempts as u64);
        push_text(&mut m, " 次");
        assert(m@ =~= lost_text(f));
        Some(m)
    }

    /// How often a chunk failed in all.
    pub fn total_attempts_for_test(&self, id: ChunkId) -> (r: u32)
        ensures
            r == count_of(self.total_attempts@, id),
    {
        match self.total_attempts.get(&id) {
            Some(n) => *n,
            None => 0,
        }
    }
}

/// A retry that waits anew.
pub open spec fn put_off(c: FailedChunkInfo, now: u64) -> FailedChunkInfo {
    FailedChunkInfo { ready_at: state::capped(now + RETRY_DELAY), ..c }
}

/// The message about a range that failed for good.
pub open spec fn lost_text(f: FailedChunkInfo) -> Seq<char> {
    "块 "@ + text::digits(f.id as nat) + " 区间 "@ + text::digits(f.start as nat) + "-"@
        + text::digits(f.end as nat) + " 永久失败，已重试 "@ + text::digits(f.attempts as nat)
        + " 次"@
}

/// How often the byte `x` is covered by the ranges of a queue.
pub open spec fn cover_count(s: Seq<FailedChunkInfo>, x: u64) -> int
    decreases s.len(),
{
    if s.len() == 0 {
        0
    } else {
        cover_count(s.drop_last(), x) + if s.last().start <= x <= s.last().end {
            1int
        } else {
            0
        }
    }
}

/// The ranges of a delayed queue.
pub open spec fn delayed_ranges(s: Seq<DelayedChunkInfo>) -> Seq<FailedChunkInfo> {
    Seq::new(s.len(), |i: int| s[i].chunk)
}

/// Every range of the queue is sound.
pub open spec fn all_sound(s: Seq<FailedChunkInfo>) -> bool {
    forall|i: int| 0 <= i < s.len() ==> sound(#[trigger] s[i])
}

proof fn lemma_inserted_count(s: Seq<FailedChunkInfo>, c: FailedChunkInfo, x: u64)
    ensures
        cover_count(inserted(s, c), x) == cover_count(s, x) + if c.start <= x <= c.end {
            1int
        } else {
            0
        },
        all_sound(s) && sound(c) ==> all_sound(inserted(s, c)),
    decreases s.len(),
{
    if s.len() == 0 || s.last().start <= c.start {
        assert(s.push(c).drop_last() =~= s);
    } else {
        let rest = inserted(s.drop_last(), c);
        lemma_inserted_count(s.drop_last(), c, x);
        assert(rest.push(s.last()).drop_last() =~= rest);
        if all_sound(s) && sound(c) {
            assert(all_sound(s.drop_last())) by {
                assert forall|i: int| 0 <= i < s.len() - 1 implies sound(
                    #[trigger] s.drop_last()[i],
                ) by {
                    assert(sound(s[i]));
                }
            }
            assert(sound(s[s.len() - 1]));
        }
    }
}

proof fn lemma_by_start_count(s: Seq<FailedChunkInfo>, x: u64)
    ensures
        cover_count(by_start(s), x) == cover_count(s, x),
        all_sound(s) ==> all_sound(by_start(s)),
    decreases s.len(),
{
    if s.len() > 0 {
        lemma_by_start_count(s.drop_last(), x);
        lemma_inserted_count(by_start(s.drop_last()), s.last(), x);
        if all_sound(s) {
            assert(all_sound(s.drop_last())) by {
                assert forall|i: int| 0 <= i < s.len() - 1 implies sound(
                    #[trigger] s.drop_last()[i],
                ) by {
                    assert(sound(s[i]));
                }
            }
            assert(sound(s[s.len() - 1]));
        }
    }
}

proof fn lemma_fused_count(s: Seq<FailedChunkInfo>, x: u64)
    requires
        all_sound(s),
    ensures
        cover_count(fused(s), x) == cover_count(s, x),
        all_sound(fused(s)),
    decreases s.len(),
{
    if s.len() > 0 {
        assert(all_sound(s.drop_last())) by {
            assert forall|i: int| 0 <= i < s.len() - 1 implies sound(#[trigger] s.drop_last()[i]) by {
                assert(sound(s[i]));
            }
        }
        assert(sound(s[s.len() - 1]));
        lemma_fused_count(s.drop_last(), x);
        let m = fused(s.drop_last());
        if m.len() > 0 && mergeable(m.last(), s.last()) {
            let whole = merge(m.last(), s.last());
            assert(sound(m[m.len() - 1]));
            assert(m.drop_last().push(whole).drop_last() =~= m.drop_last());
            assert forall|i: int| 0 <= i < m.len() implies sound(
                #[trigger] m.drop_last().push(whole)[i],
            ) by {
                if i < m.len() - 1 {
                    assert(sound(m[i]));
                }
            }
        } else {
            assert(m.push(s.last()).drop_last() =~= m);
            assert forall|i: int| 0 <= i < m.len() + 1 implies sound(
                #[trigger] m.push(s.last())[i],
            ) by {
                if i < m.len() {
                    assert(sound(m[i]));
                }
            }
        }
    }
}

/// Merging small retries covers every byte exactly as often as before: no byte is dropped and none
/// is requested twice.
pub proof fn law_coalescing_keeps_every_byte(s: Seq<FailedChunkInfo>, x: u64)
    requires
        all_sound(s),
    ensures
        cover_count(fused(by_start(s)), x) == cover_count(s, x),
        all_sound(fused(by_start(s))),
{
    lemma_by_start_count(s, x);
    lemma_fused_count(by_start(s), x);
}

/// The starts of a queue's ranges do not fall.
pub open spec fn in_start_order(s: Seq<FailedChunkInfo>) -> bool {
    forall|i: int, j: int| 0 <= i <= j < s.len() ==> s[i].start <= s[j].start
}

/// No two neighbours of a queue can be merged.
pub open spec fn settled(s: Seq<FailedChunkInfo>) -> bool {
    forall|i: int| 0 < i < s.len() ==> !mergeable(s[i - 1], #[trigger] s[i])
}

proof fn lemma_inserted_in_order(s: Seq<FailedChunkInfo>, c: FailedChunkInfo)
    requires
        in_start_order(s),
    ensures
        in_start_order(inserted(s, c)),
        inserted(s, c).len() == s.len() + 1,
        inserted(s, c).last().start == (if s.len() == 0 || s.last().start <= c.start {
            c.start
        } else {
            s.last().start
        }),
    decreases s.len(),
{
    if s.len() > 0 && s.last().start > c.start {
        lemma_inserted_in_order(s.drop_last(), c);
    }
}

proof fn lemma_by_start_in_order(s: Seq<FailedChunkInfo>)
    ensures
        in_start_order(by_start(s)),
    decreases s.len(),
{
    if s.len() > 0 {
        lemma_by_start_in_order(s.drop_last());
        lemma_inserted_in_order(by_start(s.drop_last()), s.last());
    }
}

proof fn lemma_by_start_of_ordered(s: Seq<FailedChunkInfo>)
    requires
        in_start_order(s),
    ensures
        by_start(s) == s,
    decreases s.len(),
{
    if s.len() > 0 {
        lemma_by_start_of_ordered(s.drop_last());
        assert(s.drop_last().push(s.last()) =~= s);
    }
}

proof fn lemma_fused_is_settled(s: Seq<FailedChunkInfo>)
    requires
        all_sound(s),
        in_start_order(s),
    ensures
        settled(fused(s)),
        in_start_order(fused(s)),
        s.len() > 0 ==> fused(s).len() > 0 && fused(s).last().start <= s.last().start
            && fused(s).last().end == s.last().end,
    decreases s.len(),
{
    if s.len() > 0 {
        let front = s.drop_last();
        assert(all_sound(front)) by {
            assert forall|i: int| 0 <= i < front.len() implies sound(#[trigger] front[i]) by {
                assert(sound(s[i]));
            }
        }
        assert(sound(s[s.len() - 1]));
        lemma_fused_is_settled(front);
        let m = fused(front);
        if m.len() > 0 && mergeable(m.last(), s.last()) {
            let whole = merge(m.last(), s.last());
            let f = m.drop_last().push(whole);
            assert forall|i: int| 0 < i < f.len() implies !mergeable(f[i - 1], #[trigger] f[i]) by {
                assert(!mergeable(m[i - 1], m[i]));
            }
            assert forall|i: int, j: int| 0 <= i <= j < f.len() implies f[i].start <= f[j].start by {
                assert(f[i].start == m[i].start && f[j].start == m[j].start);
            }
        } else {
            let f = m.push(s.last());
            assert forall|i: int| 0 < i < f.len() implies !mergeable(f[i - 1], #[trigger] f[i]) by {
                if i < m.len() {
                    assert(!mergeable(m[i - 1], m[i]));
                }
            }
            if m.len() > 0 {
                assert(front.len() > 0);
                assert(front.last().start <= s.last().start);
                assert forall|i: int| 0 <= i < m.len() implies (#[trigger] m[i]).start
                    <= s.last().start by {
                    assert(m[i].start <= m[m.len() - 1].start);
                }
            }
        }
    }
}

proof fn lemma_fused_of_settled(s: Seq<FailedChunkInfo>)
    requires
        settled(s),
    ensures
        fused(s) == s,
    decreases s.len(),
{
    if s.len() > 0 {
        let front = s.drop_last();
        assert forall|i: int| 0 < i < front.len() implies !mergeable(
            front[i - 1],
            #[trigger] front[i],
        ) by {
            assert(!mergeable(s[i - 1], s[i]));
        }
        lemma_fused_of_settled(front);
        if front.len() > 0 {
            assert(!mergeable(s[s.len() - 2], s[s.len() - 1]));
        }
        assert(front.push(s.last()) =~= s);
    }
}

/// Merging small retries leaves no two neighbours that could still be merged, so merging once more
/// changes nothing.
pub proof fn law_coalescing_twice_changes_nothing(s: Seq<FailedChunkInfo>)
    requires
        all_sound(s),
    ensures
        settled(fused(by_start(s))),
        fused(by_start(fused(by_start(s)))) == fused(by_start(s)),
{
    lemma_by_start_count(s, 0);
    lemma_by_start_in_order(s);
    lemma_fused_is_settled(by_start(s));
    lemma_by_start_of_ordered(fused(by_start(s)));
    lemma_fused_of_settled(fused(by_start(s)));
}

proof fn lemma_count_concat(a: Seq<FailedChunkInfo>, b: Seq<FailedChunkInfo>, x: u64)
    ensures
        cover_count(a + b, x) == cover_count(a, x) + cover_count(b, x),
    decreases b.len(),
{
    if b.len() == 0 {
        assert(a + b =~= a);
    } else {
        lemma_count_concat(a, b.drop_last(), x);
        assert((a + b).drop_last() =~= a + b.drop_last());
    }
}

proof fn lemma_revived_count(d: Seq<DelayedChunkInfo>, now: u64, x: u64)
    ensures
        cover_count(all_revived(d, now), x) == cover_count(delayed_ranges(d), x),
    decreases d.len(),
{
    if d.len() > 0 {
        lemma_revived_count(d.drop_last(), now, x);
        assert(all_revived(d, now).drop_last() =~= all_revived(d.drop_last(), now));
        assert(delayed_ranges(d).drop_last() =~= delayed_ranges(d.drop_last()));
    }
}

/// Moving delayed ranges back among the retries covers every byte exactly as often as before,
/// however many of them are moved.
pub proof fn law_moving_keeps_every_byte(
    q: Seq<FailedChunkInfo>,
    d: Seq<DelayedChunkInfo>,
    n: int,
    now: u64,
    x: u64,
)
    requires
        0 <= n <= d.len(),
    ensures
        cover_count(q + all_revived(d.take(n), now), x) + cover_count(delayed_ranges(d.skip(n)), x)
            == cover_count(q, x) + cover_count(delayed_ranges(d), x),
{
    lemma_count_concat(q, all_revived(d.take(n), now), x);
    lemma_revived_count(d.take(n), now, x);
    lemma_count_concat(delayed_ranges(d.take(n)), delayed_ranges(d.skip(n)), x);
    assert(delayed_ranges(d) =~= delayed_ranges(d.take(n)) + delayed_ranges(d.skip(n)));
}

/// A delayed queue in the order of its times gives up every range that is due.
pub proof fn law_every_due_range_is_moved(d: Seq<DelayedChunkInfo>, now: u64)
    requires
        forall|i: int, j: int| 0 <= i <= j < d.len() ==> d[i].retry_at <= d[j].retry_at,
    ensures
        0 <= due_count(d, now) <= d.len(),
        forall|i: int|
            0 <= i < d.len() ==> ((#[trigger] d[i]).retry_at <= now <==> i < due_count(d, now)),
    decreases d.len(),
{
    if d.len() > 0 && d[0].retry_at <= now {
        let rest = d.skip(1);
        assert forall|i: int, j: int| 0 <= i <= j < rest.len() implies rest[i].retry_at
            <= rest[j].retry_at by {
            assert(rest[i] == d[i + 1] && rest[j] == d[j + 1]);
        }
        law_every_due_range_is_moved(rest, now);
        assert forall|i: int| 0 <= i < d.len() implies ((#[trigger] d[i]).retry_at <= now <==> i
            < due_count(d, now)) by {
            if i > 0 {
                assert(d[i] == rest[i - 1]);
            }
        }
    }
}

/// The two counters of a chunk after `n` failures that are not the writer's: failures in a row and
/// failures in all.
pub open spec fn tally(n: nat) -> (u32, u32)
    decreases n,
{
    if n == 0 {
        (0, 0)
    } else {
        let (row, total) = tally((n - 1) as nat);
        match course(row, total, false) {
            FailureCourse::RetrySoon => (next_count(row), next_count(total)),
            _ => (0, next_count(total)),
        }
    }
}

proof fn lemma_tally(n: nat)
    requires
        n <= 30,
    ensures
        tally(n) == (((n % 11) as u32), (n as u32)),
    decreases n,
{
    if n > 0 {
        lemma_tally((n - 1) as nat);
        if n % 11 == 0 {
            assert((n - 1) % 11 == 10);
        } else {
            assert((n - 1) % 11 == n % 11 - 1);
        }
    }
}

/// The course of a chunk that keeps failing: ten retries after the short delay, then one after the
/// long delay, and so on; the thirty-first failure is final.
pub proof fn law_retry_schedule(n: nat)
    requires
        1 <= n <= 31,
    ensures
        ({
            let (row, total) = tally((n - 1) as nat);
            course(row, total, false) == (if n == 31 {
                FailureCourse::GivenUp
            } else if n % 11 == 0 {
                FailureCourse::RetryLater
            } else {
                FailureCourse::RetrySoon
            })
        }),
{
    lemma_tally((n - 1) as nat);
    if n % 11 == 0 {
        assert((n - 1) % 11 == 10);
    } else {
        assert((n - 1) % 11 == n % 11 - 1);
    }
}

/// Joined ranges are in the order of their starts.
pub proof fn lemma_coalesced_in_order(s: Seq<FailedChunkInfo>)
    requires
        all_sound(s),
    ensures
        in_start_order(fused(by_start(s))),
{
    lemma_by_start_count(s, 0);
    lemma_by_start_in_order(s);
    lemma_fused_is_settled(by_start(s));
}

} // verus!
