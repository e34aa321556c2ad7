//! What is known of a running download: its active chunks and the bytes already accounted for.

use crate::chunk;
use crate::chunk::span_len;
use crate::types::ChunkId;
use vstd::prelude::*;

verus! {

/// Speed samples taken over less than this many nanoseconds are ignored.
pub const MIN_SPEED_WINDOW: u64 = 50_000_000;

/// No chunk counts as faster than 200 MiB/s, in thousandths of a byte per second.
pub const MAX_CHUNK_SPEED: u64 = 209_715_200_000;

/// The state of one active chunk. Times are in nanoseconds, the speed is in thousandths of a byte
/// per second.
#[derive(Debug, Clone)]
pub struct ChunkState {
    pub id: ChunkId,
    pub start_byte: u64,
    /// The last byte of the range, as the chunk last reported it.
    pub end_byte: u64,
    /// The last byte that the chunk kept when it was split; the largest value if it was not.
    pub kept_end: u64,
    pub downloaded_bytes: u64,
    /// `downloaded_bytes` at the last speed sample.
    pub last_sampled_bytes: u64,
    /// The smoothed speed.
    pub speed: u64,
    /// The status code; see `DownloadInfo`.
    pub status: u8,
    pub status_message: Option<String>,
    pub status_changed_at: u64,
    /// When `downloaded_bytes` last grew.
    pub last_progress_at: u64,
}

/// The speed of `bytes` within `elapsed` nanoseconds, capped at `MAX_CHUNK_SPEED`.
pub open spec fn instant_speed(bytes: int, elapsed: int) -> int {
    let v = bytes * 1_000_000_000_000 / elapsed;
    if v <= MAX_CHUNK_SPEED {
        v
    } else {
        MAX_CHUNK_SPEED as int
    }
}

/// The next smoothed speed: `percent` of the new sample and the rest of the old value. The first
/// sample is smoothed against 0.
pub open spec fn smoothed(old_speed: int, sample: int, percent: int) -> int {
    (sample * percent + old_speed * (100 - percent)) / 100
}

/// A chunk after a speed sample.
pub open spec fn sampled(c: ChunkState, elapsed: u64, percent: u64) -> ChunkState {
    if elapsed < MIN_SPEED_WINDOW {
        c
    } else if c.downloaded_bytes <= c.last_sampled_bytes {
        ChunkState { last_sampled_bytes: c.downloaded_bytes, ..c }
    } else {
        ChunkState {
            last_sampled_bytes: c.downloaded_bytes,
            speed: smoothed(
                c.speed as int,
                instant_speed(c.downloaded_bytes - c.last_sampled_bytes, elapsed as int),
                percent as int,
            ) as u64,
            ..c
        }
    }
}

/// A chunk after a report of `downloaded` bytes.
pub open spec fn progressed(c: ChunkState, downloaded: u64, now: u64) -> ChunkState {
    ChunkState {
        downloaded_bytes: downloaded,
        last_progress_at: if downloaded > c.downloaded_bytes {
            now
        } else {
            c.last_progress_at
        },
        ..c
    }
}

/// A chunk that has received nothing.
pub open spec fn fresh_chunk(id: ChunkId, start_byte: u64, end_byte: u64, now: u64) -> ChunkState {
    ChunkState {
        id,
        start_byte,
        end_byte,
        kept_end: u64::MAX,
        downloaded_bytes: 0,
        last_sampled_bytes: 0,
        speed: 0,
        status: 0,
        status_message: None,
        status_changed_at: now,
        last_progress_at: now,
    }
}

impl ChunkState {
    /// The size of the chunk's range.
    pub open spec fn spec_size(self) -> int {
        chunk::span(self.start_byte, self.end_byte)
    }

    /// The last byte of what the chunk still holds: what it gave away when it was split is not its
    /// own any more, whatever it reported before.
    pub open spec fn held_end(self) -> u64 {
        if self.end_byte <= self.kept_end {
            self.end_byte
        } else {
            self.kept_end
        }
    }

    /// The bytes that the chunk has not received.
    pub open spec fn spec_remaining(self) -> int {
        if self.spec_size() >= self.downloaded_bytes {
            self.spec_size() - self.downloaded_bytes
        } else {
            0
        }
    }

    /// What is left is worth two chunks of at least `min_chunk_size` bytes.
    pub open spec fn spec_splittable(self, min_chunk_size: u64) -> bool {
        self.spec_remaining() >= 2 * min_chunk_size
    }

    /// A chunk that has received nothing and is downloading.
    pub fn new(id: ChunkId, start_byte: u64, end_byte: u64, now: u64) -> (r: Self)
        ensures
            r == fresh_chunk(id, start_byte, end_byte, now),
    {
        ChunkState {
            id,
            start_byte,
            end_byte,
            kept_end: u64::MAX,
            downloaded_bytes: 0,
            last_sampled_bytes: 0,
            speed: 0,
            status: 0,
            status_message: None,
            status_changed_at: now,
            last_progress_at: now,
        }
    }

    /// Sets the status code and its message.
    pub fn update_status(&mut self, status: u8, message: Option<String>, now: u64)
        ensures
            *final(self) == (ChunkState {
                status,
                status_message: message,
                status_changed_at: now,
                ..*old(self)
            }),
    {
        self.status = status;
        self.status_message = message;
        self.status_changed_at = now;
    }

    /// Sets the bytes received, and the time of the last progress if they grew.
    pub fn update_downloaded(&mut self, downloaded_bytes: u64, now: u64)
        ensures
            *final(self) == progressed(*old(self), downloaded_bytes, now),
    {
        if downloaded_bytes > self.downloaded_bytes {
            self.last_progress_at = now;
        }
        self.downloaded_bytes = downloaded_bytes;
    }

    /// Sets the last byte of the range, which a split lowers.
    pub fn update_end_byte(&mut self, end_byte: u64)
        ensures
            *final(self) == (ChunkState { end_byte, ..*old(self) }),
    {
        self.end_byte = end_byte;
    }

    /// Notes that the chunk keeps only what lies up to `kept_end`.
    pub fn keep_until(&mut self, kept_end: u64)
        ensures
            *final(self) == (ChunkState { kept_end, ..*old(self) }),
    {
        self.kept_end = kept_end;
    }

    /// The last byte of what the chunk still holds.
    pub fn held(&self) -> (r: u64)
        ensures
            r == self.held_end(),
    {
        if self.end_byte <= self.kept_end {
            self.end_byte
        } else {
            self.kept_end
        }
    }

    /// The size of the range.
    pub fn size(&self) -> (r: u64)
        ensures
            r == self.spec_size(),
    {
        span_len(self.start_byte, self.end_byte)
    }

    /// The bytes not received yet.
    pub fn remaining_bytes(&self) -> (r: u64)
        ensures
            r == self.spec_remaining(),
    {
        self.size().saturating_sub(self.downloaded_bytes)
    }

    /// Whether what is left can be split in two parts of at least `min_chunk_size` bytes.
    pub fn is_splittable(&self, min_chunk_size: u64) -> (r: bool)
        ensures
            r == self.spec_splittable(min_chunk_size),
    {
        let left: u64 = self.remaining_bytes();
        left >= min_chunk_size && left - min_chunk_size >= min_chunk_size
    }

    /// Takes a speed sample over `elapsed` nanoseconds, weighing it with `percent` hundredths.
    /// Samples over too short a time are ignored, and a chunk without new bytes keeps its speed.
    pub fn update_speed(&mut self, elapsed: u64, percent: u64)
        requires
            percent <= 100,
        ensures
            *final(self) == sampled(*old(self), elapsed, percent),
    {
        if elapsed < MIN_SPEED_WINDOW {
            return;
        }
        let fresh: u64 = self.downloaded_bytes.saturating_sub(self.last_sampled_bytes);
        if fresh == 0 {
            self.last_sampled_bytes = self.downloaded_bytes;
            return;
        }
        let exact: u128 = (fresh as u128) * 1_000_000_000_000u128 / (elapsed as u128);
        let sample: u128 = if exact <= MAX_CHUNK_SPEED as u128 {
            exact
        } else {
            MAX_CHUNK_SPEED as u128
        };
        let p: u128 = percent as u128;
        assert(sample * p <= 209_715_200_000u128 * 100u128) by (nonlinear_arith)
            requires
                sample <= 209_715_200_000u128,
                p <= 100,
        ;
        assert(self.speed * (100 - p) <= 0xffff_ffff_ffff_ffffu64 * 100) by (nonlinear_arith)
            requires
                0 <= self.speed <= 0xffff_ffff_ffff_ffffu64,
                0 <= p <= 100,
        ;
        let mixed: u128 = (sample * p + (self.speed as u128) * (100u128 - p)) / 100u128;
        assert(mixed <= u64::MAX) by {
            assert(sample * p + self.speed * (100 - p) <= 0xffff_ffff_ffff_ffffu64 * 100)
                by (nonlinear_arith)
                requires
                    0 <= sample <= 0xffff_ffff_ffff_ffffu64,
                    0 <= self.speed <= 0xffff_ffff_ffff_ffffu64,
                    0 <= p <= 100,
            ;
        }
        self.speed = mixed as u64;
        self.last_sampled_bytes = self.downloaded_bytes;
    }
}

/// `n`, or `u64::MAX` if that is less.
pub open spec fn capped(n: int) -> u64 {
    if n <= u64::MAX {
        n as u64
    } else {
        u64::MAX
    }
}

/// The place of the chunk `id` in a table, or -1.
pub open spec fn place(s: Seq<ChunkState>, id: ChunkId) -> int
    decreases s.len(),
{
    if s.len() == 0 {
        -1
    } else if place(s.drop_last(), id) >= 0 {
        place(s.drop_last(), id)
    } else if s.last().id == id {
        s.len() - 1
    } else {
        -1
    }
}

/// The bytes that the chunks of a table have received.
pub open spec fn sum_downloaded(s: Seq<ChunkState>) -> int
    decreases s.len(),
{
    if s.len() == 0 {
        0
    } else {
        sum_downloaded(s.drop_last()) + s.last().downloaded_bytes
    }
}

/// The speeds of the chunks of a table, added up.
pub open spec fn sum_speed(s: Seq<ChunkState>) -> int
    decreases s.len(),
{
    if s.len() == 0 {
        0
    } else {
        sum_speed(s.drop_last()) + s.last().speed
    }
}

/// A table with the chunk `c` put in place of the one with its id, or at the end.
pub open spec fn with_chunk(s: Seq<ChunkState>, c: ChunkState) -> Seq<ChunkState> {
    if place(s, c.id) >= 0 {
        s.update(place(s, c.id), c)
    } else {
        s.push(c)
    }
}

/// A table without the chunk `id`.
pub open spec fn without_chunk(s: Seq<ChunkState>, id: ChunkId) -> Seq<ChunkState> {
    if place(s, id) >= 0 {
        s.remove(place(s, id))
    } else {
        s
    }
}

/// Where `place` points, the chunk stands, and nowhere before.
pub proof fn lemma_place(s: Seq<ChunkState>, id: ChunkId)
    ensures
        -1 <= place(s, id) < s.len(),
        place(s, id) >= 0 ==> s[place(s, id)].id == id,
        forall|i: int| 0 <= i < s.len() && (place(s, id) < 0 || i < place(s, id)) ==> (#[trigger] s[i]).id
            != id,
    decreases s.len(),
{
    if s.len() > 0 {
        lemma_place(s.drop_last(), id);
        assert forall|i: int|
            0 <= i < s.len() && (place(s, id) < 0 || i < place(s, id)) implies (#[trigger] s[i]).id
            != id by {
            if i < s.len() - 1 {
                assert(s.drop_last()[i] == s[i]);
            }
        }
    }
}

/// `place` finds the first chunk with an id.
pub proof fn lemma_place_is(s: Seq<ChunkState>, id: ChunkId, i: int)
    requires
        0 <= i < s.len(),
        s[i].id == id,
        forall|j: int| 0 <= j < i ==> (#[trigger] s[j]).id != id,
    ensures
        place(s, id) == i,
{
    lemma_place(s, id);
}

/// What a sum loses when one chunk leaves the table.
pub proof fn lemma_sum_remove(s: Seq<ChunkState>, i: int)
    requires
        0 <= i < s.len(),
    ensures
        sum_downloaded(s.remove(i)) == sum_downloaded(s) - s[i].downloaded_bytes,
    decreases s.len(),
{
    if i == s.len() - 1 {
        assert(s.remove(i) =~= s.drop_last());
    } else {
        lemma_sum_remove(s.drop_last(), i);
        assert(s.remove(i).drop_last() =~= s.drop_last().remove(i));
        assert(s.remove(i).last() == s.last());
    }
}

/// What a sum gains when one chunk is replaced.
pub proof fn lemma_sum_update(s: Seq<ChunkState>, i: int, c: ChunkState)
    requires
        0 <= i < s.len(),
    ensures
        sum_downloaded(s.update(i, c)) == sum_downloaded(s) - s[i].downloaded_bytes
            + c.downloaded_bytes,
    decreases s.len(),
{
    if i == s.len() - 1 {
        assert(s.update(i, c).drop_last() =~= s.drop_last());
    } else {
        lemma_sum_update(s.drop_last(), i, c);
        assert(s.update(i, c).drop_last() =~= s.drop_last().update(i, c));
    }
}

/// Sums of a prefix are no larger than the whole sum.
proof fn lemma_sums_grow(s: Seq<ChunkState>, n: int)
    requires
        0 <= n <= s.len(),
    ensures
        0 <= sum_downloaded(s.take(n)) <= sum_downloaded(s),
        0 <= sum_speed(s.take(n)) <= sum_speed(s),
    decreases s.len(),
{
    if n < s.len() {
        lemma_sums_grow(s.drop_last(), n);
        assert(s.drop_last().take(n) =~= s.take(n));
    } else {
        assert(s.take(n) =~= s);
        if s.len() > 0 {
            lemma_sums_grow(s.drop_last(), n - 1);
        }
    }
}

/// The active chunks of a download, found by their ids.
#[derive(Debug)]
pub struct ChunkTable {
    pub entries: Vec<ChunkState>,
}

impl View for ChunkTable {
    type V = Seq<ChunkState>;

    open spec fn view(&self) -> Seq<ChunkState> {
        self.entries@
    }
}

impl ChunkTable {
    /// An empty table.
    pub fn new() -> (r: Self)
        ensures
            r@ == Seq::<ChunkState>::empty(),
    {
        ChunkTable { entries: Vec::new() }
    }

    /// The number of chunks.
    pub fn len(&self) -> (r: usize)
        ensures
            r == self@.len(),
    {
        self.entries.len()
    }

    /// Whether there is no chunk.
    pub fn is_empty(&self) -> (r: bool)
        ensures
            r == (self@.len() == 0),
    {
        self.entries.len() == 0
    }

    /// The place of the chunk `id`.
    pub fn position(&self, id: ChunkId) -> (r: Option<usize>)
        ensures
            r matches Some(i) ==> i < self@.len() && place(self@, id) == i,
            r is None ==> place(self@, id) < 0,
    {
        let mut i: usize = 0;
        while i < self.entries.len()
            invariant
                i <= self.entries@.len(),
                forall|j: int| 0 <= j < i ==> (#[trigger] self.entries@[j]).id != id,
            decreases self.entries.len() - i,
        {
            if self.entries[i].id == id {
                proof {
                    lemma_place_is(self@, id, i as int);
                }
                return Some(i);
            }
            i = i + 1;
        }
        proof {
            lemma_place(self@, id);
        }
        None
    }

    /// The chunk `id`.
    pub fn get(&self, id: ChunkId) -> (r: Option<&ChunkState>)
        ensures
            match r {
                Some(c) => place(self@, id) >= 0 && *c == self@[place(self@, id)],
                None => place(self@, id) < 0,
            },
    {
        match self.position(id) {
            Some(i) => Some(&self.entries[i]),
            None => None,
        }
    }

    /// Puts a chunk in, in place of one with the same id.
    pub fn insert(&mut self, c: ChunkState)
        ensures
            final(self)@ == with_chunk(old(self)@, c),
    {
        match self.position(c.id) {
            Some(i) => {
                self.entries.set(i, c);
            },
            None => {
                self.entries.push(c);
            },
        }
    }

    /// Takes the chunk `id` out.
    pub fn remove(&mut self, id: ChunkId) -> (r: Option<ChunkState>)
        ensures
            final(self)@ == without_chunk(old(self)@, id),
            r == (if place(old(self)@, id) >= 0 {
                Some(old(self)@[place(old(self)@, id)])
            } else {
                None
            }),
    {
        match self.position(id) {
            Some(i) => Some(self.entries.remove(i)),
            None => None,
        }
    }
}

/// Everything known of a running download.
#[derive(Debug)]
pub struct DownloadState {
    pub total_file_size: u64,
    /// The active chunks.
    pub chunks: ChunkTable,
    /// Bytes of chunks that are no longer active: whole chunks that completed, and what failed
    /// chunks had received.
    pub completed_bytes: u64,
}

/// A download's state in mathematical terms.
#[verifier::ext_equal]
pub struct StateModel {
    pub total_file_size: u64,
    pub chunks: Seq<ChunkState>,
    pub completed_bytes: u64,
}

impl StateModel {
    /// The bytes received in all.
    pub open spec fn accounted(self) -> int {
        self.completed_bytes + sum_downloaded(self.chunks)
    }

    /// The bytes received in all, as reported.
    pub open spec fn downloaded(self) -> u64 {
        capped(self.accounted())
    }

    /// Every byte of the file was received.
    pub open spec fn finished(self) -> bool {
        self.downloaded() >= self.total_file_size
    }

    /// The chunk `id` is active.
    pub open spec fn knows(self, id: ChunkId) -> bool {
        place(self.chunks, id) >= 0
    }

    /// The active chunk `id`.
    pub open spec fn chunk(self, id: ChunkId) -> ChunkState {
        self.chunks[place(self.chunks, id)]
    }

    /// The chunk `id` completed: it leaves, and its whole size is accounted for, whatever its last
    /// report told.
    pub open spec fn completed(self, id: ChunkId) -> StateModel {
        StateModel {
            chunks: without_chunk(self.chunks, id),
            completed_bytes: if self.knows(id) {
                capped(self.completed_bytes + self.chunk(id).spec_size())
            } else {
                self.completed_bytes
            },
            ..self
        }
    }

    /// The chunk `id` failed at `start`: it leaves, and what it received is accounted for.
    pub open spec fn failed_at(self, id: ChunkId, start: u64) -> StateModel {
        StateModel {
            chunks: without_chunk(self.chunks, id),
            completed_bytes: if self.knows(id) {
                capped(
                    self.completed_bytes + preserved(
                        self.chunks,
                        id,
                        received_before(self.chunks, id, start),
                    ),
                )
            } else {
                self.completed_bytes
            },
            ..self
        }
    }

    /// A chunk in place of the one with its id, or a new one.
    pub open spec fn with(self, c: ChunkState) -> StateModel {
        StateModel { chunks: with_chunk(self.chunks, c), ..self }
    }
}

/// The bytes that chunk `id` had received when it failed at `start`.
pub open spec fn received_before(s: Seq<ChunkState>, id: ChunkId, start: u64) -> u64 {
    let c = s[place(s, id)];
    if start >= c.start_byte {
        (start - c.start_byte) as u64
    } else {
        0
    }
}

impl DownloadState {
    /// The state in mathematical terms.
    pub open spec fn model(self) -> StateModel {
        StateModel {
            total_file_size: self.total_file_size,
            chunks: self.chunks@,
            completed_bytes: self.completed_bytes,
        }
    }

    /// A download of which nothing was received.
    pub fn new(total_file_size: u64) -> (r: Self)
        ensures
            r.total_file_size == total_file_size,
            r.chunks@ == Seq::<ChunkState>::empty(),
            r.completed_bytes == 0,
    {
        DownloadState { total_file_size, chunks: ChunkTable::new(), completed_bytes: 0 }
    }

    /// A download of which `completed_bytes` were received before; more than the file holds counts
    /// as the whole file.
    pub fn with_completed(total_file_size: u64, completed_bytes: u64) -> (r: Self)
        ensures
            r.total_file_size == total_file_size,
            r.chunks@ == Seq::<ChunkState>::empty(),
            r.completed_bytes == (if completed_bytes <= total_file_size {
                completed_bytes
            } else {
                total_file_size
            }),
    {
        DownloadState {
            total_file_size,
            chunks: ChunkTable::new(),
            completed_bytes: if completed_bytes <= total_file_size {
                completed_bytes
            } else {
                total_file_size
            },
        }
    }

    /// Takes a complete chunk out and accounts for its whole size, whatever its last report told.
    pub fn complete_chunk(&mut self, id: ChunkId)
        ensures
            final(self).model() =~= old(self).model().completed(id),
    {
        if let Some(c) = self.chunks.remove(id) {
            self.completed_bytes = self.completed_bytes.saturating_add(c.size());
        }
    }

    /// Accounts for what the chunk `id` last reported.
    pub fn preserve_partial(&mut self, id: ChunkId)
        ensures
            final(self).total_file_size == old(self).total_file_size,
            final(self).chunks@ == old(self).chunks@,
            final(self).completed_bytes == (if place(old(self).chunks@, id) >= 0 {
                capped(
                    old(self).completed_bytes + old(self).chunks@[place(
                        old(self).chunks@,
                        id,
                    )].downloaded_bytes,
                )
            } else {
                old(self).completed_bytes
            }),
    {
        if let Some(c) = self.chunks.get(id) {
            self.completed_bytes = self.completed_bytes.saturating_add(c.downloaded_bytes);
        }
    }

    /// Accounts for what the chunk `id` received: the larger of its last report and `exact`, which
    /// counts up to the chunk's size. An unknown chunk counts with `exact`.
    pub fn preserve_partial_exact(&mut self, id: ChunkId, exact: u64)
        ensures
            final(self).total_file_size == old(self).total_file_size,
            final(self).chunks@ == old(self).chunks@,
            final(self).completed_bytes == capped(
                old(self).completed_bytes + preserved(old(self).chunks@, id, exact),
            ),
    {
        match self.chunks.get(id) {
            Some(c) => {
                let size: u64 = c.size();
                let bounded: u64 = if exact <= size {
                    exact
                } else {
                    size
                };
                let best: u64 = if c.downloaded_bytes >= bounded {
                    c.downloaded_bytes
                } else {
                    bounded
                };
                self.completed_bytes = self.completed_bytes.saturating_add(best);
            },
            None => {
                self.completed_bytes = self.completed_bytes.saturating_add(exact);
            },
        }
    }

    /// The bytes received in all, active chunks included.
    pub fn total_downloaded(&self) -> (r: u64)
        ensures
            r == self.model().downloaded(),
    {
        let mut total: u64 = self.completed_bytes;
        let mut i: usize = 0;
        while i < self.chunks.entries.len()
            invariant
                i <= self.chunks@.len(),
                total == capped(self.completed_bytes + sum_downloaded(self.chunks@.take(i as int))),
            decreases self.chunks.entries.len() - i,
        {
            proof {
                assert(self.chunks@.take(i + 1).drop_last() =~= self.chunks@.take(i as int));
                lemma_sums_grow(self.chunks@, i as int);
            }
            total = total.saturating_add(self.chunks.entries[i].downloaded_bytes);
            i = i + 1;
        }
        assert(self.chunks@.take(i as int) =~= self.chunks@);
        total
    }

    /// The speeds of all active chunks together.
    pub fn total_speed(&self) -> (r: u64)
        ensures
            r == capped(sum_speed(self.chunks@)),
    {
        let mut total: u64 = 0;
        let mut i: usize = 0;
        while i < self.chunks.entries.len()
            invariant
                i <= self.chunks@.len(),
                total == capped(sum_speed(self.chunks@.take(i as int))),
            decreases self.chunks.entries.len() - i,
        {
            proof {
                assert(self.chunks@.take(i + 1).drop_last() =~= self.chunks@.take(i as int));
                lemma_sums_grow(self.chunks@, i as int);
            }
            total = total.saturating_add(self.chunks.entries[i].speed);
            i = i + 1;
        }
        assert(self.chunks@.take(i as int) =~= self.chunks@);
        total
    }

    /// Whether every byte of the file was received.
    pub fn is_download_finished(&self) -> (r: bool)
        ensures
            r == self.model().finished(),
    {
        self.total_downloaded() >= self.total_file_size
    }
}

/// What `preserve_partial_exact` accounts for.
pub open spec fn preserved(s: Seq<ChunkState>, id: ChunkId, exact: u64) -> int {
    if place(s, id) >= 0 {
        let c = s[place(s, id)];
        let bounded = if exact <= c.spec_size() {
            exact as int
        } else {
            c.spec_size()
        };
        if c.downloaded_bytes >= bounded {
            c.downloaded_bytes as int
        } else {
            bounded
        }
    } else {
        exact as int
    }
}

/// Completing a chunk accounts for exactly the bytes of its range that its reports had not told:
/// nothing is lost if the last report went missing.
pub proof fn law_completion_accounts_for_the_whole_chunk(m: StateModel, id: ChunkId)
    requires
        m.knows(id),
        m.completed_bytes + m.chunk(id).spec_size() <= u64::MAX,
    ensures
        m.completed(id).accounted() == m.accounted() + m.chunk(id).spec_size() - m.chunk(
            id,
        ).downloaded_bytes,
{
    lemma_place(m.chunks, id);
    lemma_sum_remove(m.chunks, place(m.chunks, id));
}

/// What a failed chunk received and what is left of it are its range, byte for byte: the bytes
/// accounted for grow by exactly what the chunk received, and the rest is what has to be requested
/// again.
pub proof fn law_failed_prefix_and_rest_tile_the_chunk(m: StateModel, id: ChunkId, start: u64)
    requires
        m.knows(id),
        m.chunk(id).start_byte <= start <= m.chunk(id).end_byte,
        m.chunk(id).end_byte < u64::MAX,
        m.chunk(id).downloaded_bytes <= start - m.chunk(id).start_byte,
        m.completed_bytes + m.chunk(id).spec_size() <= u64::MAX,
    ensures
        m.failed_at(id, start).accounted() == m.accounted() - m.chunk(id).downloaded_bytes + (start
            - m.chunk(id).start_byte),
        (start - m.chunk(id).start_byte) + chunk::span(start, m.chunk(id).end_byte) == m.chunk(
            id,
        ).spec_size(),
{
    lemma_place(m.chunks, id);
    lemma_sum_remove(m.chunks, place(m.chunks, id));
}

/// The sums are those of all chunks, and the bytes received in all are never less than none.
pub proof fn lemma_accounted(m: StateModel)
    ensures
        m.accounted() >= 0,
        sum_speed(m.chunks) >= 0,
        m.total_file_size >= m.accounted() ==> m.downloaded() == m.accounted(),
        m.total_file_size < m.accounted() ==> m.downloaded() >= m.total_file_size,
{
    lemma_sums_grow(m.chunks, 0);
    assert(m.chunks.take(0) =~= Seq::empty());
}

/// The sums over a table are those of all its chunks.
pub proof fn law_sums_are_over_all_chunks(s: Seq<ChunkState>)
    ensures
        sum_downloaded(s) == s.fold_left(0int, |a: int, c: ChunkState| a + c.downloaded_bytes),
        sum_speed(s) == s.fold_left(0int, |a: int, c: ChunkState| a + c.speed),
    decreases s.len(),
{
    if s.len() > 0 {
        law_sums_are_over_all_chunks(s.drop_last());
    }
}

/// A chunk is as large as its range; what it received and what is left of it are its size.
pub proof fn law_received_and_left_make_up_the_chunk(c: ChunkState)
    requires
        c.start_byte <= c.end_byte,
        c.end_byte - c.start_byte < u64::MAX,
    ensures
        c.spec_size() == c.end_byte - c.start_byte + 1,
        c.downloaded_bytes <= c.end_byte - c.start_byte + 1 ==> c.spec_remaining()
            + c.downloaded_bytes == c.end_byte - c.start_byte + 1,
        c.downloaded_bytes > c.end_byte - c.start_byte + 1 ==> c.spec_remaining() == 0,
{
}

/// A chunk can be split exactly if what is left of it makes two chunks of the given size.
pub proof fn law_a_rest_of_two_chunks_can_be_split(c: ChunkState, min: u64)
    ensures
        c.spec_splittable(min) <==> c.spec_remaining() >= min + min,
{
}

/// A speed sample over less than 50 ms changes nothing, and a chunk without new bytes keeps its speed.
/// Otherwise three tenths of the new speed are that of the sample, which is the new bytes by the time
/// and at most 200 MiB/s, and the rest is the old speed. Nothing but the speed and the count of
/// sampled bytes changes.
pub proof fn law_speeds_are_smoothed(c: ChunkState, elapsed: u64)
    ensures
        ({
            let n = sampled(c, elapsed, crate::monitor::SMOOTHING_PERCENT);
            let fresh = c.downloaded_bytes - c.last_sampled_bytes;
            let exact = fresh * 1_000_000_000_000 / elapsed as int;
            let sample = if exact <= 209_715_200_000 {
                exact
            } else {
                209_715_200_000
            };
            &&& elapsed < 50_000_000 ==> n == c
            &&& elapsed >= 50_000_000 ==> n.last_sampled_bytes == c.downloaded_bytes
            &&& elapsed >= 50_000_000 && fresh <= 0 ==> n.speed == c.speed
            &&& elapsed >= 50_000_000 && fresh > 0 ==> n.speed * 100 <= 30 * sample + 70 * c.speed
                < n.speed * 100 + 100
            &&& n.id == c.id && n.start_byte == c.start_byte && n.end_byte == c.end_byte
                && n.kept_end == c.kept_end
            &&& n.downloaded_bytes == c.downloaded_bytes && n.last_progress_at
                == c.last_progress_at && n.status == c.status
        }),
{
    if elapsed >= 50_000_000 && c.downloaded_bytes > c.last_sampled_bytes {
        let fresh = c.downloaded_bytes - c.last_sampled_bytes;
        let exact = fresh * 1_000_000_000_000 / elapsed as int;
        assert(exact >= 0) by (nonlinear_arith)
            requires
                fresh > 0,
                elapsed > 0,
                exact == fresh * 1_000_000_000_000 / elapsed as int,
        ;
        let sample = instant_speed(fresh, elapsed as int);
        let mixed = smoothed(c.speed as int, sample, 30);
        assert(sample * 30 == 30 * sample && c.speed * (100 - 30) == 70 * c.speed);
        assert(0 <= mixed <= u64::MAX);
    }
}

/// A chunk that goes on at one speed is reported with a speed that comes ever closer to it: the new
/// speed lies between the old one and that of the sample.
pub proof fn law_speeds_stay_between(old_speed: int, sample: int)
    requires
        0 <= old_speed,
        0 <= sample,
    ensures
        ({
            let v = smoothed(old_speed, sample, 30);
            (old_speed <= v <= sample) || (sample <= v <= old_speed)
        }),
{
    assert(sample * 30 == 30 * sample && old_speed * (100 - 30) == 70 * old_speed);
}

/// A chunk put into a table is found there under its id, and the other chunks as before.
pub proof fn law_a_chunk_put_is_found(s: Seq<ChunkState>, c: ChunkState, id: ChunkId)
    ensures
        ({
            let t = with_chunk(s, c);
            &&& place(t, c.id) >= 0 && t[place(t, c.id)] == c
            &&& id != c.id ==> (place(t, id) >= 0 <==> place(s, id) >= 0)
            &&& id != c.id && place(s, id) >= 0 ==> t[place(t, id)] == s[place(s, id)]
            &&& t.len() == s.len() + (if place(s, c.id) >= 0 {
                0int
            } else {
                1
            })
        }),
{
    let t = with_chunk(s, c);
    lemma_place(s, c.id);
    lemma_place(s, id);
    lemma_place(t, c.id);
    lemma_place(t, id);
    let p = place(s, c.id);
    if p >= 0 {
        assert(t[p] == c);
        assert forall|j: int| 0 <= j < p implies (#[trigger] t[j]).id != c.id by {
            assert(s[j].id != c.id);
        }
        lemma_place_is(t, c.id, p);
    } else {
        assert(t[s.len() as int] == c);
        assert forall|j: int| 0 <= j < s.len() implies (#[trigger] t[j]).id != c.id by {
            assert(s[j].id != c.id);
        }
        lemma_place_is(t, c.id, s.len() as int);
    }
    if id != c.id {
        let q = place(s, id);
        if q >= 0 {
            assert(t[q] == s[q]);
            assert forall|j: int| 0 <= j < q implies (#[trigger] t[j]).id != id by {
                assert(s[j].id != id);
            }
            lemma_place_is(t, id, q);
        } else {
            let w = place(t, id);
            if w >= 0 {
                assert(t[w].id == id);
                if w < s.len() {
                    assert(s[w].id != id);
                }
            }
        }
    }
}

/// A chunk taken out of a table of distinct chunks is not found any more, and the others as before.
pub proof fn law_a_chunk_taken_is_gone(s: Seq<ChunkState>, gone: ChunkId, id: ChunkId)
    requires
        forall|i: int, j: int|
            0 <= i < j < s.len() ==> (#[trigger] s[i]).id != (#[trigger] s[j]).id,
    ensures
        ({
            let t = without_chunk(s, gone);
            &&& place(t, gone) < 0
            &&& id != gone ==> (place(t, id) >= 0 <==> place(s, id) >= 0)
            &&& id != gone && place(s, id) >= 0 ==> t[place(t, id)] == s[place(s, id)]
        }),
{
    let t = without_chunk(s, gone);
    lemma_place(s, gone);
    lemma_place(s, id);
    lemma_place(t, gone);
    lemma_place(t, id);
    let p = place(s, gone);
    if p >= 0 {
        assert forall|i: int| 0 <= i < t.len() implies #[trigger] t[i] == (if i < p {
            s[i]
        } else {
            s[i + 1]
        }) by {}
        let w = place(t, gone);
        if w >= 0 {
            if w < p {
                assert(s[w].id != s[p].id);
            } else {
                assert(s[p].id != s[w + 1].id);
            }
        }
        if id != gone {
            let q = place(s, id);
            let v = place(t, id);
            if q >= 0 {
                let k = if q < p {
                    q
                } else {
                    q - 1
                };
                assert(t[k] == s[q]);
                assert forall|j: int| 0 <= j < k implies (#[trigger] t[j]).id != id by {
                    if j < p {
                        assert(s[j].id != s[q].id);
                    } else {
                        assert(s[j + 1].id != s[q].id);
                    }
                }
                lemma_place_is(t, id, k);
            } else if v >= 0 {
                if v < p {
                    assert(s[v].id != id);
                } else {
                    assert(s[v + 1].id != id);
                }
            }
        }
    }
}

/// A download is finished exactly if what is complete and what the active chunks received are at least
/// the whole file.
pub proof fn law_finished_means_all_received(m: StateModel)
    ensures
        m.finished() <==> m.completed_bytes + m.chunks.fold_left(
            0int,
            |a: int, c: ChunkState| a + c.downloaded_bytes,
        ) >= m.total_file_size,
{
    law_sums_are_over_all_chunks(m.chunks);
    lemma_accounted(m);
}

/// A report of more bytes than before notes the time of the progress; one of as many or fewer does not.
pub proof fn law_progress_is_timed(c: ChunkState, downloaded: u64, now: u64)
    ensures
        ({
            let n = progressed(c, downloaded, now);
            &&& n.downloaded_bytes == downloaded
            &&& downloaded > c.downloaded_bytes ==> n.last_progress_at == now
            &&& downloaded <= c.downloaded_bytes ==> n.last_progress_at == c.last_progress_at
            &&& n.id == c.id && n.start_byte == c.start_byte && n.end_byte == c.end_byte && n.speed
                == c.speed && n.kept_end == c.kept_end && n.last_sampled_bytes
                == c.last_sampled_bytes && n.status == c.status
        }),
{
}

/// What counts of a chunk that failed is what it last reported, or what lies before the place where it
/// failed, whichever is more; nothing counts beyond its range, and an unknown chunk changes nothing.
pub proof fn law_the_larger_count_is_kept(m: StateModel, id: ChunkId, start: u64)
    requires
        m.knows(id),
        m.chunk(id).start_byte <= m.chunk(id).end_byte < u64::MAX,
        m.chunk(id).downloaded_bytes <= m.chunk(id).end_byte - m.chunk(id).start_byte + 1,
        m.completed_bytes + (m.chunk(id).end_byte - m.chunk(id).start_byte + 1) <= u64::MAX,
    ensures
        ({
            let c = m.chunk(id);
            let n = m.failed_at(id, start).completed_bytes - m.completed_bytes;
            &&& n >= c.downloaded_bytes
            &&& c.start_byte <= start <= c.end_byte + 1 ==> n >= start - c.start_byte
            &&& n == c.downloaded_bytes || n == start - c.start_byte || n == c.end_byte
                - c.start_byte + 1
            &&& n <= c.end_byte - c.start_byte + 1
        }),
{
}

/// A chunk that is not known changes nothing when it completes or fails.
pub proof fn law_unknown_chunks_count_for_nothing(m: StateModel, id: ChunkId, start: u64)
    requires
        !m.knows(id),
    ensures
        m.completed(id) == m,
        m.failed_at(id, start) == m,
{
}

} // verus!
