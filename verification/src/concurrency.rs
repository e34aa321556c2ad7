//! Decides when a download should use more connections, and which chunk to split for it.

use crate::chunk::MIN_CHUNK_SIZE;
use crate::state;
use crate::state::{ChunkState, DownloadState, StateModel};
use crate::types::{ChunkId, DownloadCmd};
use std::collections::HashMap;
use vstd::prelude::*;

verus! {

broadcast use vstd::std_specs::hash::group_hash_axioms;

/// The time between two splits, in nanoseconds: 150 ms.
pub const MIN_SPLIT_INTERVAL: u64 = 150_000_000;

/// A chunk slower than this is stalled: 1024 B/s, in thousandths of a byte per second.
pub const STALL_SPEED: u64 = 1_024_000;

/// A chunk without progress for this long is idle, in nanoseconds: 10 s.
pub const IDLE_TIME: u64 = 10_000_000_000;

/// A stalled chunk with less than this left is not split but given up: 128 KiB.
pub const SMALL_TAIL_BYTES: u64 = 131_072;

/// A chunk that is not stalled is split only if at least this much is left of it.
pub const SPLIT_TAIL_BYTES: u64 = 500_000;

/// Nothing is split if less than this is left of the whole download: 256 KiB.
pub const MIN_USEFUL_REMAINDER: u64 = 262_144;

/// A stalled chunk is split this often before its connection is given up.
pub const MAX_SKEWED_SPLITS: u32 = 4;

/// The number of speed samples that are averaged.
pub const MAX_SAMPLES: usize = 5;

/// The update interval that stands in for 0, in nanoseconds: 0.5 s.
pub const DEFAULT_INTERVAL: u64 = 500_000_000;

/// The two phases of a download.
#[derive(Debug, Clone, Copy, PartialEq, Eq, Structural)]
pub enum DownloadPhase {
    /// Connections are added while they make the download faster.
    Probing,
    /// Connections are added only where the download has become slower.
    Stable,
}

/// What happens to a split in the stable phase.
#[derive(Debug, Clone, Copy, PartialEq, Eq, Structural)]
pub enum ObservationState {
    /// A split may be tried.
    Ready,
    /// A split was made and its effect is being sampled.
    Observing,
    /// The samples are complete.
    Evaluating,
}

/// What is observed of a split.
#[derive(Debug, Clone, Copy, PartialEq, Eq, Structural)]
pub struct SplitObservation {
    pub pre_split_speed: u64,
    pub pre_split_recent_best: u64,
    pub required_samples: usize,
    pub collected_samples: usize,
    pub best_speed_seen: u64,
}

/// Decides on splits. Speeds are in thousandths of a byte per second, times in nanoseconds.
#[derive(Debug)]
pub struct ConcurrencyManager {
    pub max_workers: u64,
    pub update_interval: u64,
    pub phase: DownloadPhase,
    /// The highest mean speed so far.
    pub max_speed: u64,
    /// The highest recent mean speed; it fades in the stable phase.
    pub recent_best_speed: u64,
    /// When the last command was given, in nanoseconds.
    pub last_split_time: Option<u64>,
    /// The latest speed samples, oldest first.
    pub speed_samples: Vec<u64>,
    pub observation_state: ObservationState,
    pub current_observation: Option<SplitObservation>,
    /// Decisions in a row that brought no gain while probing.
    pub consecutive_probe_no_gain: usize,
    /// How often a stalled chunk was split.
    pub skewed_split_counts: HashMap<ChunkId, u32>,
    /// When the connection of a small stalled chunk was last given up.
    pub last_steal_time: HashMap<ChunkId, u64>,
}

/// The manager's state in mathematical terms.
#[verifier::ext_equal]
pub struct ManagerModel {
    pub max_workers: u64,
    pub update_interval: u64,
    pub phase: DownloadPhase,
    pub max_speed: u64,
    pub recent_best_speed: u64,
    pub last_split_time: Option<u64>,
    pub speed_samples: Seq<u64>,
    pub observation_state: ObservationState,
    pub current_observation: Option<SplitObservation>,
    pub consecutive_probe_no_gain: usize,
    pub skewed_split_counts: Map<ChunkId, u32>,
    pub last_steal_time: Map<ChunkId, u64>,
}

/// The larger of two speeds.
pub open spec fn faster(a: u64, b: u64) -> u64 {
    if a >= b {
        a
    } else {
        b
    }
}

/// The samples added up.
pub open spec fn sample_sum(s: Seq<u64>) -> int
    decreases s.len(),
{
    if s.len() == 0 {
        0
    } else {
        sample_sum(s.drop_last()) + s.last()
    }
}

/// The mean of the samples, rounded down.
pub open spec fn mean(s: Seq<u64>) -> u64 {
    if s.len() == 0 {
        0
    } else {
        (sample_sum(s) / s.len() as int) as u64
    }
}

/// The samples with one more; the oldest leaves if there are too many.
pub open spec fn with_sample(s: Seq<u64>, x: u64) -> Seq<u64> {
    if s.len() < MAX_SAMPLES {
        s.push(x)
    } else {
        s.push(x).skip(1)
    }
}

/// The time that a download must still take for a split to be worth it, in hundredths of a second.
/// Larger files are split sooner, and a download with a single chunk sooner still.
pub open spec fn useful_time(total_file_size: u64, active: int) -> int {
    let base = if total_file_size >= 20_971_520 {
        80int
    } else if total_file_size >= 10_485_760 {
        100
    } else if total_file_size >= 5_242_880 {
        120
    } else if total_file_size >= 1_048_576 {
        180
    } else {
        300
    };
    if active == 1 {
        base * 2 / 5
    } else {
        base
    }
}

/// The bytes that the download has not received.
pub open spec fn remaining(st: StateModel) -> int {
    if st.total_file_size >= st.downloaded() {
        st.total_file_size - st.downloaded()
    } else {
        0
    }
}

/// A split is worth it: bytes arrive, enough is left, and at the mean speed `avg` the rest takes
/// long enough.
pub open spec fn split_useful(st: StateModel, avg: u64) -> bool {
    &&& avg > 0
    &&& remaining(st) >= MIN_USEFUL_REMAINDER
    &&& remaining(st) * 100_000 > avg * useful_time(st.total_file_size, st.chunks.len() as int)
}

/// The place of the chunk with the most left, among those that can be split, or -1.
pub open spec fn largest_place(s: Seq<ChunkState>) -> int
    decreases s.len(),
{
    if s.len() == 0 {
        -1
    } else {
        let p = largest_place(s.drop_last());
        if s.last().spec_splittable(MIN_CHUNK_SIZE) && (p < 0 || s.last().spec_remaining()
            >= s[p].spec_remaining()) {
            s.len() - 1
        } else {
            p
        }
    }
}

/// The place of the slowest chunk, among those that can be split, or -1.
pub open spec fn slowest_place(s: Seq<ChunkState>) -> int
    decreases s.len(),
{
    if s.len() == 0 {
        -1
    } else {
        let p = slowest_place(s.drop_last());
        if s.last().spec_splittable(MIN_CHUNK_SIZE) && (p < 0 || s.last().speed < s[p].speed) {
            s.len() - 1
        } else {
            p
        }
    }
}

/// The chunk made no progress for `IDLE_TIME`.
pub open spec fn is_idle(c: ChunkState, now: u64) -> bool {
    now - c.last_progress_at >= IDLE_TIME
}

/// The chunk is stalled, idle and not complete.
pub open spec fn is_stuck(c: ChunkState, now: u64) -> bool {
    c.speed < STALL_SPEED && c.spec_remaining() > 0 && is_idle(c, now)
}

/// The place of the slowest stuck chunk, or -1.
pub open spec fn stuck_place(s: Seq<ChunkState>, now: u64) -> int
    decreases s.len(),
{
    if s.len() == 0 {
        -1
    } else {
        let p = stuck_place(s.drop_last(), now);
        if is_stuck(s.last(), now) && (p < 0 || s.last().speed < s[p].speed) {
            s.len() - 1
        } else {
            p
        }
    }
}

/// The number of samples that cover about a second, between 2 and 5.
pub open spec fn samples_needed(update_interval: u64) -> usize {
    let iv: int = if update_interval >= 50_000_000 {
        update_interval as int
    } else {
        50_000_000
    };
    let n = (1_000_000_000 + iv - 1) / iv;
    if n < 2 {
        2
    } else if n > 5 {
        5
    } else {
        n as usize
    }
}

/// The last command was less than the split interval ago.
pub open spec fn too_soon(m: ManagerModel, now: u64) -> bool {
    m.last_split_time matches Some(t) && now - t < MIN_SPLIT_INTERVAL
}

/// The next command has to wait.
pub open spec fn held_back(m: ManagerModel, now: u64) -> ManagerModel {
    ManagerModel { last_split_time: Some(now), ..m }
}

/// The stable phase begins.
pub open spec fn settled(m: ManagerModel) -> ManagerModel {
    ManagerModel {
        phase: DownloadPhase::Stable,
        speed_samples: Seq::empty(),
        observation_state: ObservationState::Ready,
        current_observation: None,
        recent_best_speed: m.max_speed,
        ..m
    }
}

/// A split was requested and is observed from now on.
pub open spec fn observing(m: ManagerModel, avg: u64, now: u64) -> ManagerModel {
    ManagerModel {
        observation_state: ObservationState::Observing,
        current_observation: Some(
            SplitObservation {
                pre_split_speed: avg,
                pre_split_recent_best: m.recent_best_speed,
                required_samples: samples_needed(m.update_interval),
                collected_samples: 0,
                best_speed_seen: avg,
            },
        ),
        ..held_back(m, now)
    }
}

/// How the best recent speed follows the mean speed `avg`.
pub open spec fn next_recent_best(m: ManagerModel, avg: u64) -> u64 {
    let faded = (m.recent_best_speed * 97 / 100) as u64;
    if avg > m.recent_best_speed {
        avg
    } else if m.phase == DownloadPhase::Stable && m.observation_state == ObservationState::Ready {
        if faded > avg {
            faded
        } else if avg > 0 {
            ((m.recent_best_speed * 98 + avg * 2) / 100) as u64
        } else {
            m.recent_best_speed
        }
    } else {
        m.recent_best_speed
    }
}

/// One more sample in a counter.
pub open spec fn one_more(n: usize) -> usize {
    if n < usize::MAX {
        (n + 1) as usize
    } else {
        n
    }
}

/// The manager after it has taken a speed sample.
pub open spec fn measured(m: ManagerModel, speed: u64) -> ManagerModel {
    let samples = with_sample(m.speed_samples, speed);
    let avg = mean(samples);
    let watched = m.phase == DownloadPhase::Stable && m.observation_state
        == ObservationState::Observing && m.current_observation is Some;
    let o = m.current_observation->0;
    let seen = SplitObservation {
        collected_samples: one_more(o.collected_samples),
        best_speed_seen: faster(o.best_speed_seen, speed),
        ..o
    };
    ManagerModel {
        speed_samples: samples,
        max_speed: faster(m.max_speed, avg),
        recent_best_speed: next_recent_best(m, avg),
        current_observation: if watched {
            Some(seen)
        } else {
            m.current_observation
        },
        observation_state: if watched && seen.collected_samples >= seen.required_samples {
            ObservationState::Evaluating
        } else {
            m.observation_state
        },
        ..m
    }
}

/// What is done about a stalled chunk of which `left` bytes are missing. A large rest is split so
/// that most of it moves to a new connection; after `MAX_SKEWED_SPLITS` splits the connection is
/// given up. A small rest is never split: its connection is given up once it is idle, and not again
/// within `IDLE_TIME`.
pub open spec fn rescue(m: ManagerModel, c: ChunkState, now: u64) -> (
    ManagerModel,
    Option<DownloadCmd>,
) {
    if c.spec_remaining() < SMALL_TAIL_BYTES {
        let recent = m.last_steal_time.contains_key(c.id) && now - m.last_steal_time[c.id]
            < IDLE_TIME;
        if is_idle(c, now) && !recent {
            (
                ManagerModel {
                    last_steal_time: m.last_steal_time.insert(c.id, now),
                    ..held_back(m, now)
                },
                Some(DownloadCmd::TerminateChunk { id: c.id }),
            )
        } else {
            (m, None)
        }
    } else {
        let before = if m.skewed_split_counts.contains_key(c.id) {
            m.skewed_split_counts[c.id]
        } else {
            0
        };
        if before >= MAX_SKEWED_SPLITS {
            (
                ManagerModel {
                    skewed_split_counts: m.skewed_split_counts.remove(c.id),
                    ..held_back(m, now)
                },
                Some(DownloadCmd::TerminateChunk { id: c.id }),
            )
        } else {
            (
                ManagerModel {
                    skewed_split_counts: m.skewed_split_counts.insert(c.id, (before + 1) as u32),
                    ..held_back(m, now)
                },
                Some(DownloadCmd::BisectDownloadSkewed { id: c.id }),
            )
        }
    }
}

/// A decision in the probing phase, with the mean speed `avg` and the highest mean speed before it.
pub open spec fn probe(
    m: ManagerModel,
    st: StateModel,
    avg: u64,
    previous_max: u64,
    now: u64,
) -> (ManagerModel, Option<DownloadCmd>) {
    let active = st.chunks.len();
    let p = largest_place(st.chunks);
    let tried = ManagerModel {
        consecutive_probe_no_gain: one_more(m.consecutive_probe_no_gain),
        ..m
    };
    if active >= m.max_workers {
        (settled(m), None)
    } else if !split_useful(st, avg) {
        (m, None)
    } else if avg * 10 > previous_max * 11 || previous_max == 0 {
        if p >= 0 {
            (
                ManagerModel { consecutive_probe_no_gain: 0, ..held_back(m, now) },
                Some(DownloadCmd::BisectDownload { id: st.chunks[p].id }),
            )
        } else {
            (settled(m), None)
        }
    } else if active > 1 && m.speed_samples.len() >= 3 {
        (settled(tried), None)
    } else {
        (tried, None)
    }
}

/// A decision in the stable phase while no split is being observed.
pub open spec fn rebalance(m: ManagerModel, st: StateModel, avg: u64, now: u64) -> (
    ManagerModel,
    Option<DownloadCmd>,
) {
    let stuck = stuck_place(st.chunks, now);
    let slow = slowest_place(st.chunks);
    if stuck >= 0 {
        rescue(m, st.chunks[stuck], now)
    } else if avg * 5 < m.recent_best_speed * 4 && st.chunks.len() < m.max_workers && split_useful(
        st,
        avg,
    ) && slow >= 0 {
        let c = st.chunks[slow];
        if c.speed < STALL_SPEED {
            rescue(m, c, now)
        } else if c.spec_remaining() < SPLIT_TAIL_BYTES {
            (m, None)
        } else {
            (observing(m, avg, now), Some(DownloadCmd::BisectDownload { id: c.id }))
        }
    } else {
        (m, None)
    }
}

/// The judgement of an observed split: it paid if the best speed seen is 5 % above the speed before
/// it and not 5 % below the best recent speed. Then another split may follow.
pub open spec fn judge(m: ManagerModel, st: StateModel, avg: u64, now: u64) -> (
    ManagerModel,
    Option<DownloadCmd>,
) {
    let p = largest_place(st.chunks);
    let open = ManagerModel {
        current_observation: None,
        observation_state: ObservationState::Ready,
        ..m
    };
    match m.current_observation {
        None => (open, None),
        Some(o) => if o.best_speed_seen * 100 > o.pre_split_speed * 105 && o.best_speed_seen * 100
            > o.pre_split_recent_best * 95 {
            let better = ManagerModel {
                recent_best_speed: faster(o.best_speed_seen, m.recent_best_speed),
                ..open
            };
            if st.chunks.len() < m.max_workers && split_useful(st, avg) && p >= 0 {
                (
                    observing(better, avg, now),
                    Some(DownloadCmd::BisectDownload { id: st.chunks[p].id }),
                )
            } else {
                (better, None)
            }
        } else {
            (open, None)
        },
    }
}

/// The whole decision: nothing until a split is allowed again, else a speed sample and then the
/// decision of the phase.
pub open spec fn decision(m: ManagerModel, st: StateModel, now: u64) -> (
    ManagerModel,
    Option<DownloadCmd>,
) {
    if too_soon(m, now) {
        (m, None)
    } else {
        let seen = measured(m, state::capped(state::sum_speed(st.chunks)));
        let avg = mean(seen.speed_samples);
        match seen.phase {
            DownloadPhase::Probing => probe(seen, st, avg, m.max_speed, now),
            DownloadPhase::Stable => match seen.observation_state {
                ObservationState::Ready => rebalance(seen, st, avg, now),
                ObservationState::Observing => (seen, None),
                ObservationState::Evaluating => judge(seen, st, avg, now),
            },
        }
    }
}

/// The mean of at most `MAX_SAMPLES` samples.
fn mean_of(samples: &Vec<u64>) -> (r: u64)
    requires
        samples@.len() <= MAX_SAMPLES,
    ensures
        r == mean(samples@),
{
    if samples.len() == 0 {
        return 0;
    }
    let mut sum: u128 = 0;
    let mut i: usize = 0;
    while i < samples.len()
        invariant
            i <= samples@.len() <= MAX_SAMPLES,
            sum == sample_sum(samples@.take(i as int)),
            sum <= i * u64::MAX,
        decreases samples.len() - i,
    {
        assert(samples@.take(i + 1).drop_last() =~= samples@.take(i as int));
        sum = sum + samples[i] as u128;
        i = i + 1;
    }
    assert(samples@.take(i as int) =~= samples@);
    let n: u128 = samples.len() as u128;
    assert(sum / n <= u64::MAX) by (nonlinear_arith)
        requires
            0 <= sum <= n * u64::MAX,
            n > 0,
    ;
    (sum / n) as u64
}

impl ConcurrencyManager {
    /// The state in mathematical terms.
    pub open spec fn model(self) -> ManagerModel {
        ManagerModel {
            max_workers: self.max_workers,
            update_interval: self.update_interval,
            phase: self.phase,
            max_speed: self.max_speed,
            recent_best_speed: self.recent_best_speed,
            last_split_time: self.last_split_time,
            speed_samples: self.speed_samples@,
            observation_state: self.observation_state,
            current_observation: self.current_observation,
            consecutive_probe_no_gain: self.consecutive_probe_no_gain,
            skewed_split_counts: self.skewed_split_counts@,
            last_steal_time: self.last_steal_time@,
        }
    }

    /// No more samples are kept than are averaged.
    pub open spec fn wf(self) -> bool {
        self.speed_samples@.len() <= MAX_SAMPLES
    }

    /// A manager with the default update interval.
    pub fn new(max_workers: u64) -> (r: Self)
        ensures
            r.wf(),
            r.model() =~= initial(max_workers, DEFAULT_INTERVAL),
    {
        Self::new_with_interval(max_workers, DEFAULT_INTERVAL)
    }

    /// A manager for the given update interval. With a single worker there is nothing to probe.
    pub fn new_with_interval(max_workers: u64, update_interval: u64) -> (r: Self)
        ensures
            r.wf(),
            r.model() =~= initial(max_workers, update_interval),
    {
        ConcurrencyManager {
            max_workers,
            update_interval: if update_interval > 0 {
                update_interval
            } else {
                DEFAULT_INTERVAL
            },
            phase: if max_workers == 1 {
                DownloadPhase::Stable
            } else {
                DownloadPhase::Probing
            },
            max_speed: 0,
            recent_best_speed: 0,
            last_split_time: None,
            speed_samples: Vec::new(),
            observation_state: ObservationState::Ready,
            current_observation: None,
            consecutive_probe_no_gain: 0,
            skewed_split_counts: HashMap::new(),
            last_steal_time: HashMap::new(),
        }
    }

    /// Changes the number of workers while the download runs.
    pub fn set_max_workers(&mut self, workers: u64)
        ensures
            final(self).model() == (ManagerModel {
                max_workers: if workers >= 1 {
                    workers
                } else {
                    1
                },
                ..old(self).model()
            }),
    {
        self.max_workers = if workers >= 1 {
            workers
        } else {
            1
        };
    }

    /// The number of workers.
    pub fn max_workers(&self) -> (r: u64)
        ensures
            r == self.max_workers,
    {
        self.max_workers
    }

    /// The shortest time that makes a split worth it, in hundredths of a second.
    pub fn adaptive_remaining_threshold(total_file_size: u64, active: usize) -> (r: u64)
        ensures
            r == useful_time(total_file_size, active as int),
    {
        let base: u64 = if total_file_size >= 20_971_520 {
            80
        } else if total_file_size >= 10_485_760 {
            100
        } else if total_file_size >= 5_242_880 {
            120
        } else if total_file_size >= 1_048_576 {
            180
        } else {
            300
        };
        if active == 1 {
            base * 2 / 5
        } else {
            base
        }
    }

    /// The number of samples that an observation needs.
    pub fn required_samples_for_interval(update_interval: u64) -> (r: usize)
        ensures
            r == samples_needed(update_interval),
    {
        let iv: u128 = if update_interval >= 50_000_000 {
            update_interval as u128
        } else {
            50_000_000
        };
        let n: u128 = (1_000_000_000u128 + iv - 1) / iv;
        if n < 2 {
            2
        } else if n > 5 {
            5
        } else {
            n as usize
        }
    }

    /// Whether a split is worth it at the mean speed `avg`.
    fn split_is_useful(&self, st: &DownloadState, avg: u64) -> (r: bool)
        ensures
            r == split_useful(st.model(), avg),
    {
        if avg == 0 {
            return false;
        }
        let left: u64 = st.total_file_size.saturating_sub(st.total_downloaded());
        if left < MIN_USEFUL_REMAINDER {
            return false;
        }
        let time: u64 = Self::adaptive_remaining_threshold(st.total_file_size, st.chunks.len());
        assert(avg * time <= u64::MAX * 300) by (nonlinear_arith)
            requires
                0 <= avg <= u64::MAX,
                0 <= time <= 300,
        ;
        (left as u128) * 100_000u128 > (avg as u128) * (time as u128)
    }

    /// The id of the chunk with the most left, among those that can be split.
    fn find_largest_splittable_chunk(&self, st: &DownloadState) -> (r: Option<ChunkId>)
        ensures
            match r {
                Some(id) => largest_place(st.chunks@) >= 0 && id == st.chunks@[largest_place(
                    st.chunks@,
                )].id,
                None => largest_place(st.chunks@) < 0,
            },
    {
        let mut best: Option<usize> = None;
        let mut i: usize = 0;
        while i < st.chunks.entries.len()
            invariant
                i <= st.chunks@.len(),
                match best {
                    Some(p) => p < i && largest_place(st.chunks@.take(i as int)) == p,
                    None => largest_place(st.chunks@.take(i as int)) < 0,
                },
            decreases st.chunks.entries.len() - i,
        {
            let ghost s = st.chunks@.take(i + 1);
            assert(s.drop_last() =~= st.chunks@.take(i as int));
            if st.chunks.entries[i].is_splittable(MIN_CHUNK_SIZE) {
                let better: bool = match best {
                    Some(p) => st.chunks.entries[i].remaining_bytes()
                        >= st.chunks.entries[p].remaining_bytes(),
                    None => true,
                };
                if better {
                    best = Some(i);
                }
            }
            i = i + 1;
        }
        assert(st.chunks@.take(i as int) =~= st.chunks@);
        match best {
            Some(p) => Some(st.chunks.entries[p].id),
            None => None,
        }
    }

    /// The place of the slowest chunk, among those that can be split.
    fn find_slowest_splittable_chunk(&self, st: &DownloadState) -> (r: Option<usize>)
        ensures
            match r {
                Some(p) => p < st.chunks@.len() && slowest_place(st.chunks@) == p,
                None => slowest_place(st.chunks@) < 0,
            },
    {
        let mut best: Option<usize> = None;
        let mut i: usize = 0;
        while i < st.chunks.entries.len()
            invariant
                i <= st.chunks@.len(),
                match best {
                    Some(p) => p < i && slowest_place(st.chunks@.take(i as int)) == p,
                    None => slowest_place(st.chunks@.take(i as int)) < 0,
                },
            decreases st.chunks.entries.len() - i,
        {
            assert(st.chunks@.take(i + 1).drop_last() =~= st.chunks@.take(i as int));
            if st.chunks.entries[i].is_splittable(MIN_CHUNK_SIZE) {
                let better: bool = match best {
                    Some(p) => st.chunks.entries[i].speed < st.chunks.entries[p].speed,
                    None => true,
                };
                if better {
                    best = Some(i);
                }
            }
            i = i + 1;
        }
        assert(st.chunks@.take(i as int) =~= st.chunks@);
        best
    }

    /// The place of the slowest stuck chunk.
    fn find_stuck_chunk(&self, st: &DownloadState, now: u64) -> (r: Option<usize>)
        ensures
            match r {
                Some(p) => p < st.chunks@.len() && stuck_place(st.chunks@, now) == p,
                None => stuck_place(st.chunks@, now) < 0,
            },
    {
        let mut best: Option<usize> = None;
        let mut i: usize = 0;
        while i < st.chunks.entries.len()
            invariant
                i <= st.chunks@.len(),
                match best {
                    Some(p) => p < i && stuck_place(st.chunks@.take(i as int), now) == p,
                    None => stuck_place(st.chunks@.take(i as int), now) < 0,
                },
            decreases st.chunks.entries.len() - i,
        {
            assert(st.chunks@.take(i + 1).drop_last() =~= st.chunks@.take(i as int));
            let c: &ChunkState = &st.chunks.entries[i];
            if c.speed < STALL_SPEED && c.remaining_bytes() > 0 && now.saturating_sub(
                c.last_progress_at,
            ) >= IDLE_TIME {
                let better: bool = match best {
                    Some(p) => c.speed < st.chunks.entries[p].speed,
                    None => true,
                };
                if better {
                    best = Some(i);
                }
            }
            i = i + 1;
        }
        assert(st.chunks@.take(i as int) =~= st.chunks@);
        best
    }

    /// Requests an even split.
    fn request_split(&mut self, id: ChunkId, now: u64) -> (r: Option<DownloadCmd>)
        ensures
            final(self).model() =~= held_back(old(self).model(), now),
            r == Some(DownloadCmd::BisectDownload { id }),
    {
        self.last_split_time = Some(now);
        Some(DownloadCmd::BisectDownload { id })
    }

    /// Requests an even split and starts observing it.
    fn request_split_with_observation(&mut self, id: ChunkId, avg: u64, now: u64) -> (r: Option<
        DownloadCmd,
    >)
        ensures
            final(self).model() =~= observing(old(self).model(), avg, now),
            r == Some(DownloadCmd::BisectDownload { id }),
    {
        let cmd = self.request_split(id, now);
        self.observation_state = ObservationState::Observing;
        self.current_observation = Some(
            SplitObservation {
                pre_split_speed: avg,
                pre_split_recent_best: self.recent_best_speed,
                required_samples: Self::required_samples_for_interval(self.update_interval),
                collected_samples: 0,
                best_speed_seen: avg,
            },
        );
        cmd
    }

    /// Does something about a stalled chunk.
    fn request_skewed_split(&mut self, c: &ChunkState, now: u64) -> (r: Option<DownloadCmd>)
        ensures
            final(self).model() =~= rescue(old(self).model(), *c, now).0,
            r == rescue(old(self).model(), *c, now).1,
    {
        let id: ChunkId = c.id;
        if c.remaining_bytes() < SMALL_TAIL_BYTES {
            let idle: bool = now.saturating_sub(c.last_progress_at) >= IDLE_TIME;
            let recent: bool = match self.last_steal_time.get(&id) {
                Some(t) => now.saturating_sub(*t) < IDLE_TIME,
                None => false,
            };
            if idle && !recent {
                let _ = self.last_steal_time.insert(id, now);
                self.last_split_time = Some(now);
                return Some(DownloadCmd::TerminateChunk { id });
            }
            return None;
        }
        let before: u32 = match self.skewed_split_counts.get(&id) {
            Some(n) => *n,
            None => 0,
        };
        self.last_split_time = Some(now);
        if before >= MAX_SKEWED_SPLITS {
            let _ = self.skewed_split_counts.remove(&id);
            Some(DownloadCmd::TerminateChunk { id })
        } else {
            let _ = self.skewed_split_counts.insert(id, before + 1);
            Some(DownloadCmd::BisectDownloadSkewed { id })
        }
    }

    /// Begins the stable phase.
    fn transition_to_stable(&mut self)
        ensures
            final(self).model() =~= settled(old(self).model()),
    {
        self.phase = DownloadPhase::Stable;
        self.speed_samples.clear();
        self.observation_state = ObservationState::Ready;
        self.current_observation = None;
        self.recent_best_speed = self.max_speed;
    }

    /// Decides in the probing phase.
    fn handle_probing_phase(
        &mut self,
        st: &DownloadState,
        avg: u64,
        previous_max: u64,
        now: u64,
    ) -> (r: Option<DownloadCmd>)
        ensures
            final(self).model() =~= probe(old(self).model(), st.model(), avg, previous_max, now).0,
            r == probe(old(self).model(), st.model(), avg, previous_max, now).1,
    {
        let active: u64 = st.chunks.len() as u64;
        if active >= self.max_workers {
            self.transition_to_stable();
            return None;
        }
        if !self.split_is_useful(st, avg) {
            return None;
        }
        if (avg as u128) * 10 > (previous_max as u128) * 11 || previous_max == 0 {
            match self.find_largest_splittable_chunk(st) {
                Some(id) => {
                    let cmd = self.request_split(id, now);
                    self.consecutive_probe_no_gain = 0;
                    cmd
                },
                None => {
                    self.transition_to_stable();
                    None
                },
            }
        } else {
            self.consecutive_probe_no_gain = self.consecutive_probe_no_gain.saturating_add(1);
            if active > 1 && self.speed_samples.len() >= 3 {
                self.transition_to_stable();
            }
            None
        }
    }

    /// Decides in the stable phase while no split is being observed.
    fn handle_stable_ready(&mut self, st: &DownloadState, avg: u64, now: u64) -> (r: Option<
        DownloadCmd,
    >)
        ensures
            final(self).model() =~= rebalance(old(self).model(), st.model(), avg, now).0,
            r == rebalance(old(self).model(), st.model(), avg, now).1,
    {
        if let Some(p) = self.find_stuck_chunk(st, now) {
            return self.request_skewed_split(&st.chunks.entries[p], now);
        }
        let active: u64 = st.chunks.len() as u64;
        if (avg as u128) * 5 < (self.recent_best_speed as u128) * 4 && active < self.max_workers
            && self.split_is_useful(st, avg) {
            if let Some(p) = self.find_slowest_splittable_chunk(st) {
                let c: &ChunkState = &st.chunks.entries[p];
                if c.speed < STALL_SPEED {
                    return self.request_skewed_split(c, now);
                }
                if c.remaining_bytes() < SPLIT_TAIL_BYTES {
                    return None;
                }
                return self.request_split_with_observation(c.id, avg, now);
            }
        }
        None
    }

    /// Judges an observed split.
    fn handle_stable_evaluate(&mut self, st: &DownloadState, avg: u64, now: u64) -> (r: Option<
        DownloadCmd,
    >)
        ensures
            final(self).model() =~= judge(old(self).model(), st.model(), avg, now).0,
            r == judge(old(self).model(), st.model(), avg, now).1,
    {
        let observed: Option<SplitObservation> = self.current_observation;
        self.current_observation = None;
        self.observation_state = ObservationState::Ready;
        if let Some(o) = observed {
            if (o.best_speed_seen as u128) * 100 > (o.pre_split_speed as u128) * 105 && (
            o.best_speed_seen as u128) * 100 > (o.pre_split_recent_best as u128) * 95 {
                if o.best_speed_seen >= self.recent_best_speed {
                    self.recent_best_speed = o.best_speed_seen;
                }
                let active: u64 = st.chunks.len() as u64;
                if active < self.max_workers && self.split_is_useful(st, avg) {
                    if let Some(id) = self.find_largest_splittable_chunk(st) {
                        return self.request_split_with_observation(id, avg, now);
                    }
                }
            }
        }
        None
    }

    /// Takes a speed sample.
    fn take_sample(&mut self, speed: u64) -> (avg: u64)
        requires
            old(self).wf(),
        ensures
            final(self).wf(),
            final(self).model() =~= measured(old(self).model(), speed),
            avg == mean(final(self).speed_samples@),
    {
        self.speed_samples.push(speed);
        if self.speed_samples.len() > MAX_SAMPLES {
            let _ = self.speed_samples.remove(0);
            assert(self.speed_samples@ =~= old(self).speed_samples@.push(speed).skip(1));
        }
        let avg: u64 = mean_of(&self.speed_samples);
        if avg > self.max_speed {
            self.max_speed = avg;
        }
        let best: u64 = self.recent_best_speed;
        if avg > best {
            self.recent_best_speed = avg;
        } else if self.phase == DownloadPhase::Stable && self.observation_state
            == ObservationState::Ready {
            let faded: u64 = ((best as u128) * 97 / 100) as u64;
            if faded > avg {
                self.recent_best_speed = faded;
            } else if avg > 0 {
                self.recent_best_speed = (((best as u128) * 98 + (avg as u128) * 2) / 100) as u64;
            }
        }
        if self.phase == DownloadPhase::Stable && self.observation_state
            == ObservationState::Observing {
            if let Some(o) = self.current_observation {
                let seen: SplitObservation = SplitObservation {
                    pre_split_speed: o.pre_split_speed,
                    pre_split_recent_best: o.pre_split_recent_best,
                    required_samples: o.required_samples,
                    collected_samples: o.collected_samples.saturating_add(1),
                    best_speed_seen: if o.best_speed_seen >= speed {
                        o.best_speed_seen
                    } else {
                        speed
                    },
                };
                self.current_observation = Some(seen);
                if seen.collected_samples >= seen.required_samples {
                    self.observation_state = ObservationState::Evaluating;
                }
            }
        }
        avg
    }

    /// Looks at the download and decides whether a chunk is to be split or given up.
    pub fn decide_and_act(&mut self, st: &DownloadState, now: u64) -> (r: Option<DownloadCmd>)
        requires
            old(self).wf(),
        ensures
            final(self).wf(),
            final(self).model() =~= decision(old(self).model(), st.model(), now).0,
            r == decision(old(self).model(), st.model(), now).1,
    {
        let too_soon: bool = match self.last_split_time {
            Some(t) => now.saturating_sub(t) < MIN_SPLIT_INTERVAL,
            None => false,
        };
        if too_soon {
            return None;
        }
        let previous_max: u64 = self.max_speed;
        let avg: u64 = self.take_sample(st.total_speed());
        match self.phase {
            DownloadPhase::Probing => self.handle_probing_phase(st, avg, previous_max, now),
            DownloadPhase::Stable => match self.observation_state {
                ObservationState::Ready => self.handle_stable_ready(st, avg, now),
                ObservationState::Observing => None,
                ObservationState::Evaluating => self.handle_stable_evaluate(st, avg, now),
            },
        }
    }
}

/// A manager that has seen nothing.
pub open spec fn initial(max_workers: u64, update_interval: u64) -> ManagerModel {
    ManagerModel {
        max_workers,
        update_interval: if update_interval > 0 {
            update_interval
        } else {
            DEFAULT_INTERVAL
        },
        phase: if max_workers == 1 {
            DownloadPhase::Stable
        } else {
            DownloadPhase::Probing
        },
        max_speed: 0,
        recent_best_speed: 0,
        last_split_time: None,
        speed_samples: Seq::empty(),
        observation_state: ObservationState::Ready,
        current_observation: None,
        consecutive_probe_no_gain: 0,
        skewed_split_counts: Map::empty(),
        last_steal_time: Map::empty(),
    }
}

/// `largest_place` finds a chunk that can be split, and none of those has more left.
pub proof fn law_largest_has_the_most_left(s: Seq<ChunkState>)
    ensures
        -1 <= largest_place(s) < s.len(),
        largest_place(s) >= 0 ==> s[largest_place(s)].spec_splittable(MIN_CHUNK_SIZE),
        forall|i: int|
            0 <= i < s.len() && (#[trigger] s[i]).spec_splittable(MIN_CHUNK_SIZE)
                ==> largest_place(s) >= 0 && s[i].spec_remaining()
                <= s[largest_place(s)].spec_remaining(),
    decreases s.len(),
{
    if s.len() > 0 {
        law_largest_has_the_most_left(s.drop_last());
        assert forall|i: int|
            0 <= i < s.len() && (#[trigger] s[i]).spec_splittable(
                MIN_CHUNK_SIZE,
            ) implies largest_place(s) >= 0 && s[i].spec_remaining()
            <= s[largest_place(s)].spec_remaining() by {
            if i < s.len() - 1 {
                assert(s.drop_last()[i] == s[i]);
            }
        }
    }
}

/// `slowest_place` finds a chunk that can be split, and none of those is slower.
pub proof fn law_slowest_is_slowest(s: Seq<ChunkState>)
    ensures
        -1 <= slowest_place(s) < s.len(),
        slowest_place(s) >= 0 ==> s[slowest_place(s)].spec_splittable(MIN_CHUNK_SIZE),
        forall|i: int|
            0 <= i < s.len() && (#[trigger] s[i]).spec_splittable(MIN_CHUNK_SIZE)
                ==> slowest_place(s) >= 0 && s[i].speed >= s[slowest_place(s)].speed,
    decreases s.len(),
{
    if s.len() > 0 {
        law_slowest_is_slowest(s.drop_last());
        assert forall|i: int|
            0 <= i < s.len() && (#[trigger] s[i]).spec_splittable(
                MIN_CHUNK_SIZE,
            ) implies slowest_place(s) >= 0 && s[i].speed >= s[slowest_place(s)].speed by {
            if i < s.len() - 1 {
                assert(s.drop_last()[i] == s[i]);
            }
        }
    }
}

/// `stuck_place` finds a stuck chunk if there is one.
pub proof fn law_stuck_chunk_is_found(s: Seq<ChunkState>, now: u64)
    ensures
        -1 <= stuck_place(s, now) < s.len(),
        stuck_place(s, now) >= 0 ==> is_stuck(s[stuck_place(s, now)], now),
        forall|i: int|
            0 <= i < s.len() && is_stuck(#[trigger] s[i], now) ==> stuck_place(s, now) >= 0
                && s[i].speed >= s[stuck_place(s, now)].speed,
    decreases s.len(),
{
    if s.len() > 0 {
        law_stuck_chunk_is_found(s.drop_last(), now);
        assert forall|i: int|
            0 <= i < s.len() && is_stuck(#[trigger] s[i], now) implies stuck_place(s, now) >= 0
            && s[i].speed >= s[stuck_place(s, now)].speed by {
            if i < s.len() - 1 {
                assert(s.drop_last()[i] == s[i]);
            }
        }
    }
}

/// The manager after a run of calls, each with the state of the download and its time.
pub open spec fn after_calls(m: ManagerModel, calls: Seq<(StateModel, u64)>) -> ManagerModel
    decreases calls.len(),
{
    if calls.len() == 0 {
        m
    } else {
        decision(after_calls(m, calls.drop_last()), calls.last().0, calls.last().1).0
    }
}

/// The call `k` of a run gives a command.
pub open spec fn commanded(m: ManagerModel, calls: Seq<(StateModel, u64)>, k: int) -> bool {
    decision(after_calls(m, calls.take(k)), calls[k].0, calls[k].1).1 is Some
}

/// A command notes its time; without one, the time of the last one stays.
proof fn lemma_commands_note_their_time(m: ManagerModel, st: StateModel, now: u64)
    ensures
        decision(m, st, now).1 is Some ==> !too_soon(m, now) && decision(
            m,
            st,
            now,
        ).0.last_split_time == Some(now),
        decision(m, st, now).1 is None ==> decision(m, st, now).0.last_split_time
            == m.last_split_time,
{
}

proof fn lemma_last_time_grows(m: ManagerModel, calls: Seq<(StateModel, u64)>, i: int, j: int)
    requires
        0 <= i < j <= calls.len(),
        commanded(m, calls, i),
    ensures
        after_calls(m, calls.take(j)).last_split_time matches Some(t) && t >= calls[i].1,
    decreases j,
{
    let before = after_calls(m, calls.take(j - 1));
    assert(calls.take(j).drop_last() =~= calls.take(j - 1));
    lemma_commands_note_their_time(before, calls[j - 1].0, calls[j - 1].1);
    if i < j - 1 {
        lemma_last_time_grows(m, calls, i, j - 1);
    }
}

/// However often a manager is asked, two of its commands are never closer together than the split
/// interval.
pub proof fn law_commands_keep_their_distance(
    m: ManagerModel,
    calls: Seq<(StateModel, u64)>,
    i: int,
    j: int,
)
    requires
        0 <= i < j < calls.len(),
        commanded(m, calls, i),
        commanded(m, calls, j),
    ensures
        calls[j].1 - calls[i].1 >= MIN_SPLIT_INTERVAL,
{
    lemma_last_time_grows(m, calls, i, j);
    lemma_commands_note_their_time(after_calls(m, calls.take(j)), calls[j].0, calls[j].1);
}

/// A chunk is split in halves only if a worker is free, bytes arrive, at least
/// `MIN_USEFUL_REMAINDER` of the download is left, and the chunk can be split: a free worker alone
/// is no reason, and near the end nothing is split.
pub proof fn law_even_splits_need_evidence(m: ManagerModel, st: StateModel, now: u64)
    ensures
        decision(m, st, now).1 matches Some(DownloadCmd::BisectDownload { id }) ==> {
            &&& st.chunks.len() < m.max_workers
            &&& remaining(st) >= MIN_USEFUL_REMAINDER
            &&& mean(with_sample(m.speed_samples, state::capped(state::sum_speed(st.chunks)))) > 0
            &&& exists|i: int|
                0 <= i < st.chunks.len() && (#[trigger] st.chunks[i]).id == id
                    && st.chunks[i].spec_splittable(MIN_CHUNK_SIZE)
        },
{
    law_largest_has_the_most_left(st.chunks);
    law_slowest_is_slowest(st.chunks);
}

/// While a split is observed, nothing is decided.
pub proof fn law_observation_is_not_disturbed(m: ManagerModel, st: StateModel, now: u64)
    requires
        m.phase == DownloadPhase::Stable,
        m.observation_state == ObservationState::Observing,
        m.current_observation matches Some(o) && o.collected_samples + 1 < o.required_samples,
    ensures
        decision(m, st, now).1 is None,
{
}

/// A download whose speed stands at its best recent speed is left alone in the stable phase, unless
/// a chunk is stuck.
pub proof fn law_steady_speed_is_left_alone(m: ManagerModel, st: StateModel, now: u64)
    requires
        m.phase == DownloadPhase::Stable,
        m.observation_state == ObservationState::Ready,
        stuck_place(st.chunks, now) < 0,
        mean(with_sample(m.speed_samples, state::capped(state::sum_speed(st.chunks)))) * 5
            >= m.recent_best_speed * 4,
    ensures
        decision(m, st, now).1 is None,
{
}

/// A stalled chunk with much left is split `MAX_SKEWED_SPLITS` times; then its connection is given
/// up and the count starts anew.
pub proof fn law_stalled_connection_is_given_up(m: ManagerModel, c: ChunkState, now: u64, n: u32)
    requires
        c.spec_remaining() >= SMALL_TAIL_BYTES,
        n <= MAX_SKEWED_SPLITS,
        m.skewed_split_counts.contains_key(c.id) && m.skewed_split_counts[c.id] == n,
    ensures
        n < MAX_SKEWED_SPLITS ==> rescue(m, c, now).1 == Some(
            DownloadCmd::BisectDownloadSkewed { id: c.id },
        ) && rescue(m, c, now).0.skewed_split_counts[c.id] == n + 1,
        n == MAX_SKEWED_SPLITS ==> rescue(m, c, now).1 == Some(
            DownloadCmd::TerminateChunk { id: c.id },
        ) && !rescue(m, c, now).0.skewed_split_counts.contains_key(c.id),
{
}

/// A download in its stable phase never leaves a stuck chunk to itself. Where a chunk arrives at
/// less than 1024 B/s, is not complete and made no progress for 10 s, the slowest such chunk is acted
/// on: with at least 128 KiB left it is split, most of it going to a new connection, and after four
/// such splits its connection is given up; with less left its connection is given up at once, unless
/// that was done less than 10 s ago.
pub proof fn law_stuck_chunks_are_acted_on(m: ManagerModel, st: StateModel, now: u64, i: int)
    requires
        m.phase == DownloadPhase::Stable,
        m.observation_state == ObservationState::Ready,
        m.last_split_time matches Some(t) ==> now - t >= 150_000_000,
        0 <= i < st.chunks.len(),
        st.chunks[i].speed < 1_024_000,
        st.chunks[i].spec_remaining() > 0,
        now - st.chunks[i].last_progress_at >= 10_000_000_000,
    ensures
        ({
            let (n, cmd) = decision(m, st, now);
            exists|j: int| #![trigger st.chunks[j]]
                {
                    let c = st.chunks[j];
                    let before = if m.skewed_split_counts.contains_key(c.id) {
                        m.skewed_split_counts[c.id] as int
                    } else {
                        0
                    };
                    &&& 0 <= j < st.chunks.len()
                    &&& c.speed < 1_024_000
                    &&& c.spec_remaining() > 0
                    &&& now - c.last_progress_at >= 10_000_000_000
                    &&& forall|k: int|
                        0 <= k < st.chunks.len() && (#[trigger] st.chunks[k]).spec_remaining() > 0
                            && now - st.chunks[k].last_progress_at >= 10_000_000_000
                            ==> st.chunks[k].speed >= c.speed
                    &&& c.spec_remaining() >= 131_072 && before < 4 ==> {
                        &&& cmd == Some(DownloadCmd::BisectDownloadSkewed { id: c.id })
                        &&& n.skewed_split_counts == m.skewed_split_counts.insert(
                            c.id,
                            (before + 1) as u32,
                        )
                        &&& n.last_split_time == Some(now)
                    }
                    &&& c.spec_remaining() >= 131_072 && before >= 4 ==> {
                        &&& cmd == Some(DownloadCmd::TerminateChunk { id: c.id })
                        &&& !n.skewed_split_counts.contains_key(c.id)
                        &&& n.last_split_time == Some(now)
                    }
                    &&& c.spec_remaining() < 131_072 && (m.last_steal_time.contains_key(c.id)
                        ==> now - m.last_steal_time[c.id] >= 10_000_000_000) ==> {
                        &&& cmd == Some(DownloadCmd::TerminateChunk { id: c.id })
                        &&& n.last_steal_time == m.last_steal_time.insert(c.id, now)
                        &&& n.last_split_time == Some(now)
                    }
                    &&& c.spec_remaining() < 131_072 && m.last_steal_time.contains_key(c.id) && now
                        - m.last_steal_time[c.id] < 10_000_000_000 ==> cmd is None
                }
        }),
{
    law_stuck_chunk_is_found(st.chunks, now);
    assert(is_stuck(st.chunks[i], now));
    let j = stuck_place(st.chunks, now);
    let c = st.chunks[j];
    assert(is_stuck(c, now));
    assert forall|k: int|
        0 <= k < st.chunks.len() && (#[trigger] st.chunks[k]).spec_remaining() > 0 && now
            - st.chunks[k].last_progress_at >= 10_000_000_000 implies st.chunks[k].speed
        >= c.speed by {
        if st.chunks[k].speed < 1_024_000 {
            assert(is_stuck(st.chunks[k], now));
        }
    }
}

/// The samples added up are their sum.
proof fn lemma_sample_sum(s: Seq<u64>)
    ensures
        sample_sum(s) == s.fold_left(0int, |a: int, x: u64| a + x),
        0 <= sample_sum(s) <= s.len() * u64::MAX,
    decreases s.len(),
{
    if s.len() > 0 {
        lemma_sample_sum(s.drop_last());
        let n = s.len() as int;
        assert((n - 1) * u64::MAX + u64::MAX == n * u64::MAX) by (nonlinear_arith);
    }
}

/// The mean of samples, times their number, is their sum up to what the division leaves.
pub proof fn law_mean_times_number_is_the_sum(s: Seq<u64>)
    requires
        s.len() > 0,
    ensures
        mean(s) * s.len() <= s.fold_left(0int, |a: int, x: u64| a + x) < (mean(s) + 1) * s.len(),
{
    lemma_sample_sum(s);
    let n = s.len() as int;
    let sum = sample_sum(s);
    assert(sum / n <= u64::MAX && n * (sum / n) <= sum < n * (sum / n + 1) && 0 <= sum / n)
        by (nonlinear_arith)
        requires
            0 <= sum <= n * u64::MAX,
            n > 0,
    ;
    let q = sum / n;
    assert(q * n == n * q && (q + 1) * n == n * (q + 1)) by (nonlinear_arith);
}

/// The samples that are kept are the latest ones, five at most, in their order.
pub proof fn law_the_latest_samples_are_kept(s: Seq<u64>, x: u64)
    requires
        s.len() <= 5,
    ensures
        with_sample(s, x).len() == (if s.len() < 5 {
            s.len() + 1
        } else {
            5
        }),
        with_sample(s, x).last() == x,
        s.push(x).skip(s.len() + 1 - with_sample(s, x).len()) == with_sample(s, x),
{
    assert(s.push(x).skip(0) =~= s.push(x));
}

/// Every decision that is not too soon takes the present speed of all chunks as a sample; the best
/// mean speed never falls, and is no less than the mean speed of the samples kept.
pub proof fn law_every_decision_takes_a_sample(m: ManagerModel, st: StateModel, now: u64)
    requires
        m.speed_samples.len() <= 5,
        m.last_split_time matches Some(t) ==> now - t >= 150_000_000,
    ensures
        ({
            let n = decision(m, st, now).0;
            let kept = with_sample(m.speed_samples, state::capped(state::sum_speed(st.chunks)));
            &&& n.speed_samples == kept || (m.phase == DownloadPhase::Probing && n.phase
                == DownloadPhase::Stable && n.speed_samples.len() == 0)
            &&& n.max_speed >= m.max_speed
            &&& n.max_speed >= mean(kept)
            &&& n.max_speed == m.max_speed || n.max_speed == mean(kept)
            &&& n.max_workers == m.max_workers
            &&& n.update_interval == m.update_interval
        }),
{
}

/// Within 150 ms of the last command nothing is decided and nothing is sampled.
pub proof fn law_nothing_happens_too_soon(m: ManagerModel, st: StateModel, now: u64)
    requires
        m.last_split_time matches Some(t) && now - t < 150_000_000,
    ensures
        decision(m, st, now) == (m, None::<DownloadCmd>),
{
}

/// While connections are being added, a download that has become a tenth faster gets another one:
/// the chunk with the most left is split, provided that a worker is free, at least 256 KiB are
/// missing, and the rest would still take long enough.
pub proof fn law_growth_is_followed_up(m: ManagerModel, st: StateModel, now: u64, i: int)
    requires
        m.phase == DownloadPhase::Probing,
        m.last_split_time matches Some(t) ==> now - t >= 150_000_000,
        st.chunks.len() < m.max_workers,
        0 <= i < st.chunks.len(),
        st.chunks[i].spec_remaining() >= 20_480,
        st.total_file_size - st.accounted() >= 262_144,
        ({
            let avg = mean(
                with_sample(m.speed_samples, state::capped(state::sum_speed(st.chunks))),
            );
            &&& avg > 0
            &&& (st.total_file_size - st.accounted()) * 100_000 > avg * useful_time(
                st.total_file_size,
                st.chunks.len() as int,
            )
            &&& m.max_speed == 0 || avg * 10 > m.max_speed * 11
        }),
    ensures
        exists|j: int| #![trigger st.chunks[j]]
            {
                &&& 0 <= j < st.chunks.len()
                &&& st.chunks[j].spec_remaining() >= 20_480
                &&& forall|k: int|
                    0 <= k < st.chunks.len() ==> (#[trigger] st.chunks[k]).spec_remaining()
                        <= st.chunks[j].spec_remaining()
                &&& decision(m, st, now).1 == Some(
                    DownloadCmd::BisectDownload { id: st.chunks[j].id },
                )
            },
        decision(m, st, now).0.phase == DownloadPhase::Probing,
        decision(m, st, now).0.last_split_time == Some(now),
{
    state::lemma_accounted(st);
    law_largest_has_the_most_left(st.chunks);
    assert(st.chunks[i].spec_splittable(MIN_CHUNK_SIZE));
    let j = largest_place(st.chunks);
    assert(st.chunks[j].spec_remaining() >= 20_480);
    assert forall|k: int| 0 <= k < st.chunks.len() implies (
    #[trigger] st.chunks[k]).spec_remaining() <= st.chunks[j].spec_remaining() by {
        if st.chunks[k].spec_remaining() >= 20_480 {
            assert(st.chunks[k].spec_splittable(MIN_CHUNK_SIZE));
        }
    }
}

/// Connections are no longer added once every worker has a chunk, or once several connections have
/// brought no gain of a tenth: then the stable phase begins, without a command.
pub proof fn law_probing_comes_to_an_end(m: ManagerModel, st: StateModel, now: u64)
    requires
        m.phase == DownloadPhase::Probing,
        m.last_split_time matches Some(t) ==> now - t >= 150_000_000,
    ensures
        ({
            let avg = mean(
                with_sample(m.speed_samples, state::capped(state::sum_speed(st.chunks))),
            );
            let (n, cmd) = decision(m, st, now);
            let full = st.chunks.len() >= m.max_workers;
            let worth = avg > 0 && st.total_file_size - st.accounted() >= 262_144 && (
            st.total_file_size - st.accounted()) * 100_000 > avg * useful_time(
                st.total_file_size,
                st.chunks.len() as int,
            );
            let gain = m.max_speed == 0 || avg * 10 > m.max_speed * 11;
            &&& full ==> n.phase == DownloadPhase::Stable && cmd is None
            &&& worth && !gain && st.chunks.len() > 1 && m.speed_samples.len() >= 2 && m.speed_samples.len()
                <= 5 ==> n.phase == DownloadPhase::Stable && cmd is None
            &&& !full && !worth ==> n.phase == DownloadPhase::Probing && cmd is None
            &&& !full && !gain && (st.chunks.len() <= 1 || m.speed_samples.len() < 2) ==> n.phase
                == DownloadPhase::Probing && cmd is None
            &&& n.phase == DownloadPhase::Stable ==> n.observation_state == ObservationState::Ready
                && n.speed_samples.len() == 0 && n.recent_best_speed == n.max_speed
        }),
{
    state::lemma_accounted(st);
}

/// A stable download that has become a fifth slower than it was at its best, and of which no chunk is
/// stuck, gets one more connection: the slowest chunk is split in halves and the effect is observed.
/// A stalled chunk is split unevenly, or given up after four such splits; a chunk with less than
/// 500 kB left is left alone.
pub proof fn law_a_slow_download_is_split(m: ManagerModel, st: StateModel, now: u64, i: int)
    requires
        m.phase == DownloadPhase::Stable,
        m.observation_state == ObservationState::Ready,
        m.last_split_time matches Some(t) ==> now - t >= 150_000_000,
        forall|k: int|
            0 <= k < st.chunks.len() ==> (#[trigger] st.chunks[k]).speed >= 1_024_000 || now
                - st.chunks[k].last_progress_at < 10_000_000_000,
        st.chunks.len() < m.max_workers,
        0 <= i < st.chunks.len(),
        st.chunks[i].spec_remaining() >= 20_480,
        st.total_file_size - st.accounted() >= 262_144,
        ({
            let avg = mean(
                with_sample(m.speed_samples, state::capped(state::sum_speed(st.chunks))),
            );
            &&& avg > 0
            &&& (st.total_file_size - st.accounted()) * 100_000 > avg * useful_time(
                st.total_file_size,
                st.chunks.len() as int,
            )
            &&& avg * 5 < next_recent_best(m, avg) * 4
        }),
    ensures
        ({
            let avg = mean(
                with_sample(m.speed_samples, state::capped(state::sum_speed(st.chunks))),
            );
            let (n, cmd) = decision(m, st, now);
            exists|j: int| #![trigger st.chunks[j]]
                {
                    let c = st.chunks[j];
                    let before = if m.skewed_split_counts.contains_key(c.id) {
                        m.skewed_split_counts[c.id] as int
                    } else {
                        0
                    };
                    &&& 0 <= j < st.chunks.len()
                    &&& c.spec_remaining() >= 20_480
                    &&& forall|k: int|
                        0 <= k < st.chunks.len() && (#[trigger] st.chunks[k]).spec_remaining()
                            >= 20_480 ==> st.chunks[k].speed >= c.speed
                    &&& c.speed >= 1_024_000 && c.spec_remaining() >= 500_000 ==> {
                        &&& cmd == Some(DownloadCmd::BisectDownload { id: c.id })
                        &&& n.observation_state == ObservationState::Observing
                        &&& n.current_observation matches Some(o) && o.pre_split_speed == avg
                            && o.best_speed_seen == avg && o.collected_samples == 0
                            && o.pre_split_recent_best == n.recent_best_speed && 2
                            <= o.required_samples <= 5
                        &&& n.last_split_time == Some(now)
                    }
                    &&& c.speed >= 1_024_000 && c.spec_remaining() < 500_000 ==> cmd is None
                    &&& c.speed < 1_024_000 && c.spec_remaining() >= 131_072 && before < 4 ==> cmd
                        == Some(DownloadCmd::BisectDownloadSkewed { id: c.id })
                    &&& c.speed < 1_024_000 && c.spec_remaining() >= 131_072 && before >= 4 ==> cmd
                        == Some(DownloadCmd::TerminateChunk { id: c.id })
                    &&& c.speed < 1_024_000 && c.spec_remaining() < 131_072 ==> cmd is None
                }
        }),
{
    state::lemma_accounted(st);
    law_stuck_chunk_is_found(st.chunks, now);
    law_slowest_is_slowest(st.chunks);
    if stuck_place(st.chunks, now) >= 0 {
        assert(is_stuck(st.chunks[stuck_place(st.chunks, now)], now));
        assert(false);
    }
    assert(st.chunks[i].spec_splittable(MIN_CHUNK_SIZE));
    let j = slowest_place(st.chunks);
    let c = st.chunks[j];
    assert(c.spec_remaining() >= 20_480);
    assert forall|k: int|
        0 <= k < st.chunks.len() && (#[trigger] st.chunks[k]).spec_remaining()
            >= 20_480 implies st.chunks[k].speed >= c.speed by {
        assert(st.chunks[k].spec_splittable(MIN_CHUNK_SIZE));
    }
    law_needed_samples_cover_a_second(m.update_interval);
}

/// Once the last sample of an observed split is in, the split is judged. It paid if the best speed
/// seen is above the speed before by more than a twentieth, and above 95 % of what had been the best
/// recent speed. Then the chunk with the most left is split next, where a worker is free and the
/// rest is worth it. If it did not pay, nothing follows. Either way the next slow-down may be acted
/// on.
pub proof fn law_observed_splits_are_judged(
    m: ManagerModel,
    st: StateModel,
    now: u64,
    o: SplitObservation,
)
    requires
        m.phase == DownloadPhase::Stable,
        m.observation_state == ObservationState::Observing,
        m.current_observation == Some(o),
        o.collected_samples + 1 >= o.required_samples,
        m.last_split_time matches Some(t) ==> now - t >= 150_000_000,
    ensures
        ({
            let speed = state::capped(state::sum_speed(st.chunks));
            let avg = mean(with_sample(m.speed_samples, speed));
            let best = if speed >= o.best_speed_seen {
                speed
            } else {
                o.best_speed_seen
            };
            let paid = best * 100 > o.pre_split_speed * 105 && best * 100 > o.pre_split_recent_best
                * 95;
            let worth = avg > 0 && st.total_file_size - st.accounted() >= 262_144 && (
            st.total_file_size - st.accounted()) * 100_000 > avg * useful_time(
                st.total_file_size,
                st.chunks.len() as int,
            );
            let free = st.chunks.len() < m.max_workers;
            let room = exists|k: int|
                0 <= k < st.chunks.len() && (#[trigger] st.chunks[k]).spec_remaining() >= 20_480;
            let (n, cmd) = decision(m, st, now);
            &&& cmd is Some <==> paid && worth && free && room
            &&& cmd is None ==> n.observation_state == ObservationState::Ready
                && n.current_observation is None
            &&& cmd is Some ==> {
                &&& n.observation_state == ObservationState::Observing
                &&& n.current_observation matches Some(p) && p.collected_samples == 0
                    && p.pre_split_speed == avg
                &&& exists|j: int| #![trigger st.chunks[j]]
                    {
                        &&& 0 <= j < st.chunks.len()
                        &&& cmd == Some(DownloadCmd::BisectDownload { id: st.chunks[j].id })
                        &&& forall|k: int|
                            0 <= k < st.chunks.len() ==> (#[trigger] st.chunks[k]).spec_remaining()
                                <= st.chunks[j].spec_remaining()
                    }
            }
            &&& paid ==> n.recent_best_speed >= best
        }),
{
    state::lemma_accounted(st);
    law_largest_has_the_most_left(st.chunks);
    let j = largest_place(st.chunks);
    if exists|k: int|
        0 <= k < st.chunks.len() && (#[trigger] st.chunks[k]).spec_remaining() >= 20_480 {
        let k = choose|k: int|
            0 <= k < st.chunks.len() && (#[trigger] st.chunks[k]).spec_remaining() >= 20_480;
        assert(st.chunks[k].spec_splittable(MIN_CHUNK_SIZE));
    }
    if j >= 0 {
        assert(st.chunks[j].spec_remaining() >= 20_480);
        assert forall|k: int| 0 <= k < st.chunks.len() implies (
        #[trigger] st.chunks[k]).spec_remaining() <= st.chunks[j].spec_remaining() by {
            if st.chunks[k].spec_remaining() >= 20_480 {
                assert(st.chunks[k].spec_splittable(MIN_CHUNK_SIZE));
            }
        }
    }
}

/// An observation takes as few samples as cover a second, but at least two and at most five.
pub proof fn law_needed_samples_cover_a_second(update_interval: u64)
    ensures
        2 <= samples_needed(update_interval) <= 5,
        samples_needed(update_interval) < 5 ==> samples_needed(update_interval) * update_interval
            >= 1_000_000_000,
        samples_needed(update_interval) > 2 && update_interval >= 50_000_000 ==> (samples_needed(
            update_interval,
        ) - 1) * update_interval < 1_000_000_000,
{
    let iv: int = if update_interval >= 50_000_000 {
        update_interval as int
    } else {
        50_000_000
    };
    let n = (1_000_000_000 + iv - 1) / iv;
    assert(iv * n <= 1_000_000_000 + iv - 1 < iv * (n + 1)) by (nonlinear_arith)
        requires
            iv > 0,
            n == (1_000_000_000 + iv - 1) / iv,
    ;
    assert(iv * (n + 1) == iv * n + iv && (n - 1) * iv == iv * n - iv && n * iv == iv * n)
        by (nonlinear_arith);
    if iv == 50_000_000 {
        assert(n == 20);
    }
    if n < 2 {
        assert(n * iv <= 2 * iv) by (nonlinear_arith)
            requires
                n < 2,
                iv > 0,
        ;
    }
    if n > 5 {
        assert(4 * iv <= (n - 1) * iv) by (nonlinear_arith)
            requires
                n > 5,
                iv > 0,
        ;
    }
}

/// The larger the file, the sooner a split is worth it; a download with a single chunk needs two
/// fifths of the time. The time is three seconds for a file below 1 MiB and 0.8 s from 20 MiB on.
pub proof fn law_large_files_are_split_sooner(a: u64, b: u64, n: int)
    requires
        a <= b,
    ensures
        useful_time(a, n) >= useful_time(b, n),
        useful_time(a, 1) * 5 == useful_time(a, 2) * 2,
        n != 1 ==> useful_time(a, n) == useful_time(a, 2),
        a < 1_048_576 ==> useful_time(a, 2) == 300,
        1_048_576 <= a < 5_242_880 ==> useful_time(a, 2) == 180,
        a >= 20_971_520 ==> useful_time(a, 2) == 80,
{
}

/// The best recent speed rises with the mean speed at once. It falls only while a stable download
/// waits for a slow-down, by no more than three hundredths at a time, and never below the mean
/// speed.
pub proof fn law_the_best_speed_fades_slowly(m: ManagerModel, avg: u64)
    ensures
        ({
            let best = next_recent_best(m, avg);
            &&& avg > m.recent_best_speed ==> best == avg
            &&& avg <= m.recent_best_speed ==> avg <= best <= m.recent_best_speed
            &&& avg <= m.recent_best_speed && (m.phase != DownloadPhase::Stable
                || m.observation_state != ObservationState::Ready) ==> best == m.recent_best_speed
            &&& best * 100 >= m.recent_best_speed * 97 - 99
            &&& m.phase == DownloadPhase::Stable && m.observation_state == ObservationState::Ready
                && avg * 100 < m.recent_best_speed * 97 - 99 ==> best * 100 <= m.recent_best_speed
                * 97
        }),
{
}

/// Only a chunk slower than 1024 B/s is split unevenly or loses its connection. It is split only with
/// at least 128 KiB left. A chunk is split in halves only where at least 20 KiB of it and 256 KiB of
/// the download are missing, and where a worker is free.
pub proof fn law_commands_have_their_reasons(m: ManagerModel, st: StateModel, now: u64)
    ensures
        decision(m, st, now).1 matches Some(cmd) ==> {
            ||| cmd matches DownloadCmd::BisectDownload { id } && st.chunks.len() < m.max_workers
                && st.total_file_size - st.accounted() >= 262_144 && exists|i: int|
                0 <= i < st.chunks.len() && (#[trigger] st.chunks[i]).id == id
                    && st.chunks[i].spec_remaining() >= 20_480
            ||| cmd matches DownloadCmd::BisectDownloadSkewed { id } && m.phase
                == DownloadPhase::Stable && exists|i: int|
                0 <= i < st.chunks.len() && (#[trigger] st.chunks[i]).id == id
                    && st.chunks[i].spec_remaining() >= 131_072 && st.chunks[i].speed < 1_024_000
            ||| cmd matches DownloadCmd::TerminateChunk { id } && m.phase == DownloadPhase::Stable
                && exists|i: int|
                0 <= i < st.chunks.len() && (#[trigger] st.chunks[i]).id == id
                    && st.chunks[i].speed < 1_024_000
        },
{
    state::lemma_accounted(st);
    law_stuck_chunk_is_found(st.chunks, now);
    law_largest_has_the_most_left(st.chunks);
    law_slowest_is_slowest(st.chunks);
    if decision(m, st, now).1 is Some {
        let stuck = stuck_place(st.chunks, now);
        let slow = slowest_place(st.chunks);
        let large = largest_place(st.chunks);
        if stuck >= 0 {
            assert(is_stuck(st.chunks[stuck], now));
        }
        if slow >= 0 {
            assert(st.chunks[slow].spec_remaining() >= 20_480);
        }
        if large >= 0 {
            assert(st.chunks[large].spec_remaining() >= 20_480);
        }
    }
}

/// A new manager has seen nothing and may decide at once. It adds connections while that pays, unless
/// there is a single worker; an update interval of 0 stands for half a second.
pub proof fn law_new_managers_probe(max_workers: u64, update_interval: u64)
    ensures
        ({
            let m = initial(max_workers, update_interval);
            &&& m.max_workers == max_workers
            &&& m.phase == DownloadPhase::Stable <==> max_workers == 1
            &&& m.observation_state == ObservationState::Ready && m.current_observation is None
            &&& m.last_split_time is None
            &&& m.max_speed == 0 && m.recent_best_speed == 0 && m.speed_samples.len() == 0
            &&& m.skewed_split_counts == Map::<ChunkId, u32>::empty()
            &&& m.last_steal_time == Map::<ChunkId, u64>::empty()
            &&& update_interval > 0 ==> m.update_interval == update_interval
            &&& update_interval == 0 ==> m.update_interval == 500_000_000
        }),
{
}

/// An observation that needs more samples takes the present speed in: it counts one more, and the best
/// speed seen is that of all samples. It goes on being observed.
pub proof fn law_observations_gather_samples(
    m: ManagerModel,
    st: StateModel,
    now: u64,
    o: SplitObservation,
)
    requires
        m.phase == DownloadPhase::Stable,
        m.observation_state == ObservationState::Observing,
        m.current_observation == Some(o),
        o.collected_samples + 1 < o.required_samples,
        m.last_split_time matches Some(t) ==> now - t >= 150_000_000,
    ensures
        ({
            let n = decision(m, st, now).0;
            let speed = state::capped(state::sum_speed(st.chunks));
            &&& n.phase == DownloadPhase::Stable
            &&& n.observation_state == ObservationState::Observing
            &&& n.current_observation matches Some(p) && p.collected_samples
                == o.collected_samples + 1 && p.required_samples == o.required_samples
                && p.pre_split_speed == o.pre_split_speed && p.pre_split_recent_best
                == o.pre_split_recent_best && p.best_speed_seen >= speed && p.best_speed_seen
                >= o.best_speed_seen && (p.best_speed_seen == speed || p.best_speed_seen
                == o.best_speed_seen)
        }),
{
}

} // verus!
