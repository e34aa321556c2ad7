//! The monitor: it turns the reports of chunks, and the passing of time, into progress reports,
//! commands and new chunks.

use crate::concurrency;
use crate::concurrency::{ConcurrencyManager, ManagerModel};
use crate::config::RuntimeConfig;
use crate::lane;
use crate::limiter;
use crate::limiter::{runtime_limiter_from_config, LimiterSettings};
use crate::retry;
use crate::retry::{FailedChunkInfo, RetryHandler, RetryModel};
use crate::source;
use crate::source::{LaneClaim, MultiRuntime, RuntimeModel};
use crate::state;
use crate::state::{ChunkState, DownloadState, StateModel};
use crate::text;
use crate::text::{push_number, push_text};
use crate::types::{ChunkId, DownloadCmd, DownloadError, DownloadInfo, InfoView};
use std::collections::{HashMap, VecDeque};
use vstd::prelude::*;

verus! {

broadcast use vstd::std_specs::hash::group_hash_axioms;

/// The weight of a new speed sample, in hundredths.
pub const SMOOTHING_PERCENT: u64 = 30;

/// What the monitor wants done.
#[derive(Debug)]
pub enum MonitorAction {
    /// Send a report to whoever listens.
    Notify(DownloadInfo),
    /// Send a command to the chunks.
    Command(DownloadCmd),
    /// Start a chunk, on a lane where there are several sources.
    Spawn { id: ChunkId, start: u64, end: u64, lane: Option<LaneClaim> },
}

/// An action in mathematical terms.
pub enum ActionView {
    Notify { info: InfoView },
    Command { cmd: DownloadCmd },
    Spawn { id: ChunkId, start: u64, end: u64, lane: Option<LaneClaim> },
}

impl View for MonitorAction {
    type V = ActionView;

    open spec fn view(&self) -> ActionView {
        match *self {
            MonitorAction::Notify(info) => ActionView::Notify { info: info@ },
            MonitorAction::Command(cmd) => ActionView::Command { cmd },
            MonitorAction::Spawn { id, start, end, lane } => ActionView::Spawn {
                id,
                start,
                end,
                lane,
            },
        }
    }
}

/// Actions in mathematical terms.
pub open spec fn action_views(s: Seq<MonitorAction>) -> Seq<ActionView> {
    Seq::new(s.len(), |i: int| s[i]@)
}

/// What reaches the monitor of a running download.
#[derive(Debug)]
pub enum MonitorEvent {
    /// A report that came the reliable way.
    Reliable(DownloadInfo),
    /// A report that was broadcast.
    Broadcast(DownloadInfo),
    /// Broadcast reports were lost.
    Lagged { skipped: u64 },
    /// Nobody broadcasts any more.
    Closed,
    /// A chunk's task has ended, and `running` others have not.
    TaskJoined { running: usize },
    /// `elapsed` nanoseconds have passed since the last tick, and the tasks of `running` chunks have
    /// not ended.
    Tick { elapsed: u64, running: usize },
}

/// An event in mathematical terms.
pub enum EventView {
    Reliable { info: InfoView },
    Broadcast { info: InfoView },
    Lagged { skipped: u64 },
    Closed,
    TaskJoined { running: usize },
    Tick { elapsed: u64, running: usize },
}

impl View for MonitorEvent {
    type V = EventView;

    open spec fn view(&self) -> EventView {
        match *self {
            MonitorEvent::Reliable(info) => EventView::Reliable { info: info@ },
            MonitorEvent::Broadcast(info) => EventView::Broadcast { info: info@ },
            MonitorEvent::Lagged { skipped } => EventView::Lagged { skipped },
            MonitorEvent::Closed => EventView::Closed,
            MonitorEvent::TaskJoined { running } => EventView::TaskJoined { running },
            MonitorEvent::Tick { elapsed, running } => EventView::Tick { elapsed, running },
        }
    }
}

/// Whether a download goes on.
#[derive(Debug)]
pub enum Verdict {
    GoOn,
    Done,
    Failed(DownloadError),
}

/// How a change of the settings concerns the rate limiter.
#[derive(Debug, Clone, Copy, PartialEq, Eq, Structural)]
pub enum LimiterChange {
    /// The settings are not valid; the limiter stays as it is.
    Keep,
    /// A limiter with these settings is put in place.
    Install { settings: LimiterSettings },
    /// The limiter in place gets these settings.
    Reconfigure { settings: LimiterSettings },
    /// The limiter, if there is one, is taken out of use.
    Disable,
}

/// Coordinates the state of a download, the retries, the splits and the lanes.
#[derive(Debug)]
pub struct DownloadMonitor {
    pub state: DownloadState,
    pub retry_handler: RetryHandler,
    pub concurrency_manager: ConcurrencyManager,
    /// The lane that each active chunk runs on.
    pub lane_bindings: HashMap<ChunkId, String>,
    /// Ranges that wait for room on a lane.
    pub pending_bisects: VecDeque<(u64, u64)>,
    /// The time between two progress reports, in nanoseconds.
    pub update_interval: u64,
    /// Reports that were lost on the way.
    pub lagged_count: u64,
    pub is_rate_limited: bool,
    pub global_limiter: Option<LimiterSettings>,
    pub next_chunk_id: ChunkId,
    /// The lanes, for a download from several sources.
    pub runtime: Option<MultiRuntime>,
}

/// The monitor in mathematical terms, without what only the settings change.
#[verifier::ext_equal]
pub struct MonitorModel {
    pub st: StateModel,
    pub retry: RetryModel,
    pub conc: ManagerModel,
    pub bindings: Map<ChunkId, String>,
    pub pending: Seq<(u64, u64)>,
    pub next_id: ChunkId,
    pub lanes: Option<RuntimeModel>,
    pub limited: bool,
}

/// Room for one more chunk: the lanes afterwards, whether there is room, and the lane. Without lanes
/// there always is.
pub open spec fn seek_room(lanes: Option<RuntimeModel>, now: u64) -> (
    Option<RuntimeModel>,
    bool,
    Option<LaneClaim>,
) {
    match lanes {
        None => (None, true, None),
        Some(m) => (Some(source::claim(m, now).0), source::claim(m, now).1 is Some, source::claim(
            m,
            now,
        ).1),
    }
}

/// The chunk `id` runs from now on.
pub open spec fn started(
    m: MonitorModel,
    id: ChunkId,
    start: u64,
    end: u64,
    lane: Option<LaneClaim>,
    now: u64,
) -> MonitorModel {
    MonitorModel {
        st: m.st.with(state::fresh_chunk(id, start, end, now)),
        bindings: match lane {
            Some(c) => m.bindings.insert(id, c.lane_id),
            None => m.bindings,
        },
        ..m
    }
}

/// The next chunk id.
pub open spec fn next_id(id: ChunkId) -> ChunkId {
    if id < u64::MAX {
        (id + 1) as u64
    } else {
        0
    }
}

/// The chunk `id` no longer runs on its lane.
pub open spec fn unbound(m: MonitorModel, id: ChunkId, success: bool, now: u64) -> MonitorModel {
    MonitorModel {
        bindings: m.bindings.remove(id),
        lanes: if m.bindings.contains_key(id) && m.lanes is Some {
            Some(source::released(m.lanes->0, m.bindings[id]@, success, now))
        } else {
            m.lanes
        },
        ..m
    }
}

/// A chunk after a report.
pub open spec fn reported(c: ChunkState, end_byte: u64, downloaded: u64, now: u64) -> ChunkState {
    let grown = ChunkState { end_byte, ..state::progressed(c, downloaded, now) };
    if c.status != 0 {
        ChunkState { status: 0, status_message: None, status_changed_at: now, ..grown }
    } else {
        grown
    }
}

/// Progress comes too late: the chunk has ended since, or is tried again from elsewhere.
pub open spec fn late(m: MonitorModel, id: ChunkId, start_byte: u64) -> bool {
    if m.st.knows(id) {
        m.st.chunk(id).start_byte != start_byte && m.retry.in_all.contains_key(id)
    } else {
        id < m.next_id
    }
}

/// A new range starts as a chunk of its own, or waits if no lane has room.
pub open spec fn opened(m: MonitorModel, start: u64, end: u64, now: u64) -> (
    MonitorModel,
    Seq<ActionView>,
) {
    let (lanes, room, lane) = seek_room(m.lanes, now);
    if room {
        (
            started(
                MonitorModel { lanes, next_id: next_id(m.next_id), ..m },
                m.next_id,
                start,
                end,
                lane,
                now,
            ),
            seq![ActionView::Spawn { id: m.next_id, start, end, lane }],
        )
    } else {
        (MonitorModel { lanes, pending: m.pending.push((start, end)), ..m }, Seq::empty())
    }
}

/// The chunk `id` gave away what lies from `new_start` on. Its own next report tells its new end.
pub open spec fn shortened(st: StateModel, id: ChunkId, new_start: u64) -> StateModel {
    if st.knows(id) && st.chunk(id).start_byte < new_start <= st.chunk(id).held_end() {
        st.with(ChunkState { kept_end: (new_start - 1) as u64, ..st.chunk(id) })
    } else {
        st
    }
}

/// The chunk `id` ends with what it still holds.
pub open spec fn trimmed(st: StateModel, id: ChunkId) -> StateModel {
    if st.knows(id) {
        st.with(ChunkState { end_byte: st.chunk(id).held_end(), ..st.chunk(id) })
    } else {
        st
    }
}

/// A chunk that is trimmed leaves the same chunks behind when it goes.
pub proof fn lemma_trimmed(st: StateModel, id: ChunkId)
    ensures
        state::without_chunk(trimmed(st, id).chunks, id) == state::without_chunk(st.chunks, id),
        trimmed(st, id).knows(id) == st.knows(id),
        st.knows(id) ==> trimmed(st, id).chunk(id) == (ChunkState {
            end_byte: st.chunk(id).held_end(),
            ..st.chunk(id)
        }),
{
    if st.knows(id) {
        state::lemma_place(st.chunks, id);
        let p = state::place(st.chunks, id);
        let t = trimmed(st, id).chunks;
        state::lemma_place_is(t, id, p);
        assert(t.remove(p) =~= st.chunks.remove(p));
    }
}

/// What a report changes, and what is done about it.
///
/// Progress counts only for a chunk that runs, and only from its present attempt: a report that
/// arrives late is ignored. A chunk that completes counts with exactly what it still holds.
pub open spec fn on_report(m: MonitorModel, info: InfoView, now: u64) -> (
    MonitorModel,
    Seq<ActionView>,
) {
    match info {
        InfoView::ChunkProgress { id, start_byte, end_byte, downloaded } => if late(
            m,
            id,
            start_byte,
        ) {
            (m, Seq::empty())
        } else {
            let c = if m.st.knows(id) {
                m.st.chunk(id)
            } else {
                state::fresh_chunk(id, start_byte, end_byte, now)
            };
            (
                MonitorModel { st: m.st.with(reported(c, end_byte, downloaded, now)), ..m },
                if c.status != 0 {
                    seq![
                        ActionView::Notify {
                            info: InfoView::ChunkStatusChanged { id, status: 0, message: None },
                        },
                    ]
                } else {
                    Seq::empty()
                },
            )
        },
        InfoView::DownloadComplete { id } => (
            unbound(
                MonitorModel {
                    st: trimmed(m.st, id).completed(id),
                    retry: retry::forgotten(m.retry, id),
                    ..m
                },
                id,
                true,
                now,
            ),
            seq![
                ActionView::Notify {
                    info: InfoView::ChunkStatusChanged { id, status: 4, message: None },
                },
            ],
        ),
        InfoView::ChunkFailed { id, start, end, error } => (
            unbound(
                MonitorModel {
                    st: m.st.failed_at(id, start),
                    retry: retry::failure_model(m.retry, id, start, end, error, now),
                    ..m
                },
                id,
                false,
                now,
            ),
            seq![ActionView::Notify { info: retry::failure_notice(m.retry, id, error) }],
        ),
        InfoView::ChunkBisected { original_id, new_start, new_end } => opened(
            MonitorModel { st: shortened(m.st, original_id, new_start), ..m },
            new_start,
            new_end,
            now,
        ),
        _ => (m, Seq::empty()),
    }
}

/// The waiting ranges that find room start, first come first served.
pub open spec fn drained(m: MonitorModel, now: u64) -> (MonitorModel, Seq<ActionView>)
    decreases m.pending.len(),
{
    if m.pending.len() == 0 {
        (m, Seq::empty())
    } else {
        let (lanes, room, lane) = seek_room(m.lanes, now);
        if room {
            let (start, end) = m.pending[0];
            let (last, rest) = drained(
                started(
                    MonitorModel {
                        lanes,
                        pending: m.pending.skip(1),
                        next_id: next_id(m.next_id),
                        ..m
                    },
                    m.next_id,
                    start,
                    end,
                    lane,
                    now,
                ),
                now,
            );
            (last, seq![ActionView::Spawn { id: m.next_id, start, end, lane }] + rest)
        } else {
            (MonitorModel { lanes, ..m }, Seq::empty())
        }
    }
}

/// The report that a retry starts.
pub open spec fn retry_notice(c: FailedChunkInfo) -> InfoView {
    InfoView::ChunkStatusChanged {
        id: c.id,
        status: 1,
        message: Some("正在进行第 "@ + text::digits(c.attempts as nat) + " 次重试"@),
    }
}

/// The retries that are ready and find room start; those without room are given back at the end.
pub open spec fn retried(m: MonitorModel, now: u64) -> (
    MonitorModel,
    Seq<ActionView>,
    Seq<FailedChunkInfo>,
)
    decreases m.retry.retry.len(),
    via retried_decreases
{
    let p = retry::ready_place(m.retry.retry, now);
    if p < 0 {
        (m, Seq::empty(), Seq::empty())
    } else {
        let c = m.retry.retry[p];
        let (lanes, room, lane) = seek_room(m.lanes, now);
        let taken = MonitorModel {
            lanes,
            retry: RetryModel { retry: m.retry.retry.remove(p), ..m.retry },
            ..m
        };
        if room {
            let (last, rest, back) = retried(started(taken, c.id, c.start, c.end, lane, now), now);
            (
                last,
                seq![
                    ActionView::Notify { info: retry_notice(c) },
                    ActionView::Spawn { id: c.id, start: c.start, end: c.end, lane },
                ] + rest,
                back,
            )
        } else {
            let (last, rest, back) = retried(taken, now);
            (last, rest, seq![c] + back)
        }
    }
}

#[via_fn]
proof fn retried_decreases(m: MonitorModel, now: u64) {
    retry::lemma_ready_place(m.retry.retry, now);
}

/// Retries that wait anew.
pub open spec fn all_put_off(s: Seq<FailedChunkInfo>, now: u64) -> Seq<FailedChunkInfo> {
    Seq::new(s.len(), |i: int| retry::put_off(s[i], now))
}

/// All chunks after a speed sample.
pub open spec fn all_sampled(s: Seq<ChunkState>, elapsed: u64) -> Seq<ChunkState> {
    Seq::new(s.len(), |i: int| state::sampled(s[i], elapsed, SMOOTHING_PERCENT))
}

/// The entry of a chunk in a progress report.
pub open spec fn detail(c: ChunkState) -> (ChunkId, u64, u64, u64, u8) {
    (c.id, c.spec_size() as u64, c.downloaded_bytes, c.speed, c.status)
}

/// The progress report of the whole download.
pub open spec fn update_of(st: StateModel) -> InfoView {
    InfoView::MonitorUpdate {
        total_size: st.total_file_size,
        total_downloaded: st.downloaded(),
        total_speed: state::capped(state::sum_speed(st.chunks)),
        chunk_details: Seq::new(st.chunks.len(), |i: int| detail(st.chunks[i])),
    }
}

/// Nothing runs and nothing waits.
pub open spec fn idle(m: MonitorModel) -> bool {
    &&& m.pending.len() == 0
    &&& m.st.chunks.len() == 0
    &&& m.retry.retry.len() == 0
    &&& m.retry.delayed.len() == 0
}

/// The monitor after a speed sample and a decision on splits. A limited download is never split:
/// its speed says nothing about its connections.
pub open spec fn weighed(m: MonitorModel, elapsed: u64, now: u64) -> (
    MonitorModel,
    Option<DownloadCmd>,
) {
    let st = StateModel { chunks: all_sampled(m.st.chunks, elapsed), ..m.st };
    if m.limited {
        (MonitorModel { st, ..m }, None)
    } else {
        let (conc, cmd) = concurrency::decision(m.conc, st, now);
        (MonitorModel { st, conc, ..m }, cmd)
    }
}

/// What a tick changes and what is done: a progress report, a decision on splits, the waiting
/// ranges, and the retries.
pub open spec fn on_tick(m: MonitorModel, elapsed: u64, now: u64) -> (
    MonitorModel,
    Seq<ActionView>,
) {
    let (a, cmd) = weighed(m, elapsed, now);
    let (b, spawned) = drained(a, now);
    let (c, again, back) = retried(
        MonitorModel { retry: retry::processed(b.retry, now), ..b },
        now,
    );
    (
        MonitorModel {
            retry: RetryModel { retry: c.retry.retry + all_put_off(back, now), ..c.retry },
            ..c
        },
        seq![ActionView::Notify { info: update_of(a.st) }] + (match cmd {
            Some(d) => seq![ActionView::Command { cmd: d }],
            None => Seq::empty(),
        }) + spawned + again,
    )
}

/// A report travels on the channel that loses nothing if it changes which chunks there are.
pub open spec fn reliable(info: InfoView) -> bool {
    info is DownloadComplete || info is ChunkFailed || info is ChunkBisected
}

/// What an event changes, and what is done about it. Reports that also come the reliable way are not
/// taken from the broadcast.
pub open spec fn on_event(m: MonitorModel, e: EventView, now: u64) -> (
    MonitorModel,
    Seq<ActionView>,
) {
    match e {
        EventView::Reliable { info } => on_report(m, info, now),
        EventView::Broadcast { info } => if reliable(info) {
            (m, Seq::empty())
        } else {
            on_report(m, info, now)
        },
        EventView::Lagged { skipped } => (m, seq![ActionView::Notify { info: update_of(m.st) }]),
        EventView::Tick { elapsed, running } => if elapsed == 0 {
            (m, Seq::empty())
        } else {
            on_tick(m, elapsed, now)
        },
        _ => (m, Seq::empty()),
    }
}

/// Nothing runs and nothing waits, and every byte has been received.
pub open spec fn all_done(m: MonitorModel, running: usize) -> bool {
    running == 0 && idle(m) && m.st.finished()
}

/// Whether the download ends with an event that leads to `m`.
pub open spec fn ended(m: MonitorModel, e: EventView) -> bool {
    match e {
        EventView::Closed => true,
        EventView::TaskJoined { running } => all_done(m, running),
        EventView::Tick { elapsed, running } => elapsed > 0 && all_done(m, running),
        _ => false,
    }
}

/// Whether the download fails with an event that leads to `m`.
pub open spec fn failed(m: MonitorModel, e: EventView) -> bool {
    !ended(m, e) && m.retry.lost.len() > 0
}

/// The settings after a change: the limits change only if they are valid.
pub open spec fn limiter_change(cfg: RuntimeConfig, present: bool) -> LimiterChange {
    if limiter::runtime_limit_fault(cfg.speed_limit, cfg.burst) is Some {
        LimiterChange::Keep
    } else {
        match limiter::limit_settings(cfg.speed_limit, cfg.burst) {
            Some(settings) => if present {
                LimiterChange::Reconfigure { settings }
            } else {
                LimiterChange::Install { settings }
            },
            None => LimiterChange::Disable,
        }
    }
}

/// The monitor after a change of the settings that changes the limiter as `change` says.
pub open spec fn reconfigured(
    m: MonitorModel,
    cfg: RuntimeConfig,
    change: LimiterChange,
) -> MonitorModel {
    MonitorModel {
        conc: ManagerModel {
            max_workers: if cfg.workers >= 1 {
                cfg.workers
            } else {
                1
            },
            ..m.conc
        },
        limited: match change {
            LimiterChange::Keep => m.limited,
            LimiterChange::Disable => false,
            _ => true,
        },
        ..m
    }
}

/// The waiting ranges of a download start, each as a chunk of its own.
pub open spec fn all_opened(m: MonitorModel, ranges: Seq<(u64, u64)>, now: u64) -> (
    MonitorModel,
    Seq<ActionView>,
)
    decreases ranges.len(),
{
    if ranges.len() == 0 {
        (m, Seq::empty())
    } else {
        let (before, acts) = all_opened(m, ranges.drop_last(), now);
        let (after, more) = opened(before, ranges.last().0, ranges.last().1, now);
        (after, acts + more)
    }
}

/// A monitor to which nothing has happened yet.
pub open spec fn ready(
    total_file_size: u64,
    completed_bytes: u64,
    update_interval: u64,
    max_workers: u64,
    lanes: Option<RuntimeModel>,
    limited: bool,
) -> MonitorModel {
    MonitorModel {
        st: StateModel {
            total_file_size,
            chunks: Seq::empty(),
            completed_bytes: if completed_bytes <= total_file_size {
                completed_bytes
            } else {
                total_file_size
            },
        },
        retry: RetryModel {
            retry: Seq::empty(),
            delayed: Seq::empty(),
            in_row: Map::empty(),
            in_all: Map::empty(),
            lost: Seq::empty(),
            last_failure: None,
        },
        conc: concurrency::initial(max_workers, update_interval),
        bindings: Map::empty(),
        pending: Seq::empty(),
        next_id: 0,
        lanes,
        limited,
    }
}

/// Whether a report travels on the channel that loses nothing.
pub fn is_reliable_event(info: &DownloadInfo) -> (r: bool)
    ensures
        r == reliable(info@),
{
    match info {
        DownloadInfo::DownloadComplete(_) => true,
        DownloadInfo::ChunkFailed { .. } => true,
        DownloadInfo::ChunkBisected { .. } => true,
        _ => false,
    }
}

/// The download has the same sources, with the same range support and the same limits, or none.
pub open spec fn same_sources(a: Option<MultiRuntime>, b: Option<MultiRuntime>) -> bool {
    match (a, b) {
        (Some(x), Some(y)) => x.same_setup(y),
        (None, None) => true,
        _ => false,
    }
}

impl DownloadMonitor {
    /// The monitor in mathematical terms.
    pub open spec fn model(self) -> MonitorModel {
        MonitorModel {
            st: self.state.model(),
            retry: self.retry_handler.model(),
            conc: self.concurrency_manager.model(),
            bindings: self.lane_bindings@,
            pending: self.pending_bisects@,
            next_id: self.next_chunk_id,
            lanes: match self.runtime {
                Some(r) => Some(r.model()),
                None => None,
            },
            limited: self.is_rate_limited,
        }
    }

    /// The parts are well-formed.
    pub open spec fn wf(self) -> bool {
        &&& self.concurrency_manager.wf()
        &&& self.runtime matches Some(r) ==> r.wf()
    }

    /// What reports and ticks leave alone.
    pub open spec fn same_settings(self, other: DownloadMonitor) -> bool {
        &&& self.update_interval == other.update_interval
        &&& self.lagged_count == other.lagged_count
        &&& self.global_limiter == other.global_limiter
        &&& same_sources(self.runtime, other.runtime)
    }

    /// A monitor for a download of which nothing was received.
    pub fn new(total_file_size: u64, update_interval: u64, max_workers: u64) -> (r: Self)
        ensures
            r.wf(),
            r.fresh(total_file_size, 0, update_interval, max_workers),
    {
        Self::new_with_completed(total_file_size, 0, update_interval, max_workers)
    }

    /// Nothing has happened yet.
    pub open spec fn fresh(
        self,
        total_file_size: u64,
        completed_bytes: u64,
        update_interval: u64,
        max_workers: u64,
    ) -> bool {
        &&& self.model() =~= ready(
            total_file_size,
            completed_bytes,
            update_interval,
            max_workers,
            None,
            false,
        )
        &&& self.update_interval == update_interval
        &&& self.lagged_count == 0
        &&& self.global_limiter is None
    }

    /// A monitor for a download of which `completed_bytes` were received before.
    pub fn new_with_completed(
        total_file_size: u64,
        completed_bytes: u64,
        update_interval: u64,
        max_workers: u64,
    ) -> (r: Self)
        ensures
            r.wf(),
            r.fresh(total_file_size, completed_bytes, update_interval, max_workers),
    {
        DownloadMonitor {
            state: DownloadState::with_completed(total_file_size, completed_bytes),
            retry_handler: RetryHandler::new(),
            concurrency_manager: ConcurrencyManager::new_with_interval(max_workers, update_interval),
            lane_bindings: HashMap::new(),
            pending_bisects: VecDeque::new(),
            update_interval,
            lagged_count: 0,
            is_rate_limited: false,
            global_limiter: None,
            next_chunk_id: 0,
            runtime: None,
        }
    }

    /// Sets the lanes of a download from several sources.
    pub fn with_runtime(self, runtime: MultiRuntime) -> (r: Self)
        requires
            self.wf(),
            runtime.wf(),
        ensures
            r.wf(),
            r.model() =~= (MonitorModel { lanes: Some(runtime.model()), ..self.model() }),
            r == (DownloadMonitor { runtime: Some(runtime), ..self }),
    {
        let mut m = self;
        m.runtime = Some(runtime);
        m
    }

    /// Sets the rate limit.
    pub fn with_rate_limit(self, limiter: Option<LimiterSettings>) -> (r: Self)
        ensures
            r == (DownloadMonitor {
                is_rate_limited: limiter is Some,
                global_limiter: limiter,
                ..self
            }),
    {
        let mut m = self;
        m.is_rate_limited = limiter.is_some();
        m.global_limiter = limiter;
        m
    }

    /// Says whether the download is limited elsewhere.
    pub fn set_rate_limited(&mut self, limited: bool)
        ensures
            *final(self) == (DownloadMonitor { is_rate_limited: limited, ..*old(self) }),
    {
        self.is_rate_limited = limited;
    }

    /// Takes new settings over while the download runs. Tells what becomes of the rate limiter.
    pub fn apply_config(&mut self, cfg: &RuntimeConfig) -> (r: LimiterChange)
        ensures
            r == limiter_change(*cfg, old(self).global_limiter is Some),
            final(self).model() =~= reconfigured(old(self).model(), *cfg, r),
            final(self).update_interval == (if cfg.update_interval > 0 {
                cfg.update_interval
            } else {
                old(self).update_interval
            }),
            final(self).global_limiter == (match r {
                LimiterChange::Keep => old(self).global_limiter,
                LimiterChange::Disable => None,
                _ => limiter::limit_settings(cfg.speed_limit, cfg.burst),
            }),
            final(self).lagged_count == old(self).lagged_count,
            final(self).runtime == old(self).runtime,
            old(self).wf() ==> final(self).wf(),
    {
        self.concurrency_manager.set_max_workers(cfg.workers);
        if cfg.update_interval > 0 {
            self.update_interval = cfg.update_interval;
        }
        match runtime_limiter_from_config(cfg) {
            Ok(Some((limit, burst))) => {
                let settings: LimiterSettings = LimiterSettings::new(limit, burst);
                let present: bool = self.global_limiter.is_some();
                self.global_limiter = Some(settings);
                self.is_rate_limited = true;
                if present {
                    LimiterChange::Reconfigure { settings }
                } else {
                    LimiterChange::Install { settings }
                }
            },
            Ok(None) => {
                self.global_limiter = None;
                self.is_rate_limited = false;
                LimiterChange::Disable
            },
            Err(_) => LimiterChange::Keep,
        }
    }

    /// Looks for room for one more chunk.
    fn build_request(&mut self, now: u64) -> (r: (bool, Option<LaneClaim>))
        requires
            old(self).wf(),
        ensures
            final(self).wf(),
            final(self).same_settings(*old(self)),
            final(self).model() =~= (MonitorModel {
                lanes: seek_room(old(self).model().lanes, now).0,
                ..old(self).model()
            }),
            r.0 == seek_room(old(self).model().lanes, now).1,
            r.1 == seek_room(old(self).model().lanes, now).2,
    {
        match self.runtime.take() {
            Some(rt) => {
                let mut rt = rt;
                let lane = rt.claim_request_builder(now);
                self.runtime = Some(rt);
                (lane.is_some(), lane)
            },
            None => (true, None),
        }
    }

    /// Notes that a chunk runs, and gives the action that starts it.
    fn start_chunk(
        &mut self,
        id: ChunkId,
        start: u64,
        end: u64,
        lane: Option<LaneClaim>,
        now: u64,
    ) -> (r: MonitorAction)
        requires
            old(self).wf(),
        ensures
            final(self).wf(),
            final(self).same_settings(*old(self)),
            final(self).model() =~= started(old(self).model(), id, start, end, lane, now),
            r@ == (ActionView::Spawn { id, start, end, lane }),
    {
        self.state.chunks.insert(ChunkState::new(id, start, end, now));
        if let Some(c) = &lane {
            let _ = self.lane_bindings.insert(id, c.lane_id.clone());
        }
        MonitorAction::Spawn { id, start, end, lane }
    }

    /// Notes that a chunk no longer runs on its lane.
    fn unbind(&mut self, id: ChunkId, success: bool, now: u64)
        requires
            old(self).wf(),
        ensures
            final(self).wf(),
            final(self).same_settings(*old(self)),
            final(self).model() =~= unbound(old(self).model(), id, success, now),
    {
        let ghost m = self.model();
        let bound: Option<String> = self.lane_bindings.remove(&id);
        if let Some(lane_id) = bound {
            if let Some(rt) = self.runtime.take() {
                let mut rt = rt;
                proof {
                    lane::lemma_lane_place(rt.scheduler.lanes@, lane_id@);
                }
                if success {
                    rt.record_success(lane_id.as_str());
                } else {
                    rt.record_failure(lane_id.as_str(), now);
                }
                proof {
                    lane::lemma_lane_place(rt.scheduler.lanes@, lane_id@);
                }
                rt.release_chunk(lane_id.as_str());
                assert(rt.model() =~= source::released(m.lanes->0, lane_id@, success, now));
                self.runtime = Some(rt);
            }
        }
    }

    /// Starts a chunk for a range, or has the range wait if no lane has room.
    fn open_range(&mut self, start: u64, end: u64, now: u64) -> (r: Option<MonitorAction>)
        requires
            old(self).wf(),
        ensures
            final(self).wf(),
            final(self).same_settings(*old(self)),
            final(self).model() =~= opened(old(self).model(), start, end, now).0,
            opened(old(self).model(), start, end, now).1 == (match r {
                Some(a) => seq![a@],
                None => Seq::empty(),
            }),
    {
        let (room, lane) = self.build_request(now);
        if !room {
            self.pending_bisects.push_back((start, end));
            return None;
        }
        let id: ChunkId = self.next_chunk_id;
        self.next_chunk_id = if id < u64::MAX {
            id + 1
        } else {
            0
        };
        Some(self.start_chunk(id, start, end, lane, now))
    }

    /// Starts the first ranges of a download.
    pub fn spawn_initial(&mut self, ranges: &Vec<(u64, u64)>, now: u64) -> (r: Vec<MonitorAction>)
        requires
            old(self).wf(),
        ensures
            final(self).wf(),
            final(self).same_settings(*old(self)),
            final(self).model() =~= all_opened(old(self).model(), ranges@, now).0,
            action_views(r@) == all_opened(old(self).model(), ranges@, now).1,
    {
        let ghost m0 = self.model();
        let mut out: Vec<MonitorAction> = Vec::new();
        let mut i: usize = 0;
        assert(action_views(out@) =~= all_opened(m0, ranges@.take(0), now).1);
        while i < ranges.len()
            invariant
                i <= ranges@.len(),
                self.wf(),
                self.same_settings(*old(self)),
                self.model() == all_opened(m0, ranges@.take(i as int), now).0,
                action_views(out@) == all_opened(m0, ranges@.take(i as int), now).1,
            decreases ranges.len() - i,
        {
            let (start, end) = ranges[i];
            let ghost before = action_views(out@);
            assert(ranges@.take(i + 1).drop_last() =~= ranges@.take(i as int));
            match self.open_range(start, end, now) {
                Some(a) => {
                    let ghost seen = a@;
                    out.push(a);
                    assert(action_views(out@) =~= before + seq![seen]);
                },
                None => {
                    assert(action_views(out@) =~= before + Seq::<ActionView>::empty());
                },
            }
            i = i + 1;
        }
        assert(ranges@.take(i as int) =~= ranges@);
        out
    }

    /// Whether progress comes too late.
    fn comes_late(&self, id: ChunkId, start_byte: u64) -> (r: bool)
        ensures
            r == late(self.model(), id, start_byte),
    {
        match self.state.chunks.position(id) {
            Some(i) => self.state.chunks.entries[i].start_byte != start_byte
                && self.retry_handler.total_attempts.contains_key(&id),
            None => id < self.next_chunk_id,
        }
    }

    /// Takes a report in.
    pub fn handle_download_info(&mut self, info: DownloadInfo, now: u64) -> (r: Vec<MonitorAction>)
        requires
            old(self).wf(),
        ensures
            final(self).wf(),
            final(self).same_settings(*old(self)),
            final(self).model() =~= on_report(old(self).model(), info@, now).0,
            action_views(r@) == on_report(old(self).model(), info@, now).1,
    {
        let mut out: Vec<MonitorAction> = Vec::new();
        let ghost m = self.model();
        let ghost want = on_report(m, info@, now);
        match info {
            DownloadInfo::ChunkProgress { id, start_byte, end_byte, downloaded } => {
                let known: bool = self.state.chunks.position(id).is_some();
                if !self.comes_late(id, start_byte) {
                    if !known {
                        self.state.chunks.insert(ChunkState::new(id, start_byte, end_byte, now));
                    }
                    let ghost c0 = self.state.model();
                    if let Some(i) = self.state.chunks.position(id) {
                        proof {
                            state::lemma_place(m.st.chunks, id);
                            state::lemma_place(c0.chunks, id);
                        }
                        let was: u8 = self.state.chunks.entries[i].status;
                        self.state.chunks.entries[i].update_downloaded(downloaded, now);
                        self.state.chunks.entries[i].update_end_byte(end_byte);
                        if was != 0 {
                            self.state.chunks.entries[i].update_status(0, None, now);
                            out.push(
                                MonitorAction::Notify(
                                    DownloadInfo::ChunkStatusChanged { id, status: 0, message: None },
                                ),
                            );
                        }
                        proof {
                            let c = if known {
                                m.st.chunk(id)
                            } else {
                                state::fresh_chunk(id, start_byte, end_byte, now)
                            };
                            assert(c0.chunks[i as int] == c);
                            assert(self.state.chunks@ =~= m.st.with(
                                reported(c, end_byte, downloaded, now),
                            ).chunks);
                        }
                    }
                }
            },
            DownloadInfo::DownloadComplete(id) => {
                if let Some(i) = self.state.chunks.position(id) {
                    proof {
                        state::lemma_place(m.st.chunks, id);
                    }
                    let held: u64 = self.state.chunks.entries[i].held();
                    self.state.chunks.entries[i].update_end_byte(held);
                    assert(self.state.chunks@ =~= trimmed(m.st, id).chunks);
                }
                self.state.complete_chunk(id);
                self.retry_handler.on_download_complete(&id);
                self.unbind(id, true, now);
                out.push(
                    MonitorAction::Notify(
                        DownloadInfo::ChunkStatusChanged { id, status: 4, message: None },
                    ),
                );
            },
            DownloadInfo::ChunkFailed { id, start, end, error } => {
                let notice = self.retry_handler.on_chunk_failed(
                    id,
                    start,
                    end,
                    error.as_str(),
                    &mut self.state,
                    now,
                );
                self.unbind(id, false, now);
                out.push(MonitorAction::Notify(notice));
            },
            DownloadInfo::ChunkBisected { original_id, new_start, new_end } => {
                if let Some(i) = self.state.chunks.position(original_id) {
                    if self.state.chunks.entries[i].start_byte < new_start && new_start
                        <= self.state.chunks.entries[i].held() {
                        proof {
                            state::lemma_place(m.st.chunks, original_id);
                        }
                        self.state.chunks.entries[i].keep_until(new_start - 1);
                        assert(self.state.chunks@ =~= m.st.chunks.update(
                            i as int,
                            ChunkState {
                                kept_end: (new_start - 1) as u64,
                                ..m.st.chunk(original_id)
                            },
                        ));
                    }
                }
                assert(self.model() =~= (MonitorModel {
                    st: shortened(m.st, original_id, new_start),
                    ..m
                }));
                if let Some(a) = self.open_range(new_start, new_end, now) {
                    out.push(a);
                }
            },
            _ => {},
        }
        assert(action_views(out@) =~= want.1);
        out
    }

    /// Starts the waiting ranges that find room.
    pub fn drain_pending(&mut self, now: u64) -> (r: Vec<MonitorAction>)
        requires
            old(self).wf(),
        ensures
            final(self).wf(),
            final(self).same_settings(*old(self)),
            final(self).model() =~= drained(old(self).model(), now).0,
            action_views(r@) == drained(old(self).model(), now).1,
    {
        let ghost want = drained(self.model(), now);
        let mut out: Vec<MonitorAction> = Vec::new();
        assert(action_views(out@) + drained(self.model(), now).1 =~= want.1);
        while self.pending_bisects.len() > 0
            invariant
                self.wf(),
                self.same_settings(*old(self)),
                want == drained(old(self).model(), now),
                drained(self.model(), now).0 == want.0,
                action_views(out@) + drained(self.model(), now).1 == want.1,
            decreases self.pending_bisects@.len(),
        {
            let ghost m = self.model();
            let ghost before = action_views(out@);
            let (room, lane) = self.build_request(now);
            if !room {
                assert(self.model() =~= want.0);
                assert(action_views(out@) =~= want.1);
                return out;
            }
            if let Some((start, end)) = self.pending_bisects.pop_front() {
                let id: ChunkId = self.next_chunk_id;
                self.next_chunk_id = if id < u64::MAX {
                    id + 1
                } else {
                    0
                };
                assert(self.pending_bisects@ =~= m.pending.skip(1));
                let ghost claim = lane;
                let a = self.start_chunk(id, start, end, lane, now);
                let ghost seen = a@;
                out.push(a);
                proof {
                    assert(action_views(out@) =~= before.push(seen));
                    let next = started(
                        MonitorModel {
                            lanes: seek_room(m.lanes, now).0,
                            pending: m.pending.skip(1),
                            next_id: next_id(m.next_id),
                            ..m
                        },
                        m.next_id,
                        start,
                        end,
                        claim,
                        now,
                    );
                    assert(self.model() =~= next);
                    assert(drained(m, now).1 =~= seq![seen] + drained(next, now).1);
                    assert(action_views(out@) + drained(next, now).1 =~= before + drained(
                        m,
                        now,
                    ).1);
                }
            }
        }
        assert(self.model() =~= want.0);
        assert(action_views(out@) =~= want.1);
        out
    }

    /// Starts the retries that are ready and find room. Gives those without room back.
    fn start_retries(&mut self, now: u64) -> (r: (Vec<MonitorAction>, Vec<FailedChunkInfo>))
        requires
            old(self).wf(),
        ensures
            final(self).wf(),
            final(self).same_settings(*old(self)),
            final(self).model() =~= retried(old(self).model(), now).0,
            action_views(r.0@) == retried(old(self).model(), now).1,
            r.1@ == retried(old(self).model(), now).2,
    {
        let ghost want = retried(self.model(), now);
        let mut out: Vec<MonitorAction> = Vec::new();
        let mut back: Vec<FailedChunkInfo> = Vec::new();
        assert(action_views(out@) + retried(self.model(), now).1 =~= want.1);
        assert(back@ + retried(self.model(), now).2 =~= want.2);
        loop
            invariant
                self.wf(),
                self.same_settings(*old(self)),
                retried(self.model(), now).0 == want.0,
                action_views(out@) + retried(self.model(), now).1 == want.1,
                back@ + retried(self.model(), now).2 == want.2,
            ensures
                self.wf(),
                self.same_settings(*old(self)),
                self.model() == want.0,
                action_views(out@) == want.1,
                back@ == want.2,
            decreases self.retry_handler.retry_queue@.len(),
        {
            let ghost m = self.model();
            let ghost acts = action_views(out@);
            let ghost later = back@;
            proof {
                retry::lemma_ready_place(m.retry.retry, now);
            }
            let c: FailedChunkInfo = match self.retry_handler.pop_ready_chunk(now) {
                Some(c) => c,
                None => {
                    assert(self.model() =~= m);
                    assert(action_views(out@) =~= want.1);
                    assert(back@ =~= want.2);
                    break;
                },
            };
            let ghost popped = MonitorModel {
                retry: RetryModel {
                    retry: m.retry.retry.remove(retry::ready_place(m.retry.retry, now)),
                    ..m.retry
                },
                ..m
            };
            assert(self.model() =~= popped);
            let (room, lane) = self.build_request(now);
            let ghost taken = MonitorModel { lanes: seek_room(m.lanes, now).0, ..popped };
            assert(self.model() =~= taken);
            if room {
                let mut t: String = String::new();
                push_text(&mut t, "正在进行第 ");
                push_number(&mut t, c.attempts as u64);
                push_text(&mut t, " 次重试");
                assert(t@ =~= "正在进行第 "@ + text::digits(c.attempts as nat) + " 次重试"@);
                let notice = DownloadInfo::ChunkStatusChanged { id: c.id, status: 1, message: Some(t) };
                assert(notice@ == retry_notice(c));
                out.push(MonitorAction::Notify(notice));
                let ghost claim = lane;
                let a = self.start_chunk(c.id, c.start, c.end, lane, now);
                let ghost seen = a@;
                out.push(a);
                proof {
                    let next = started(taken, c.id, c.start, c.end, claim, now);
                    assert(self.model() =~= next);
                    let two = seq![ActionView::Notify { info: retry_notice(c) }, seen];
                    assert(action_views(out@) =~= acts + two);
                    assert(retried(m, now).1 =~= two + retried(next, now).1);
                    assert(action_views(out@) + retried(next, now).1 =~= acts + retried(m, now).1);
                    assert(retried(m, now).2 == retried(next, now).2);
                }
            } else {
                back.push(c);
                proof {
                    assert(retried(m, now).2 =~= seq![c] + retried(taken, now).2);
                    assert(back@ + retried(taken, now).2 =~= later + retried(m, now).2);
                    assert(retried(m, now).1 == retried(taken, now).1);
                }
            }
        }
        (out, back)
    }

    /// The progress report of the whole download.
    pub fn monitor_update(&self) -> (r: DownloadInfo)
        ensures
            r@ == update_of(self.state.model()),
    {
        let mut chunk_details: Vec<(ChunkId, u64, u64, u64, u8)> = Vec::new();
        let mut i: usize = 0;
        while i < self.state.chunks.entries.len()
            invariant
                i <= self.state.chunks@.len(),
                chunk_details@.len() == i,
                forall|k: int|
                    0 <= k < i ==> #[trigger] chunk_details@[k] == detail(self.state.chunks@[k]),
            decreases self.state.chunks.entries.len() - i,
        {
            let c: &ChunkState = &self.state.chunks.entries[i];
            chunk_details.push((c.id, c.size(), c.downloaded_bytes, c.speed, c.status));
            i = i + 1;
        }
        assert(chunk_details@ =~= Seq::new(
            self.state.chunks@.len(),
            |i: int| detail(self.state.chunks@[i]),
        ));
        DownloadInfo::MonitorUpdate {
            total_size: self.state.total_file_size,
            total_downloaded: self.state.total_downloaded(),
            total_speed: self.state.total_speed(),
            chunk_details,
        }
    }

    /// Takes a speed sample of every chunk.
    fn update_speeds(&mut self, elapsed: u64)
        requires
            old(self).wf(),
        ensures
            final(self).wf(),
            final(self).same_settings(*old(self)),
            final(self).model() =~= (MonitorModel {
                st: StateModel {
                    chunks: all_sampled(old(self).model().st.chunks, elapsed),
                    ..old(self).model().st
                },
                ..old(self).model()
            }),
    {
        let ghost s0 = self.state.chunks@;
        let ghost m0 = self.model();
        let mut i: usize = 0;
        while i < self.state.chunks.entries.len()
            invariant
                i <= self.state.chunks@.len(),
                self.state.chunks@.len() == s0.len(),
                self.wf(),
                self.same_settings(*old(self)),
                self.model() =~= (MonitorModel {
                    st: StateModel { chunks: self.state.chunks@, ..m0.st },
                    ..m0
                }),
                forall|k: int|
                    0 <= k < i ==> #[trigger] self.state.chunks@[k] == state::sampled(
                        s0[k],
                        elapsed,
                        SMOOTHING_PERCENT,
                    ),
                forall|k: int| i <= k < s0.len() ==> #[trigger] self.state.chunks@[k] == s0[k],
            decreases self.state.chunks.entries.len() - i,
        {
            self.state.chunks.entries[i].update_speed(elapsed, SMOOTHING_PERCENT);
            i = i + 1;
        }
        assert(self.state.chunks@ =~= all_sampled(s0, elapsed));
    }

    /// Does what is due after `elapsed` nanoseconds: nothing if no time has passed. `running` is the
    /// number of chunks whose tasks have not ended. Tells whether the download is complete.
    pub fn handle_tick(&mut self, elapsed: u64, running: usize, now: u64) -> (r: (
        Vec<MonitorAction>,
        bool,
    ))
        requires
            old(self).wf(),
        ensures
            final(self).wf(),
            final(self).same_settings(*old(self)),
            elapsed == 0 ==> final(self).model() =~= old(self).model() && r.0@.len() == 0 && !r.1,
            elapsed > 0 ==> final(self).model() =~= on_tick(old(self).model(), elapsed, now).0
                && action_views(r.0@) == on_tick(old(self).model(), elapsed, now).1,
            elapsed > 0 ==> r.1 == all_done(final(self).model(), running),
    {
        let mut out: Vec<MonitorAction> = Vec::new();
        if elapsed == 0 {
            return (out, false);
        }
        let ghost m0 = self.model();
        let ghost want = on_tick(m0, elapsed, now);
        self.update_speeds(elapsed);
        out.push(MonitorAction::Notify(self.monitor_update()));
        if !self.is_rate_limited {
            if let Some(cmd) = self.concurrency_manager.decide_and_act(&self.state, now) {
                out.push(MonitorAction::Command(cmd));
            }
        }
        assert(self.model() =~= weighed(m0, elapsed, now).0);
        let ghost head = action_views(out@);
        let mut spawned: Vec<MonitorAction> = self.drain_pending(now);
        let ghost spawned_view = action_views(spawned@);
        out.append(&mut spawned);
        assert(action_views(out@) =~= head + spawned_view);
        self.retry_handler.process_queues(now);
        let (again, back) = self.start_retries(now);
        let mut again = again;
        let ghost again_view = action_views(again@);
        let ghost two = action_views(out@);
        out.append(&mut again);
        assert(action_views(out@) =~= two + again_view);
        let ghost c = self.model();
        let mut i: usize = 0;
        while i < back.len()
            invariant
                i <= back@.len(),
                self.wf(),
                self.same_settings(*old(self)),
                self.model() =~= (MonitorModel {
                    retry: RetryModel {
                        retry: c.retry.retry + all_put_off(back@.take(i as int), now),
                        ..c.retry
                    },
                    ..c
                }),
            decreases back.len() - i,
        {
            self.retry_handler.push_back_retry_with_backoff(back[i], now);
            assert(all_put_off(back@.take(i + 1), now) =~= all_put_off(
                back@.take(i as int),
                now,
            ).push(retry::put_off(back@[i as int], now)));
            i = i + 1;
        }
        assert(back@.take(i as int) =~= back@);
        assert(action_views(out@) =~= want.1);
        let done: bool = running == 0 && self.are_all_tasks_done()
            && self.state.is_download_finished();
        (out, done)
    }

    /// Whether nothing runs and nothing waits.
    pub fn are_all_tasks_done(&self) -> (r: bool)
        ensures
            r == idle(self.model()),
    {
        self.pending_bisects.len() == 0 && self.state.chunks.is_empty()
            && self.retry_handler.are_all_tasks_done()
    }

    /// A chunk's task has ended, and `running` others have not. Whether the download is complete.
    pub fn on_task_joined(&self, running: usize) -> (r: bool)
        ensures
            r == all_done(self.model(), running),
    {
        running == 0 && self.are_all_tasks_done() && self.state.is_download_finished()
    }

    /// `skipped` reports were lost. Gives a progress report that stands in for them.
    pub fn on_lagged(&mut self, skipped: u64) -> (r: DownloadInfo)
        ensures
            r@ == update_of(old(self).state.model()),
            final(self).lagged_count == state::capped(old(self).lagged_count + skipped),
            final(self).model() == old(self).model(),
            old(self).wf() ==> final(self).wf(),
            final(self).update_interval == old(self).update_interval,
            final(self).global_limiter == old(self).global_limiter,
            final(self).runtime == old(self).runtime,
    {
        self.lagged_count = self.lagged_count.saturating_add(skipped);
        self.monitor_update()
    }

    /// The error with which the download ends, if a range failed for good.
    pub fn failure(&self) -> (r: Option<DownloadError>)
        ensures
            match r {
                Some(DownloadError::PermanentFailure(t)) => self.model().retry.lost.len() > 0 && t@
                    == retry::lost_text(self.model().retry.lost[0]),
                Some(_) => false,
                None => self.model().retry.lost.len() == 0,
            },
    {
        match self.retry_handler.permanent_failure_message() {
            Some(t) => Some(DownloadError::PermanentFailure(t)),
            None => None,
        }
    }

    /// Takes an event in. Gives what is to be done, and whether the download goes on. A download that
    /// fails for good stops its chunks.
    pub fn on_event(&mut self, event: MonitorEvent, now: u64) -> (r: (Vec<MonitorAction>, Verdict))
        requires
            old(self).wf(),
        ensures
            final(self).wf(),
            final(self).model() =~= on_event(old(self).model(), event@, now).0,
            final(self).update_interval == old(self).update_interval,
            final(self).global_limiter == old(self).global_limiter,
            same_sources(final(self).runtime, old(self).runtime),
            final(self).lagged_count == (match event {
                MonitorEvent::Lagged { skipped } => state::capped(
                    old(self).lagged_count + skipped,
                ),
                _ => old(self).lagged_count,
            }),
            ({
                let (m, acts) = on_event(old(self).model(), event@, now);
                match r.1 {
                    Verdict::Done => ended(m, event@) && action_views(r.0@) == acts,
                    Verdict::GoOn => !ended(m, event@) && !failed(m, event@) && action_views(r.0@)
                        == acts,
                    Verdict::Failed(DownloadError::PermanentFailure(t)) => failed(m, event@) && t@ == retry::lost_text(m.retry.lost[0])
                        && action_views(r.0@) == acts.push(
                        ActionView::Command { cmd: DownloadCmd::TerminateAll },
                    ),
                    Verdict::Failed(_) => false,
                }
            }),
    {
        let ghost want = on_event(self.model(), event@, now);
        let mut out: Vec<MonitorAction> = Vec::new();
        assert(action_views(out@) =~= Seq::empty());
        let mut done: bool = false;
        match event {
            MonitorEvent::Reliable(info) => {
                out = self.handle_download_info(info, now);
            },
            MonitorEvent::Broadcast(info) => {
                if !is_reliable_event(&info) {
                    out = self.handle_download_info(info, now);
                }
            },
            MonitorEvent::Lagged { skipped } => {
                out.push(MonitorAction::Notify(self.on_lagged(skipped)));
            },
            MonitorEvent::Closed => {
                done = true;
            },
            MonitorEvent::TaskJoined { running } => {
                done = self.on_task_joined(running);
            },
            MonitorEvent::Tick { elapsed, running } => {
                let (actions, complete) = self.handle_tick(elapsed, running, now);
                out = actions;
                done = complete;
            },
        }
        assert(action_views(out@) =~= want.1);
        if done {
            return (out, Verdict::Done);
        }
        match self.failure() {
            Some(e) => {
                out.push(MonitorAction::Command(DownloadCmd::TerminateAll));
                assert(action_views(out@) =~= want.1.push(
                    ActionView::Command { cmd: DownloadCmd::TerminateAll },
                ));
                (out, Verdict::Failed(e))
            },
            None => (out, Verdict::GoOn),
        }
    }
}

} // verus!
