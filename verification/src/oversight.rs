//! How a monitor oversees its chunks: what reports change, what each tick brings, and when a download
//! is at its end.

use crate::chunk;
use crate::concurrency;
use crate::config::RuntimeConfig;
use crate::limiter::LimiterSettings;
use crate::monitor;
use crate::monitor::{ActionView, EventView, LimiterChange, MonitorModel};
use crate::patience;
use crate::retry;
use crate::retry::{FailedChunkInfo, RetryModel};
use crate::source;
use crate::source::MultiRuntime;
use crate::standing;
use crate::state;
use crate::state::{ChunkState, StateModel};
use crate::types::{ChunkId, DownloadInfo, InfoView};
use vstd::prelude::*;

verus! {

/// No two chunks of a download share an id.
pub open spec fn distinct_chunks(s: Seq<ChunkState>) -> bool {
    forall|i: int, j: int| 0 <= i < j < s.len() ==> (#[trigger] s[i]).id != (#[trigger] s[j]).id
}

/// The progress of a chunk that runs is taken over: its count of bytes and its end are those of the
/// report, and the time of the report is noted if the count grew. A chunk that was being retried runs
/// again, which is said; otherwise nothing is said. No other chunk changes, nor do the retries, the
/// waiting ranges and the lanes.
pub proof fn law_progress_is_taken_over(
    m: MonitorModel,
    id: ChunkId,
    start_byte: u64,
    end_byte: u64,
    downloaded: u64,
    now: u64,
    other: ChunkId,
)
    requires
        m.st.knows(id),
        m.st.chunk(id).start_byte == start_byte,
        other != id,
    ensures
        ({
            let (n, acts) = monitor::on_event(
                m,
                EventView::Broadcast {
                    info: InfoView::ChunkProgress { id, start_byte, end_byte, downloaded },
                },
                now,
            );
            let before = m.st.chunk(id);
            let after = n.st.chunk(id);
            &&& n.st.knows(id)
            &&& after.downloaded_bytes == downloaded
            &&& after.end_byte == end_byte
            &&& after.start_byte == start_byte
            &&& after.last_progress_at == (if downloaded > before.downloaded_bytes {
                now
            } else {
                before.last_progress_at
            })
            &&& after.speed == before.speed && after.kept_end == before.kept_end
            &&& after.status == 0
            &&& before.status == 0 ==> acts.len() == 0
            &&& before.status != 0 ==> acts == seq![
                ActionView::Notify {
                    info: InfoView::ChunkStatusChanged { id, status: 0, message: None },
                },
            ]
            &&& n.st.knows(other) == m.st.knows(other)
            &&& m.st.knows(other) ==> n.st.chunk(other) == m.st.chunk(other)
            &&& n.st.total_file_size == m.st.total_file_size
            &&& n.st.completed_bytes == m.st.completed_bytes
            &&& n.retry == m.retry && n.bindings == m.bindings && n.pending == m.pending && n.lanes
                == m.lanes && n.next_id == m.next_id && n.conc == m.conc
        }),
{
    let info = InfoView::ChunkProgress { id, start_byte, end_byte, downloaded };
    let n = monitor::on_event(m, EventView::Broadcast { info }, now).0;
    let c = monitor::reported(m.st.chunk(id), end_byte, downloaded, now);
    state::lemma_place(m.st.chunks, id);
    state::law_a_chunk_put_is_found(m.st.chunks, c, other);
}

/// Progress of a chunk that was started and has ended since changes nothing, and neither does progress
/// of an earlier attempt of a chunk that failed before.
pub proof fn law_progress_of_ended_chunks_is_ignored(
    m: MonitorModel,
    id: ChunkId,
    start_byte: u64,
    end_byte: u64,
    downloaded: u64,
    now: u64,
)
    requires
        (!m.st.knows(id) && id < m.next_id) || (m.st.knows(id) && m.st.chunk(id).start_byte
            != start_byte && m.retry.in_all.contains_key(id)),
    ensures
        monitor::on_event(
            m,
            EventView::Broadcast {
                info: InfoView::ChunkProgress { id, start_byte, end_byte, downloaded },
            },
            now,
        ) == (m, Seq::<ActionView>::empty()),
{
}

/// A complete chunk leaves the table, and its bytes, up to the last one that it still held, count as
/// complete. Its failures are forgotten, it runs on no lane any more, and its end is said. The other
/// chunks stay.
pub proof fn law_complete_chunks_are_settled(
    m: MonitorModel,
    id: ChunkId,
    now: u64,
    other: ChunkId,
)
    requires
        distinct_chunks(m.st.chunks),
        m.st.knows(id),
        m.st.chunk(id).start_byte <= m.st.chunk(id).end_byte,
        m.st.chunk(id).start_byte <= m.st.chunk(id).kept_end,
        m.st.chunk(id).end_byte < u64::MAX,
        m.st.completed_bytes + (m.st.chunk(id).end_byte - m.st.chunk(id).start_byte + 1)
            <= u64::MAX,
        other != id,
    ensures
        ({
            let (n, acts) = monitor::on_event(
                m,
                EventView::Reliable { info: InfoView::DownloadComplete { id } },
                now,
            );
            let c = m.st.chunk(id);
            let last = if c.end_byte <= c.kept_end {
                c.end_byte
            } else {
                c.kept_end
            };
            &&& !n.st.knows(id)
            &&& n.st.completed_bytes == m.st.completed_bytes + (last - c.start_byte + 1)
            &&& n.st.total_file_size == m.st.total_file_size
            &&& !n.retry.in_row.contains_key(id) && !n.retry.in_all.contains_key(id)
            &&& n.retry.retry == m.retry.retry && n.retry.delayed == m.retry.delayed && n.retry.lost
                == m.retry.lost
            &&& !n.bindings.contains_key(id)
            &&& n.pending == m.pending && n.next_id == m.next_id
            &&& acts == seq![
                ActionView::Notify {
                    info: InfoView::ChunkStatusChanged { id, status: 4, message: None },
                },
            ]
            &&& n.st.knows(other) == m.st.knows(other)
            &&& m.st.knows(other) ==> n.st.chunk(other) == m.st.chunk(other)
        }),
{
    monitor::lemma_trimmed(m.st, id);
    state::law_a_chunk_taken_is_gone(m.st.chunks, id, other);
}

/// A failed chunk leaves the table. What it had received before `start` counts as complete; the other
/// chunks stay.
pub proof fn law_failed_chunks_leave(
    m: MonitorModel,
    id: ChunkId,
    start: u64,
    end: u64,
    error: Seq<char>,
    now: u64,
    other: ChunkId,
)
    requires
        distinct_chunks(m.st.chunks),
        m.st.knows(id),
        m.st.chunk(id).start_byte <= start <= m.st.chunk(id).end_byte,
        m.st.chunk(id).downloaded_bytes <= start - m.st.chunk(id).start_byte,
        m.st.completed_bytes + (start - m.st.chunk(id).start_byte) <= u64::MAX,
        other != id,
    ensures
        ({
            let n = monitor::on_event(
                m,
                EventView::Reliable { info: InfoView::ChunkFailed { id, start, end, error } },
                now,
            ).0;
            &&& !n.st.knows(id)
            &&& n.st.completed_bytes == m.st.completed_bytes + (start - m.st.chunk(id).start_byte)
            &&& n.st.total_file_size == m.st.total_file_size
            &&& !n.bindings.contains_key(id)
            &&& n.pending == m.pending && n.next_id == m.next_id
            &&& n.st.knows(other) == m.st.knows(other)
            &&& m.st.knows(other) ==> n.st.chunk(other) == m.st.chunk(other)
        }),
{
    state::law_a_chunk_taken_is_gone(m.st.chunks, id, other);
}

/// What a chunk gave away becomes a chunk of its own, with the next id, that starts at once; where no
/// lane has room, the range waits behind those that wait already. The chunk that was split keeps what
/// lies before.
pub proof fn law_given_away_ranges_become_chunks(
    m: MonitorModel,
    original_id: ChunkId,
    new_start: u64,
    new_end: u64,
    now: u64,
)
    requires
        m.next_id < u64::MAX,
        original_id != m.next_id,
        !m.st.knows(m.next_id),
        m.st.knows(original_id),
        m.st.chunk(original_id).start_byte < new_start <= m.st.chunk(original_id).end_byte,
        new_start <= m.st.chunk(original_id).kept_end,
    ensures
        ({
            let (n, acts) = monitor::on_event(
                m,
                EventView::Reliable {
                    info: InfoView::ChunkBisected { original_id, new_start, new_end },
                },
                now,
            );
            let lane = match m.lanes {
                Some(rt) => source::claim(rt, now).1,
                None => None,
            };
            let room = m.lanes is None || lane is Some;
            &&& n.st.knows(original_id)
            &&& n.st.chunk(original_id).kept_end == new_start - 1
            &&& n.st.chunk(original_id).start_byte == m.st.chunk(original_id).start_byte
            &&& n.st.chunk(original_id).downloaded_bytes == m.st.chunk(original_id).downloaded_bytes
            &&& room ==> {
                &&& acts == seq![
                    ActionView::Spawn { id: m.next_id, start: new_start, end: new_end, lane },
                ]
                &&& n.next_id == m.next_id + 1
                &&& n.pending == m.pending
                &&& n.st.knows(m.next_id)
                &&& n.st.chunk(m.next_id).start_byte == new_start
                &&& n.st.chunk(m.next_id).end_byte == new_end
                &&& n.st.chunk(m.next_id).downloaded_bytes == 0
                &&& lane matches Some(c) ==> n.bindings.contains_key(m.next_id)
                    && n.bindings[m.next_id] == c.lane_id
            }
            &&& !room ==> {
                &&& acts.len() == 0
                &&& n.next_id == m.next_id
                &&& n.pending == m.pending.push((new_start, new_end))
            }
        }),
{
    let c = ChunkState { kept_end: (new_start - 1) as u64, ..m.st.chunk(original_id) };
    state::lemma_place(m.st.chunks, original_id);
    state::law_a_chunk_put_is_found(m.st.chunks, c, m.next_id);
    let st = monitor::shortened(m.st, original_id, new_start);
    state::law_a_chunk_put_is_found(
        st.chunks,
        state::fresh_chunk(m.next_id, new_start, new_end, now),
        original_id,
    );
}

/// A report that is no end and no split is taken the same way from either channel; an end or a split is
/// taken from the reliable one alone.
pub proof fn law_ends_are_counted_once(m: MonitorModel, info: InfoView, now: u64)
    ensures
        info is DownloadComplete || info is ChunkFailed || info is ChunkBisected
            ==> monitor::on_event(m, EventView::Broadcast { info }, now) == (
            m,
            Seq::<ActionView>::empty(),
        ),
        !(info is DownloadComplete || info is ChunkFailed || info is ChunkBisected)
            ==> monitor::on_event(m, EventView::Broadcast { info }, now) == monitor::on_event(
            m,
            EventView::Reliable { info },
            now,
        ),
{
}

/// The report tells of the download `st` as a whole: its size, the bytes received of it, the speeds of
/// all chunks together, and of each chunk its id, size, bytes, speed and status.
pub open spec fn tells(info: InfoView, st: StateModel) -> bool {
    info matches InfoView::MonitorUpdate {
        total_size,
        total_downloaded,
        total_speed,
        chunk_details,
    } && {
        let received = st.completed_bytes + st.chunks.fold_left(
            0int,
            |a: int, c: ChunkState| a + c.downloaded_bytes,
        );
        let speed = st.chunks.fold_left(0int, |a: int, c: ChunkState| a + c.speed);
        &&& total_size == st.total_file_size
        &&& received <= u64::MAX ==> total_downloaded == received
        &&& speed <= u64::MAX ==> total_speed == speed
        &&& chunk_details.len() == st.chunks.len()
        &&& forall|i: int|
            #![trigger chunk_details[i]]
            0 <= i < st.chunks.len() && st.chunks[i].start_byte <= st.chunks[i].end_byte
                && st.chunks[i].end_byte < u64::MAX ==> chunk_details[i] == (
                st.chunks[i].id,
                (st.chunks[i].end_byte - st.chunks[i].start_byte + 1) as u64,
                st.chunks[i].downloaded_bytes,
                st.chunks[i].speed,
                st.chunks[i].status,
            )
    }
}

proof fn lemma_update_tells(st: StateModel)
    ensures
        tells(monitor::update_of(st), st),
{
    state::law_sums_are_over_all_chunks(st.chunks);
    state::lemma_accounted(st);
}

/// A monitor that missed reports says how the download stands, and nothing changes.
pub proof fn law_missed_reports_are_made_up(m: MonitorModel, skipped: u64, now: u64)
    ensures
        ({
            let (n, acts) = monitor::on_event(m, EventView::Lagged { skipped }, now);
            &&& n == m
            &&& acts.len() == 1
            &&& acts[0] matches ActionView::Notify { info } && tells(info, m.st)
        }),
{
    lemma_update_tells(m.st);
}

/// Every tick begins with a report of how the download stands after the new speed samples. If the rate
/// is not limited, what the manager decides on those samples is sent next. Then nothing but starts of
/// chunks and their reports follow. The size of the file and what is complete do not change.
pub proof fn law_ticks_report_and_decide(m: MonitorModel, elapsed: u64, running: usize, now: u64)
    requires
        elapsed > 0,
    ensures
        ({
            let (n, acts) = monitor::on_event(m, EventView::Tick { elapsed, running }, now);
            let st = StateModel { chunks: monitor::all_sampled(m.st.chunks, elapsed), ..m.st };
            let (conc, cmd) = concurrency::decision(m.conc, st, now);
            &&& acts.len() > 0
            &&& acts[0] matches ActionView::Notify { info } && tells(info, st)
            &&& !m.limited && cmd is Some ==> acts.len() > 1 && acts[1] == (ActionView::Command {
                cmd: cmd->0,
            })
            &&& !m.limited ==> n.conc == conc
            &&& m.limited ==> n.conc == m.conc
            &&& n.st.total_file_size == m.st.total_file_size
            &&& n.st.completed_bytes == m.st.completed_bytes
            &&& st.chunks.len() == m.st.chunks.len()
            &&& forall|i: int|
                0 <= i < m.st.chunks.len() ==> #[trigger] st.chunks[i] == state::sampled(
                    m.st.chunks[i],
                    elapsed,
                    30,
                )
        }),
{
    let (a, cmd) = monitor::weighed(m, elapsed, now);
    lemma_update_tells(a.st);
    lemma_drained_keeps(a, now);
    let b = monitor::drained(a, now).0;
    lemma_retried_keeps(MonitorModel { retry: retry::processed(b.retry, now), ..b }, now);
}

proof fn lemma_drained_keeps(m: MonitorModel, now: u64)
    ensures
        ({
            let n = monitor::drained(m, now).0;
            &&& n.conc == m.conc
            &&& n.st.total_file_size == m.st.total_file_size
            &&& n.st.completed_bytes == m.st.completed_bytes
            &&& n.retry == m.retry
            &&& m.lanes is None ==> n.lanes is None
        }),
    decreases m.pending.len(),
{
    if m.pending.len() > 0 {
        let (lanes, room, lane) = monitor::seek_room(m.lanes, now);
        if room {
            let (start, end) = m.pending[0];
            lemma_drained_keeps(
                monitor::started(
                    MonitorModel {
                        lanes,
                        pending: m.pending.skip(1),
                        next_id: monitor::next_id(m.next_id),
                        ..m
                    },
                    m.next_id,
                    start,
                    end,
                    lane,
                    now,
                ),
                now,
            );
        }
    }
}

proof fn lemma_retried_keeps(m: MonitorModel, now: u64)
    ensures
        ({
            let n = monitor::retried(m, now).0;
            &&& n.conc == m.conc
            &&& n.st.total_file_size == m.st.total_file_size
            &&& n.st.completed_bytes == m.st.completed_bytes
            &&& n.pending == m.pending
        }),
    decreases m.retry.retry.len(),
{
    retry::lemma_ready_place(m.retry.retry, now);
    let p = retry::ready_place(m.retry.retry, now);
    if p >= 0 {
        let c = m.retry.retry[p];
        let (lanes, room, lane) = monitor::seek_room(m.lanes, now);
        let taken = MonitorModel {
            lanes,
            retry: RetryModel { retry: m.retry.retry.remove(p), ..m.retry },
            ..m
        };
        lemma_retried_keeps(
            if room {
                monitor::started(taken, c.id, c.start, c.end, lane, now)
            } else {
                taken
            },
            now,
        );
    }
}

/// Where waiting ranges are not held up by lanes, every one of them starts, in order and with ids of
/// its own; where a lane has room, at least the first one starts, on that lane.
pub proof fn law_waiting_ranges_start(m: MonitorModel, now: u64)
    requires
        m.next_id + m.pending.len() <= u64::MAX,
    ensures
        ({
            let (n, acts) = monitor::drained(m, now);
            &&& m.lanes is None ==> {
                &&& n.pending.len() == 0
                &&& acts.len() == m.pending.len()
                &&& n.next_id == m.next_id + m.pending.len()
                &&& forall|i: int|
                    0 <= i < m.pending.len() ==> #[trigger] acts[i] == (ActionView::Spawn {
                        id: (m.next_id + i) as u64,
                        start: m.pending[i].0,
                        end: m.pending[i].1,
                        lane: None,
                    })
            }
            &&& m.pending.len() > 0 && (m.lanes matches Some(rt) && source::claim(
                rt,
                now,
            ).1 is Some) ==> acts.len() > 0 && acts[0] == (ActionView::Spawn {
                id: m.next_id,
                start: m.pending[0].0,
                end: m.pending[0].1,
                lane: source::claim(m.lanes->0, now).1,
            })
        }),
    decreases m.pending.len(),
{
    if m.pending.len() > 0 && m.lanes is None {
        let (start, end) = m.pending[0];
        let next = monitor::started(
            MonitorModel {
                lanes: None,
                pending: m.pending.skip(1),
                next_id: monitor::next_id(m.next_id),
                ..m
            },
            m.next_id,
            start,
            end,
            None,
            now,
        );
        law_waiting_ranges_start(next, now);
        let (n, acts) = monitor::drained(m, now);
        let rest = monitor::drained(next, now).1;
        assert(acts == seq![ActionView::Spawn { id: m.next_id, start, end, lane: None }] + rest);
        assert forall|i: int| 0 <= i < m.pending.len() implies #[trigger] acts[i] == (
        ActionView::Spawn {
            id: (m.next_id + i) as u64,
            start: m.pending[i].0,
            end: m.pending[i].1,
            lane: None,
        }) by {
            if i > 0 {
                assert(acts[i] == rest[i - 1]);
                assert(next.pending[i - 1] == m.pending[i]);
            }
        }
    }
}

/// A start of the retry `c`, on whatever lane.
pub open spec fn starts(a: ActionView, c: FailedChunkInfo) -> bool {
    a matches ActionView::Spawn { id, start, end, .. } && id == c.id && start == c.start && end
        == c.end
}

/// The retry `c` starts somewhere among the actions.
pub open spec fn is_started(acts: Seq<ActionView>, c: FailedChunkInfo) -> bool {
    exists|i: int| 0 <= i < acts.len() && starts(#[trigger] acts[i], c)
}

/// Every retry that is ready starts, with its own id and exactly its range, or is put back because no
/// lane has room; without lanes every one starts. Retries that are not ready stay.
pub proof fn law_ready_retries_start(m: MonitorModel, now: u64)
    ensures
        ({
            let (n, acts, back) = monitor::retried(m, now);
            &&& forall|i: int|
                0 <= i < m.retry.retry.len() && (#[trigger] m.retry.retry[i]).ready_at <= now
                    ==> is_started(acts, m.retry.retry[i]) || back.contains(m.retry.retry[i])
            &&& forall|i: int|
                0 <= i < m.retry.retry.len() && (#[trigger] m.retry.retry[i]).ready_at > now
                    ==> n.retry.retry.contains(m.retry.retry[i])
            &&& forall|i: int|
                0 <= i < n.retry.retry.len() ==> (#[trigger] n.retry.retry[i]).ready_at > now
            &&& m.lanes is None ==> back.len() == 0
        }),
    decreases m.retry.retry.len(),
{
    let s = m.retry.retry;
    retry::lemma_ready_place(s, now);
    let p = retry::ready_place(s, now);
    let (n, acts, back) = monitor::retried(m, now);
    if p < 0 {
        assert forall|i: int| 0 <= i < s.len() && (#[trigger] s[i]).ready_at
            > now implies n.retry.retry.contains(s[i]) by {
            assert(n.retry.retry[i] == s[i]);
        }
    } else {
        let c = s[p];
        let (lanes, room, lane) = monitor::seek_room(m.lanes, now);
        let taken = MonitorModel { lanes, retry: RetryModel { retry: s.remove(p), ..m.retry }, ..m };
        let next = if room {
            monitor::started(taken, c.id, c.start, c.end, lane, now)
        } else {
            taken
        };
        law_ready_retries_start(next, now);
        let (last, rest, more) = monitor::retried(next, now);
        let t = next.retry.retry;
        assert forall|i: int| 0 <= i < s.len() && (#[trigger] s[i]).ready_at <= now implies is_started(
            acts,
            s[i],
        ) || back.contains(s[i]) by {
            if i == p {
                if room {
                    assert(starts(acts[1], c));
                } else {
                    assert(back[0] == c);
                }
            } else {
                let k = if i < p {
                    i
                } else {
                    i - 1
                };
                assert(t[k] == s[i]);
                if is_started(rest, s[i]) {
                    let j = choose|j: int| 0 <= j < rest.len() && starts(#[trigger] rest[j], s[i]);
                    if room {
                        assert(acts[j + 2] == rest[j]);
                    } else {
                        assert(acts[j] == rest[j]);
                    }
                } else {
                    let j = choose|j: int| 0 <= j < more.len() && more[j] == s[i];
                    if room {
                        assert(back[j] == more[j]);
                    } else {
                        assert(back[j + 1] == more[j]);
                    }
                }
            }
        }
        assert forall|i: int| 0 <= i < s.len() && (#[trigger] s[i]).ready_at
            > now implies n.retry.retry.contains(s[i]) by {
            let k = if i < p {
                i
            } else {
                i - 1
            };
            assert(t[k] == s[i]);
        }
    }
}

/// The first retry that is ready starts wherever a lane has room, after a report that it is tried again.
pub proof fn law_the_first_ready_retry_starts(m: MonitorModel, now: u64, p: int)
    requires
        0 <= p < m.retry.retry.len(),
        m.retry.retry[p].ready_at <= now,
        forall|i: int| 0 <= i < p ==> (#[trigger] m.retry.retry[i]).ready_at > now,
        m.lanes matches Some(rt) ==> source::claim(rt, now).1 is Some,
    ensures
        ({
            let acts = monitor::retried(m, now).1;
            let c = m.retry.retry[p];
            &&& acts.len() >= 2
            &&& acts[0] matches ActionView::Notify { info } && (
            info matches InfoView::ChunkStatusChanged { id, status, .. } && id == c.id && status
                == 1)
            &&& acts[1] == (ActionView::Spawn {
                id: c.id,
                start: c.start,
                end: c.end,
                lane: match m.lanes {
                    Some(rt) => source::claim(rt, now).1,
                    None => None,
                },
            })
        }),
{
    retry::lemma_ready_place(m.retry.retry, now);
}

/// On a tick without lanes nothing is left waiting: every waiting range and every retry that is ready
/// starts.
pub proof fn law_ticks_leave_nothing_waiting(
    m: MonitorModel,
    elapsed: u64,
    running: usize,
    now: u64,
)
    requires
        elapsed > 0,
        m.lanes is None,
        m.next_id + m.pending.len() <= u64::MAX,
    ensures
        ({
            let (n, acts) = monitor::on_event(m, EventView::Tick { elapsed, running }, now);
            &&& n.pending.len() == 0
            &&& forall|i: int|
                0 <= i < n.retry.retry.len() ==> (#[trigger] n.retry.retry[i]).ready_at > now
            &&& forall|i: int|
                0 <= i < m.retry.retry.len() && (#[trigger] m.retry.retry[i]).ready_at <= now
                    ==> is_started(acts, m.retry.retry[i])
            &&& n.retry.delayed.len() > 0 ==> n.retry.delayed[0].retry_at > now
        }),
{
    let (a, cmd) = monitor::weighed(m, elapsed, now);
    law_waiting_ranges_start(a, now);
    lemma_drained_keeps(a, now);
    let (b, spawned) = monitor::drained(a, now);
    let ready = MonitorModel { retry: retry::processed(b.retry, now), ..b };
    law_ready_retries_start(ready, now);
    lemma_retried_keeps(ready, now);
    let (c, again, back) = monitor::retried(ready, now);
    let (n, acts) = monitor::on_event(m, EventView::Tick { elapsed, running }, now);
    assert(back.len() == 0);
    assert(n.retry.retry =~= c.retry.retry);
    let first = seq![ActionView::Notify { info: monitor::update_of(a.st) }] + (match cmd {
        Some(d) => seq![ActionView::Command { cmd: d }],
        None => Seq::empty(),
    }) + spawned;
    assert(acts == first + again);
    assert forall|i: int|
        0 <= i < m.retry.retry.len() && (#[trigger] m.retry.retry[i]).ready_at
            <= now implies is_started(acts, m.retry.retry[i]) by {
        assert(ready.retry.retry[i] == m.retry.retry[i]);
        let r = m.retry.retry[i];
        assert(is_started(again, r));
        let j = choose|j: int| 0 <= j < again.len() && starts(#[trigger] again[j], r);
        assert(acts[first.len() + j] == again[j]);
    }
    lemma_delayed_stays(ready, now);
    if m.retry.delayed.len() > 0 && m.retry.delayed[0].retry_at <= now {
        patience::law_due_ranges_are_ready(m.retry, now);
    } else {
        patience::law_nothing_comes_back_early(m.retry, now);
    }
}

proof fn lemma_delayed_stays(m: MonitorModel, now: u64)
    ensures
        monitor::retried(m, now).0.retry.delayed == m.retry.delayed,
    decreases m.retry.retry.len(),
{
    retry::lemma_ready_place(m.retry.retry, now);
    let p = retry::ready_place(m.retry.retry, now);
    if p >= 0 {
        let c = m.retry.retry[p];
        let (lanes, room, lane) = monitor::seek_room(m.lanes, now);
        let taken = MonitorModel {
            lanes,
            retry: RetryModel { retry: m.retry.retry.remove(p), ..m.retry },
            ..m
        };
        lemma_delayed_stays(
            if room {
                monitor::started(taken, c.id, c.start, c.end, lane, now)
            } else {
                taken
            },
            now,
        );
    }
}

/// A retry that is put back for want of room is ready again after a second; its id, its range and its
/// count stay.
pub proof fn law_put_back_retries_wait_a_second(c: FailedChunkInfo, now: u64)
    requires
        now + 1_000_000_000 <= u64::MAX,
    ensures
        ({
            let r = retry::put_off(c, now);
            &&& r.ready_at == now + 1_000_000_000
            &&& r.id == c.id && r.start == c.start && r.end == c.end && r.attempts == c.attempts
        }),
{
}

/// A download ends when a task ends or time passes exactly if no task runs, no chunk is active, nothing
/// waits, and every byte was received; and it ends when there is nobody left to hear from.
pub proof fn law_downloads_end_when_all_is_received(m: MonitorModel, running: usize, elapsed: u64)
    ensures
        ({
            let done = running == 0 && m.pending.len() == 0 && m.st.chunks.len() == 0
                && m.retry.retry.len() == 0 && m.retry.delayed.len() == 0 && m.st.completed_bytes
                >= m.st.total_file_size;
            &&& monitor::ended(m, EventView::TaskJoined { running }) <==> done
            &&& elapsed > 0 ==> (monitor::ended(m, EventView::Tick { elapsed, running }) <==> done)
            &&& !monitor::ended(m, EventView::Tick { elapsed: 0, running })
            &&& monitor::ended(m, EventView::Closed)
        }),
{
    state::law_finished_means_all_received(m.st);
}

/// Reports and missed reports never end a download.
pub proof fn law_reports_end_no_download(m: MonitorModel, info: InfoView, skipped: u64)
    ensures
        !monitor::ended(m, EventView::Reliable { info }),
        !monitor::ended(m, EventView::Broadcast { info }),
        !monitor::ended(m, EventView::Lagged { skipped }),
{
}

/// Without lanes, a download starts every range that it is given, in order, each as a chunk with an id
/// of its own.
pub proof fn law_first_chunks_start_in_order(m: MonitorModel, ranges: Seq<(u64, u64)>, now: u64)
    requires
        m.lanes is None,
        m.next_id + ranges.len() <= u64::MAX,
    ensures
        ({
            let (n, acts) = monitor::all_opened(m, ranges, now);
            &&& acts.len() == ranges.len()
            &&& n.next_id == m.next_id + ranges.len()
            &&& n.pending == m.pending
            &&& n.lanes is None
            &&& forall|i: int|
                0 <= i < ranges.len() ==> #[trigger] acts[i] == (ActionView::Spawn {
                    id: (m.next_id + i) as u64,
                    start: ranges[i].0,
                    end: ranges[i].1,
                    lane: None,
                })
        }),
    decreases ranges.len(),
{
    if ranges.len() > 0 {
        law_first_chunks_start_in_order(m, ranges.drop_last(), now);
        let (before, acts) = monitor::all_opened(m, ranges.drop_last(), now);
        let more = monitor::opened(before, ranges.last().0, ranges.last().1, now).1;
        let all = monitor::all_opened(m, ranges, now).1;
        assert(all == acts + more);
        assert forall|i: int| 0 <= i < ranges.len() implies #[trigger] all[i] == (
        ActionView::Spawn {
            id: (m.next_id + i) as u64,
            start: ranges[i].0,
            end: ranges[i].1,
            lane: None,
        }) by {
            if i < acts.len() {
                assert(all[i] == acts[i]);
                assert(ranges.drop_last()[i] == ranges[i]);
            }
        }
    }
}

/// New limits are taken only if they are valid: a speed between 1 and 4294967295 with a burst in the
/// same bounds or none. Without a speed and without a burst the limiter is taken out of use. Anything
/// else leaves the limiter as it is.
pub proof fn law_only_valid_limits_are_taken(cfg: RuntimeConfig, present: bool)
    ensures
        ({
            let change = monitor::limiter_change(cfg, present);
            let good = cfg.speed_limit is Some && 1 <= cfg.speed_limit->0 <= 4_294_967_295 && (
            cfg.burst matches Some(b) ==> 1 <= b <= 4_294_967_295);
            let want = LimiterSettings {
                bytes_per_sec: cfg.speed_limit->0 as u32,
                burst: match cfg.burst {
                    Some(b) => b as u32,
                    None => 65_536,
                },
            };
            &&& good && present ==> change == (LimiterChange::Reconfigure { settings: want })
            &&& good && !present ==> change == (LimiterChange::Install { settings: want })
            &&& cfg.speed_limit is None && cfg.burst is None ==> change == LimiterChange::Disable
            &&& !good && !(cfg.speed_limit is None && cfg.burst is None) ==> change
                == LimiterChange::Keep
        }),
{
}

/// A download begins with no chunk and nothing that waits, with what was received before, up to the
/// size of the file.
pub proof fn law_downloads_begin_with_what_was_received(
    total_file_size: u64,
    completed_bytes: u64,
    update_interval: u64,
    max_workers: u64,
    limited: bool,
)
    ensures
        ({
            let m = monitor::ready(
                total_file_size,
                completed_bytes,
                update_interval,
                max_workers,
                None,
                limited,
            );
            &&& m.st.total_file_size == total_file_size
            &&& m.st.chunks.len() == 0 && m.pending.len() == 0 && m.retry.retry.len() == 0
                && m.retry.delayed.len() == 0 && m.retry.lost.len() == 0
            &&& completed_bytes <= total_file_size ==> m.st.completed_bytes == completed_bytes
            &&& completed_bytes > total_file_size ==> m.st.completed_bytes == total_file_size
            &&& m.next_id == 0
            &&& m.limited == limited
            &&& m.conc.max_workers == max_workers
            &&& m.lanes is None
            &&& monitor::ended(m, EventView::TaskJoined { running: 0 }) <==> completed_bytes
                >= total_file_size
        }),
{
    state::law_finished_means_all_received(
        monitor::ready(
            total_file_size,
            completed_bytes,
            update_interval,
            max_workers,
            None,
            limited,
        ).st,
    );
}

/// The first report of a chunk that was not started here adds the chunk with what it reports.
pub proof fn law_new_chunks_report_themselves(
    m: MonitorModel,
    id: ChunkId,
    start_byte: u64,
    end_byte: u64,
    downloaded: u64,
    now: u64,
)
    requires
        !m.st.knows(id),
        id >= m.next_id,
    ensures
        ({
            let (n, acts) = monitor::on_event(
                m,
                EventView::Broadcast {
                    info: InfoView::ChunkProgress { id, start_byte, end_byte, downloaded },
                },
                now,
            );
            &&& acts.len() == 0
            &&& n.st.knows(id)
            &&& n.st.chunk(id).start_byte == start_byte && n.st.chunk(id).end_byte == end_byte
            &&& n.st.chunk(id).downloaded_bytes == downloaded
            &&& n.st.chunks.len() == m.st.chunks.len() + 1
            &&& n.st.chunks.drop_last() == m.st.chunks
        }),
{
    let c = monitor::reported(
        state::fresh_chunk(id, start_byte, end_byte, now),
        end_byte,
        downloaded,
        now,
    );
    state::law_a_chunk_put_is_found(m.st.chunks, c, id);
    assert(m.st.chunks.push(c).drop_last() =~= m.st.chunks);
}

/// New settings set the number of workers, at least one, and whether the rate is limited: it is under
/// new limits, it is not once the limiter is taken out of use, and it stays as it was where the limits
/// are not valid. What runs and what waits stays.
pub proof fn law_new_settings_keep_what_runs(m: MonitorModel, cfg: RuntimeConfig, present: bool)
    ensures
        ({
            let change = monitor::limiter_change(cfg, present);
            let n = monitor::reconfigured(m, cfg, change);
            &&& cfg.workers >= 1 ==> n.conc.max_workers == cfg.workers
            &&& cfg.workers == 0 ==> n.conc.max_workers == 1
            &&& n.conc.phase == m.conc.phase && n.conc.speed_samples == m.conc.speed_samples
                && n.conc.last_split_time == m.conc.last_split_time && n.conc.max_speed
                == m.conc.max_speed
            &&& change is Keep ==> n.limited == m.limited
            &&& change is Disable ==> !n.limited
            &&& change is Install || change is Reconfigure ==> n.limited
            &&& n.st == m.st && n.retry == m.retry && n.bindings == m.bindings && n.pending
                == m.pending && n.next_id == m.next_id && n.lanes == m.lanes
        }),
{
}

/// Waiting ranges keep waiting only where no lane can take a chunk any more.
pub proof fn law_ranges_wait_only_for_room(m: MonitorModel, now: u64)
    requires
        m.lanes matches Some(rt) && standing::sound_lanes(rt),
    ensures
        ({
            let n = monitor::drained(m, now).0;
            &&& n.lanes is Some && standing::sound_lanes(n.lanes->0)
            &&& n.pending.len() > 0 ==> standing::all_full(n.lanes->0)
        }),
    decreases m.pending.len(),
{
    if m.pending.len() > 0 {
        standing::lemma_claims_keep_lanes(m.lanes->0, now);
        let (lanes, room, lane) = monitor::seek_room(m.lanes, now);
        if room {
            let (start, end) = m.pending[0];
            law_ranges_wait_only_for_room(
                monitor::started(
                    MonitorModel {
                        lanes,
                        pending: m.pending.skip(1),
                        next_id: monitor::next_id(m.next_id),
                        ..m
                    },
                    m.next_id,
                    start,
                    end,
                    lane,
                    now,
                ),
                now,
            );
        }
    }
}

/// Retries that are ready are put back only where no lane can take a chunk any more.
pub proof fn law_retries_are_put_back_only_for_room(m: MonitorModel, now: u64)
    requires
        m.lanes matches Some(rt) && standing::sound_lanes(rt),
    ensures
        ({
            let (n, acts, back) = monitor::retried(m, now);
            &&& n.lanes is Some && standing::sound_lanes(n.lanes->0)
            &&& standing::all_full(m.lanes->0) ==> standing::all_full(n.lanes->0)
            &&& back.len() > 0 ==> standing::all_full(n.lanes->0)
        }),
    decreases m.retry.retry.len(),
{
    retry::lemma_ready_place(m.retry.retry, now);
    let p = retry::ready_place(m.retry.retry, now);
    if p >= 0 {
        standing::lemma_claims_keep_lanes(m.lanes->0, now);
        let c = m.retry.retry[p];
        let (lanes, room, lane) = monitor::seek_room(m.lanes, now);
        let taken = MonitorModel {
            lanes,
            retry: RetryModel { retry: m.retry.retry.remove(p), ..m.retry },
            ..m
        };
        law_retries_are_put_back_only_for_room(
            if room {
                monitor::started(taken, c.id, c.start, c.end, lane, now)
            } else {
                taken
            },
            now,
        );
    }
}

/// After a tick ranges wait only where no lane can take a chunk any more.
pub proof fn law_ticks_fill_the_lanes(m: MonitorModel, elapsed: u64, running: usize, now: u64)
    requires
        elapsed > 0,
        m.lanes matches Some(rt) && standing::sound_lanes(rt),
    ensures
        ({
            let n = monitor::on_event(m, EventView::Tick { elapsed, running }, now).0;
            &&& n.lanes is Some
            &&& n.pending.len() > 0 || (exists|i: int|
                0 <= i < n.retry.retry.len() && (#[trigger] n.retry.retry[i]).ready_at <= now)
                ==> standing::all_full(n.lanes->0)
        }),
{
    let (a, cmd) = monitor::weighed(m, elapsed, now);
    law_ranges_wait_only_for_room(a, now);
    let b = monitor::drained(a, now).0;
    let ready = MonitorModel { retry: retry::processed(b.retry, now), ..b };
    law_retries_are_put_back_only_for_room(ready, now);
    lemma_retried_keeps(ready, now);
    law_ready_retries_start(ready, now);
    let (c, again, back) = monitor::retried(ready, now);
    let n = monitor::on_event(m, EventView::Tick { elapsed, running }, now).0;
    if exists|i: int| 0 <= i < n.retry.retry.len() && (#[trigger] n.retry.retry[i]).ready_at <= now {
        let i = choose|i: int|
            0 <= i < n.retry.retry.len() && (#[trigger] n.retry.retry[i]).ready_at <= now;
        if i < c.retry.retry.len() {
            assert(n.retry.retry[i] == c.retry.retry[i]);
        }
        assert(back.len() > 0);
    }
}

/// A range that was given away becomes a chunk whoever gave it away, and waits where no lane has room.
pub proof fn law_given_away_ranges_are_never_dropped(
    m: MonitorModel,
    original_id: ChunkId,
    new_start: u64,
    new_end: u64,
    now: u64,
)
    ensures
        ({
            let (n, acts) = monitor::on_event(
                m,
                EventView::Reliable {
                    info: InfoView::ChunkBisected { original_id, new_start, new_end },
                },
                now,
            );
            let lane = match m.lanes {
                Some(rt) => source::claim(rt, now).1,
                None => None,
            };
            &&& m.lanes is None || lane is Some ==> acts == seq![
                ActionView::Spawn { id: m.next_id, start: new_start, end: new_end, lane },
            ] && n.pending == m.pending
            &&& m.lanes is Some && lane is None ==> acts.len() == 0 && n.pending == m.pending.push(
                (new_start, new_end),
            )
            &&& n.retry == m.retry && n.st.completed_bytes == m.st.completed_bytes
        }),
{
}

/// A task that ends, a tick without time and the end of all reports change nothing and ask for nothing.
pub proof fn law_quiet_events_change_nothing(m: MonitorModel, running: usize, now: u64)
    ensures
        monitor::on_event(m, EventView::TaskJoined { running }, now) == (
            m,
            Seq::<ActionView>::empty(),
        ),
        monitor::on_event(m, EventView::Tick { elapsed: 0, running }, now) == (
            m,
            Seq::<ActionView>::empty(),
        ),
        monitor::on_event(m, EventView::Closed, now) == (m, Seq::<ActionView>::empty()),
{
}

/// What is done is told one by one and in order, by the monitor and by a chunk.
pub proof fn law_views_keep_the_order(
    acts: Seq<monitor::MonitorAction>,
    reports: Seq<DownloadInfo>,
    i: int,
)
    ensures
        monitor::action_views(acts).len() == acts.len(),
        0 <= i < acts.len() ==> monitor::action_views(acts)[i] == acts[i]@,
        chunk::report_views(reports).len() == reports.len(),
        0 <= i < reports.len() ==> chunk::report_views(reports)[i] == reports[i]@,
{
}

/// Downloads with the same sources have the same setup, or none has any.
pub proof fn law_sources_stay(a: Option<MultiRuntime>, b: Option<MultiRuntime>)
    requires
        monitor::same_sources(a, b),
    ensures
        a is Some <==> b is Some,
        a is Some ==> a->0.same_setup(b->0),
{
}

} // verus!
