//! What the monitor never loses: every range that is not yet received runs, waits or was given up.

use crate::chunk;
use crate::monitor;
use crate::monitor::{ActionView, MonitorModel};
use crate::retry;
use crate::retry::{DelayedChunkInfo, FailedChunkInfo, RetryModel};
use crate::source::LaneClaim;
use crate::state;
use crate::state::ChunkState;
use crate::types::{ChunkId, InfoView};
use vstd::multiset::Multiset;
use vstd::prelude::*;

verus! {

/// What the active chunks still hold of their ranges.
pub open spec fn chunk_ranges(s: Seq<ChunkState>) -> Seq<(u64, u64)> {
    Seq::new(s.len(), |i: int| (s[i].start_byte, s[i].held_end()))
}

/// The bytes of what a chunk still holds.
pub open spec fn held_bytes(c: ChunkState) -> int {
    chunk::span(c.start_byte, c.held_end())
}

/// The ids of active chunks.
pub open spec fn chunk_ids(s: Seq<ChunkState>) -> Seq<ChunkId> {
    Seq::new(s.len(), |i: int| s[i].id)
}

/// The ranges of failed chunks.
pub open spec fn failed_ranges(s: Seq<FailedChunkInfo>) -> Seq<(u64, u64)> {
    Seq::new(s.len(), |i: int| (s[i].start, s[i].end))
}

/// The ids of failed chunks.
pub open spec fn failed_ids(s: Seq<FailedChunkInfo>) -> Seq<ChunkId> {
    Seq::new(s.len(), |i: int| s[i].id)
}

/// The ranges that are not yet received: those of the active chunks, of the retries, of the waiting
/// ranges and of the chunks given up.
pub open spec fn outstanding(m: MonitorModel) -> Multiset<(u64, u64)> {
    chunk_ranges(m.st.chunks).to_multiset().add(failed_ranges(m.retry.retry).to_multiset()).add(
        failed_ranges(retry::delayed_ranges(m.retry.delayed)).to_multiset(),
    ).add(failed_ranges(m.retry.lost).to_multiset()).add(m.pending.to_multiset())
}

/// The ids in use: those of the active chunks and of the retries.
pub open spec fn ids_in_use(m: MonitorModel) -> Multiset<ChunkId> {
    chunk_ids(m.st.chunks).to_multiset().add(failed_ids(m.retry.retry).to_multiset()).add(
        failed_ids(retry::delayed_ranges(m.retry.delayed)).to_multiset(),
    )
}

/// No id is used twice, and the ids from the next one on are free.
pub open spec fn tidy(m: MonitorModel) -> bool {
    &&& forall|id: ChunkId| #[trigger] ids_in_use(m).count(id) <= 1
    &&& forall|id: ChunkId| id >= m.next_id ==> #[trigger] ids_in_use(m).count(id) == 0
}

/// An active chunk's id is in use.
pub proof fn lemma_known_id(m: MonitorModel, id: ChunkId)
    ensures
        m.st.knows(id) == (chunk_ids(m.st.chunks).to_multiset().count(id) > 0),
{
    broadcast use vstd::seq_lib::group_to_multiset_ensures;

    let s = m.st.chunks;
    state::lemma_place(s, id);
    let ids = chunk_ids(s);
    if m.st.knows(id) {
        assert(ids[state::place(s, id)] == id);
        assert(ids.contains(id));
    }
    if ids.contains(id) {
        let i = choose|i: int| 0 <= i < ids.len() && ids[i] == id;
        assert(s[i].id == id);
    }
}

/// A chunk whose id is free joins the others when it starts.
pub proof fn lemma_started(
    m: MonitorModel,
    id: ChunkId,
    start: u64,
    end: u64,
    lane: Option<LaneClaim>,
    now: u64,
)
    requires
        ids_in_use(m).count(id) == 0,
    ensures
        outstanding(monitor::started(m, id, start, end, lane, now)) == outstanding(m).insert(
            (start, end),
        ),
        ids_in_use(monitor::started(m, id, start, end, lane, now)) == ids_in_use(m).insert(id),
{
    broadcast use vstd::multiset::group_multiset_axioms;
    broadcast use vstd::seq_lib::group_to_multiset_ensures;

    lemma_known_id(m, id);
    let n = monitor::started(m, id, start, end, lane, now);
    assert(chunk_ranges(n.st.chunks) =~= chunk_ranges(m.st.chunks).push((start, end)));
    assert(chunk_ids(n.st.chunks) =~= chunk_ids(m.st.chunks).push(id));
    assert(outstanding(n) =~= outstanding(m).insert((start, end)));
    assert(ids_in_use(n) =~= ids_in_use(m).insert(id));
}

/// What a retry leaves behind when it is taken out of the queue.
pub proof fn lemma_taken(m: MonitorModel, p: int)
    requires
        0 <= p < m.retry.retry.len(),
    ensures
        ({
            let c = m.retry.retry[p];
            let n = MonitorModel {
                retry: RetryModel { retry: m.retry.retry.remove(p), ..m.retry },
                ..m
            };
            &&& outstanding(n).insert((c.start, c.end)) == outstanding(m)
            &&& ids_in_use(n).insert(c.id) == ids_in_use(m)
        }),
{
    broadcast use vstd::multiset::group_multiset_axioms;
    broadcast use vstd::seq_lib::group_to_multiset_ensures;

    let s = m.retry.retry;
    let c = s[p];
    let n = MonitorModel { retry: RetryModel { retry: s.remove(p), ..m.retry }, ..m };
    assert(failed_ranges(s.remove(p)) =~= failed_ranges(s).remove(p));
    assert(failed_ids(s.remove(p)) =~= failed_ids(s).remove(p));
    assert(failed_ranges(s)[p] == (c.start, c.end));
    assert(failed_ranges(s).contains((c.start, c.end)));
    assert(failed_ids(s)[p] == c.id);
    assert(failed_ids(s).contains(c.id));
    assert(outstanding(n).insert((c.start, c.end)) =~= outstanding(m));
    assert(ids_in_use(n).insert(c.id) =~= ids_in_use(m));
}

/// What the waiting ranges keep when they start.
pub proof fn lemma_drained(m: MonitorModel, now: u64)
    requires
        tidy(m),
        m.next_id + m.pending.len() <= u64::MAX,
    ensures
        outstanding(monitor::drained(m, now).0) == outstanding(m),
        tidy(monitor::drained(m, now).0),
        monitor::drained(m, now).0.retry == m.retry,
    decreases m.pending.len(),
{
    broadcast use vstd::multiset::group_multiset_axioms;
    broadcast use vstd::seq_lib::group_to_multiset_ensures;

    if m.pending.len() > 0 {
        let (lanes, room, lane) = monitor::seek_room(m.lanes, now);
        if room {
            let (start, end) = m.pending[0];
            let taken = MonitorModel {
                lanes,
                pending: m.pending.skip(1),
                next_id: monitor::next_id(m.next_id),
                ..m
            };
            assert(m.pending.skip(1) =~= m.pending.remove(0));
            assert(m.pending.contains(m.pending[0]));
            assert(outstanding(taken).insert((start, end)) =~= outstanding(m));
            assert(ids_in_use(taken) == ids_in_use(m));
            lemma_started(taken, m.next_id, start, end, lane, now);
            let next = monitor::started(taken, m.next_id, start, end, lane, now);
            lemma_drained(next, now);
        } else {
            let last = MonitorModel { lanes, ..m };
            assert(outstanding(last) == outstanding(m));
            assert(ids_in_use(last) == ids_in_use(m));
        }
    }
}

/// Fewer ids in use stay tidy.
pub proof fn lemma_tidy_subset(m: MonitorModel, n: MonitorModel, id: ChunkId)
    requires
        tidy(m),
        n.next_id == m.next_id,
        ids_in_use(n).insert(id) == ids_in_use(m),
    ensures
        tidy(n),
        ids_in_use(n).count(id) == 0,
{
    broadcast use vstd::multiset::group_multiset_axioms;

    assert forall|x: ChunkId| #[trigger] ids_in_use(n).count(x) <= 1 by {
        assert(ids_in_use(m).count(x) >= ids_in_use(n).count(x));
    }
    assert forall|x: ChunkId| x >= n.next_id implies #[trigger] ids_in_use(n).count(x) == 0 by {
        assert(ids_in_use(m).count(x) >= ids_in_use(n).count(x));
    }
    assert(ids_in_use(m).count(id) == ids_in_use(n).count(id) + 1);
}

/// What the retries keep when they start: a retry runs or is given back.
proof fn lemma_retried(m: MonitorModel, now: u64)
    requires
        tidy(m),
    ensures
        ({
            let (last, acts, back) = monitor::retried(m, now);
            &&& outstanding(last).add(failed_ranges(back).to_multiset()) == outstanding(m)
            &&& ids_in_use(last).add(failed_ids(back).to_multiset()) == ids_in_use(m)
            &&& last.next_id == m.next_id
        }),
    decreases m.retry.retry.len(),
{
    broadcast use vstd::multiset::group_multiset_axioms;
    broadcast use vstd::seq_lib::group_to_multiset_ensures;

    let s = m.retry.retry;
    let p = retry::ready_place(s, now);
    retry::lemma_ready_place(s, now);
    let (last, acts, back) = monitor::retried(m, now);
    if p < 0 {
        assert(failed_ranges(back) =~= Seq::empty());
        assert(failed_ids(back) =~= Seq::empty());
        assert(outstanding(last).add(failed_ranges(back).to_multiset()) =~= outstanding(m));
        assert(ids_in_use(last).add(failed_ids(back).to_multiset()) =~= ids_in_use(m));
    } else {
        let c = s[p];
        let (lanes, room, lane) = monitor::seek_room(m.lanes, now);
        lemma_taken(m, p);
        let bare = MonitorModel { retry: RetryModel { retry: s.remove(p), ..m.retry }, ..m };
        let taken = MonitorModel { lanes, ..bare };
        assert(outstanding(taken) == outstanding(bare));
        assert(ids_in_use(taken) == ids_in_use(bare));
        lemma_tidy_subset(m, taken, c.id);
        if room {
            lemma_started(taken, c.id, c.start, c.end, lane, now);
            let next = monitor::started(taken, c.id, c.start, c.end, lane, now);
            assert(ids_in_use(next) == ids_in_use(m));
            lemma_retried(next, now);
        } else {
            let (_, _, rest) = monitor::retried(taken, now);
            lemma_retried(taken, now);
            assert(failed_ranges(back) =~= seq![(c.start, c.end)] + failed_ranges(rest));
            assert(failed_ids(back) =~= seq![c.id] + failed_ids(rest));
            assert(failed_ranges(back) =~= failed_ranges(rest).insert(0, (c.start, c.end)));
            assert(failed_ids(back) =~= failed_ids(rest).insert(0, c.id));
            vstd::seq_lib::to_multiset_insert(failed_ranges(rest), 0, (c.start, c.end));
            vstd::seq_lib::to_multiset_insert(failed_ids(rest), 0, c.id);
            assert(outstanding(last).add(failed_ranges(back).to_multiset()) =~= outstanding(m));
            assert(ids_in_use(last).add(failed_ids(back).to_multiset()) =~= ids_in_use(m));
        }
    }
}

/// No more entries are due than there are.
proof fn lemma_due_count(s: Seq<DelayedChunkInfo>, now: u64)
    ensures
        0 <= retry::due_count(s, now) <= s.len(),
    decreases s.len(),
{
    if s.len() > 0 && s[0].retry_at <= now {
        lemma_due_count(s.skip(1), now);
    }
}

/// What the delayed ranges keep when they are moved.
pub proof fn lemma_processed(m: MonitorModel, now: u64)
    ensures
        ({
            let n = MonitorModel { retry: retry::processed(m.retry, now), ..m };
            &&& outstanding(n) == outstanding(m)
            &&& ids_in_use(n) == ids_in_use(m)
        }),
{
    broadcast use vstd::multiset::group_multiset_axioms;

    let n = MonitorModel { retry: retry::processed(m.retry, now), ..m };
    let d = m.retry.delayed;
    let k = retry::due_count(d, now);
    lemma_due_count(d, now);
    let moved = retry::all_revived(d.take(k), now);
    let all = retry::delayed_ranges(d);
    let rest = retry::delayed_ranges(d.skip(k));
    assert(failed_ranges(n.retry.retry) =~= failed_ranges(m.retry.retry) + failed_ranges(moved));
    assert(failed_ids(n.retry.retry) =~= failed_ids(m.retry.retry) + failed_ids(moved));
    assert(failed_ranges(all) =~= failed_ranges(moved) + failed_ranges(rest));
    assert(failed_ids(all) =~= failed_ids(moved) + failed_ids(rest));
    vstd::seq_lib::lemma_multiset_commutative(
        failed_ranges(m.retry.retry),
        failed_ranges(moved),
    );
    vstd::seq_lib::lemma_multiset_commutative(failed_ids(m.retry.retry), failed_ids(moved));
    vstd::seq_lib::lemma_multiset_commutative(failed_ranges(moved), failed_ranges(rest));
    vstd::seq_lib::lemma_multiset_commutative(failed_ids(moved), failed_ids(rest));
    assert(outstanding(n) =~= outstanding(m));
    assert(ids_in_use(n) =~= ids_in_use(m));
}

/// Whatever a tick does, it keeps every range that is not yet received: ranges start, wait or wait
/// again, and none is dropped, duplicated or changed. No id is ever used twice.
pub proof fn law_ticks_keep_every_range(m: MonitorModel, elapsed: u64, now: u64)
    requires
        tidy(m),
        m.next_id + m.pending.len() <= u64::MAX,
    ensures
        outstanding(monitor::on_tick(m, elapsed, now).0) == outstanding(m),
        tidy(monitor::on_tick(m, elapsed, now).0),
{
    broadcast use vstd::multiset::group_multiset_axioms;

    let (a, cmd) = monitor::weighed(m, elapsed, now);
    assert(chunk_ranges(a.st.chunks) =~= chunk_ranges(m.st.chunks));
    assert(chunk_ids(a.st.chunks) =~= chunk_ids(m.st.chunks));
    assert(ids_in_use(a) == ids_in_use(m));
    assert(tidy(a));
    lemma_drained(a, now);
    let (b, spawned) = monitor::drained(a, now);
    let b2 = MonitorModel { retry: retry::processed(b.retry, now), ..b };
    lemma_processed(b, now);
    assert(tidy(b2));
    lemma_retried(b2, now);
    let (c, again, back) = monitor::retried(b2, now);
    let last = monitor::on_tick(m, elapsed, now).0;
    let off = monitor::all_put_off(back, now);
    assert(failed_ranges(off) =~= failed_ranges(back));
    assert(failed_ids(off) =~= failed_ids(back));
    assert(failed_ranges(last.retry.retry) =~= failed_ranges(c.retry.retry) + failed_ranges(back));
    assert(failed_ids(last.retry.retry) =~= failed_ids(c.retry.retry) + failed_ids(back));
    vstd::seq_lib::lemma_multiset_commutative(failed_ranges(c.retry.retry), failed_ranges(back));
    vstd::seq_lib::lemma_multiset_commutative(failed_ids(c.retry.retry), failed_ids(back));
    assert(outstanding(last) =~= outstanding(b2));
    assert(ids_in_use(last) =~= ids_in_use(b2));
}

/// A chunk leaves the table.
proof fn lemma_without(m: MonitorModel, id: ChunkId)
    requires
        m.st.knows(id),
    ensures
        ({
            let c = m.st.chunk(id);
            let left = state::without_chunk(m.st.chunks, id);
            &&& chunk_ranges(left).to_multiset() == chunk_ranges(m.st.chunks).to_multiset().remove(
                (c.start_byte, c.held_end()),
            )
            &&& chunk_ids(left).to_multiset() == chunk_ids(m.st.chunks).to_multiset().remove(id)
            &&& chunk_ranges(m.st.chunks).to_multiset().count((c.start_byte, c.held_end())) > 0
            &&& chunk_ids(m.st.chunks).to_multiset().count(id) > 0
        }),
{
    broadcast use vstd::seq_lib::group_to_multiset_ensures;

    let s = m.st.chunks;
    state::lemma_place(s, id);
    let p = state::place(s, id);
    assert(chunk_ranges(s.remove(p)) =~= chunk_ranges(s).remove(p));
    assert(chunk_ids(s.remove(p)) =~= chunk_ids(s).remove(p));
    assert(chunk_ranges(s)[p] == (s[p].start_byte, s[p].held_end()));
    assert(chunk_ranges(s).contains((s[p].start_byte, s[p].held_end())));
    assert(chunk_ids(s)[p] == id);
    assert(chunk_ids(s).contains(id));
}

/// When a chunk completes, exactly what it still holds is no longer outstanding, and counts as
/// received, whatever end it last reported.
pub proof fn law_completion_settles_one_range(m: MonitorModel, id: ChunkId, now: u64)
    requires
        tidy(m),
        m.st.knows(id),
        m.st.completed_bytes + held_bytes(m.st.chunk(id)) <= u64::MAX,
    ensures
        ({
            let n = monitor::on_report(m, InfoView::DownloadComplete { id }, now).0;
            let c = m.st.chunk(id);
            &&& outstanding(n) == outstanding(m).remove((c.start_byte, c.held_end()))
            &&& n.st.completed_bytes == m.st.completed_bytes + held_bytes(c)
            &&& tidy(n)
        }),
{
    broadcast use vstd::multiset::group_multiset_axioms;

    let n = monitor::on_report(m, InfoView::DownloadComplete { id }, now).0;
    let c = m.st.chunk(id);
    lemma_without(m, id);
    monitor::lemma_trimmed(m.st, id);
    assert(outstanding(n) =~= outstanding(m).remove((c.start_byte, c.held_end())));
    assert(ids_in_use(n).insert(id) =~= ids_in_use(m));
    lemma_tidy_subset(m, n, id);
}

/// When a chunk fails at `start`, its range is replaced by the rest, from `start` on, and what lies
/// before counts as received.
pub proof fn law_failure_leaves_the_rest_outstanding(
    m: MonitorModel,
    id: ChunkId,
    start: u64,
    error: Seq<char>,
    now: u64,
)
    requires
        tidy(m),
        m.st.knows(id),
        m.st.chunk(id).start_byte <= start <= m.st.chunk(id).held_end(),
        m.st.chunk(id).held_end() < u64::MAX,
        m.st.chunk(id).downloaded_bytes <= start - m.st.chunk(id).start_byte,
        m.st.completed_bytes + held_bytes(m.st.chunk(id)) <= u64::MAX,
    ensures
        ({
            let c = m.st.chunk(id);
            let n = monitor::on_report(
                m,
                InfoView::ChunkFailed { id, start, end: c.held_end(), error },
                now,
            ).0;
            &&& outstanding(n) == outstanding(m).remove((c.start_byte, c.held_end())).insert(
                (start, c.held_end()),
            )
            &&& n.st.completed_bytes == m.st.completed_bytes + (start - c.start_byte)
            &&& tidy(n)
        }),
{
    broadcast use vstd::multiset::group_multiset_axioms;
    broadcast use vstd::seq_lib::group_to_multiset_ensures;

    let c = m.st.chunk(id);
    let n = monitor::on_report(m, InfoView::ChunkFailed { id, start, end: c.held_end(), error }, now).0;
    lemma_without(m, id);
    state::lemma_place(m.st.chunks, id);
    let r = m.retry;
    let f = retry::failure_model(r, id, start, c.held_end(), error, now);
    if f.retry != r.retry {
        assert(failed_ranges(f.retry) =~= failed_ranges(r.retry).push((start, c.held_end())));
        assert(failed_ids(f.retry) =~= failed_ids(r.retry).push(id));
    }
    if f.delayed != r.delayed {
        let before = retry::delayed_ranges(r.delayed);
        let after = retry::delayed_ranges(f.delayed);
        assert(failed_ranges(after) =~= failed_ranges(before).push((start, c.held_end())));
        assert(failed_ids(after) =~= failed_ids(before).push(id));
    }
    if f.lost != r.lost {
        assert(failed_ranges(f.lost) =~= failed_ranges(r.lost).push((start, c.held_end())));
    }
    assert(f.retry.len() == r.retry.len() + 1 || f.delayed.len() == r.delayed.len() + 1
        || f.lost.len() == r.lost.len() + 1);
    assert(outstanding(n) =~= outstanding(m).remove((c.start_byte, c.held_end())).insert(
        (start, c.held_end()),
    ));
    match retry::course_for(r, id, error) {
        retry::FailureCourse::WriterLost | retry::FailureCourse::GivenUp => {
            assert(ids_in_use(n).insert(id) =~= ids_in_use(m));
            lemma_tidy_subset(m, n, id);
        },
        _ => {
            assert(ids_in_use(n) =~= ids_in_use(m));
        },
    }
}

/// When a chunk is split, its range is replaced by its two parts.
pub proof fn law_splits_keep_every_range(m: MonitorModel, id: ChunkId, new_start: u64, now: u64)
    requires
        tidy(m),
        m.next_id < u64::MAX,
        m.st.knows(id),
        m.st.chunk(id).start_byte < new_start <= m.st.chunk(id).held_end(),
    ensures
        ({
            let c = m.st.chunk(id);
            let n = monitor::on_report(
                m,
                InfoView::ChunkBisected { original_id: id, new_start, new_end: c.held_end() },
                now,
            ).0;
            &&& outstanding(n) == outstanding(m).remove((c.start_byte, c.held_end())).insert(
                (c.start_byte, (new_start - 1) as u64),
            ).insert((new_start, c.held_end()))
            &&& n.st.completed_bytes == m.st.completed_bytes
            &&& tidy(n)
        }),
{
    broadcast use vstd::multiset::group_multiset_axioms;
    broadcast use vstd::seq_lib::group_to_multiset_ensures;

    let c = m.st.chunk(id);
    let s = m.st.chunks;
    state::lemma_place(s, id);
    let p = state::place(s, id);
    let cut = ChunkState { kept_end: (new_start - 1) as u64, ..c };
    let short = MonitorModel { st: monitor::shortened(m.st, id, new_start), ..m };
    let rest = s.remove(p);
    assert(short.st.chunks =~= s.update(p, cut));
    assert(s.update(p, cut) =~= rest.insert(p, cut));
    assert(chunk_ranges(short.st.chunks) =~= chunk_ranges(rest).insert(
        p,
        (c.start_byte, (new_start - 1) as u64),
    ));
    vstd::seq_lib::to_multiset_insert(
        chunk_ranges(rest),
        p,
        (c.start_byte, (new_start - 1) as u64),
    );
    assert(chunk_ids(short.st.chunks) =~= chunk_ids(s));
    lemma_without(m, id);
    assert(outstanding(short) =~= outstanding(m).remove((c.start_byte, c.held_end())).insert(
        (c.start_byte, (new_start - 1) as u64),
    ));
    assert(ids_in_use(short) == ids_in_use(m));
    let (lanes, room, lane) = monitor::seek_room(m.lanes, now);
    if room {
        let base = MonitorModel { lanes, next_id: monitor::next_id(m.next_id), ..short };
        assert(outstanding(base) == outstanding(short));
        assert(ids_in_use(base) == ids_in_use(short));
        lemma_started(base, m.next_id, new_start, c.held_end(), lane, now);
    } else {
        let n = MonitorModel { lanes, pending: m.pending.push((new_start, c.held_end())), ..short };
        assert(outstanding(n) =~= outstanding(short).insert((new_start, c.held_end())));
        assert(ids_in_use(n) == ids_in_use(short));
    }
}

/// Progress that arrives late, from a chunk that was started and no longer runs or from an earlier
/// attempt, changes nothing.
pub proof fn law_late_progress_is_ignored(
    m: MonitorModel,
    id: ChunkId,
    start_byte: u64,
    end_byte: u64,
    downloaded: u64,
    now: u64,
)
    requires
        monitor::late(m, id, start_byte),
    ensures
        monitor::on_report(
            m,
            InfoView::ChunkProgress { id, start_byte, end_byte, downloaded },
            now,
        ) == (m, Seq::<ActionView>::empty()),
{
}

/// The waiting ranges start in the order in which they came: those that start are the first ones,
/// and the others keep waiting.
pub proof fn law_waiting_ranges_start_in_order(m: MonitorModel, now: u64)
    ensures
        ({
            let (n, acts) = monitor::drained(m, now);
            &&& acts.len() <= m.pending.len()
            &&& n.pending == m.pending.skip(acts.len() as int)
            &&& forall|i: int|
                0 <= i < acts.len() ==> (#[trigger] acts[i] matches ActionView::Spawn {
                    start,
                    end,
                    ..
                } && (start, end) == m.pending[i])
        }),
    decreases m.pending.len(),
{
    let (n, acts) = monitor::drained(m, now);
    let (lanes, room, lane) = monitor::seek_room(m.lanes, now);
    if m.pending.len() == 0 || !room {
        assert(m.pending.skip(0) =~= m.pending);
    } else {
        let (start, end) = m.pending[0];
        let next = monitor::started(
            MonitorModel {
                lanes,
                pending: m.pending.skip(1),
                next_id: monitor::next_id(m.next_id),
                ..m
            },
            m.next_id,
            start,
            end,
            lane,
            now,
        );
        law_waiting_ranges_start_in_order(next, now);
        let (last, rest) = monitor::drained(next, now);
        assert(n.pending =~= m.pending.skip(acts.len() as int));
        assert forall|i: int| 0 <= i < acts.len() implies (#[trigger] acts[i] matches ActionView::Spawn {
            start,
            end,
            ..
        } && (start, end) == m.pending[i]) by {
            if i > 0 {
                assert(acts[i] == rest[i - 1]);
                assert(next.pending[i - 1] == m.pending[i]);
            }
        }
    }
}

/// Starting retries sends no command.
proof fn lemma_retries_send_no_command(m: MonitorModel, now: u64)
    ensures
        forall|i: int|
            0 <= i < monitor::retried(m, now).1.len() ==> !(#[trigger] monitor::retried(
                m,
                now,
            ).1[i] is Command),
    decreases m.retry.retry.len(),
{
    let s = m.retry.retry;
    let p = retry::ready_place(s, now);
    retry::lemma_ready_place(s, now);
    if p >= 0 {
        let c = s[p];
        let (lanes, room, lane) = monitor::seek_room(m.lanes, now);
        let taken = MonitorModel {
            lanes,
            retry: RetryModel { retry: s.remove(p), ..m.retry },
            ..m
        };
        if room {
            let next = monitor::started(taken, c.id, c.start, c.end, lane, now);
            lemma_retries_send_no_command(next, now);
            let rest = monitor::retried(next, now).1;
            let acts = monitor::retried(m, now).1;
            assert forall|i: int| 0 <= i < acts.len() implies !(#[trigger] acts[i] is Command) by {
                if i >= 2 {
                    assert(acts[i] == rest[i - 2]);
                }
            }
        } else {
            lemma_retries_send_no_command(taken, now);
        }
    }
}

/// A download whose rate is limited is never split.
pub proof fn law_limited_downloads_are_not_split(m: MonitorModel, elapsed: u64, now: u64)
    requires
        m.limited,
    ensures
        forall|i: int|
            0 <= i < monitor::on_tick(m, elapsed, now).1.len() ==> !(#[trigger] monitor::on_tick(
                m,
                elapsed,
                now,
            ).1[i] is Command),
{
    let (a, cmd) = monitor::weighed(m, elapsed, now);
    let (b, spawned) = monitor::drained(a, now);
    law_waiting_ranges_start_in_order(a, now);
    let b2 = MonitorModel { retry: retry::processed(b.retry, now), ..b };
    lemma_retries_send_no_command(b2, now);
    let again = monitor::retried(b2, now).1;
    let acts = monitor::on_tick(m, elapsed, now).1;
    assert forall|i: int| 0 <= i < acts.len() implies !(#[trigger] acts[i] is Command) by {
        if 1 <= i < 1 + spawned.len() {
            assert(acts[i] == spawned[i - 1]);
        } else if i >= 1 + spawned.len() {
            assert(acts[i] == again[i - 1 - spawned.len()]);
        }
    }
}

/// All the ranges that are not yet received, one after the other.
pub open spec fn all_ranges(m: MonitorModel) -> Seq<(u64, u64)> {
    chunk_ranges(m.st.chunks) + failed_ranges(m.retry.retry) + failed_ranges(
        retry::delayed_ranges(m.retry.delayed),
    ) + failed_ranges(m.retry.lost) + m.pending
}

/// The bytes of ranges, added up.
pub open spec fn bytes_of(s: Seq<(u64, u64)>) -> int
    decreases s.len(),
{
    if s.len() == 0 {
        0
    } else {
        bytes_of(s.drop_last()) + chunk::span(s.last().0, s.last().1)
    }
}

/// What was received and what is not yet received are the whole file.
pub open spec fn balanced(m: MonitorModel) -> bool {
    m.st.completed_bytes + bytes_of(all_ranges(m)) == m.st.total_file_size
}

proof fn lemma_bytes_remove(s: Seq<(u64, u64)>, i: int)
    requires
        0 <= i < s.len(),
    ensures
        bytes_of(s) == bytes_of(s.remove(i)) + chunk::span(s[i].0, s[i].1),
    decreases s.len(),
{
    if i == s.len() - 1 {
        assert(s.remove(i) =~= s.drop_last());
    } else {
        lemma_bytes_remove(s.drop_last(), i);
        assert(s.remove(i).drop_last() =~= s.drop_last().remove(i));
    }
}

pub proof fn lemma_bytes_nonneg(s: Seq<(u64, u64)>)
    ensures
        bytes_of(s) >= 0,
    decreases s.len(),
{
    if s.len() > 0 {
        lemma_bytes_nonneg(s.drop_last());
    }
}

/// The order of ranges does not matter for their bytes.
proof fn lemma_bytes_of_multiset(a: Seq<(u64, u64)>, b: Seq<(u64, u64)>)
    requires
        a.to_multiset() == b.to_multiset(),
    ensures
        bytes_of(a) == bytes_of(b),
    decreases a.len(),
{
    broadcast use vstd::seq_lib::group_to_multiset_ensures;

    assert(a.len() == a.to_multiset().len());
    assert(b.len() == b.to_multiset().len());
    if a.len() > 0 {
        let x = a.last();
        assert(a[a.len() - 1] == x);
        assert(a.contains(x));
        assert(a.to_multiset().count(x) > 0);
        assert(b.contains(x));
        let j = choose|j: int| 0 <= j < b.len() && b[j] == x;
        let rest = b.remove(j);
        assert(a.remove(a.len() - 1) =~= a.drop_last());
        lemma_bytes_of_multiset(a.drop_last(), rest);
        lemma_bytes_remove(b, j);
    }
}

/// The ranges in a row are the outstanding ones.
proof fn lemma_all_ranges(m: MonitorModel)
    ensures
        all_ranges(m).to_multiset() == outstanding(m),
{
    let a = chunk_ranges(m.st.chunks);
    let b = failed_ranges(m.retry.retry);
    let c = failed_ranges(retry::delayed_ranges(m.retry.delayed));
    let d = failed_ranges(m.retry.lost);
    vstd::seq_lib::lemma_multiset_commutative(a, b);
    vstd::seq_lib::lemma_multiset_commutative(a + b, c);
    vstd::seq_lib::lemma_multiset_commutative(a + b + c, d);
    vstd::seq_lib::lemma_multiset_commutative(a + b + c + d, m.pending);
}

/// The bytes of a model whose ranges are others' with some put in and some taken out.
proof fn lemma_bytes_swapped(
    m: MonitorModel,
    n: MonitorModel,
    gone: (u64, u64),
    fresh: Seq<(u64, u64)>,
)
    requires
        outstanding(m).count(gone) > 0,
        outstanding(n) == outstanding(m).remove(gone).add(fresh.to_multiset()),
    ensures
        bytes_of(all_ranges(n)) == bytes_of(all_ranges(m)) - chunk::span(gone.0, gone.1) + bytes_of(
            fresh,
        ),
{
    broadcast use vstd::multiset::group_multiset_axioms;
    broadcast use vstd::seq_lib::group_to_multiset_ensures;

    lemma_all_ranges(m);
    lemma_all_ranges(n);
    let s = all_ranges(m);
    assert(s.contains(gone));
    let j = choose|j: int| 0 <= j < s.len() && s[j] == gone;
    lemma_bytes_remove(s, j);
    vstd::seq_lib::lemma_multiset_commutative(s.remove(j), fresh);
    lemma_bytes_of_multiset(all_ranges(n), s.remove(j) + fresh);
    lemma_bytes_concat(s.remove(j), fresh);
}

/// The bytes of ranges in a row.
pub proof fn lemma_bytes_concat(a: Seq<(u64, u64)>, b: Seq<(u64, u64)>)
    ensures
        bytes_of(a + b) == bytes_of(a) + bytes_of(b),
    decreases b.len(),
{
    if b.len() == 0 {
        assert(a + b =~= a);
    } else {
        lemma_bytes_concat(a, b.drop_last());
        assert((a + b).drop_last() =~= a + b.drop_last());
    }
}

/// A report that the chunks of this monitor give: of a chunk that runs, within its range.
pub open spec fn fits(m: MonitorModel, info: InfoView) -> bool {
    match info {
        InfoView::ChunkProgress { id, start_byte, end_byte, .. } => {
            ||| monitor::late(m, id, start_byte)
            ||| m.st.knows(id) && (ChunkState { end_byte, ..m.st.chunk(id) }).held_end()
                == m.st.chunk(id).held_end()
        },
        InfoView::DownloadComplete { id } => m.st.knows(id),
        InfoView::ChunkFailed { id, start, end, .. } => {
            &&& m.st.knows(id)
            &&& m.st.chunk(id).start_byte <= start <= end
            &&& end == m.st.chunk(id).held_end()
            &&& end < u64::MAX
            &&& m.st.chunk(id).downloaded_bytes <= start - m.st.chunk(id).start_byte
        },
        InfoView::ChunkBisected { original_id, new_start, new_end } => {
            &&& m.st.knows(original_id)
            &&& m.st.chunk(original_id).start_byte < new_start <= new_end
            &&& new_end == m.st.chunk(original_id).held_end()
            &&& new_end < u64::MAX
        },
        _ => true,
    }
}

/// Progress changes no range.
pub proof fn lemma_progress_keeps_ranges(
    m: MonitorModel,
    id: ChunkId,
    start_byte: u64,
    end_byte: u64,
    downloaded: u64,
    now: u64,
)
    requires
        fits(m, InfoView::ChunkProgress { id, start_byte, end_byte, downloaded }),
    ensures
        ({
            let info = InfoView::ChunkProgress { id, start_byte, end_byte, downloaded };
            let n = monitor::on_report(m, info, now).0;
            &&& all_ranges(n) == all_ranges(m)
            &&& outstanding(n) == outstanding(m)
            &&& ids_in_use(n) == ids_in_use(m)
        }),
{
    let info = InfoView::ChunkProgress { id, start_byte, end_byte, downloaded };
    let n = monitor::on_report(m, info, now).0;
    if m.st.knows(id) {
        state::lemma_place(m.st.chunks, id);
        assert(chunk_ranges(n.st.chunks) =~= chunk_ranges(m.st.chunks));
        assert(chunk_ids(n.st.chunks) =~= chunk_ids(m.st.chunks));
    }
}

/// What was received and what is not yet received stay the whole file, whatever the chunks report.
pub proof fn law_reports_keep_the_balance(m: MonitorModel, info: InfoView, now: u64)
    requires
        tidy(m),
        balanced(m),
        fits(m, info),
        m.next_id < u64::MAX,
    ensures
        balanced(monitor::on_report(m, info, now).0),
        tidy(monitor::on_report(m, info, now).0),
{
    broadcast use vstd::multiset::group_multiset_axioms;
    broadcast use vstd::seq_lib::group_to_multiset_ensures;

    let n = monitor::on_report(m, info, now).0;
    match info {
        InfoView::ChunkProgress { id, start_byte, end_byte, downloaded } => {
            lemma_progress_keeps_ranges(m, id, start_byte, end_byte, downloaded, now);
        },
        InfoView::DownloadComplete { id } => {
            let c = m.st.chunk(id);
            lemma_fits_in_balance(m, id);
            law_completion_settles_one_range(m, id, now);
            let none = Seq::<(u64, u64)>::empty();
            assert(outstanding(n) =~= outstanding(m).remove((c.start_byte, c.held_end())).add(
                none.to_multiset(),
            ));
            lemma_bytes_swapped(m, n, (c.start_byte, c.held_end()), none);
        },
        InfoView::ChunkFailed { id, start, end, error } => {
            let c = m.st.chunk(id);
            lemma_fits_in_balance(m, id);
            law_failure_leaves_the_rest_outstanding(m, id, start, error, now);
            let one = Seq::<(u64, u64)>::empty().push((start, end));
            assert(outstanding(n) =~= outstanding(m).remove((c.start_byte, c.held_end())).add(
                one.to_multiset(),
            ));
            lemma_bytes_swapped(m, n, (c.start_byte, c.held_end()), one);
            assert(one.drop_last() =~= Seq::empty());
            reveal_with_fuel(bytes_of, 2);
        },
        InfoView::ChunkBisected { original_id, new_start, new_end } => {
            let c = m.st.chunk(original_id);
            lemma_fits_in_balance(m, original_id);
            law_splits_keep_every_range(m, original_id, new_start, now);
            let first = (c.start_byte, (new_start - 1) as u64);
            let second = (new_start, new_end);
            let one = Seq::<(u64, u64)>::empty().push(first);
            let two = one.push(second);
            assert(outstanding(n) =~= outstanding(m).remove((c.start_byte, c.held_end())).add(
                two.to_multiset(),
            ));
            lemma_bytes_swapped(m, n, (c.start_byte, c.held_end()), two);
            assert(two.drop_last() =~= one);
            assert(one.drop_last() =~= Seq::empty());
            reveal_with_fuel(bytes_of, 3);
        },
        _ => {},
    }
}

/// The range of an active chunk is outstanding, and its size is within the file's.
pub proof fn lemma_fits_in_balance(m: MonitorModel, id: ChunkId)
    requires
        balanced(m),
        m.st.knows(id),
    ensures
        outstanding(m).count((m.st.chunk(id).start_byte, m.st.chunk(id).held_end())) > 0,
        m.st.completed_bytes + held_bytes(m.st.chunk(id)) <= u64::MAX,
{
    broadcast use vstd::multiset::group_multiset_axioms;
    broadcast use vstd::seq_lib::group_to_multiset_ensures;

    let c = m.st.chunk(id);
    lemma_without(m, id);
    lemma_all_ranges(m);
    let s = all_ranges(m);
    let x = (c.start_byte, c.held_end());
    assert(outstanding(m).count(x) >= chunk_ranges(m.st.chunks).to_multiset().count(x));
    assert(s.to_multiset().count(x) > 0);
    assert(s.contains(x));
    let j = choose|j: int| 0 <= j < s.len() && s[j] == x;
    lemma_bytes_remove(s, j);
    lemma_bytes_nonneg(s.remove(j));
}

/// What was received and what is not yet received stay the whole file when time passes.
pub proof fn law_ticks_keep_the_balance(m: MonitorModel, elapsed: u64, now: u64)
    requires
        tidy(m),
        balanced(m),
        m.next_id + m.pending.len() <= u64::MAX,
    ensures
        balanced(monitor::on_tick(m, elapsed, now).0),
        tidy(monitor::on_tick(m, elapsed, now).0),
{
    let n = monitor::on_tick(m, elapsed, now).0;
    law_ticks_keep_every_range(m, elapsed, now);
    lemma_all_ranges(m);
    lemma_all_ranges(n);
    lemma_bytes_of_multiset(all_ranges(m), all_ranges(n));
    lemma_ticks_receive_nothing(m, elapsed, now);
}

proof fn lemma_retried_receives_nothing(m: MonitorModel, now: u64)
    ensures
        monitor::retried(m, now).0.st.completed_bytes == m.st.completed_bytes,
        monitor::retried(m, now).0.st.total_file_size == m.st.total_file_size,
    decreases m.retry.retry.len(),
{
    let s = m.retry.retry;
    let p = retry::ready_place(s, now);
    retry::lemma_ready_place(s, now);
    if p >= 0 {
        let c = s[p];
        let (lanes, room, lane) = monitor::seek_room(m.lanes, now);
        let taken = MonitorModel {
            lanes,
            retry: RetryModel { retry: s.remove(p), ..m.retry },
            ..m
        };
        if room {
            lemma_retried_receives_nothing(
                monitor::started(taken, c.id, c.start, c.end, lane, now),
                now,
            );
        } else {
            lemma_retried_receives_nothing(taken, now);
        }
    }
}

proof fn lemma_drained_receives_nothing(m: MonitorModel, now: u64)
    ensures
        monitor::drained(m, now).0.st.completed_bytes == m.st.completed_bytes,
        monitor::drained(m, now).0.st.total_file_size == m.st.total_file_size,
    decreases m.pending.len(),
{
    if m.pending.len() > 0 {
        let (lanes, room, lane) = monitor::seek_room(m.lanes, now);
        if room {
            let (start, end) = m.pending[0];
            lemma_drained_receives_nothing(
                monitor::started(
                    MonitorModel {
                        lanes,
                        pending: m.pending.skip(1),
                        next_id: monitor::next_id(m.next_id),
                        ..m
                    },
                    m.next_id,
                    start,
                    end,
                    lane,
                    now,
                ),
                now,
            );
        }
    }
}

pub proof fn lemma_ticks_receive_nothing(m: MonitorModel, elapsed: u64, now: u64)
    ensures
        monitor::on_tick(m, elapsed, now).0.st.completed_bytes == m.st.completed_bytes,
        monitor::on_tick(m, elapsed, now).0.st.total_file_size == m.st.total_file_size,
{
    let (a, cmd) = monitor::weighed(m, elapsed, now);
    lemma_drained_receives_nothing(a, now);
    let b = monitor::drained(a, now).0;
    lemma_retried_receives_nothing(
        MonitorModel { retry: retry::processed(b.retry, now), ..b },
        now,
    );
}

/// A download in balance in which nothing runs, nothing waits and nothing was given up is complete:
/// it cannot come to a stop with bytes missing.
pub proof fn law_idle_means_complete(m: MonitorModel)
    requires
        balanced(m),
        monitor::idle(m),
        m.retry.lost.len() == 0,
    ensures
        m.st.finished(),
        m.st.completed_bytes == m.st.total_file_size,
{
    assert(all_ranges(m) =~= Seq::empty());
}

/// What starting the first ranges adds.
pub proof fn lemma_all_opened(m: MonitorModel, ranges: Seq<(u64, u64)>, now: u64)
    requires
        tidy(m),
        m.next_id + ranges.len() <= u64::MAX,
    ensures
        ({
            let n = monitor::all_opened(m, ranges, now).0;
            &&& outstanding(n) == outstanding(m).add(ranges.to_multiset())
            &&& tidy(n)
            &&& n.next_id <= m.next_id + ranges.len()
            &&& n.st.completed_bytes == m.st.completed_bytes
            &&& n.st.total_file_size == m.st.total_file_size
        }),
    decreases ranges.len(),
{
    broadcast use vstd::multiset::group_multiset_axioms;
    broadcast use vstd::seq_lib::group_to_multiset_ensures;

    let n = monitor::all_opened(m, ranges, now).0;
    if ranges.len() == 0 {
        assert(ranges =~= Seq::empty());
        assert(outstanding(n) =~= outstanding(m).add(ranges.to_multiset()));
    } else {
        lemma_all_opened(m, ranges.drop_last(), now);
        let before = monitor::all_opened(m, ranges.drop_last(), now).0;
        let (start, end) = ranges.last();
        assert(ranges =~= ranges.drop_last().push((start, end)));
        let (lanes, room, lane) = monitor::seek_room(before.lanes, now);
        if room {
            let base = MonitorModel {
                lanes,
                next_id: monitor::next_id(before.next_id),
                ..before
            };
            assert(outstanding(base) == outstanding(before));
            assert(ids_in_use(base) == ids_in_use(before));
            lemma_started(base, before.next_id, start, end, lane, now);
        } else {
            assert(outstanding(n) =~= outstanding(before).insert((start, end)));
            assert(ids_in_use(n) == ids_in_use(before));
        }
        assert(outstanding(n) =~= outstanding(m).add(ranges.to_multiset()));
    }
}

/// A monitor that has nothing to do and gave nothing up has no range left.
pub proof fn lemma_idle_has_no_ranges(m: MonitorModel)
    requires
        monitor::idle(m),
        m.retry.lost.len() == 0,
    ensures
        outstanding(m) == Multiset::<(u64, u64)>::empty(),
{
    broadcast use vstd::multiset::group_multiset_axioms;
    broadcast use vstd::seq_lib::group_to_multiset_ensures;

    lemma_all_ranges(m);
    assert(all_ranges(m) =~= Seq::empty());
}

/// A monitor that has nothing to do has every id free.
pub proof fn lemma_idle_is_tidy(m: MonitorModel)
    requires
        monitor::idle(m),
    ensures
        tidy(m),
{
    broadcast use vstd::multiset::group_multiset_axioms;
    broadcast use vstd::seq_lib::group_to_multiset_ensures;

    assert(chunk_ids(m.st.chunks) =~= Seq::empty());
    assert(failed_ids(m.retry.retry) =~= Seq::empty());
    assert(failed_ids(retry::delayed_ranges(m.retry.delayed)) =~= Seq::empty());
}

/// A download starts in balance if the bytes received before and the ranges to request are the whole
/// file.
pub proof fn law_downloads_start_in_balance(m: MonitorModel, ranges: Seq<(u64, u64)>, now: u64)
    requires
        monitor::idle(m),
        m.retry.lost.len() == 0,
        m.next_id + ranges.len() <= u64::MAX,
        m.st.completed_bytes + bytes_of(ranges) == m.st.total_file_size,
    ensures
        balanced(monitor::all_opened(m, ranges, now).0),
        tidy(monitor::all_opened(m, ranges, now).0),
{
    broadcast use vstd::multiset::group_multiset_axioms;
    broadcast use vstd::seq_lib::group_to_multiset_ensures;

    let n = monitor::all_opened(m, ranges, now).0;
    lemma_idle_is_tidy(m);
    lemma_all_opened(m, ranges, now);
    lemma_all_ranges(m);
    lemma_all_ranges(n);
    assert(all_ranges(m) =~= Seq::empty());
    assert(outstanding(n) =~= ranges.to_multiset());
    lemma_bytes_of_multiset(all_ranges(n), ranges);
}

} // verus!
