//! What the lanes carry: each lane counts exactly the chunks that run on it, and never more than its
//! limits allow.

use crate::conservation;
use crate::delivery;
use crate::lane;
use crate::lane::LaneEntry;
use crate::monitor;
use crate::monitor::{EventView, MonitorModel};
use crate::retry;
use crate::retry::RetryModel;
use crate::source;
use crate::source::{LaneClaim, RuntimeModel};
use crate::state;
use crate::types::{ChunkId, InfoView};
use vstd::prelude::*;

verus! {

/// The chunks that are bound to the lane `id`.
pub open spec fn bound_chunks(bindings: Map<ChunkId, String>, id: Seq<char>) -> Set<ChunkId> {
    Set::new(|c: ChunkId| bindings.contains_key(c) && bindings[c]@ == id)
}

/// How many chunks are bound to the lane `id`.
pub open spec fn bound_to(bindings: Map<ChunkId, String>, id: Seq<char>) -> nat {
    bound_chunks(bindings, id).len()
}

/// The lanes have ids of their own, each has a runtime that serves it, and no limit is exceeded; the
/// limit per lane is one that can be counted to.
pub open spec fn served(m: RuntimeModel) -> bool {
    &&& m.limits.per_lane <= usize::MAX
    &&& lane::within_limits(m.limits, m.lanes)
    &&& forall|i: int, j: int|
        0 <= i < j < m.lanes.len() ==> (#[trigger] m.lanes[i]).candidate.lane_id@ != (
        #[trigger] m.lanes[j]).candidate.lane_id@
    &&& forall|i: int|
        0 <= i < m.lanes.len() ==> source::serving(
            m.runtimes,
            (#[trigger] m.lanes[i]).candidate.lane_id@,
        ) > 0
}

/// Each lane counts as many chunks as are bound to it.
pub open spec fn loads_match(lanes: Seq<LaneEntry>, bindings: Map<ChunkId, String>) -> bool {
    forall|i: int|
        0 <= i < lanes.len() ==> (#[trigger] lanes[i]).active_chunks == bound_to(
            bindings,
            lanes[i].candidate.lane_id@,
        )
}

/// What holds of the lanes of a monitor: each counts the chunks that are bound to it, only chunks that
/// run are bound, and no limit is exceeded.
pub open spec fn in_step(m: MonitorModel) -> bool {
    &&& m.bindings.dom().finite()
    &&& forall|id: ChunkId| #[trigger] m.bindings.contains_key(id) ==> m.st.knows(id)
    &&& m.lanes matches Some(rt) ==> served(rt) && loads_match(rt.lanes, m.bindings)
}

/// One more chunk is bound.
proof fn lemma_bound_more(bindings: Map<ChunkId, String>, id: ChunkId, lane: String, x: Seq<char>)
    requires
        bindings.dom().finite(),
        !bindings.contains_key(id),
    ensures
        bindings.insert(id, lane).dom().finite(),
        bound_to(bindings.insert(id, lane), x) == bound_to(bindings, x) + (if lane@ == x {
            1nat
        } else {
            0
        }),
{
    let after = bindings.insert(id, lane);
    let a = bound_chunks(bindings, x);
    let b = bound_chunks(after, x);
    vstd::set_lib::lemma_len_subset(a, bindings.dom());
    if lane@ == x {
        assert(b =~= a.insert(id));
    } else {
        assert(b =~= a);
    }
}

/// One chunk less is bound.
proof fn lemma_bound_less(bindings: Map<ChunkId, String>, id: ChunkId, x: Seq<char>)
    requires
        bindings.dom().finite(),
        bindings.contains_key(id),
    ensures
        bindings.remove(id).dom().finite(),
        bound_to(bindings, x) == bound_to(bindings.remove(id), x) + (if bindings[id]@ == x {
            1nat
        } else {
            0
        }),
{
    let after = bindings.remove(id);
    let a = bound_chunks(bindings, x);
    let b = bound_chunks(after, x);
    vstd::set_lib::lemma_len_subset(a, bindings.dom());
    if bindings[id]@ == x {
        assert(b =~= a.remove(id));
    } else {
        assert(b =~= a);
    }
}

/// Where the lane with an id stands, if ids are not shared.
proof fn lemma_only_place(s: Seq<LaneEntry>, p: int)
    requires
        0 <= p < s.len(),
        forall|i: int, j: int|
            0 <= i < j < s.len() ==> (#[trigger] s[i]).candidate.lane_id@ != (
            #[trigger] s[j]).candidate.lane_id@,
    ensures
        lane::lane_place(s, s[p].candidate.lane_id@) == p,
{
    lane::lemma_lane_place(s, s[p].candidate.lane_id@);
}

/// What a claim does to the counts: nothing if it finds no lane, else one more on its lane.
proof fn lemma_claim(m: RuntimeModel, now: u64)
    requires
        served(m),
    ensures
        ({
            let (n, c) = source::claim(m, now);
            &&& served(n)
            &&& n.lanes.len() == m.lanes.len()
            &&& forall|i: int|
                0 <= i < m.lanes.len() ==> {
                    let before = #[trigger] m.lanes[i];
                    let after = n.lanes[i];
                    &&& after.candidate.lane_id@ == before.candidate.lane_id@
                    &&& after.active_chunks == before.active_chunks + (if c is Some
                        && c->0.lane_id@ == before.candidate.lane_id@ {
                        1int
                    } else {
                        0
                    })
                }
        }),
{
    let (n, c) = source::claim(m, now);
    let fresh = lane::all_refreshed(m.lanes, now);
    let p = lane::best_place(m.limits, fresh);
    let len = fresh.len() as int;
    lane::law_first_open_lane(m.limits, fresh, false, len);
    lane::law_first_open_lane(m.limits, fresh, true, len);
    assert forall|i: int| 0 <= i < m.lanes.len() implies #[trigger] fresh[i] == lane::refreshed(
        m.lanes[i],
        now,
    ) by {}
    assert forall|i: int, j: int| 0 <= i < j < fresh.len() implies (
    #[trigger] fresh[i]).candidate.lane_id@ != (#[trigger] fresh[j]).candidate.lane_id@ by {
        assert(m.lanes[i].candidate.lane_id@ != m.lanes[j].candidate.lane_id@);
    }
    lane::lemma_refreshing_keeps_the_limits(m.limits, m.lanes, now);
    if p >= 0 {
        lane::law_best_lane_keeps_the_limits(m.limits, fresh);
        lemma_only_place(fresh, p);
        assert(fresh[p].candidate == m.lanes[p].candidate);
        assert(source::serving(m.runtimes, m.lanes[p].candidate.lane_id@) > 0);
        assert(n.lanes == fresh.update(p, lane::busier(fresh[p])));
        assert(fresh[p].active_chunks < usize::MAX);
        assert(c is Some && c->0.lane_id == fresh[p].candidate.lane_id);
        assert forall|i: int| 0 <= i < m.lanes.len() && i != p implies (
        #[trigger] m.lanes[i]).candidate.lane_id@ != m.lanes[p].candidate.lane_id@ by {
            if i < p {
                assert(m.lanes[i].candidate.lane_id@ != m.lanes[p].candidate.lane_id@);
            } else {
                assert(m.lanes[p].candidate.lane_id@ != m.lanes[i].candidate.lane_id@);
            }
        }
    }
    assert forall|i: int| 0 <= i < n.lanes.len() implies (#[trigger] n.lanes[i]).candidate
        == m.lanes[i].candidate by {
        assert(fresh[i].candidate == m.lanes[i].candidate);
    }
}

/// A chunk that runs is known.
proof fn lemma_started_knows(
    m: MonitorModel,
    id: ChunkId,
    start: u64,
    end: u64,
    lane: Option<LaneClaim>,
    now: u64,
)
    ensures
        monitor::started(m, id, start, end, lane, now).st.knows(id),
        forall|x: ChunkId|
            m.st.knows(x) ==> #[trigger] monitor::started(m, id, start, end, lane, now).st.knows(x),
{
    let s = m.st.chunks;
    let n = monitor::started(m, id, start, end, lane, now).st.chunks;
    state::lemma_place(s, id);
    assert forall|x: ChunkId| m.st.knows(x) || x == id implies #[trigger] state::place(n, x)
        >= 0 by {
        state::lemma_place(s, x);
        state::lemma_place(n, x);
        if x == id {
            let at = if state::place(s, id) >= 0 {
                state::place(s, id)
            } else {
                s.len() as int
            };
            assert(n[at].id == id);
        } else {
            assert(n[state::place(s, x)].id == x);
        }
    }
}

/// A chunk whose id is free starts in step with the lanes.
proof fn lemma_started_in_step(
    m: MonitorModel,
    id: ChunkId,
    start: u64,
    end: u64,
    now: u64,
    base: MonitorModel,
)
    requires
        in_step(m),
        !m.st.knows(id),
        monitor::seek_room(m.lanes, now).1,
        base.lanes == monitor::seek_room(m.lanes, now).0,
        base.bindings == m.bindings,
        base.st == m.st,
    ensures
        in_step(monitor::started(base, id, start, end, monitor::seek_room(m.lanes, now).2, now)),
{
    let lane = monitor::seek_room(m.lanes, now).2;
    let n = monitor::started(base, id, start, end, lane, now);
    assert(!m.bindings.contains_key(id));
    lemma_started_knows(base, id, start, end, lane, now);
    match m.lanes {
        None => {
            assert(n.bindings == m.bindings);
        },
        Some(rt) => {
            lemma_claim(rt, now);
            let taken = source::claim(rt, now).0;
            let c = lane->0;
            lemma_bound_more(m.bindings, id, c.lane_id, c.lane_id@);
            assert forall|i: int| 0 <= i < taken.lanes.len() implies (
            #[trigger] taken.lanes[i]).active_chunks == bound_to(
                n.bindings,
                taken.lanes[i].candidate.lane_id@,
            ) by {
                lemma_bound_more(
                    m.bindings,
                    id,
                    c.lane_id,
                    rt.lanes[i].candidate.lane_id@,
                );
            }
        },
    }
    assert forall|x: ChunkId| #[trigger] n.bindings.contains_key(x) implies n.st.knows(x) by {
        if x != id {
            assert(m.bindings.contains_key(x));
            assert(base.st.knows(x));
        }
    }
}

/// A search for room that finds none leaves the counts as they are.
proof fn lemma_no_room_in_step(m: MonitorModel, now: u64)
    requires
        in_step(m),
        !monitor::seek_room(m.lanes, now).1,
    ensures
        in_step(MonitorModel { lanes: monitor::seek_room(m.lanes, now).0, ..m }),
{
    let rt = m.lanes->0;
    lemma_claim(rt, now);
    let n = source::claim(rt, now).0;
    assert forall|i: int| 0 <= i < n.lanes.len() implies (#[trigger] n.lanes[i]).active_chunks
        == bound_to(m.bindings, n.lanes[i].candidate.lane_id@) by {
        assert(rt.lanes[i].active_chunks == bound_to(
            m.bindings,
            rt.lanes[i].candidate.lane_id@,
        ));
    }
}

/// A chunk that no longer runs leaves its lane.
proof fn lemma_unbound_in_step(m: MonitorModel, n: MonitorModel, id: ChunkId, success: bool, now: u64)
    requires
        in_step(m),
        n.bindings == m.bindings,
        n.lanes == m.lanes,
        forall|x: ChunkId| m.st.knows(x) && x != id ==> #[trigger] n.st.knows(x),
    ensures
        in_step(monitor::unbound(n, id, success, now)),
{
    let after = monitor::unbound(n, id, success, now);
    if m.bindings.contains_key(id) {
        let lane_id = m.bindings[id]@;
        lemma_bound_less(m.bindings, id, lane_id);
        if let Some(rt) = m.lanes {
            let back = source::released(rt, lane_id, success, now);
            let p = lane::lane_place(rt.lanes, lane_id);
            lane::lemma_lane_place(rt.lanes, lane_id);
            let judged = lane::replaced(
                rt.lanes,
                p,
                if success {
                    lane::restored(rt.lanes[p])
                } else {
                    lane::failed_lane(rt.lanes[p], now)
                },
            );
            source::lemma_lane_place_kept(rt.lanes, judged, lane_id);
            if p >= 0 {
                lane::lemma_fewer_chunks_keep_the_limits(rt.limits, rt.lanes, p, judged[p]);
                lane::lemma_fewer_chunks_keep_the_limits(rt.limits, judged, p, lane::idler(judged[p]));
            }
            assert forall|i: int| 0 <= i < back.lanes.len() implies (
            #[trigger] back.lanes[i]).active_chunks == bound_to(
                after.bindings,
                back.lanes[i].candidate.lane_id@,
            ) && back.lanes[i].candidate == rt.lanes[i].candidate by {
                lemma_bound_less(m.bindings, id, rt.lanes[i].candidate.lane_id@);
                assert(rt.lanes[i].active_chunks == bound_to(
                    m.bindings,
                    rt.lanes[i].candidate.lane_id@,
                ));
                if p >= 0 && i != p {
                    if i < p {
                        assert(rt.lanes[i].candidate.lane_id@ != rt.lanes[p].candidate.lane_id@);
                    } else {
                        assert(rt.lanes[p].candidate.lane_id@ != rt.lanes[i].candidate.lane_id@);
                    }
                }
            }
            assert(back.lanes.len() == rt.lanes.len());
        }
    } else {
        assert(after.bindings =~= m.bindings);
    }
    assert forall|x: ChunkId| #[trigger] after.bindings.contains_key(x) implies after.st.knows(
        x,
    ) by {
        assert(m.bindings.contains_key(x));
        assert(x != id);
        assert(n.st.knows(x));
    }
}

/// The waiting ranges start in step with the lanes.
proof fn lemma_drained_in_step(m: MonitorModel, now: u64)
    requires
        in_step(m),
        conservation::tidy(m),
        m.next_id + m.pending.len() <= u64::MAX,
    ensures
        in_step(monitor::drained(m, now).0),
    decreases m.pending.len(),
{
    if m.pending.len() > 0 {
        let (lanes, room, lane) = monitor::seek_room(m.lanes, now);
        if room {
            let (start, end) = m.pending[0];
            let taken = MonitorModel {
                lanes,
                pending: m.pending.skip(1),
                next_id: monitor::next_id(m.next_id),
                ..m
            };
            assert(conservation::ids_in_use(taken) == conservation::ids_in_use(m));
            assert(conservation::ids_in_use(m).count(m.next_id) == 0);
            lemma_free_id(m, m.next_id);
            lemma_started_in_step(m, m.next_id, start, end, now, taken);
            conservation::lemma_started(taken, m.next_id, start, end, lane, now);
            let next = monitor::started(taken, m.next_id, start, end, lane, now);
            assert(conservation::tidy(next)) by {
                broadcast use vstd::multiset::group_multiset_axioms;

            }
            lemma_drained_in_step(next, now);
        } else {
            lemma_no_room_in_step(m, now);
        }
    }
}

/// A free id is not that of an active chunk.
proof fn lemma_free_id(m: MonitorModel, id: ChunkId)
    requires
        conservation::ids_in_use(m).count(id) == 0,
    ensures
        !m.st.knows(id),
{
    broadcast use vstd::multiset::group_multiset_axioms;

    conservation::lemma_known_id(m, id);
}

/// The retries start in step with the lanes.
proof fn lemma_retried_in_step(m: MonitorModel, now: u64)
    requires
        in_step(m),
        conservation::tidy(m),
    ensures
        in_step(monitor::retried(m, now).0),
    decreases m.retry.retry.len(),
{
    let s = m.retry.retry;
    let p = retry::ready_place(s, now);
    retry::lemma_ready_place(s, now);
    if p >= 0 {
        let c = s[p];
        let (lanes, room, lane) = monitor::seek_room(m.lanes, now);
        conservation::lemma_taken(m, p);
        let bare = MonitorModel { retry: RetryModel { retry: s.remove(p), ..m.retry }, ..m };
        let taken = MonitorModel { lanes, ..bare };
        assert(conservation::ids_in_use(taken) == conservation::ids_in_use(bare));
        conservation::lemma_tidy_subset(m, taken, c.id);
        if room {
            lemma_free_id(taken, c.id);
            lemma_started_in_step(m, c.id, c.start, c.end, now, taken);
            conservation::lemma_started(taken, c.id, c.start, c.end, lane, now);
            let next = monitor::started(taken, c.id, c.start, c.end, lane, now);
            assert(conservation::ids_in_use(next) == conservation::ids_in_use(m));
            lemma_retried_in_step(next, now);
        } else {
            lemma_no_room_in_step(m, now);
            assert(in_step(taken));
            lemma_retried_in_step(taken, now);
        }
    }
}

/// The lanes stay in step with the chunks when time passes: no lane loses or gains a place.
pub proof fn law_ticks_keep_the_lanes_in_step(m: MonitorModel, elapsed: u64, now: u64)
    requires
        in_step(m),
        conservation::tidy(m),
        m.next_id + m.pending.len() <= u64::MAX,
    ensures
        in_step(monitor::on_tick(m, elapsed, now).0),
{
    let (a, cmd) = monitor::weighed(m, elapsed, now);
    assert(conservation::chunk_ids(a.st.chunks) =~= conservation::chunk_ids(m.st.chunks));
    assert(conservation::ids_in_use(a) == conservation::ids_in_use(m));
    assert forall|id: ChunkId| #[trigger] a.st.knows(id) == m.st.knows(id) by {
        conservation::lemma_known_id(a, id);
        conservation::lemma_known_id(m, id);
    }
    assert(in_step(a));
    lemma_drained_in_step(a, now);
    conservation::lemma_drained(a, now);
    let b = monitor::drained(a, now).0;
    let b2 = MonitorModel { retry: retry::processed(b.retry, now), ..b };
    conservation::lemma_processed(b, now);
    lemma_retried_in_step(b2, now);
}

/// What a chunk that leaves the table leaves known.
proof fn lemma_without_knows(m: MonitorModel, n: MonitorModel, id: ChunkId)
    requires
        n.st.chunks == state::without_chunk(m.st.chunks, id),
    ensures
        forall|x: ChunkId| m.st.knows(x) && x != id ==> #[trigger] n.st.knows(x),
{
    let s = m.st.chunks;
    let t = n.st.chunks;
    state::lemma_place(s, id);
    assert forall|x: ChunkId| m.st.knows(x) && x != id implies #[trigger] n.st.knows(x) by {
        state::lemma_place(s, x);
        state::lemma_place(t, x);
        let p = state::place(s, id);
        let q = state::place(s, x);
        if p >= 0 {
            let at = if q < p {
                q
            } else {
                q - 1
            };
            assert(t[at] == s[q]);
        }
    }
}

/// The lanes stay in step with the chunks, whatever the chunks report: a chunk that ends, with
/// success or without, leaves its lane, and a chunk that starts takes a place on one.
pub proof fn law_reports_keep_the_lanes_in_step(m: MonitorModel, info: InfoView, now: u64)
    requires
        in_step(m),
        conservation::tidy(m),
        m.next_id < u64::MAX,
    ensures
        in_step(monitor::on_report(m, info, now).0),
{
    let n = monitor::on_report(m, info, now).0;
    match info {
        InfoView::ChunkProgress { id, start_byte, end_byte, downloaded } => {
            if !monitor::late(m, id, start_byte) {
                let c = if m.st.knows(id) {
                    m.st.chunk(id)
                } else {
                    state::fresh_chunk(id, start_byte, end_byte, now)
                };
                state::lemma_place(m.st.chunks, id);
                lemma_with_knows(m, n, monitor::reported(c, end_byte, downloaded, now));
            }
            lemma_same_chunks(m, n);
        },
        InfoView::DownloadComplete { id } => {
            let left = MonitorModel {
                st: monitor::trimmed(m.st, id).completed(id),
                retry: retry::forgotten(m.retry, id),
                ..m
            };
            monitor::lemma_trimmed(m.st, id);
            lemma_without_knows(m, left, id);
            lemma_unbound_in_step(m, left, id, true, now);
        },
        InfoView::ChunkFailed { id, start, end, error } => {
            let left = MonitorModel {
                st: m.st.failed_at(id, start),
                retry: retry::failure_model(m.retry, id, start, end, error, now),
                ..m
            };
            lemma_without_knows(m, left, id);
            lemma_unbound_in_step(m, left, id, false, now);
        },
        InfoView::ChunkBisected { original_id, new_start, new_end } => {
            let short = MonitorModel { st: monitor::shortened(m.st, original_id, new_start), ..m };
            if m.st.knows(original_id) {
                state::lemma_place(m.st.chunks, original_id);
            }
            assert(conservation::chunk_ids(short.st.chunks) =~= conservation::chunk_ids(
                m.st.chunks,
            ));
            assert(conservation::ids_in_use(short) == conservation::ids_in_use(m));
            assert forall|x: ChunkId| m.st.knows(x) implies #[trigger] short.st.knows(x) by {
                conservation::lemma_known_id(m, x);
                conservation::lemma_known_id(short, x);
            }
            lemma_same_chunks(m, short);
            let (lanes, room, lane) = monitor::seek_room(short.lanes, now);
            if room {
                let base = MonitorModel { lanes, next_id: monitor::next_id(m.next_id), ..short };
                assert(conservation::ids_in_use(m).count(m.next_id) == 0);
                lemma_free_id(short, m.next_id);
                lemma_started_in_step(short, m.next_id, new_start, new_end, now, base);
            } else {
                lemma_no_room_in_step(short, now);
            }
        },
        _ => {},
    }
}

/// A chunk that is put into the table takes no other out.
proof fn lemma_with_knows(m: MonitorModel, n: MonitorModel, c: state::ChunkState)
    requires
        n.st.chunks == state::with_chunk(m.st.chunks, c),
    ensures
        forall|x: ChunkId| m.st.knows(x) ==> #[trigger] n.st.knows(x),
{
    let s = m.st.chunks;
    let t = n.st.chunks;
    state::lemma_place(s, c.id);
    assert forall|x: ChunkId| m.st.knows(x) implies #[trigger] n.st.knows(x) by {
        state::lemma_place(s, x);
        state::lemma_place(t, x);
        assert(t[state::place(s, x)].id == x);
    }
}

/// As long as no chunk leaves the table, the lanes stay in step.
proof fn lemma_same_chunks(m: MonitorModel, n: MonitorModel)
    requires
        in_step(m),
        forall|x: ChunkId| m.st.knows(x) ==> #[trigger] n.st.knows(x),
        n.bindings == m.bindings,
        n.lanes == m.lanes,
    ensures
        in_step(n),
{
    assert forall|id: ChunkId| #[trigger] n.bindings.contains_key(id) implies n.st.knows(id) by {
        assert(m.bindings.contains_key(id));
    }
}

/// The first ranges start in step with the lanes.
proof fn lemma_all_opened_in_step(m: MonitorModel, ranges: Seq<(u64, u64)>, now: u64)
    requires
        in_step(m),
        conservation::tidy(m),
        m.next_id + ranges.len() <= u64::MAX,
    ensures
        in_step(monitor::all_opened(m, ranges, now).0),
    decreases ranges.len(),
{
    if ranges.len() > 0 {
        let rest = ranges.drop_last();
        let before = monitor::all_opened(m, rest, now).0;
        lemma_all_opened_in_step(m, rest, now);
        conservation::lemma_all_opened(m, rest, now);
        let (start, end) = ranges.last();
        let (lanes, room, lane) = monitor::seek_room(before.lanes, now);
        if room {
            let base = MonitorModel {
                lanes,
                next_id: monitor::next_id(before.next_id),
                ..before
            };
            assert(conservation::ids_in_use(before).count(before.next_id) == 0);
            lemma_free_id(before, before.next_id);
            lemma_started_in_step(before, before.next_id, start, end, now, base);
        } else {
            lemma_no_room_in_step(before, now);
        }
    }
}

/// A download starts in step with its lanes, if none of them carries a chunk before.
pub proof fn law_downloads_start_in_step(m: MonitorModel, ranges: Seq<(u64, u64)>, now: u64)
    requires
        monitor::idle(m),
        m.bindings == Map::<ChunkId, String>::empty(),
        m.lanes matches Some(rt) ==> served(rt) && forall|i: int|
            0 <= i < rt.lanes.len() ==> (#[trigger] rt.lanes[i]).active_chunks == 0,
        m.next_id + ranges.len() <= u64::MAX,
    ensures
        in_step(monitor::all_opened(m, ranges, now).0),
{
    if let Some(rt) = m.lanes {
        assert forall|i: int| 0 <= i < rt.lanes.len() implies (
        #[trigger] rt.lanes[i]).active_chunks == bound_to(
            m.bindings,
            rt.lanes[i].candidate.lane_id@,
        ) by {
            assert(bound_chunks(m.bindings, rt.lanes[i].candidate.lane_id@) =~= Set::empty());
        }
    }
    conservation::lemma_idle_is_tidy(m);
    lemma_all_opened_in_step(m, ranges, now);
}

/// The lanes stay in step with the chunks through a whole download, and no limit is ever exceeded.
pub proof fn law_lanes_stay_in_step(m: MonitorModel, events: Seq<(EventView, u64)>, w: Set<int>)
    requires
        in_step(m),
        delivery::on_course(m, w),
        delivery::all_faithful(m, events, w),
        delivery::ids_spoken_for(m) + events.len() <= u64::MAX,
    ensures
        in_step(delivery::after_events(m, events)),
    decreases events.len(),
{
    if events.len() > 0 {
        law_lanes_stay_in_step(m, events.drop_last(), w);
        delivery::law_events_keep_the_course(m, events.drop_last(), w);
        let before = delivery::after_events(m, events.drop_last());
        let (e, now) = events.last();
        match e {
            EventView::Reliable { info } => {
                law_reports_keep_the_lanes_in_step(before, info, now);
            },
            EventView::Broadcast { info } => {
                if !monitor::reliable(info) {
                    law_reports_keep_the_lanes_in_step(before, info, now);
                }
            },
            EventView::Tick { elapsed, running } => {
                if elapsed > 0 {
                    law_ticks_keep_the_lanes_in_step(before, elapsed, now);
                }
            },
            _ => {},
        }
    }
}

} // verus!
