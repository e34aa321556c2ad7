//! How lanes stand: a lane whose chunks fail is put aside, one whose chunks complete is trusted
//! again, and chunks go to the fastest lane that stands well and has room.

use crate::lane;
use crate::lane::{LaneEntry, LaneHealth};
use crate::monitor;
use crate::monitor::{EventView, MonitorModel};
use crate::retry;
use crate::retry::RetryModel;
use crate::source;
use crate::source::RuntimeModel;
use crate::types::{ChunkId, InfoView};
use vstd::prelude::*;

verus! {

/// No two lanes share an id, and the lane at `p` is the one that the chunk `id` runs on.
pub open spec fn runs_on(m: MonitorModel, id: ChunkId, p: int) -> bool {
    &&& m.bindings.contains_key(id)
    &&& m.lanes matches Some(rt) && 0 <= p < rt.lanes.len() && rt.lanes[p].candidate.lane_id@
        == m.bindings[id]@ && forall|i: int, j: int|
        0 <= i < j < rt.lanes.len() ==> (#[trigger] rt.lanes[i]).candidate.lane_id@ != (
        #[trigger] rt.lanes[j]).candidate.lane_id@
}

/// The lane of a chunk is found where it stands.
proof fn lemma_found(s: Seq<LaneEntry>, p: int, id: Seq<char>)
    requires
        0 <= p < s.len(),
        s[p].candidate.lane_id@ == id,
        forall|i: int, j: int|
            0 <= i < j < s.len() ==> (#[trigger] s[i]).candidate.lane_id@ != (
            #[trigger] s[j]).candidate.lane_id@,
    ensures
        lane::lane_place(s, id) == p,
{
    lane::lemma_lane_place(s, id);
    let q = lane::lane_place(s, id);
    if q < p && q >= 0 {
        assert(s[q].candidate.lane_id@ != s[p].candidate.lane_id@);
    }
}

/// What a release does to the lane at `p` and to the others.
proof fn lemma_released(rt: RuntimeModel, p: int, success: bool, now: u64)
    requires
        0 <= p < rt.lanes.len(),
        forall|i: int, j: int|
            0 <= i < j < rt.lanes.len() ==> (#[trigger] rt.lanes[i]).candidate.lane_id@ != (
            #[trigger] rt.lanes[j]).candidate.lane_id@,
    ensures
        source::released(rt, rt.lanes[p].candidate.lane_id@, success, now).lanes == rt.lanes.update(
            p,
            lane::idler(
                if success {
                    lane::restored(rt.lanes[p])
                } else {
                    lane::failed_lane(rt.lanes[p], now)
                },
            ),
        ),
{
    let id = rt.lanes[p].candidate.lane_id@;
    lemma_found(rt.lanes, p, id);
    let judged = lane::replaced(
        rt.lanes,
        p,
        if success {
            lane::restored(rt.lanes[p])
        } else {
            lane::failed_lane(rt.lanes[p], now)
        },
    );
    assert forall|i: int, j: int| 0 <= i < j < judged.len() implies (
    #[trigger] judged[i]).candidate.lane_id@ != (#[trigger] judged[j]).candidate.lane_id@ by {
        assert(rt.lanes[i].candidate.lane_id@ != rt.lanes[j].candidate.lane_id@);
    }
    lemma_found(judged, p, id);
    assert(source::released(rt, id, success, now).lanes =~= rt.lanes.update(
        p,
        lane::idler(judged[p]),
    ));
}

/// A chunk that fails counts as a failure of the lane that it ran on, and of no other. The third
/// failure in a row blacklists the lane. The chunk gives its place on the lane back.
pub proof fn law_a_failed_chunk_counts_against_its_lane(
    m: MonitorModel,
    id: ChunkId,
    start: u64,
    end: u64,
    error: Seq<char>,
    now: u64,
    p: int,
)
    requires
        runs_on(m, id, p),
        m.lanes->0.lanes[p].consecutive_failures < u32::MAX,
    ensures
        ({
            let n = monitor::on_event(
                m,
                EventView::Reliable { info: InfoView::ChunkFailed { id, start, end, error } },
                now,
            ).0;
            let before = m.lanes->0.lanes[p];
            let after = n.lanes->0.lanes[p];
            &&& !n.bindings.contains_key(id)
            &&& n.lanes is Some && n.lanes->0.lanes.len() == m.lanes->0.lanes.len()
            &&& after.candidate == before.candidate
            &&& before.active_chunks > 0 ==> after.active_chunks == before.active_chunks - 1
            &&& after.consecutive_failures == before.consecutive_failures + 1
            &&& before.consecutive_failures >= 2 ==> after.health == LaneHealth::Blacklisted
                && after.blacklisted_at == Some(now)
            &&& before.consecutive_failures < 2 ==> after.health == before.health
                && after.blacklisted_at == before.blacklisted_at
            &&& forall|q: int|
                0 <= q < m.lanes->0.lanes.len() && q != p ==> #[trigger] n.lanes->0.lanes[q]
                    == m.lanes->0.lanes[q]
        }),
{
    lemma_released(m.lanes->0, p, false, now);
}

/// A chunk that completes clears the lane that it ran on, and no other: it has no failures any more
/// and is healthy. The chunk gives its place on the lane back.
pub proof fn law_a_complete_chunk_clears_its_lane(m: MonitorModel, id: ChunkId, now: u64, p: int)
    requires
        runs_on(m, id, p),
    ensures
        ({
            let n = monitor::on_event(
                m,
                EventView::Reliable { info: InfoView::DownloadComplete { id } },
                now,
            ).0;
            let before = m.lanes->0.lanes[p];
            let after = n.lanes->0.lanes[p];
            &&& !n.bindings.contains_key(id)
            &&& n.lanes is Some && n.lanes->0.lanes.len() == m.lanes->0.lanes.len()
            &&& after.candidate == before.candidate
            &&& before.active_chunks > 0 ==> after.active_chunks == before.active_chunks - 1
            &&& after.consecutive_failures == 0
            &&& after.health == LaneHealth::Healthy
            &&& after.blacklisted_at is None
            &&& forall|q: int|
                0 <= q < m.lanes->0.lanes.len() && q != p ==> #[trigger] n.lanes->0.lanes[q]
                    == m.lanes->0.lanes[q]
        }),
{
    lemma_released(m.lanes->0, p, true, now);
}

/// Lanes after chunks were handed out at the time `now`: each is the lane that it was, and its
/// standing is as before, unless it was blacklisted for 30 s and is healthy again.
pub open spec fn same_standing(s: Seq<LaneEntry>, t: Seq<LaneEntry>, now: u64) -> bool {
    &&& s.len() == t.len()
    &&& forall|i: int|
        #![trigger t[i]]
        0 <= i < s.len() ==> {
            let over = s[i].health == LaneHealth::Blacklisted && (
            s[i].blacklisted_at matches Some(at) && now - at >= 30_000_000_000);
            &&& t[i].candidate == s[i].candidate
            &&& !over ==> t[i].health == s[i].health && t[i].consecutive_failures
                == s[i].consecutive_failures && t[i].blacklisted_at == s[i].blacklisted_at
            &&& over ==> (t[i].health == s[i].health && t[i].consecutive_failures
                == s[i].consecutive_failures && t[i].blacklisted_at == s[i].blacklisted_at) || (
            t[i].health == LaneHealth::Healthy && t[i].consecutive_failures == 0
                && t[i].blacklisted_at is None)
        }
}

proof fn lemma_standing_joins(a: Seq<LaneEntry>, b: Seq<LaneEntry>, c: Seq<LaneEntry>, now: u64)
    requires
        same_standing(a, b, now),
        same_standing(b, c, now),
    ensures
        same_standing(a, c, now),
{
    assert forall|i: int|
        #![trigger c[i]]
        0 <= i < a.len() implies ({
        let over = a[i].health == LaneHealth::Blacklisted && (a[i].blacklisted_at matches Some(at)
            && now - at >= 30_000_000_000);
        &&& c[i].candidate == a[i].candidate
        &&& !over ==> c[i].health == a[i].health && c[i].consecutive_failures
            == a[i].consecutive_failures && c[i].blacklisted_at == a[i].blacklisted_at
        &&& over ==> (c[i].health == a[i].health && c[i].consecutive_failures
            == a[i].consecutive_failures && c[i].blacklisted_at == a[i].blacklisted_at) || (
        c[i].health == LaneHealth::Healthy && c[i].consecutive_failures == 0
            && c[i].blacklisted_at is None)
    }) by {
        assert(b[i].candidate == a[i].candidate);
    }
}

/// Where `best_place` points there is a lane.
proof fn lemma_best_place(l: lane::LaneLimits, s: Seq<LaneEntry>)
    ensures
        -1 <= lane::best_place(l, s) < s.len(),
{
    lane::law_first_open_lane(l, s, false, s.len() as int);
    lane::law_first_open_lane(l, s, true, s.len() as int);
}

proof fn lemma_claim_keeps_standing(rt: RuntimeModel, now: u64)
    ensures
        same_standing(rt.lanes, source::claim(rt, now).0.lanes, now),
{
    let fresh = lane::all_refreshed(rt.lanes, now);
    let p = lane::best_place(rt.limits, fresh);
    lemma_best_place(rt.limits, fresh);
    assert forall|i: int| 0 <= i < fresh.len() implies #[trigger] fresh[i] == lane::refreshed(
        rt.lanes[i],
        now,
    ) by {}
    if p >= 0 {
        lane::lemma_lane_place(fresh, fresh[p].candidate.lane_id@);
    }
}

/// The lanes of a monitor stand as before, if it has any.
pub open spec fn lanes_stand(m: MonitorModel, n: MonitorModel, now: u64) -> bool {
    match (m.lanes, n.lanes) {
        (Some(a), Some(b)) => same_standing(a.lanes, b.lanes, now),
        (None, None) => true,
        _ => false,
    }
}

proof fn lemma_stand_joins(a: MonitorModel, b: MonitorModel, c: MonitorModel, now: u64)
    requires
        lanes_stand(a, b, now),
        lanes_stand(b, c, now),
    ensures
        lanes_stand(a, c, now),
{
    if a.lanes is Some {
        lemma_standing_joins(a.lanes->0.lanes, b.lanes->0.lanes, c.lanes->0.lanes, now);
    }
}

proof fn lemma_drained_stands(m: MonitorModel, now: u64)
    ensures
        lanes_stand(m, monitor::drained(m, now).0, now),
    decreases m.pending.len(),
{
    if m.lanes is Some {
        lemma_claim_keeps_standing(m.lanes->0, now);
    }
    if m.pending.len() > 0 {
        let (lanes, room, lane) = monitor::seek_room(m.lanes, now);
        if room {
            let (start, end) = m.pending[0];
            let next = monitor::started(
                MonitorModel {
                    lanes,
                    pending: m.pending.skip(1),
                    next_id: monitor::next_id(m.next_id),
                    ..m
                },
                m.next_id,
                start,
                end,
                lane,
                now,
            );
            lemma_drained_stands(next, now);
            lemma_stand_joins(m, next, monitor::drained(m, now).0, now);
        }
    }
}

proof fn lemma_retried_stands(m: MonitorModel, now: u64)
    ensures
        lanes_stand(m, monitor::retried(m, now).0, now),
    decreases m.retry.retry.len(),
{
    retry::lemma_ready_place(m.retry.retry, now);
    if m.lanes is Some {
        lemma_claim_keeps_standing(m.lanes->0, now);
    }
    let p = retry::ready_place(m.retry.retry, now);
    if p >= 0 {
        let c = m.retry.retry[p];
        let (lanes, room, lane) = monitor::seek_room(m.lanes, now);
        let taken = MonitorModel {
            lanes,
            retry: RetryModel { retry: m.retry.retry.remove(p), ..m.retry },
            ..m
        };
        let next = if room {
            monitor::started(taken, c.id, c.start, c.end, lane, now)
        } else {
            taken
        };
        lemma_retried_stands(next, now);
        lemma_stand_joins(m, next, monitor::retried(m, now).0, now);
    }
}

/// Nothing but a chunk that ends changes how a lane stands, except the time: a lane that was
/// blacklisted for 30 s is healthy again. So three failures of a lane blacklist it whatever happens
/// between them, as long as none of its chunks completes.
pub proof fn law_only_ends_and_time_change_a_standing(m: MonitorModel, e: EventView, now: u64)
    requires
        !(e matches EventView::Reliable { info } && (info is DownloadComplete
            || info is ChunkFailed)),
    ensures
        lanes_stand(m, monitor::on_event(m, e, now).0, now),
{
    if m.lanes is Some {
        lemma_claim_keeps_standing(m.lanes->0, now);
    }
    if let EventView::Tick { elapsed, running } = e {
        if elapsed > 0 {
            let a = monitor::weighed(m, elapsed, now).0;
            let b = monitor::drained(a, now).0;
            let c = MonitorModel { retry: retry::processed(b.retry, now), ..b };
            lemma_drained_stands(a, now);
            lemma_retried_stands(c, now);
            lemma_stand_joins(a, b, monitor::retried(c, now).0, now);
        }
    }
}

/// Three chunks of one lane that fail in a row leave the lane blacklisted.
pub proof fn law_three_failures_put_a_lane_aside(
    m: MonitorModel,
    ids: (ChunkId, ChunkId, ChunkId),
    starts: (u64, u64, u64),
    ends: (u64, u64, u64),
    errors: (Seq<char>, Seq<char>, Seq<char>),
    times: (u64, u64, u64),
    p: int,
)
    requires
        ids.0 != ids.1,
        ids.1 != ids.2,
        ids.0 != ids.2,
        runs_on(m, ids.0, p),
        runs_on(m, ids.1, p),
        runs_on(m, ids.2, p),
        m.lanes->0.lanes[p].consecutive_failures < u32::MAX - 2,
    ensures
        ({
            let a = monitor::on_event(
                m,
                EventView::Reliable {
                    info: InfoView::ChunkFailed {
                        id: ids.0,
                        start: starts.0,
                        end: ends.0,
                        error: errors.0,
                    },
                },
                times.0,
            ).0;
            let b = monitor::on_event(
                a,
                EventView::Reliable {
                    info: InfoView::ChunkFailed {
                        id: ids.1,
                        start: starts.1,
                        end: ends.1,
                        error: errors.1,
                    },
                },
                times.1,
            ).0;
            let c = monitor::on_event(
                b,
                EventView::Reliable {
                    info: InfoView::ChunkFailed {
                        id: ids.2,
                        start: starts.2,
                        end: ends.2,
                        error: errors.2,
                    },
                },
                times.2,
            ).0;
            &&& c.lanes is Some
            &&& c.lanes->0.lanes[p].candidate == m.lanes->0.lanes[p].candidate
            &&& c.lanes->0.lanes[p].health == LaneHealth::Blacklisted
            &&& c.lanes->0.lanes[p].blacklisted_at == Some(times.2)
        }),
{
    let a = monitor::on_event(
        m,
        EventView::Reliable {
            info: InfoView::ChunkFailed {
                id: ids.0,
                start: starts.0,
                end: ends.0,
                error: errors.0,
            },
        },
        times.0,
    ).0;
    law_a_failed_chunk_counts_against_its_lane(
        m,
        ids.0,
        starts.0,
        ends.0,
        errors.0,
        times.0,
        p,
    );
    lemma_still_runs_on(m, a, ids.1, p);
    lemma_still_runs_on(m, a, ids.2, p);
    let b = monitor::on_event(
        a,
        EventView::Reliable {
            info: InfoView::ChunkFailed {
                id: ids.1,
                start: starts.1,
                end: ends.1,
                error: errors.1,
            },
        },
        times.1,
    ).0;
    law_a_failed_chunk_counts_against_its_lane(
        a,
        ids.1,
        starts.1,
        ends.1,
        errors.1,
        times.1,
        p,
    );
    lemma_still_runs_on(a, b, ids.2, p);
    law_a_failed_chunk_counts_against_its_lane(
        b,
        ids.2,
        starts.2,
        ends.2,
        errors.2,
        times.2,
        p,
    );
}

proof fn lemma_still_runs_on(m: MonitorModel, n: MonitorModel, id: ChunkId, p: int)
    requires
        runs_on(m, id, p),
        n.bindings.contains_key(id),
        n.bindings[id] == m.bindings[id],
        n.lanes is Some,
        n.lanes->0.lanes.len() == m.lanes->0.lanes.len(),
        n.lanes->0.lanes[p].candidate == m.lanes->0.lanes[p].candidate,
        forall|q: int|
            0 <= q < m.lanes->0.lanes.len() && q != p ==> #[trigger] n.lanes->0.lanes[q]
                == m.lanes->0.lanes[q],
    ensures
        runs_on(n, id, p),
{
    let s = m.lanes->0.lanes;
    let t = n.lanes->0.lanes;
    assert forall|i: int, j: int| 0 <= i < j < t.len() implies (
    #[trigger] t[i]).candidate.lane_id@ != (#[trigger] t[j]).candidate.lane_id@ by {
        assert(s[i].candidate.lane_id@ != s[j].candidate.lane_id@);
    }
}

/// Chunks of all lanes, added up.
#[verifier::opaque]
pub open spec fn load(s: Seq<LaneEntry>) -> int {
    s.fold_left(0int, |a: int, e: LaneEntry| a + e.active_chunks)
}

/// Chunks of the lanes of one source, added up.
#[verifier::opaque]
pub open spec fn source_load(s: Seq<LaneEntry>, source: Seq<char>) -> int {
    s.fold_left(
        0int,
        |a: int, e: LaneEntry|
            a + if e.candidate.source_id@ == source {
                e.active_chunks as int
            } else {
                0
            },
    )
}

proof fn lemma_loads(s: Seq<LaneEntry>, source: Seq<char>)
    ensures
        lane::active_sum(s) == load(s),
        lane::source_sum(s, source) == source_load(s, source),
    decreases s.len(),
{
    reveal(load);
    reveal(source_load);
    if s.len() > 0 {
        lemma_loads(s.drop_last(), source);
    }
}

proof fn lemma_refreshed_loads(s: Seq<LaneEntry>, now: u64, source: Seq<char>)
    ensures
        load(lane::all_refreshed(s, now)) == load(s),
        source_load(lane::all_refreshed(s, now), source) == source_load(s, source),
    decreases s.len(),
{
    reveal(load);
    reveal(source_load);
    let t = lane::all_refreshed(s, now);
    if s.len() > 0 {
        lemma_refreshed_loads(s.drop_last(), now, source);
        assert(t.drop_last() =~= lane::all_refreshed(s.drop_last(), now));
    }
}

/// The lane `e` can take one more chunk: fewer run on it than a lane may have, fewer on its source
/// than a source may have, and fewer in all than there are workers.
pub open spec fn can_take(rt: RuntimeModel, e: LaneEntry) -> bool {
    &&& load(rt.lanes) < rt.limits.workers
    &&& e.active_chunks < rt.limits.per_lane
    &&& rt.limits.per_source matches Some(n) ==> source_load(rt.lanes, e.candidate.source_id@) < n
}

/// The lane `e` stands well at the time `now`: it is healthy, or its 30 s on the blacklist are over.
pub open spec fn stands_well(e: LaneEntry, now: u64) -> bool {
    e.health == LaneHealth::Healthy || (e.blacklisted_at matches Some(at) && now - at
        >= 30_000_000_000)
}

/// How a lane is seen when a chunk is handed out at the time `now`.
proof fn lemma_seen(rt: RuntimeModel, now: u64, i: int)
    requires
        0 <= i < rt.lanes.len(),
    ensures
        ({
            let fresh = lane::all_refreshed(rt.lanes, now);
            &&& fresh.len() == rt.lanes.len()
            &&& rt.lanes[i].candidate == fresh[i].candidate
            &&& rt.lanes[i].active_chunks == fresh[i].active_chunks
            &&& can_take(rt, rt.lanes[i]) == lane::has_room(rt.limits, fresh, fresh[i])
            &&& stands_well(rt.lanes[i], now) == (fresh[i].health == LaneHealth::Healthy)
        }),
{
    let fresh = lane::all_refreshed(rt.lanes, now);
    let source = rt.lanes[i].candidate.source_id@;
    lemma_loads(fresh, source);
    lemma_refreshed_loads(rt.lanes, now, source);
    assert(fresh[i] == lane::refreshed(rt.lanes[i], now));
}

/// Each lane has an id of its own and a runtime, and a lane may have no more chunks than can be counted.
pub open spec fn sound_lanes(rt: RuntimeModel) -> bool {
    &&& forall|i: int, j: int|
        0 <= i < j < rt.lanes.len() ==> (#[trigger] rt.lanes[i]).candidate.lane_id@ != (
        #[trigger] rt.lanes[j]).candidate.lane_id@
    &&& forall|i: int|
        0 <= i < rt.lanes.len() ==> has_runtime(rt, (#[trigger] rt.lanes[i]).candidate.lane_id@)
    &&& rt.runtimes.len() <= usize::MAX
    &&& rt.limits.per_lane <= usize::MAX
}

/// Some runtime serves the lane `id`.
pub open spec fn has_runtime(rt: RuntimeModel, id: Seq<char>) -> bool {
    exists|k: int| 0 <= k < rt.runtimes.len() && (#[trigger] rt.runtimes[k]).lane_id@ == id
}

/// What a claim of the lane at `p` does.
proof fn lemma_claimed(rt: RuntimeModel, now: u64, p: int)
    requires
        sound_lanes(rt),
        p == lane::best_place(rt.limits, lane::all_refreshed(rt.lanes, now)),
        0 <= p < rt.lanes.len(),
        can_take(rt, rt.lanes[p]),
    ensures
        ({
            let (n, c) = source::claim(rt, now);
            &&& c matches Some(got) && got.lane_id@ == rt.lanes[p].candidate.lane_id@
                && got.runtime < rt.runtimes.len() && rt.runtimes[got.runtime as int].lane_id@
                == got.lane_id@
            &&& n.lanes.len() == rt.lanes.len()
            &&& n.lanes[p].active_chunks == rt.lanes[p].active_chunks + 1
            &&& forall|i: int|
                0 <= i < rt.lanes.len() && i != p ==> (#[trigger] n.lanes[i]).active_chunks
                    == rt.lanes[i].active_chunks
        }),
{
    let fresh = lane::all_refreshed(rt.lanes, now);
    let id = fresh[p].candidate.lane_id@;
    assert forall|i: int, j: int| 0 <= i < j < fresh.len() implies (
    #[trigger] fresh[i]).candidate.lane_id@ != (#[trigger] fresh[j]).candidate.lane_id@ by {
        assert(rt.lanes[i].candidate.lane_id@ != rt.lanes[j].candidate.lane_id@);
    }
    lemma_found(fresh, p, id);
    assert(rt.lanes[p].candidate.lane_id@ == id);
    let k = choose|k: int|
        0 <= k < rt.runtimes.len() && (#[trigger] rt.runtimes[k]).lane_id@ == id;
    lemma_served(rt.runtimes, id, k);
    let count = source::serving(rt.runtimes, id);
    let turn = rt.turns[p] as int % count;
    assert(0 <= turn < count) by (nonlinear_arith)
        requires
            count > 0,
            turn == rt.turns[p] as int % count,
    ;
    source::lemma_nth_exists(rt.runtimes, id, turn);
    let n = source::claim(rt, now).0;
    assert(n.lanes =~= fresh.update(p, lane::busier(fresh[p])));
    assert(rt.lanes[p].active_chunks < usize::MAX);
}

/// The lane at `p` is the one for the next chunk: the first that stands well and can take it, or the
/// first that can take it if none of those stands well.
pub open spec fn comes_first(rt: RuntimeModel, now: u64, p: int) -> bool {
    &&& 0 <= p < rt.lanes.len()
    &&& can_take(rt, rt.lanes[p])
    &&& forall|i: int|
        0 <= i < p && can_take(rt, #[trigger] rt.lanes[i]) ==> stands_well(rt.lanes[p], now)
            && !stands_well(rt.lanes[i], now)
    &&& !stands_well(rt.lanes[p], now) ==> forall|i: int|
        0 <= i < rt.lanes.len() && can_take(rt, #[trigger] rt.lanes[i]) ==> !stands_well(
            rt.lanes[i],
            now,
        )
}

/// A chunk goes to the first lane that stands well and can take it; to the first that can take it if
/// none of those stands well; and to none if no lane can take it. The first lanes are the fastest.
/// The lane then counts one chunk more, no other lane changes its count, and the runtime handed out
/// is one that serves the lane.
pub proof fn law_chunks_go_to_the_best_lane(rt: RuntimeModel, now: u64)
    requires
        sound_lanes(rt),
    ensures
        ({
            let (n, c) = source::claim(rt, now);
            &&& c is None ==> forall|i: int|
                0 <= i < rt.lanes.len() ==> !can_take(rt, #[trigger] rt.lanes[i])
            &&& c matches Some(got) ==> exists|p: int|
                {
                    &&& #[trigger] comes_first(rt, now, p)
                    &&& got.lane_id@ == rt.lanes[p].candidate.lane_id@
                    &&& got.runtime < rt.runtimes.len()
                    &&& rt.runtimes[got.runtime as int].lane_id@ == got.lane_id@
                    &&& n.lanes.len() == rt.lanes.len()
                    &&& n.lanes[p].active_chunks == rt.lanes[p].active_chunks + 1
                    &&& forall|i: int|
                        0 <= i < rt.lanes.len() && i != p ==> (#[trigger] n.lanes[i]).active_chunks
                            == rt.lanes[i].active_chunks
                }
        }),
{
    let p = lane::best_place(rt.limits, lane::all_refreshed(rt.lanes, now));
    lemma_who_comes_first(rt, now);
    if p >= 0 {
        lemma_claimed(rt, now, p);
        assert(comes_first(rt, now, p));
    }
}

proof fn lemma_who_comes_first(rt: RuntimeModel, now: u64)
    ensures
        ({
            let p = lane::best_place(rt.limits, lane::all_refreshed(rt.lanes, now));
            &&& -1 <= p < rt.lanes.len()
            &&& p >= 0 ==> comes_first(rt, now, p)
            &&& p < 0 ==> forall|i: int|
                0 <= i < rt.lanes.len() ==> !can_take(rt, #[trigger] rt.lanes[i])
        }),
{
    let fresh = lane::all_refreshed(rt.lanes, now);
    let l = rt.limits;
    let p = lane::best_place(l, fresh);
    let len = fresh.len() as int;
    lane::law_first_open_lane(l, fresh, false, len);
    lane::law_first_open_lane(l, fresh, true, len);
    if p >= 0 {
        lemma_seen(rt, now, p);
        assert(lane::would_do(l, fresh, fresh[p], true));
        assert forall|i: int| 0 <= i < p && can_take(rt, #[trigger] rt.lanes[i]) implies stands_well(
            rt.lanes[p],
            now,
        ) && !stands_well(rt.lanes[i], now) by {
            lemma_seen(rt, now, i);
            assert(lane::would_do(l, fresh, fresh[i], true));
        }
        if !stands_well(rt.lanes[p], now) {
            assert forall|i: int|
                0 <= i < rt.lanes.len() && can_take(rt, #[trigger] rt.lanes[i]) implies !stands_well(
                rt.lanes[i],
                now,
            ) by {
                lemma_seen(rt, now, i);
                assert(!lane::would_do(l, fresh, fresh[i], false));
            }
        }
    } else {
        assert forall|i: int| 0 <= i < rt.lanes.len() implies !can_take(
            rt,
            #[trigger] rt.lanes[i],
        ) by {
            lemma_seen(rt, now, i);
            assert(!lane::would_do(l, fresh, fresh[i], true));
        }
    }
}

proof fn lemma_served(s: Seq<source::LaneRuntime>, id: Seq<char>, k: int)
    requires
        0 <= k < s.len(),
        s[k].lane_id@ == id,
    ensures
        source::serving(s, id) > 0,
    decreases s.len(),
{
    if k < s.len() - 1 {
        lemma_served(s.drop_last(), id, k);
    } else {
        source::lemma_nth_exists(s.drop_last(), id, 0);
    }
}

/// The limits of a scheduler are those that were set, and as many chunks can still be handed out as
/// there are workers without one.
pub proof fn law_capacity_is_workers_without_a_chunk(s: lane::LaneScheduler)
    ensures
        s.limits().workers == s.max_workers,
        s.limits().per_lane == s.max_chunks_per_lane,
        s.limits().per_source is Some <==> s.max_chunks_per_source is Some,
        s.max_chunks_per_source matches Some(n) ==> s.limits().per_source == Some(n as int),
        load(s.lanes@) <= s.max_workers ==> lane::capacity_left(s.limits(), s.lanes@)
            == s.max_workers - load(s.lanes@),
        load(s.lanes@) > s.max_workers ==> lane::capacity_left(s.limits(), s.lanes@) == 0,
{
    lemma_loads(s.lanes@, Seq::empty());
}

/// No lane can take one more chunk.
pub open spec fn all_full(rt: RuntimeModel) -> bool {
    forall|i: int| 0 <= i < rt.lanes.len() ==> !can_take(rt, #[trigger] rt.lanes[i])
}

/// Handing out a chunk keeps the lanes what they are. If none can be handed out, no lane can take one
/// afterwards; and where no lane can, none is handed out.
pub proof fn lemma_claims_keep_lanes(rt: RuntimeModel, now: u64)
    requires
        sound_lanes(rt),
    ensures
        sound_lanes(source::claim(rt, now).0),
        source::claim(rt, now).1 is None ==> all_full(rt) && all_full(source::claim(rt, now).0),
        all_full(rt) ==> source::claim(rt, now).1 is None,
{
    law_chunks_go_to_the_best_lane(rt, now);
    lemma_claim_keeps_standing(rt, now);
    let n = source::claim(rt, now).0;
    assert forall|i: int, j: int| 0 <= i < j < n.lanes.len() implies (
    #[trigger] n.lanes[i]).candidate.lane_id@ != (#[trigger] n.lanes[j]).candidate.lane_id@ by {
        assert(rt.lanes[i].candidate.lane_id@ != rt.lanes[j].candidate.lane_id@);
    }
    assert forall|i: int| 0 <= i < n.lanes.len() implies has_runtime(
        n,
        (#[trigger] n.lanes[i]).candidate.lane_id@,
    ) by {
        assert(has_runtime(rt, rt.lanes[i].candidate.lane_id@));
        let k = choose|k: int|
            0 <= k < rt.runtimes.len() && (#[trigger] rt.runtimes[k]).lane_id@
                == rt.lanes[i].candidate.lane_id@;
        assert(n.runtimes[k].lane_id@ == n.lanes[i].candidate.lane_id@);
    }
    if source::claim(rt, now).1 is None {
        let fresh = lane::all_refreshed(rt.lanes, now);
        lemma_who_comes_first(rt, now);
        let p = lane::best_place(rt.limits, fresh);
        if p >= 0 {
            lemma_claimed(rt, now, p);
        }
        assert(n.lanes == fresh);
        assert forall|i: int| 0 <= i < n.lanes.len() implies !can_take(n, #[trigger] n.lanes[i]) by {
            lemma_refreshed_loads(rt.lanes, now, rt.lanes[i].candidate.source_id@);
            assert(fresh[i] == lane::refreshed(rt.lanes[i], now));
            assert(!can_take(rt, rt.lanes[i]));
        }
    }
    if all_full(rt) && source::claim(rt, now).1 is Some {
        let p = choose|p: int| #[trigger] comes_first(rt, now, p);
        assert(!can_take(rt, rt.lanes[p]));
    }
}

/// Handing out chunks changes how lanes are used, and nothing of how a download was set up: not its
/// lanes' limits, not its runtimes, not the limits of its rate.
pub proof fn law_the_setup_stays(a: source::MultiRuntime, b: source::MultiRuntime)
    requires
        a.same_setup(b),
    ensures
        a.scheduler.max_workers == b.scheduler.max_workers,
        a.scheduler.max_chunks_per_lane == b.scheduler.max_chunks_per_lane,
        a.scheduler.max_chunks_per_source == b.scheduler.max_chunks_per_source,
        a.scheduler.lane_model == b.scheduler.lane_model,
        a.runtimes == b.runtimes,
        a.supports_ranges == b.supports_ranges,
        a.per_source_limits == b.per_source_limits,
        a.global_limit == b.global_limit,
        a.limited() == b.limited(),
        b.same_setup(a),
{
}

} // verus!
