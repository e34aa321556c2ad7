//! The roster of a download from several sources: which lanes there are, how fast they are taken to be,
//! how their runtimes take turns, and which limits hold for them.

use crate::lane;
use crate::lane::{LaneCandidate, LaneEntry, LaneHealth, LaneModel};
use crate::limiter;
use crate::source;
use crate::source::{
    LanePlanView, LaneRuntime, MultiRuntime, MultiSourceConfig, ProbeBoard, RuntimeModel, SourceConfig,
};
use crate::standing;
use crate::types::{DownloadError, Result};
use vstd::prelude::*;

verus! {

/// The id of the lane that a candidate stands for: its source's where each source is one lane.
pub open spec fn lane_of(c: LaneCandidate, model: LaneModel) -> Seq<char> {
    match model {
        LaneModel::PerSource => c.source_id@,
        LaneModel::PerSourceProxy => c.lane_id@,
    }
}

/// The lane `e` is an unused one that stands for the candidate `c`.
pub open spec fn stands_for(e: LaneEntry, c: LaneCandidate, model: LaneModel) -> bool {
    &&& e.candidate.lane_id@ == lane_of(c, model)
    &&& e.candidate.source_id == c.source_id
    &&& e.candidate.probe_speed == c.probe_speed
    &&& model == LaneModel::PerSourceProxy ==> e.candidate.proxy_id == c.proxy_id
    &&& e.active_chunks == 0
    &&& e.consecutive_failures == 0
    &&& e.health == LaneHealth::Healthy
}

/// Some lane has the id of the candidate.
pub open spec fn has_lane(lanes: Seq<LaneEntry>, c: LaneCandidate, model: LaneModel) -> bool {
    exists|k: int|
        0 <= k < lanes.len() && (#[trigger] lanes[k]).candidate.lane_id@ == lane_of(c, model)
}

/// The lane is one of a candidate, the first with its id.
pub open spec fn is_first_of(e: LaneEntry, s: Seq<LaneCandidate>, model: LaneModel) -> bool {
    exists|i: int|
        #![trigger s[i]]
        0 <= i < s.len() && stands_for(e, s[i], model) && forall|j: int|
            0 <= j < i ==> lane_of(#[trigger] s[j], model) != lane_of(s[i], model)
}

proof fn lemma_ranked(s: Seq<LaneEntry>, e: LaneEntry, x: LaneEntry)
    ensures
        lane::ranked_in(s, e).contains(x) <==> s.contains(x) || x == e,
    decreases s.len(),
{
    let t = lane::ranked_in(s, e);
    if s.len() == 0 || s.last().candidate.probe_speed >= e.candidate.probe_speed {
        assert(t[t.len() - 1] == e);
        if s.contains(x) {
            let w = choose|w: int| 0 <= w < s.len() && s[w] == x;
            assert(t[w] == x);
        }
        if t.contains(x) && x != e {
            let w = choose|w: int| 0 <= w < t.len() && t[w] == x;
            assert(s[w] == x);
        }
    } else {
        let front = s.drop_last();
        lemma_ranked(front, e, x);
        let r = lane::ranked_in(front, e);
        assert(t[t.len() - 1] == s.last());
        if s.contains(x) {
            let w = choose|w: int| 0 <= w < s.len() && s[w] == x;
            if w < s.len() - 1 {
                assert(front[w] == x);
            }
        }
        if front.contains(x) {
            let w = choose|w: int| 0 <= w < front.len() && front[w] == x;
            assert(s[w] == x);
        }
        if r.contains(x) {
            let w = choose|w: int| 0 <= w < r.len() && r[w] == x;
            assert(t[w] == x);
        }
        if t.contains(x) {
            let w = choose|w: int| 0 <= w < t.len() && t[w] == x;
            if w < r.len() {
                assert(r[w] == x);
            } else {
                assert(s[s.len() - 1] == x);
            }
        }
    }
}

/// Every candidate has a lane, and every lane is the unused lane of a candidate: of the first one with
/// its id. Where each source is one lane, the lane has the source's id.
pub proof fn law_every_candidate_has_a_lane(s: Seq<LaneCandidate>, model: LaneModel)
    ensures
        ({
            let lanes = lane::lanes_of(s, model);
            &&& forall|i: int| 0 <= i < s.len() ==> has_lane(lanes, #[trigger] s[i], model)
            &&& forall|k: int| 0 <= k < lanes.len() ==> is_first_of(#[trigger] lanes[k], s, model)
        }),
    decreases s.len(),
{
    let lanes = lane::lanes_of(s, model);
    if s.len() > 0 {
        let before = s.drop_last();
        law_every_candidate_has_a_lane(before, model);
        let front = lane::lanes_of(before, model);
        let c = lane::modelled(s.last(), model);
        let e = lane::fresh_lane(c);
        lane::lemma_lane_place(front, c.lane_id@);
        let known = lane::lane_place(front, c.lane_id@) >= 0;
        assert(c.lane_id@ == lane_of(s.last(), model));
        assert forall|x: LaneEntry| front.contains(x) implies #[trigger] lanes.contains(x) by {
            if !known {
                lemma_ranked(front, e, x);
            }
        }
        assert forall|i: int| 0 <= i < s.len() implies has_lane(lanes, #[trigger] s[i], model) by {
            if i < before.len() {
                assert(before[i] == s[i]);
                assert(has_lane(front, before[i], model));
                let k = choose|k: int|
                    0 <= k < front.len() && (#[trigger] front[k]).candidate.lane_id@ == lane_of(
                        before[i],
                        model,
                    );
                assert(front.contains(front[k]));
                assert(lanes.contains(front[k]));
                let w = choose|w: int| 0 <= w < lanes.len() && lanes[w] == front[k];
                assert(lanes[w].candidate.lane_id@ == lane_of(s[i], model));
            } else if known {
                let k = lane::lane_place(front, c.lane_id@);
                assert(front[k].candidate.lane_id@ == lane_of(s[i], model));
            } else {
                lemma_ranked(front, e, e);
                let w = choose|w: int| 0 <= w < lanes.len() && lanes[w] == e;
                assert(lanes[w].candidate.lane_id@ == lane_of(s[i], model));
            }
        }
        assert forall|k: int| 0 <= k < lanes.len() implies is_first_of(
            #[trigger] lanes[k],
            s,
            model,
        ) by {
            let x = lanes[k];
            assert(lanes.contains(x));
            if !known {
                lemma_ranked(front, e, x);
            }
            if front.contains(x) {
                let w = choose|w: int| 0 <= w < front.len() && front[w] == x;
                assert(is_first_of(front[w], before, model));
                let i = choose|i: int|
                    #![trigger before[i]]
                    0 <= i < before.len() && stands_for(x, before[i], model) && forall|j: int|
                        0 <= j < i ==> lane_of(#[trigger] before[j], model) != lane_of(
                            before[i],
                            model,
                        );
                assert(s[i] == before[i]);
                assert forall|j: int| 0 <= j < i implies lane_of(#[trigger] s[j], model) != lane_of(
                    s[i],
                    model,
                ) by {
                    assert(before[j] == s[j]);
                }
            } else {
                let i = s.len() - 1;
                assert(stands_for(x, s[i], model));
                assert forall|j: int| 0 <= j < i implies lane_of(#[trigger] s[j], model) != lane_of(
                    s[i],
                    model,
                ) by {
                    assert(before[j] == s[j]);
                    assert(has_lane(front, before[j], model));
                    let k = choose|k: int|
                        0 <= k < front.len() && (#[trigger] front[k]).candidate.lane_id@ == lane_of(
                            before[j],
                            model,
                        );
                    assert(front[k].candidate.lane_id@ != c.lane_id@);
                }
            }
        }
    }
}

/// A way to the source `s`: straight to its address if it has no proxies, else through one of its
/// proxies that can be used.
pub open spec fn leads_to(v: LanePlanView, s: SourceConfig, model: LaneModel) -> bool {
    &&& v.source_id == s.id@
    &&& v.url == s.url@
    &&& s.proxies@.len() == 0 ==> v.lane_id == s.id@ && v.proxy_id is None && v.proxy_url is None
    &&& s.proxies@.len() > 0 ==> exists|j: int|
        #![trigger s.proxies@[j]]
        0 <= j < s.proxies@.len() && leads_through(v, s, j, model)
}

/// The way leads through the proxy `j` of the source.
pub open spec fn leads_through(v: LanePlanView, s: SourceConfig, j: int, model: LaneModel) -> bool {
    let p = s.proxies@[j];
    &&& source::proxy_accepted(p.url@)
    &&& v.proxy_id == Some(p.id@)
    &&& v.proxy_url == Some(p.url@)
    &&& v.source_id == s.id@
    &&& v.url == s.url@
    &&& v.lane_id == (match model {
        LaneModel::PerSource => s.id@,
        LaneModel::PerSourceProxy => s.id@ + "::"@ + p.id@,
    })
}

/// Some way of the plan leads through the proxy `j` of the source.
pub open spec fn is_planned(
    plan: Seq<LanePlanView>,
    s: SourceConfig,
    j: int,
    model: LaneModel,
) -> bool {
    exists|k: int| 0 <= k < plan.len() && leads_through(#[trigger] plan[k], s, j, model)
}

proof fn lemma_proxied(s: SourceConfig, model: LaneModel, n: int)
    requires
        0 <= n <= s.proxies@.len(),
    ensures
        forall|k: int|
            0 <= k < source::proxied_lanes(s, model, n).len() ==> (exists|j: int|
                #![trigger s.proxies@[j]]
                0 <= j < n && leads_through(
                    #[trigger] source::proxied_lanes(s, model, n)[k],
                    s,
                    j,
                    model,
                )),
        forall|j: int|
            #![trigger s.proxies@[j]]
            0 <= j < n && source::proxy_accepted(s.proxies@[j].url@) ==> is_planned(
                source::proxied_lanes(s, model, n),
                s,
                j,
                model,
            ),
    decreases n,
{
    if n > 0 {
        lemma_proxied(s, model, n - 1);
        let front = source::proxied_lanes(s, model, n - 1);
        let all = source::proxied_lanes(s, model, n);
        let p = s.proxies@[n - 1];
        assert forall|k: int| 0 <= k < all.len() implies (exists|j: int|
            #![trigger s.proxies@[j]]
            0 <= j < n && leads_through(#[trigger] all[k], s, j, model)) by {
            if k < front.len() {
                assert(all[k] == front[k]);
                let j = choose|j: int|
                    #![trigger s.proxies@[j]]
                    0 <= j < n - 1 && leads_through(front[k], s, j, model);
                assert(leads_through(all[k], s, j, model));
            } else {
                assert(leads_through(all[k], s, n - 1, model));
            }
        }
        assert forall|j: int|
            #![trigger s.proxies@[j]]
            0 <= j < n && source::proxy_accepted(s.proxies@[j].url@) implies is_planned(
            all,
            s,
            j,
            model,
        ) by {
            if j < n - 1 {
                assert(is_planned(front, s, j, model));
                let k = choose|k: int|
                    0 <= k < front.len() && leads_through(#[trigger] front[k], s, j, model);
                assert(all[k] == front[k]);
            } else {
                assert(leads_through(all[front.len() as int], s, j, model));
            }
        }
    }
}

/// A source without proxies has one way to it, straight to its address; a source with proxies has a
/// way through each of them that can be used, and no other.
pub proof fn law_every_way_to_a_source_is_planned(s: SourceConfig, model: LaneModel)
    ensures
        ({
            let plan = source::source_lanes(s, model);
            &&& s.proxies@.len() == 0 ==> plan.len() == 1
            &&& forall|k: int| 0 <= k < plan.len() ==> leads_to(#[trigger] plan[k], s, model)
            &&& forall|j: int|
                #![trigger s.proxies@[j]]
                0 <= j < s.proxies@.len() && source::proxy_accepted(s.proxies@[j].url@)
                    ==> is_planned(plan, s, j, model)
        }),
{
    lemma_proxied(s, model, s.proxies@.len() as int);
    let plan = source::source_lanes(s, model);
    assert forall|k: int| 0 <= k < plan.len() implies leads_to(#[trigger] plan[k], s, model) by {
        if s.proxies@.len() > 0 {
            assert(plan[k] == source::proxied_lanes(s, model, s.proxies@.len() as int)[k]);
        }
    }
}

/// The ways to several sources are the ways to each of them, in their order.
pub proof fn law_sources_are_planned_in_order(
    a: Seq<SourceConfig>,
    b: Seq<SourceConfig>,
    s: SourceConfig,
    model: LaneModel,
)
    ensures
        source::all_lanes(a + b, model) == source::all_lanes(a, model) + source::all_lanes(
            b,
            model,
        ),
        source::all_lanes(seq![s], model) == source::source_lanes(s, model),
    decreases b.len(),
{
    reveal_with_fuel(source::all_lanes, 2);
    assert(seq![s].drop_last() =~= Seq::<SourceConfig>::empty());
    assert(source::all_lanes(seq![s], model) =~= source::source_lanes(s, model));
    if b.len() == 0 {
        assert(a + b =~= a);
        assert(source::all_lanes(a + b, model) =~= source::all_lanes(a, model)
            + source::all_lanes(b, model));
    } else {
        law_sources_are_planned_in_order(a, b.drop_last(), s, model);
        assert((a + b).drop_last() =~= a + b.drop_last());
        assert(source::all_lanes(a + b, model) =~= source::all_lanes(a, model)
            + source::all_lanes(b, model));
    }
}

/// A lane is taken in exactly if it supports ranges and tells the size that was told first, if one was.
pub proof fn law_lanes_must_agree(b: ProbeBoard, file_size: u64, support_ranges: bool)
    ensures
        source::taken_in(b, file_size, support_ranges) <==> support_ranges && (
        b.range_size matches Some(n) ==> n == file_size),
{
}

/// The speed that a probe measured is the bytes by the time, of which at least a millisecond counts. A
/// probe that measured nothing counts as one byte per second.
pub proof fn law_probed_speed_is_bytes_by_time(bytes: Option<u64>, elapsed: u64)
    ensures
        ({
            let v = source::probed_speed(bytes, elapsed);
            let time = if elapsed >= 1_000_000 {
                elapsed as int
            } else {
                1_000_000
            };
            &&& bytes is None || bytes->0 == 0 ==> v == 1000
            &&& bytes matches Some(n) ==> (n * 1_000_000_000_000 < time ==> v == 1000)
            &&& bytes matches Some(n) ==> (time <= n * 1_000_000_000_000 < time * u64::MAX ==> v
                * time <= n * 1_000_000_000_000 < (v + 1) * time)
        }),
{
    if let Some(n) = bytes {
        let time = if elapsed >= 1_000_000 {
            elapsed as int
        } else {
            1_000_000
        };
        let x = n * 1_000_000_000_000;
        let q = x / time;
        assert(q * time <= x < (q + 1) * time && q >= 0) by (nonlinear_arith)
            requires
                q == x / time,
                time > 0,
                x >= 0,
        ;
        if x < time {
            assert(q < 1) by (nonlinear_arith)
                requires
                    q * time <= x,
                    x < time,
                    time > 0,
            ;
        } else {
            assert(q >= 1) by (nonlinear_arith)
                requires
                    x < (q + 1) * time,
                    x >= time,
                    time > 0,
            ;
        }
        if x < time * u64::MAX {
            assert(q < u64::MAX) by (nonlinear_arith)
                requires
                    q * time <= x,
                    x < time * u64::MAX,
                    time > 0,
            ;
        }
    }
}

proof fn lemma_nth_differ(s: Seq<LaneRuntime>, id: Seq<char>, n: int, k: int)
    requires
        0 <= n,
        0 <= k,
        n != k,
        source::nth_serving(s, id, n) >= 0,
    ensures
        source::nth_serving(s, id, n) != source::nth_serving(s, id, k),
    decreases s.len(),
{
    if s.len() > 0 {
        let front = s.drop_last();
        source::lemma_nth_exists(front, id, n);
        source::lemma_nth_exists(front, id, k);
        if source::nth_serving(front, id, n) >= 0 {
            lemma_nth_differ(front, id, n, k);
        } else if source::nth_serving(front, id, k) >= 0 {
            lemma_nth_differ(front, id, k, n);
        }
    }
}

/// The runtimes of a lane take turns: two chunks that a lane with several runtimes gets one after the
/// other go to different ones.
pub proof fn law_runtimes_take_turns(rt: RuntimeModel, now: u64, later: u64, p: int)
    requires
        standing::sound_lanes(rt),
        rt.turns.len() == rt.lanes.len(),
        0 <= p < rt.lanes.len(),
        rt.turns[p] < usize::MAX,
        source::serving(rt.runtimes, rt.lanes[p].candidate.lane_id@) >= 2,
        source::claim(rt, now).1 matches Some(a) && a.lane_id@ == rt.lanes[p].candidate.lane_id@,
        source::claim(source::claim(rt, now).0, later).1 matches Some(b) && b.lane_id@
            == rt.lanes[p].candidate.lane_id@,
    ensures
        source::claim(source::claim(rt, now).0, later).1->0.runtime != source::claim(
            rt,
            now,
        ).1->0.runtime,
{
    let id = rt.lanes[p].candidate.lane_id@;
    let fresh = lane::all_refreshed(rt.lanes, now);
    let mid = source::claim(rt, now).0;
    let again = lane::all_refreshed(mid.lanes, later);
    let q = lane::best_place(rt.limits, fresh);
    let r = lane::best_place(mid.limits, again);
    lane::law_first_open_lane(rt.limits, fresh, false, fresh.len() as int);
    lane::law_first_open_lane(rt.limits, fresh, true, fresh.len() as int);
    lane::law_first_open_lane(mid.limits, again, false, again.len() as int);
    lane::law_first_open_lane(mid.limits, again, true, again.len() as int);
    assert(fresh[q].candidate == rt.lanes[q].candidate);
    if q < p {
        assert(rt.lanes[q].candidate.lane_id@ != rt.lanes[p].candidate.lane_id@);
    } else if p < q {
        assert(rt.lanes[p].candidate.lane_id@ != rt.lanes[q].candidate.lane_id@);
    }
    assert(q == p);
    lane::lemma_lane_place(fresh, id);
    assert(mid.lanes.len() == rt.lanes.len());
    assert(again[r].candidate == mid.lanes[r].candidate);
    assert(mid.lanes[r].candidate == fresh[r].candidate);
    assert(fresh[r].candidate == rt.lanes[r].candidate);
    if r < p {
        assert(rt.lanes[r].candidate.lane_id@ != rt.lanes[p].candidate.lane_id@);
    } else if p < r {
        assert(rt.lanes[p].candidate.lane_id@ != rt.lanes[r].candidate.lane_id@);
    }
    assert(r == p);
    let count = source::serving(rt.runtimes, id);
    let t = rt.turns[p] as int;
    assert(mid.turns[p] == t + 1);
    assert(0 <= t % count < count && 0 <= (t + 1) % count < count && t % count != (t + 1) % count)
        by (nonlinear_arith)
        requires
            count >= 2,
            t >= 0,
    ;
    source::lemma_nth_exists(rt.runtimes, id, t % count);
    source::lemma_nth_exists(rt.runtimes, id, (t + 1) % count);
    lemma_nth_differ(rt.runtimes, id, t % count, (t + 1) % count);
    assert(rt.runtimes.len() <= usize::MAX);
}

/// The limit is one that can be kept: a speed between 1 and 4294967295 with a burst in the same bounds
/// or none, or neither.
pub open spec fn can_be_kept(limit: Option<u64>, burst: Option<u64>) -> bool {
    match limit {
        Some(n) => 1 <= n <= 4_294_967_295 && (burst matches Some(b) ==> 1 <= b <= 4_294_967_295),
        None => burst is None,
    }
}

/// Limits are refused exactly if they cannot be kept, for a running download, for a source and for the
/// whole. Those that are taken are taken as they are; a burst that is not set is 64 KiB.
pub proof fn law_limits_are_taken_if_they_can_be_kept(
    a: Seq<char>,
    b: Seq<char>,
    c: Seq<char>,
    limit: Option<u64>,
    burst: Option<u64>,
)
    ensures
        limiter::limit_fault(a, b, c, limit, burst) is None <==> can_be_kept(limit, burst),
        limiter::runtime_limit_fault(limit, burst) is None <==> can_be_kept(limit, burst),
        limit is None <==> limiter::limit_settings(limit, burst) is None,
        can_be_kept(limit, burst) && limit is Some ==> (limiter::limit_settings(
            limit,
            burst,
        ) matches Some(v) && v.bytes_per_sec == limit->0 && v.burst == (match burst {
            Some(n) => n as int,
            None => 65_536,
        })),
        can_be_kept(limit, burst) ==> (limiter::narrowed(limit, burst) matches Some(v) ==> v.0
            == limit->0 && (v.1 is Some <==> burst is Some) && (burst is Some ==> v.1->0
            == burst->0)),
        limiter::narrowed(limit, burst) is Some <==> limit is Some,
{
}

/// A configuration is refused for its sources exactly if the limits of one of them cannot be kept.
pub proof fn law_one_bad_source_is_a_fault(s: Seq<SourceConfig>)
    ensures
        source::sources_fault(s) is None <==> forall|i: int|
            0 <= i < s.len() ==> can_be_kept((#[trigger] s[i]).speed_limit, s[i].burst),
    decreases s.len(),
{
    if s.len() > 0 {
        let front = s.drop_last();
        law_one_bad_source_is_a_fault(front);
        let c = s.last();
        law_limits_are_taken_if_they_can_be_kept(
            "source "@ + c.id@ + " speed_limit"@,
            "source "@ + c.id@ + " burst"@,
            "speed_limit"@,
            c.speed_limit,
            c.burst,
        );
        if source::sources_fault(s) is None {
            assert forall|i: int| 0 <= i < s.len() implies can_be_kept(
                (#[trigger] s[i]).speed_limit,
                s[i].burst,
            ) by {
                if i < front.len() {
                    assert(front[i] == s[i]);
                }
            }
        } else if forall|i: int|
            0 <= i < s.len() ==> can_be_kept((#[trigger] s[i]).speed_limit, s[i].burst) {
            assert forall|i: int| 0 <= i < front.len() implies can_be_kept(
                (#[trigger] front[i]).speed_limit,
                front[i].burst,
            ) by {
                assert(front[i] == s[i]);
            }
            assert(can_be_kept(s[s.len() - 1].speed_limit, s[s.len() - 1].burst));
        }
    }
}

/// Each source keeps its own limit: the one that its configuration sets, and none if it sets none.
pub proof fn law_sources_keep_their_own_limits(s: Seq<SourceConfig>, i: int)
    requires
        0 <= i < s.len(),
        can_be_kept(s[i].speed_limit, s[i].burst),
        forall|j: int, k: int|
            0 <= j < k < s.len() ==> (#[trigger] s[j]).id@ != (#[trigger] s[k]).id@,
    ensures
        ({
            let got = source::limit_for(source::source_limits(s), s[i].id@);
            &&& got is Some <==> s[i].speed_limit is Some
            &&& got matches Some(v) ==> v.bytes_per_sec == s[i].speed_limit->0 && v.burst == (
            match s[i].burst {
                Some(n) => n as int,
                None => 65_536,
            })
        }),
    decreases s.len(),
{
    let front = s.drop_last();
    let limits = source::source_limits(s);
    let before = source::source_limits(front);
    if i == s.len() - 1 {
        if s[i].speed_limit is None {
            lemma_no_limit(front, s[i].id@);
        } else {
            assert(limits.last().0 == s[i].id);
        }
    } else {
        assert forall|j: int, k: int| 0 <= j < k < front.len() implies (
        #[trigger] front[j]).id@ != (#[trigger] front[k]).id@ by {
            assert(s[j].id@ != s[k].id@);
        }
        assert(front[i] == s[i]);
        law_sources_keep_their_own_limits(front, i);
        assert(s[i].id@ != s[s.len() - 1].id@);
        if s.last().speed_limit is Some {
            assert(limits.drop_last() =~= before);
        }
    }
}

proof fn lemma_no_limit(s: Seq<SourceConfig>, id: Seq<char>)
    requires
        forall|j: int| 0 <= j < s.len() ==> (#[trigger] s[j]).id@ != id,
    ensures
        source::limit_for(source::source_limits(s), id) is None,
    decreases s.len(),
{
    if s.len() > 0 {
        let front = s.drop_last();
        assert forall|j: int| 0 <= j < front.len() implies (#[trigger] front[j]).id@ != id by {
            assert(front[j] == s[j]);
        }
        lemma_no_limit(front, id);
        assert(s[s.len() - 1].id@ != id);
        if s.last().speed_limit is Some {
            assert(source::source_limits(s).drop_last() =~= source::source_limits(front));
        }
    }
}

/// The first runtime of a lane is the first one that serves it, and there is none exactly if no runtime
/// does.
pub proof fn law_the_first_runtime_serves_the_lane(s: Seq<LaneRuntime>, id: Seq<char>)
    ensures
        ({
            let k = source::nth_serving(s, id, 0);
            &&& -1 <= k < s.len()
            &&& k >= 0 ==> s[k].lane_id@ == id
            &&& forall|i: int|
                0 <= i < s.len() && (k < 0 || i < k) ==> (#[trigger] s[i]).lane_id@ != id
        }),
    decreases s.len(),
{
    if s.len() > 0 {
        let front = s.drop_last();
        law_the_first_runtime_serves_the_lane(front, id);
        let k = source::nth_serving(s, id, 0);
        source::lemma_nth_exists(front, id, 0);
        source::lemma_nth_exists(s, id, 0);
        assert forall|i: int| 0 <= i < s.len() && (k < 0 || i < k) implies (
        #[trigger] s[i]).lane_id@ != id by {
            if i < front.len() {
                assert(front[i] == s[i]);
            }
        }
    }
}

/// Lanes come out of the probes exactly if one was taken in: then all that were, in their order, and
/// with the size that they agree on.
pub proof fn law_probes_come_out_with_their_lanes(b: ProbeBoard)
    ensures
        source::board_outcome(b) is Some <==> b.range@.len() > 0 && b.range_size is Some,
        source::board_outcome(b) matches Some((n, lanes)) ==> b.range_size == Some(n) && lanes
            == b.range@,
{
}

/// Each lane in use is a candidate, in the same order, with its ids and its speed.
pub proof fn law_lanes_in_use_are_candidates(s: Seq<LaneRuntime>, i: int)
    requires
        0 <= i < s.len(),
    ensures
        source::candidates_of(s).len() == s.len(),
        source::candidates_of(s)[i].lane_id == s[i].lane_id,
        source::candidates_of(s)[i].source_id == s[i].source_id,
        source::candidates_of(s)[i].proxy_id == s[i].proxy_id,
        source::candidates_of(s)[i].probe_speed == s[i].probe_speed,
{
}

proof fn lemma_some_limit(s: Seq<SourceConfig>)
    ensures
        source::source_limits(s).len() > 0 <==> exists|i: int|
            0 <= i < s.len() && (#[trigger] s[i]).speed_limit is Some,
    decreases s.len(),
{
    if s.len() > 0 {
        let front = s.drop_last();
        lemma_some_limit(front);
        if exists|i: int| 0 <= i < front.len() && (#[trigger] front[i]).speed_limit is Some {
            let i = choose|i: int| 0 <= i < front.len() && (#[trigger] front[i]).speed_limit is Some;
            assert(s[i].speed_limit is Some);
        }
        if exists|i: int| 0 <= i < s.len() && (#[trigger] s[i]).speed_limit is Some {
            let i = choose|i: int| 0 <= i < s.len() && (#[trigger] s[i]).speed_limit is Some;
            if i < front.len() {
                assert(front[i].speed_limit is Some);
            }
        }
        assert(s.last() == s[s.len() - 1]);
    }
}

/// A download from several sources is set up exactly if a lane came out of the probes and every limit
/// can be kept. It then has the size that the lanes agree on, exactly those lanes and no other, and at
/// least one worker and one chunk per lane; its rate is limited exactly if a source or the whole has a
/// limit. Without a lane it fails for want of sources; with a limit that cannot be kept, for that
/// argument.
pub proof fn law_downloads_are_set_up_on_their_lanes(
    r: Result<(u64, MultiRuntime)>,
    config: MultiSourceConfig,
    board: ProbeBoard,
)
    requires
        source::well_set_up(r, config, board),
    ensures
        ({
            let some_lane = board.range@.len() > 0 && board.range_size is Some;
            let good_limits = can_be_kept(config.global_speed_limit, config.global_burst)
                && forall|i: int|
                0 <= i < config.sources@.len() ==> can_be_kept(
                    (#[trigger] config.sources@[i]).speed_limit,
                    config.sources@[i].burst,
                );
            &&& r is Ok <==> some_lane && good_limits
            &&& !some_lane ==> (r matches Err(DownloadError::NoAvailableSources))
            &&& some_lane && !good_limits ==> (r matches Err(DownloadError::InvalidArgument(_)))
            &&& r matches Ok((n, m)) ==> {
                &&& board.range_size == Some(n)
                &&& m.runtimes@ == board.range@
                &&& m.supports_ranges
                &&& m.scheduler.max_workers >= 1 && m.scheduler.max_chunks_per_lane >= 1
                &&& config.workers >= 1 && config.workers <= usize::MAX ==> m.scheduler.max_workers
                    == config.workers
                &&& config.max_chunks_per_lane >= 1 ==> m.scheduler.max_chunks_per_lane
                    == config.max_chunks_per_lane
                &&& m.scheduler.max_chunks_per_source == config.max_chunks_per_source
                &&& m.limited() <==> config.global_speed_limit is Some || exists|i: int|
                    0 <= i < config.sources@.len() && (#[trigger] config.sources@[i]).speed_limit
                        is Some
                &&& forall|k: int|
                    0 <= k < m.scheduler.lanes@.len() ==> is_first_of(
                        #[trigger] m.scheduler.lanes@[k],
                        source::candidates_of(board.range@),
                        config.lane_model,
                    )
            }
        }),
{
    law_one_bad_source_is_a_fault(config.sources@);
    law_limits_are_taken_if_they_can_be_kept(
        "global_speed_limit"@,
        "global_burst"@,
        "global_speed_limit"@,
        config.global_speed_limit,
        config.global_burst,
    );
    law_every_candidate_has_a_lane(source::candidates_of(board.range@), config.lane_model);
    lemma_some_limit(config.sources@);
}

} // verus!
