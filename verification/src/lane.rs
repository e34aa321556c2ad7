//! Lanes: the ways by which chunks reach a source, and the scheduler that hands chunks to them.

use crate::text::same_text;
use vstd::prelude::*;

verus! {

/// A lane that fails this often in a row is blacklisted.
pub const BLACKLIST_THRESHOLD: u32 = 3;

/// How long a lane stays blacklisted, in nanoseconds: 30 s.
pub const BLACKLIST_DURATION: u64 = 30_000_000_000;

/// What makes up a lane.
#[derive(Debug, Clone, Copy, PartialEq, Eq, Structural)]
pub enum LaneModel {
    /// One lane per source.
    PerSource,
    /// One lane per source and proxy.
    PerSourceProxy,
}

/// Whether a lane is used.
#[derive(Debug, Clone, Copy, PartialEq, Eq, Structural)]
pub enum LaneHealth {
    /// Chunks go to the lane.
    Healthy,
    /// Chunks go to the lane only if no healthy lane has room.
    Blacklisted,
}

/// A lane that can serve the file. The speed that a probe measured is in thousandths of a byte per
/// second.
#[derive(Debug)]
pub struct LaneCandidate {
    pub lane_id: String,
    pub source_id: String,
    pub proxy_id: Option<String>,
    pub probe_speed: u64,
}

/// A copy of an optional string.
pub fn copy_text(s: &Option<String>) -> (r: Option<String>)
    ensures
        r == *s,
{
    match s {
        Some(t) => Some(t.clone()),
        None => None,
    }
}

impl LaneCandidate {
    /// A candidate with the given parts.
    pub fn new(
        lane_id: String,
        source_id: String,
        proxy_id: Option<String>,
        probe_speed: u64,
    ) -> (r: Self)
        ensures
            r == (LaneCandidate { lane_id, source_id, proxy_id, probe_speed }),
    {
        LaneCandidate { lane_id, source_id, proxy_id, probe_speed }
    }
}

/// A lane with what is known of its use.
#[derive(Debug)]
pub struct LaneEntry {
    pub candidate: LaneCandidate,
    pub active_chunks: usize,
    pub consecutive_failures: u32,
    pub health: LaneHealth,
    /// When the lane was blacklisted, in nanoseconds.
    pub blacklisted_at: Option<u64>,
}

/// Hands chunks to lanes.
#[derive(Debug)]
pub struct LaneScheduler {
    pub lane_model: LaneModel,
    pub max_workers: usize,
    pub max_chunks_per_lane: usize,
    pub max_chunks_per_source: Option<usize>,
    /// The lanes, fastest first.
    pub lanes: Vec<LaneEntry>,
}

/// A candidate as the lane model sees it: with one lane per source, the source is the lane.
pub open spec fn modelled(c: LaneCandidate, model: LaneModel) -> LaneCandidate {
    match model {
        LaneModel::PerSource => LaneCandidate { lane_id: c.source_id, proxy_id: None, ..c },
        LaneModel::PerSourceProxy => c,
    }
}

/// An unused lane.
pub open spec fn fresh_lane(c: LaneCandidate) -> LaneEntry {
    LaneEntry {
        candidate: c,
        active_chunks: 0,
        consecutive_failures: 0,
        health: LaneHealth::Healthy,
        blacklisted_at: None,
    }
}

/// The place of the lane `id`, or -1.
pub open spec fn lane_place(s: Seq<LaneEntry>, id: Seq<char>) -> int
    decreases s.len(),
{
    if s.len() == 0 {
        -1
    } else if lane_place(s.drop_last(), id) >= 0 {
        lane_place(s.drop_last(), id)
    } else if s.last().candidate.lane_id@ == id {
        s.len() - 1
    } else {
        -1
    }
}

/// `e` put among lanes, behind everything that is at least as fast.
pub open spec fn ranked_in(s: Seq<LaneEntry>, e: LaneEntry) -> Seq<LaneEntry>
    decreases s.len(),
{
    if s.len() == 0 || s.last().candidate.probe_speed >= e.candidate.probe_speed {
        s.push(e)
    } else {
        ranked_in(s.drop_last(), e).push(s.last())
    }
}

/// The lanes of candidates: the first candidate for each lane, fastest first. Equally fast lanes keep
/// their order.
pub open spec fn lanes_of(s: Seq<LaneCandidate>, model: LaneModel) -> Seq<LaneEntry>
    decreases s.len(),
{
    if s.len() == 0 {
        Seq::empty()
    } else {
        let front = lanes_of(s.drop_last(), model);
        let c = modelled(s.last(), model);
        if lane_place(front, c.lane_id@) >= 0 {
            front
        } else {
            ranked_in(front, fresh_lane(c))
        }
    }
}

/// The active chunks of all lanes.
pub open spec fn active_sum(s: Seq<LaneEntry>) -> int
    decreases s.len(),
{
    if s.len() == 0 {
        0
    } else {
        active_sum(s.drop_last()) + s.last().active_chunks
    }
}

/// The active chunks of a source's lanes.
pub open spec fn source_sum(s: Seq<LaneEntry>, source: Seq<char>) -> int
    decreases s.len(),
{
    if s.len() == 0 {
        0
    } else {
        source_sum(s.drop_last(), source) + if s.last().candidate.source_id@ == source {
            s.last().active_chunks as int
        } else {
            0
        }
    }
}

/// A lane whose time on the blacklist is over.
pub open spec fn pardoned(e: LaneEntry, now: u64) -> bool {
    e.health == LaneHealth::Blacklisted && (e.blacklisted_at matches Some(at) && now - at
        >= BLACKLIST_DURATION)
}

/// A lane after its blacklisting was looked at.
pub open spec fn refreshed(e: LaneEntry, now: u64) -> LaneEntry {
    if pardoned(e, now) {
        LaneEntry {
            health: LaneHealth::Healthy,
            consecutive_failures: 0,
            blacklisted_at: None,
            ..e
        }
    } else {
        e
    }
}

/// All lanes after their blacklisting was looked at.
pub open spec fn all_refreshed(s: Seq<LaneEntry>, now: u64) -> Seq<LaneEntry> {
    Seq::new(s.len(), |i: int| refreshed(s[i], now))
}

/// A lane after a failure.
pub open spec fn failed_lane(e: LaneEntry, now: u64) -> LaneEntry {
    let n: u32 = if e.consecutive_failures < u32::MAX {
        (e.consecutive_failures + 1) as u32
    } else {
        u32::MAX
    };
    if n >= BLACKLIST_THRESHOLD {
        LaneEntry {
            consecutive_failures: n,
            health: LaneHealth::Blacklisted,
            blacklisted_at: Some(now),
            ..e
        }
    } else {
        LaneEntry { consecutive_failures: n, ..e }
    }
}

/// Lanes with one of them replaced; unchanged if the place is none.
pub open spec fn replaced(s: Seq<LaneEntry>, p: int, e: LaneEntry) -> Seq<LaneEntry> {
    if p >= 0 {
        s.update(p, e)
    } else {
        s
    }
}

/// One more chunk on a lane.
pub open spec fn busier(e: LaneEntry) -> LaneEntry {
    LaneEntry {
        active_chunks: if e.active_chunks < usize::MAX {
            (e.active_chunks + 1) as usize
        } else {
            usize::MAX
        },
        ..e
    }
}

/// One chunk less on a lane.
pub open spec fn idler(e: LaneEntry) -> LaneEntry {
    LaneEntry {
        active_chunks: if e.active_chunks > 0 {
            (e.active_chunks - 1) as usize
        } else {
            0
        },
        ..e
    }
}

/// A lane after a success.
pub open spec fn restored(e: LaneEntry) -> LaneEntry {
    LaneEntry {
        consecutive_failures: 0,
        health: LaneHealth::Healthy,
        blacklisted_at: None,
        ..e
    }
}

/// Where `lane_place` points the lane stands, and nowhere before.
pub proof fn lemma_lane_place(s: Seq<LaneEntry>, id: Seq<char>)
    ensures
        -1 <= lane_place(s, id) < s.len(),
        lane_place(s, id) >= 0 ==> s[lane_place(s, id)].candidate.lane_id@ == id,
        forall|i: int|
            0 <= i < s.len() && (lane_place(s, id) < 0 || i < lane_place(s, id)) ==> (
            #[trigger] s[i]).candidate.lane_id@ != id,
    decreases s.len(),
{
    if s.len() > 0 {
        lemma_lane_place(s.drop_last(), id);
        assert forall|i: int|
            0 <= i < s.len() && (lane_place(s, id) < 0 || i < lane_place(s, id)) implies (
        #[trigger] s[i]).candidate.lane_id@ != id by {
            if i < s.len() - 1 {
                assert(s.drop_last()[i] == s[i]);
            }
        }
    }
}

/// `ranked_in` is an insertion at the place behind the last lane that is at least as fast.
proof fn lemma_ranked_in(s: Seq<LaneEntry>, e: LaneEntry, p: int)
    requires
        0 <= p <= s.len(),
        p > 0 ==> s[p - 1].candidate.probe_speed >= e.candidate.probe_speed,
        forall|i: int|
            p <= i < s.len() ==> (#[trigger] s[i]).candidate.probe_speed < e.candidate.probe_speed,
    ensures
        ranked_in(s, e) == s.insert(p, e),
    decreases s.len(),
{
    if p == s.len() {
        assert(s.insert(p, e) =~= s.push(e));
    } else {
        assert(s.last() == s[s.len() - 1]);
        assert forall|i: int| p <= i < s.len() - 1 implies (
        #[trigger] s.drop_last()[i]).candidate.probe_speed < e.candidate.probe_speed by {
            assert(s.drop_last()[i] == s[i]);
        }
        lemma_ranked_in(s.drop_last(), e, p);
        assert(s.insert(p, e) =~= s.drop_last().insert(p, e).push(s.last()));
    }
}

/// Sums of a prefix are no larger than the whole sums.
proof fn lemma_active_grows(s: Seq<LaneEntry>, n: int, source: Seq<char>)
    requires
        0 <= n <= s.len(),
    ensures
        0 <= active_sum(s.take(n)) <= active_sum(s),
        0 <= source_sum(s.take(n), source) <= source_sum(s, source),
    decreases s.len(),
{
    if n < s.len() {
        lemma_active_grows(s.drop_last(), n, source);
        assert(s.drop_last().take(n) =~= s.take(n));
    } else {
        assert(s.take(n) =~= s);
        if s.len() > 0 {
            lemma_active_grows(s.drop_last(), n - 1, source);
        }
    }
}

/// `n`, or `usize::MAX` if that is less.
pub open spec fn capped_size(n: int) -> usize {
    if n <= usize::MAX {
        n as usize
    } else {
        usize::MAX
    }
}

/// How many chunks may run at once: in all, per lane and per source.
pub struct LaneLimits {
    pub workers: int,
    pub per_lane: int,
    pub per_source: Option<int>,
}

/// How many chunks can still be handed out.
pub open spec fn capacity_left(l: LaneLimits, lanes: Seq<LaneEntry>) -> int {
    if l.workers >= active_sum(lanes) {
        l.workers - active_sum(lanes)
    } else {
        0
    }
}

/// The lane `e` has room for one more chunk: so has the whole, the lane and its source.
pub open spec fn has_room(l: LaneLimits, lanes: Seq<LaneEntry>, e: LaneEntry) -> bool {
    &&& capacity_left(l, lanes) > 0
    &&& e.active_chunks < l.per_lane
    &&& l.per_source matches Some(n) ==> source_sum(lanes, e.candidate.source_id@) < n
}

/// The place of the first lane with room among the first `n`, or -1; blacklisted lanes count only if
/// `any` is set.
pub open spec fn open_place(l: LaneLimits, lanes: Seq<LaneEntry>, any: bool, n: int) -> int
    decreases n,
{
    if n <= 0 {
        -1
    } else if open_place(l, lanes, any, n - 1) >= 0 {
        open_place(l, lanes, any, n - 1)
    } else if (any || lanes[n - 1].health == LaneHealth::Healthy) && has_room(
        l,
        lanes,
        lanes[n - 1],
    ) {
        n - 1
    } else {
        -1
    }
}

/// The place of the lane that gets the next chunk: the fastest healthy lane with room, else the
/// fastest lane with room, else -1.
pub open spec fn best_place(l: LaneLimits, lanes: Seq<LaneEntry>) -> int {
    let n = lanes.len() as int;
    if open_place(l, lanes, false, n) >= 0 {
        open_place(l, lanes, false, n)
    } else {
        open_place(l, lanes, true, n)
    }
}

/// A lane found among the first `n` is the one found among more.
proof fn lemma_open_stable(l: LaneLimits, lanes: Seq<LaneEntry>, any: bool, n: int, m: int)
    requires
        0 <= n <= m,
        open_place(l, lanes, any, n) >= 0,
    ensures
        open_place(l, lanes, any, m) == open_place(l, lanes, any, n),
    decreases m - n,
{
    if n < m {
        lemma_open_stable(l, lanes, any, n, m - 1);
    }
}

impl LaneScheduler {
    /// The limits in mathematical terms.
    pub open spec fn limits(self) -> LaneLimits {
        LaneLimits {
            workers: self.max_workers as int,
            per_lane: self.max_chunks_per_lane as int,
            per_source: match self.max_chunks_per_source {
                Some(n) => Some(n as int),
                None => None,
            },
        }
    }

    /// The scheduler differs from `other` in its lanes only.
    pub open spec fn same_limits(self, other: LaneScheduler) -> bool {
        &&& self.lane_model == other.lane_model
        &&& self.max_workers == other.max_workers
        &&& self.max_chunks_per_lane == other.max_chunks_per_lane
        &&& self.max_chunks_per_source == other.max_chunks_per_source
    }

    /// A scheduler for candidates.
    pub fn from_candidates(
        candidates: Vec<LaneCandidate>,
        lane_model: LaneModel,
        max_workers: usize,
        max_chunks_per_lane: usize,
        max_chunks_per_source: Option<usize>,
    ) -> (r: Self)
        ensures
            r.lanes@ == lanes_of(candidates@, lane_model),
            r.lane_model == lane_model,
            r.max_workers == (if max_workers >= 1 {
                max_workers
            } else {
                1
            }),
            r.max_chunks_per_lane == (if max_chunks_per_lane >= 1 {
                max_chunks_per_lane
            } else {
                1
            }),
            r.max_chunks_per_source == max_chunks_per_source,
    {
        let mut lanes: Vec<LaneEntry> = Vec::new();
        let mut i: usize = 0;
        assert(lanes_of(candidates@.take(0), lane_model) =~= Seq::<LaneEntry>::empty());
        while i < candidates.len()
            invariant
                i <= candidates@.len(),
                lanes@ == lanes_of(candidates@.take(i as int), lane_model),
            decreases candidates.len() - i,
        {
            let given: &LaneCandidate = &candidates[i];
            let c: LaneCandidate = match lane_model {
                LaneModel::PerSource => LaneCandidate {
                    lane_id: given.source_id.clone(),
                    source_id: given.source_id.clone(),
                    proxy_id: None,
                    probe_speed: given.probe_speed,
                },
                LaneModel::PerSourceProxy => LaneCandidate {
                    lane_id: given.lane_id.clone(),
                    source_id: given.source_id.clone(),
                    proxy_id: copy_text(&given.proxy_id),
                    probe_speed: given.probe_speed,
                },
            };
            assert(candidates@.take(i + 1).drop_last() =~= candidates@.take(i as int));
            assert(c == modelled(candidates@[i as int], lane_model));
            if find_lane(&lanes, c.lane_id.as_str()).is_none() {
                let mut p: usize = lanes.len();
                while p > 0 && lanes[p - 1].candidate.probe_speed < c.probe_speed
                    invariant
                        p <= lanes@.len(),
                        forall|k: int|
                            p <= k < lanes@.len() ==> (#[trigger] lanes@[k]).candidate.probe_speed
                                < c.probe_speed,
                    decreases p,
                {
                    p = p - 1;
                }
                proof {
                    lemma_ranked_in(lanes@, fresh_lane(c), p as int);
                }
                lanes.insert(
                    p,
                    LaneEntry {
                        candidate: c,
                        active_chunks: 0,
                        consecutive_failures: 0,
                        health: LaneHealth::Healthy,
                        blacklisted_at: None,
                    },
                );
            }
            i = i + 1;
        }
        assert(candidates@.take(i as int) =~= candidates@);
        LaneScheduler {
            lane_model,
            max_workers: if max_workers >= 1 {
                max_workers
            } else {
                1
            },
            max_chunks_per_lane: if max_chunks_per_lane >= 1 {
                max_chunks_per_lane
            } else {
                1
            },
            max_chunks_per_source,
            lanes,
        }
    }

    /// The active chunks of all lanes.
    fn total_active_chunks(&self) -> (r: usize)
        ensures
            r == capped_size(active_sum(self.lanes@)),
    {
        let mut sum: usize = 0;
        let mut i: usize = 0;
        while i < self.lanes.len()
            invariant
                i <= self.lanes@.len(),
                sum == capped_size(active_sum(self.lanes@.take(i as int))),
            decreases self.lanes.len() - i,
        {
            proof {
                assert(self.lanes@.take(i + 1).drop_last() =~= self.lanes@.take(i as int));
                lemma_active_grows(self.lanes@, i as int, Seq::empty());
            }
            sum = sum.saturating_add(self.lanes[i].active_chunks);
            i = i + 1;
        }
        assert(self.lanes@.take(i as int) =~= self.lanes@);
        sum
    }

    /// The active chunks of a source's lanes.
    fn source_active_chunks(&self, source_id: &str) -> (r: usize)
        ensures
            r == capped_size(source_sum(self.lanes@, source_id@)),
    {
        let mut sum: usize = 0;
        let mut i: usize = 0;
        while i < self.lanes.len()
            invariant
                i <= self.lanes@.len(),
                sum == capped_size(source_sum(self.lanes@.take(i as int), source_id@)),
            decreases self.lanes.len() - i,
        {
            proof {
                assert(self.lanes@.take(i + 1).drop_last() =~= self.lanes@.take(i as int));
                lemma_active_grows(self.lanes@, i as int, source_id@);
            }
            if same_text(self.lanes[i].candidate.source_id.as_str(), source_id) {
                sum = sum.saturating_add(self.lanes[i].active_chunks);
            }
            i = i + 1;
        }
        assert(self.lanes@.take(i as int) =~= self.lanes@);
        sum
    }

    /// How many chunks can still be handed out.
    pub fn available_capacity(&self) -> (r: usize)
        ensures
            r == capacity_left(self.limits(), self.lanes@),
    {
        proof {
            lemma_active_grows(self.lanes@, 0, Seq::empty());
        }
        self.max_workers.saturating_sub(self.total_active_chunks())
    }

    /// Whether the lane at `i` has room for one more chunk.
    fn lane_has_capacity(&self, i: usize) -> (r: bool)
        requires
            i < self.lanes@.len(),
        ensures
            r == has_room(self.limits(), self.lanes@, self.lanes@[i as int]),
    {
        if self.available_capacity() == 0 {
            return false;
        }
        if self.lanes[i].active_chunks >= self.max_chunks_per_lane {
            return false;
        }
        proof {
            lemma_active_grows(self.lanes@, 0, self.lanes@[i as int].candidate.source_id@);
        }
        match self.max_chunks_per_source {
            Some(n) => self.source_active_chunks(self.lanes[i].candidate.source_id.as_str()) < n,
            None => true,
        }
    }

    /// The first lane with room.
    fn select_lane(&self, allow_blacklisted: bool) -> (r: Option<usize>)
        ensures
            match r {
                Some(p) => p < self.lanes@.len() && open_place(
                    self.limits(),
                    self.lanes@,
                    allow_blacklisted,
                    self.lanes@.len() as int,
                ) == p,
                None => open_place(
                    self.limits(),
                    self.lanes@,
                    allow_blacklisted,
                    self.lanes@.len() as int,
                ) < 0,
            },
    {
        let mut i: usize = 0;
        while i < self.lanes.len()
            invariant
                i <= self.lanes@.len(),
                open_place(self.limits(), self.lanes@, allow_blacklisted, i as int) < 0,
            decreases self.lanes.len() - i,
        {
            if (allow_blacklisted || self.lanes[i].health == LaneHealth::Healthy)
                && self.lane_has_capacity(i) {
                proof {
                    lemma_open_stable(
                        self.limits(),
                        self.lanes@,
                        allow_blacklisted,
                        i + 1,
                        self.lanes@.len() as int,
                    );
                }
                return Some(i);
            }
            i = i + 1;
        }
        None
    }

    /// Takes lanes off the blacklist whose time is over.
    fn decay_expired_blacklists(&mut self, now: u64)
        ensures
            final(self).same_limits(*old(self)),
            final(self).lanes@ == all_refreshed(old(self).lanes@, now),
    {
        let mut i: usize = 0;
        let ghost s0 = self.lanes@;
        while i < self.lanes.len()
            invariant
                i <= self.lanes@.len(),
                self.lanes@.len() == s0.len(),
                self.same_limits(*old(self)),
                forall|k: int| 0 <= k < i ==> #[trigger] self.lanes@[k] == refreshed(s0[k], now),
                forall|k: int| i <= k < s0.len() ==> #[trigger] self.lanes@[k] == s0[k],
            decreases self.lanes.len() - i,
        {
            let over: bool = match self.lanes[i].blacklisted_at {
                Some(at) => self.lanes[i].health == LaneHealth::Blacklisted && now.saturating_sub(at)
                    >= BLACKLIST_DURATION,
                None => false,
            };
            if over {
                self.lanes[i].health = LaneHealth::Healthy;
                self.lanes[i].consecutive_failures = 0;
                self.lanes[i].blacklisted_at = None;
            }
            i = i + 1;
        }
        assert(self.lanes@ =~= all_refreshed(s0, now));
    }

    /// The place of the lane that gets the next chunk.
    pub fn best_lane_index(&mut self, now: u64) -> (r: Option<usize>)
        ensures
            final(self).same_limits(*old(self)),
            final(self).lanes@ == all_refreshed(old(self).lanes@, now),
            match r {
                Some(p) => {
                    &&& p < final(self).lanes@.len()
                    &&& best_place(old(self).limits(), final(self).lanes@) == p
                },
                None => best_place(old(self).limits(), final(self).lanes@) < 0,
            },
    {
        self.decay_expired_blacklists(now);
        match self.select_lane(false) {
            Some(p) => Some(p),
            None => self.select_lane(true),
        }
    }

    /// The lane that gets the next chunk.
    pub fn best_lane(&mut self, now: u64) -> (r: Option<String>)
        ensures
            final(self).same_limits(*old(self)),
            final(self).lanes@ == all_refreshed(old(self).lanes@, now),
            r == (if best_place(old(self).limits(), final(self).lanes@) >= 0 {
                Some(final(self).lanes@[best_place(old(self).limits(), final(self).lanes@)].candidate.lane_id)
            } else {
                None
            }),
    {
        match self.best_lane_index(now) {
            Some(p) => Some(self.lanes[p].candidate.lane_id.clone()),
            None => None,
        }
    }

    /// The ids of all lanes, fastest first.
    pub fn lane_ids(&self) -> (r: Vec<String>)
        ensures
            r@ == Seq::new(self.lanes@.len(), |i: int| self.lanes@[i].candidate.lane_id),
    {
        let mut out: Vec<String> = Vec::new();
        let mut i: usize = 0;
        while i < self.lanes.len()
            invariant
                i <= self.lanes@.len(),
                out@.len() == i,
                forall|k: int| 0 <= k < i ==> #[trigger] out@[k] == self.lanes@[k].candidate.lane_id,
            decreases self.lanes.len() - i,
        {
            out.push(self.lanes[i].candidate.lane_id.clone());
            i = i + 1;
        }
        assert(out@ =~= Seq::new(self.lanes@.len(), |i: int| self.lanes@[i].candidate.lane_id));
        out
    }

    /// One more chunk runs on a lane. An unknown lane is ignored.
    pub fn assign_chunk(&mut self, lane_id: &str)
        ensures
            final(self).same_limits(*old(self)),
            ({
                let p = lane_place(old(self).lanes@, lane_id@);
                final(self).lanes@ == replaced(old(self).lanes@, p, busier(old(self).lanes@[p]))
            }),
    {
        if let Some(p) = find_lane(&self.lanes, lane_id) {
            self.lanes[p].active_chunks = self.lanes[p].active_chunks.saturating_add(1);
            assert(self.lanes@ =~= replaced(old(self).lanes@, p as int, busier(old(self).lanes@[p as int])));
        }
    }

    /// One chunk less runs on a lane. An unknown lane is ignored.
    pub fn release_chunk(&mut self, lane_id: &str)
        ensures
            final(self).same_limits(*old(self)),
            ({
                let p = lane_place(old(self).lanes@, lane_id@);
                final(self).lanes@ == replaced(old(self).lanes@, p, idler(old(self).lanes@[p]))
            }),
    {
        if let Some(p) = find_lane(&self.lanes, lane_id) {
            self.lanes[p].active_chunks = self.lanes[p].active_chunks.saturating_sub(1);
            assert(self.lanes@ =~= replaced(old(self).lanes@, p as int, idler(old(self).lanes@[p as int])));
        }
    }

    /// A chunk failed on a lane. Too many failures in a row blacklist it.
    pub fn record_failure(&mut self, lane_id: &str, now: u64)
        ensures
            final(self).same_limits(*old(self)),
            ({
                let p = lane_place(old(self).lanes@, lane_id@);
                final(self).lanes@ == replaced(
                    old(self).lanes@,
                    p,
                    failed_lane(old(self).lanes@[p], now),
                )
            }),
    {
        if let Some(p) = find_lane(&self.lanes, lane_id) {
            let n: u32 = self.lanes[p].consecutive_failures.saturating_add(1);
            self.lanes[p].consecutive_failures = n;
            if n >= BLACKLIST_THRESHOLD {
                self.lanes[p].health = LaneHealth::Blacklisted;
                self.lanes[p].blacklisted_at = Some(now);
            }
            assert(self.lanes@ =~= replaced(
                old(self).lanes@,
                p as int,
                failed_lane(old(self).lanes@[p as int], now),
            ));
        }
    }

    /// A chunk completed on a lane, which clears its record.
    pub fn record_success(&mut self, lane_id: &str)
        ensures
            final(self).same_limits(*old(self)),
            ({
                let p = lane_place(old(self).lanes@, lane_id@);
                final(self).lanes@ == replaced(old(self).lanes@, p, restored(old(self).lanes@[p]))
            }),
    {
        if let Some(p) = find_lane(&self.lanes, lane_id) {
            self.lanes[p].consecutive_failures = 0;
            self.lanes[p].health = LaneHealth::Healthy;
            self.lanes[p].blacklisted_at = None;
            assert(self.lanes@ =~= replaced(
                old(self).lanes@,
                p as int,
                restored(old(self).lanes@[p as int]),
            ));
        }
    }

    /// Whether a lane is used.
    pub fn lane_health(&self, lane_id: &str, now: u64) -> (r: Option<LaneHealth>)
        ensures
            r == ({
                let p = lane_place(self.lanes@, lane_id@);
                if p >= 0 {
                    Some(refreshed(self.lanes@[p], now).health)
                } else {
                    None
                }
            }),
    {
        match find_lane(&self.lanes, lane_id) {
            Some(p) => {
                if let Some(at) = self.lanes[p].blacklisted_at {
                    if self.lanes[p].health == LaneHealth::Blacklisted && now.saturating_sub(at)
                        >= BLACKLIST_DURATION {
                        return Some(LaneHealth::Healthy);
                    }
                }
                Some(self.lanes[p].health)
            },
            None => None,
        }
    }

    /// Blacklists a lane as of the given time.
    pub fn set_blacklisted_at_for_test(&mut self, lane_id: &str, at: u64)
        ensures
            final(self).same_limits(*old(self)),
            ({
                let p = lane_place(old(self).lanes@, lane_id@);
                final(self).lanes@ == replaced(
                    old(self).lanes@,
                    p,
                    LaneEntry {
                        health: LaneHealth::Blacklisted,
                        consecutive_failures: BLACKLIST_THRESHOLD,
                        blacklisted_at: Some(at),
                        ..old(self).lanes@[p]
                    },
                )
            }),
    {
        if let Some(p) = find_lane(&self.lanes, lane_id) {
            self.lanes[p].health = LaneHealth::Blacklisted;
            self.lanes[p].consecutive_failures = BLACKLIST_THRESHOLD;
            self.lanes[p].blacklisted_at = Some(at);
            assert(self.lanes@ =~= replaced(
                old(self).lanes@,
                p as int,
                LaneEntry {
                    health: LaneHealth::Blacklisted,
                    consecutive_failures: BLACKLIST_THRESHOLD,
                    blacklisted_at: Some(at),
                    ..old(self).lanes@[p as int]
                },
            ));
        }
    }

    /// Blacklists a lane as of the given time.
    pub fn set_blacklisted_at_for_integration_test(&mut self, lane_id: &str, at: u64)
        ensures
            final(self).same_limits(*old(self)),
            ({
                let p = lane_place(old(self).lanes@, lane_id@);
                final(self).lanes@ == replaced(
                    old(self).lanes@,
                    p,
                    LaneEntry {
                        health: LaneHealth::Blacklisted,
                        consecutive_failures: BLACKLIST_THRESHOLD,
                        blacklisted_at: Some(at),
                        ..old(self).lanes@[p]
                    },
                )
            }),
    {
        self.set_blacklisted_at_for_test(lane_id, at);
    }
}

/// The place of the lane `id`.
pub fn find_lane(lanes: &Vec<LaneEntry>, id: &str) -> (r: Option<usize>)
    ensures
        match r {
            Some(p) => p < lanes@.len() && lane_place(lanes@, id@) == p,
            None => lane_place(lanes@, id@) < 0,
        },
{
    let mut i: usize = 0;
    proof {
        lemma_lane_place(lanes@, id@);
    }
    while i < lanes.len()
        invariant
            i <= lanes@.len(),
            forall|k: int| 0 <= k < i ==> (#[trigger] lanes@[k]).candidate.lane_id@ != id@,
            lane_place(lanes@, id@) >= 0 ==> lanes@[lane_place(
                lanes@,
                id@,
            )].candidate.lane_id@ == id@,
            lane_place(lanes@, id@) < lanes@.len(),
            forall|k: int|
                0 <= k < lanes@.len() && (lane_place(lanes@, id@) < 0 || k < lane_place(
                    lanes@,
                    id@,
                )) ==> (#[trigger] lanes@[k]).candidate.lane_id@ != id@,
        decreases lanes.len() - i,
    {
        if same_text(lanes[i].candidate.lane_id.as_str(), id) {
            return Some(i);
        }
        i = i + 1;
    }
    None
}

/// No limit is exceeded: not the workers, not the chunks per lane, not the chunks per source.
pub open spec fn within_limits(l: LaneLimits, lanes: Seq<LaneEntry>) -> bool {
    &&& active_sum(lanes) <= l.workers
    &&& forall|i: int|
        0 <= i < lanes.len() ==> (#[trigger] lanes[i]).active_chunks <= l.per_lane
    &&& l.per_source matches Some(n) ==> forall|source: Seq<char>|
        #[trigger] source_sum(lanes, source) <= n
}

/// The chunks of the lanes, when one lane is replaced by another of the same source.
proof fn lemma_sum_replaced(s: Seq<LaneEntry>, p: int, e: LaneEntry, source: Seq<char>)
    requires
        0 <= p < s.len(),
        e.candidate.source_id == s[p].candidate.source_id,
    ensures
        active_sum(s.update(p, e)) == active_sum(s) - s[p].active_chunks + e.active_chunks,
        source_sum(s.update(p, e), source) == source_sum(s, source) + if s[p].candidate.source_id@
            == source {
            e.active_chunks - s[p].active_chunks
        } else {
            0
        },
    decreases s.len(),
{
    if p == s.len() - 1 {
        assert(s.update(p, e).drop_last() =~= s.drop_last());
    } else {
        lemma_sum_replaced(s.drop_last(), p, e, source);
        assert(s.update(p, e).drop_last() =~= s.drop_last().update(p, e));
    }
}

/// The lane `e` would do for a chunk: it has room, and it is healthy unless `any` is set.
pub open spec fn would_do(l: LaneLimits, lanes: Seq<LaneEntry>, e: LaneEntry, any: bool) -> bool {
    has_room(l, lanes, e) && (any || e.health == LaneHealth::Healthy)
}

/// Where `open_place` points a lane would do, and no lane before it.
pub proof fn law_first_open_lane(l: LaneLimits, lanes: Seq<LaneEntry>, any: bool, n: int)
    requires
        0 <= n <= lanes.len(),
    ensures
        -1 <= open_place(l, lanes, any, n) < n,
        open_place(l, lanes, any, n) >= 0 ==> would_do(
            l,
            lanes,
            lanes[open_place(l, lanes, any, n)],
            any,
        ),
        forall|i: int|
            0 <= i < n && (open_place(l, lanes, any, n) < 0 || i < open_place(l, lanes, any, n))
                ==> !would_do(l, lanes, #[trigger] lanes[i], any),
    decreases n,
{
    if n > 0 {
        law_first_open_lane(l, lanes, any, n - 1);
    }
}

/// Handing a chunk to the best lane never exceeds a limit.
pub proof fn law_best_lane_keeps_the_limits(l: LaneLimits, lanes: Seq<LaneEntry>)
    requires
        within_limits(l, lanes),
        best_place(l, lanes) >= 0,
    ensures
        within_limits(
            l,
            lanes.update(best_place(l, lanes), busier(lanes[best_place(l, lanes)])),
        ),
{
    let n = lanes.len() as int;
    law_first_open_lane(l, lanes, false, n);
    law_first_open_lane(l, lanes, true, n);
    let p = best_place(l, lanes);
    let e = busier(lanes[p]);
    let after = lanes.update(p, e);
    lemma_sum_replaced(lanes, p, e, lanes[p].candidate.source_id@);
    assert forall|i: int| 0 <= i < after.len() implies (#[trigger] after[i]).active_chunks
        <= l.per_lane by {
        if i != p {
            assert(after[i] == lanes[i]);
        }
    }
    if let Some(m) = l.per_source {
        assert forall|source: Seq<char>| #[trigger] source_sum(after, source) <= m by {
            lemma_sum_replaced(lanes, p, e, source);
            assert(source_sum(lanes, source) <= m);
        }
    }
}

/// A lane that carries no more chunks than before exceeds no limit.
pub proof fn lemma_fewer_chunks_keep_the_limits(
    l: LaneLimits,
    lanes: Seq<LaneEntry>,
    p: int,
    e: LaneEntry,
)
    requires
        within_limits(l, lanes),
        0 <= p < lanes.len(),
        e.candidate.source_id == lanes[p].candidate.source_id,
        e.active_chunks <= lanes[p].active_chunks,
    ensures
        within_limits(l, lanes.update(p, e)),
{
    let after = lanes.update(p, e);
    lemma_sum_replaced(lanes, p, e, lanes[p].candidate.source_id@);
    assert forall|i: int| 0 <= i < after.len() implies (#[trigger] after[i]).active_chunks
        <= l.per_lane by {
        assert(lanes[i].active_chunks <= l.per_lane);
    }
    if let Some(m) = l.per_source {
        assert forall|source: Seq<char>| #[trigger] source_sum(after, source) <= m by {
            lemma_sum_replaced(lanes, p, e, source);
            assert(source_sum(lanes, source) <= m);
        }
    }
}

/// Time on the blacklist changes no count.
proof fn lemma_refreshed_sums(lanes: Seq<LaneEntry>, now: u64, source: Seq<char>)
    ensures
        active_sum(all_refreshed(lanes, now)) == active_sum(lanes),
        source_sum(all_refreshed(lanes, now), source) == source_sum(lanes, source),
    decreases lanes.len(),
{
    let fresh = all_refreshed(lanes, now);
    if lanes.len() > 0 {
        lemma_refreshed_sums(lanes.drop_last(), now, source);
        assert(fresh.drop_last() =~= all_refreshed(lanes.drop_last(), now));
    }
}

/// Time on the blacklist exceeds no limit.
pub proof fn lemma_refreshing_keeps_the_limits(l: LaneLimits, lanes: Seq<LaneEntry>, now: u64)
    requires
        within_limits(l, lanes),
    ensures
        within_limits(l, all_refreshed(lanes, now)),
{
    let fresh = all_refreshed(lanes, now);
    lemma_refreshed_sums(lanes, now, Seq::empty());
    assert forall|i: int| 0 <= i < fresh.len() implies (#[trigger] fresh[i]).active_chunks
        <= l.per_lane by {
        assert(lanes[i].active_chunks <= l.per_lane);
    }
    if let Some(m) = l.per_source {
        assert forall|source: Seq<char>| #[trigger] source_sum(fresh, source) <= m by {
            lemma_refreshed_sums(lanes, now, source);
            assert(source_sum(lanes, source) <= m);
        }
    }
}

/// A blacklisted lane gets a chunk only if no healthy lane has room.
pub proof fn law_healthy_lanes_come_first(s: LaneScheduler)
    requires
        best_place(s.limits(), s.lanes@) >= 0,
        s.lanes@[best_place(s.limits(), s.lanes@)].health == LaneHealth::Blacklisted,
    ensures
        forall|i: int|
            0 <= i < s.lanes@.len() && (#[trigger] s.lanes@[i]).health == LaneHealth::Healthy
                ==> !has_room(s.limits(), s.lanes@, s.lanes@[i]),
{
    law_first_open_lane(s.limits(), s.lanes@, false, s.lanes@.len() as int);
}

/// Three failures in a row blacklist a lane; it is healthy again after a success, or once
/// `BLACKLIST_DURATION` has passed.
pub proof fn law_blacklisting(e: LaneEntry, t1: u64, t2: u64, t3: u64, now: u64)
    requires
        e.consecutive_failures == 0,
        e.health == LaneHealth::Healthy,
    ensures
        ({
            let once = failed_lane(e, t1);
            let twice = failed_lane(once, t2);
            let thrice = failed_lane(twice, t3);
            &&& once.health == LaneHealth::Healthy
            &&& twice.health == LaneHealth::Healthy
            &&& thrice.health == LaneHealth::Blacklisted
            &&& restored(thrice).health == LaneHealth::Healthy
            &&& refreshed(thrice, now).health == (if now - t3 >= BLACKLIST_DURATION {
                LaneHealth::Healthy
            } else {
                LaneHealth::Blacklisted
            })
        }),
{
}

/// Lanes are in the order of their speeds, fastest first.
pub open spec fn by_speed(s: Seq<LaneEntry>) -> bool {
    forall|i: int, j: int|
        0 <= i <= j < s.len() ==> (#[trigger] s[i]).candidate.probe_speed >= (
        #[trigger] s[j]).candidate.probe_speed
}

/// No two lanes share an id.
pub open spec fn distinct_lanes(s: Seq<LaneEntry>) -> bool {
    forall|i: int, j: int|
        0 <= i < j < s.len() ==> (#[trigger] s[i]).candidate.lane_id@ != (
        #[trigger] s[j]).candidate.lane_id@
}

proof fn lemma_ranked_keeps(s: Seq<LaneEntry>, e: LaneEntry)
    requires
        by_speed(s),
    ensures
        by_speed(ranked_in(s, e)),
        ranked_in(s, e).len() == s.len() + 1,
        ranked_in(s, e).last().candidate.probe_speed == (if s.len() > 0
            && s.last().candidate.probe_speed < e.candidate.probe_speed {
            s.last().candidate.probe_speed
        } else {
            e.candidate.probe_speed
        }),
        distinct_lanes(s) && (forall|i: int|
            0 <= i < s.len() ==> (#[trigger] s[i]).candidate.lane_id@ != e.candidate.lane_id@)
            ==> distinct_lanes(ranked_in(s, e)),
        forall|k: int|
            0 <= k < s.len() + 1 ==> (#[trigger] ranked_in(s, e)[k]) == e || s.contains(
                ranked_in(s, e)[k],
            ),
    decreases s.len(),
{
    if s.len() == 0 || s.last().candidate.probe_speed >= e.candidate.probe_speed {
        let full = s.push(e);
        assert forall|i: int, j: int| 0 <= i <= j < full.len() implies (
        #[trigger] full[i]).candidate.probe_speed >= (#[trigger] full[j]).candidate.probe_speed by {
            if j < s.len() {
                assert(s[i].candidate.probe_speed >= s[j].candidate.probe_speed);
            } else if i < s.len() {
                assert(s[i].candidate.probe_speed >= s[s.len() - 1].candidate.probe_speed);
            }
        }
        assert forall|k: int| 0 <= k < full.len() implies (#[trigger] full[k]) == e || s.contains(
            full[k],
        ) by {
            if k < s.len() {
                assert(s[k] == full[k]);
            }
        }
        if distinct_lanes(s) && (forall|i: int|
            0 <= i < s.len() ==> (#[trigger] s[i]).candidate.lane_id@ != e.candidate.lane_id@) {
            assert forall|i: int, j: int| 0 <= i < j < full.len() implies (
            #[trigger] full[i]).candidate.lane_id@ != (#[trigger] full[j]).candidate.lane_id@ by {
                assert(full[i] == s[i]);
            }
        }
    } else {
        let t = s.drop_last();
        assert(by_speed(t)) by {
            assert forall|i: int, j: int| 0 <= i <= j < t.len() implies (
            #[trigger] t[i]).candidate.probe_speed >= (#[trigger] t[j]).candidate.probe_speed by {
                assert(s[i].candidate.probe_speed >= s[j].candidate.probe_speed);
            }
        }
        lemma_ranked_keeps(t, e);
        let rest = ranked_in(t, e);
        let full = rest.push(s.last());
        if t.len() > 0 {
            assert(s[t.len() - 1].candidate.probe_speed >= s[s.len() - 1].candidate.probe_speed);
        }
        assert forall|i: int, j: int| 0 <= i <= j < full.len() implies (
        #[trigger] full[i]).candidate.probe_speed >= (#[trigger] full[j]).candidate.probe_speed by {
            if j < rest.len() {
                assert(rest[i].candidate.probe_speed >= rest[j].candidate.probe_speed);
            } else if i < rest.len() {
                assert(rest[i].candidate.probe_speed >= rest[rest.len() - 1].candidate.probe_speed);
            }
        }
        assert forall|k: int| 0 <= k < full.len() implies (#[trigger] full[k]) == e || s.contains(
            full[k],
        ) by {
            if k < rest.len() {
                assert(full[k] == rest[k]);
                if rest[k] != e {
                    let w = choose|w: int| 0 <= w < t.len() && t[w] == rest[k];
                    assert(s[w] == rest[k]);
                }
            } else {
                assert(s[s.len() - 1] == full[k]);
            }
        }
        if distinct_lanes(s) && (forall|i: int|
            0 <= i < s.len() ==> (#[trigger] s[i]).candidate.lane_id@ != e.candidate.lane_id@) {
            assert forall|i: int, j: int| 0 <= i < j < t.len() implies (
            #[trigger] t[i]).candidate.lane_id@ != (#[trigger] t[j]).candidate.lane_id@ by {
                assert(s[i].candidate.lane_id@ != s[j].candidate.lane_id@);
            }
            assert forall|i: int| 0 <= i < t.len() implies (#[trigger] t[i]).candidate.lane_id@
                != e.candidate.lane_id@ by {
                assert(s[i].candidate.lane_id@ != e.candidate.lane_id@);
            }
            assert(distinct_lanes(rest));
            assert forall|i: int, j: int| 0 <= i < j < full.len() implies (
            #[trigger] full[i]).candidate.lane_id@ != (#[trigger] full[j]).candidate.lane_id@ by {
                if j < rest.len() {
                    assert(rest[i].candidate.lane_id@ != rest[j].candidate.lane_id@);
                } else {
                    assert(full[i] == rest[i]);
                    assert(s[s.len() - 1].candidate.lane_id@ != e.candidate.lane_id@);
                    if rest[i] != e {
                        let w = choose|w: int| 0 <= w < t.len() && t[w] == rest[i];
                        assert(s[w].candidate.lane_id@ != s[s.len() - 1].candidate.lane_id@);
                    }
                }
            }
        }
    }
}

/// The lanes of candidates are fastest first, and no two of them share an id.
pub proof fn law_lanes_are_ranked_and_distinct(s: Seq<LaneCandidate>, model: LaneModel)
    ensures
        by_speed(lanes_of(s, model)),
        distinct_lanes(lanes_of(s, model)),
    decreases s.len(),
{
    if s.len() > 0 {
        law_lanes_are_ranked_and_distinct(s.drop_last(), model);
        let front = lanes_of(s.drop_last(), model);
        let c = modelled(s.last(), model);
        lemma_lane_place(front, c.lane_id@);
        lemma_ranked_keeps(front, fresh_lane(c));
    }
}

} // verus!
