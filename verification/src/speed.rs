//! Speed over a sliding window of observations.

use crate::state;
use std::collections::VecDeque;
use vstd::prelude::*;

verus! {

/// Observations of a growing total. Times are in nanoseconds, speeds in thousandths of a byte per
/// second.
#[derive(Debug)]
pub struct SpeedEstimator {
    pub window: u64,
    /// Time and total of each observation in the window, oldest first.
    pub slots: VecDeque<(u64, u64)>,
    pub start: Option<u64>,
    pub max_speed: u64,
}

/// How many of the front observations are older than the window.
pub open spec fn stale_count(s: Seq<(u64, u64)>, window: u64, now: u64) -> int
    decreases s.len(),
{
    if s.len() == 0 || now - s[0].0 <= window {
        0
    } else {
        1 + stale_count(s.skip(1), window, now)
    }
}

/// The observations within the window.
pub open spec fn live(s: Seq<(u64, u64)>, window: u64, now: u64) -> Seq<(u64, u64)> {
    s.skip(stale_count(s, window, now))
}

/// The observations with one more; a second one at the same time replaces the first.
pub open spec fn observed(s: Seq<(u64, u64)>, total: u64, now: u64) -> Seq<(u64, u64)> {
    if s.len() > 0 && s.last().0 == now {
        s.drop_last().push((now, total))
    } else {
        s.push((now, total))
    }
}

/// `bytes` within `nanos`, counted in whole milliseconds but at least one.
pub open spec fn rate(bytes: int, nanos: int) -> u64 {
    let ms = if nanos >= 1_000_000 {
        nanos / 1_000_000
    } else {
        1
    };
    state::capped(bytes * 1_000_000 / ms)
}

/// The time from `a` to `b`, 0 if `b` is earlier.
pub open spec fn time_between(a: u64, b: u64) -> int {
    if b >= a {
        b - a
    } else {
        0
    }
}

/// The bytes that arrived between the oldest and the newest observation.
pub open spec fn window_gain(s: Seq<(u64, u64)>) -> int {
    if s.len() < 2 || s.last().1 < s[0].1 {
        0
    } else {
        s.last().1 - s[0].1
    }
}

/// The speed between the oldest and the newest observation.
pub open spec fn window_speed(s: Seq<(u64, u64)>) -> u64 {
    if s.len() < 2 {
        0
    } else {
        rate(window_gain(s), time_between(s[0].0, s.last().0))
    }
}

/// The mean speed since the start; 0 within the first four milliseconds.
pub open spec fn mean_speed(start: Option<u64>, s: Seq<(u64, u64)>, now: u64) -> u64 {
    if start is None || s.len() == 0 || time_between(start->0, now) / 1_000_000 <= 4 {
        0
    } else {
        rate(s.last().1 as int, time_between(start->0, now))
    }
}

/// The mean speed is the newest total by the whole time since the start; in the first milliseconds, and
/// before anything was observed, there is none.
pub proof fn law_the_mean_speed_spans_all_time(start: u64, s: Seq<(u64, u64)>, now: u64)
    requires
        start <= now,
    ensures
        mean_speed(None, s, now) == 0,
        mean_speed(Some(start), Seq::empty(), now) == 0,
        now - start < 5_000_000 ==> mean_speed(Some(start), s, now) == 0,
        now - start >= 5_000_000 && s.len() > 0 ==> mean_speed(Some(start), s, now) == rate(
            s.last().1 as int,
            now - start,
        ),
{
}

/// `bytes` within `nanos`.
fn rate_of(bytes: u64, nanos: u64) -> (r: u64)
    ensures
        r == rate(bytes as int, nanos as int),
{
    let ms: u64 = if nanos >= 1_000_000 {
        nanos / 1_000_000
    } else {
        1
    };
    let v: u128 = (bytes as u128) * 1_000_000u128 / (ms as u128);
    if v <= u64::MAX as u128 {
        v as u64
    } else {
        u64::MAX
    }
}

impl SpeedEstimator {
    /// No observation yet.
    pub fn new(window: u64) -> (r: Self)
        ensures
            r.window == window,
            r.slots@ == Seq::<(u64, u64)>::empty(),
            r.start is None,
            r.max_speed == 0,
    {
        SpeedEstimator { window, slots: VecDeque::new(), start: None, max_speed: 0 }
    }

    /// Forgets everything and starts at `now`.
    pub fn reset(&mut self, now: u64)
        ensures
            final(self).window == old(self).window,
            final(self).slots@ == Seq::<(u64, u64)>::empty(),
            final(self).start == Some(now),
            final(self).max_speed == 0,
    {
        self.slots.clear();
        self.start = Some(now);
        self.max_speed = 0;
    }

    /// Forgets observations that are older than the window.
    fn remove_stale(&mut self, now: u64)
        ensures
            final(self).slots@ == live(old(self).slots@, old(self).window, now),
            final(self).window == old(self).window,
            final(self).start == old(self).start,
            final(self).max_speed == old(self).max_speed,
    {
        let ghost s0 = self.slots@;
        let ghost mut n: int = 0;
        assert(s0.skip(0) =~= s0);
        while self.slots.len() > 0 && now.saturating_sub(self.slots[0].0) > self.window
            invariant
                0 <= n <= s0.len(),
                self.slots@ == s0.skip(n),
                stale_count(s0, self.window, now) == n + stale_count(s0.skip(n), self.window, now),
                self.window == old(self).window,
                self.start == old(self).start,
                self.max_speed == old(self).max_speed,
            decreases self.slots@.len(),
        {
            let _ = self.slots.pop_front();
            proof {
                assert(s0.skip(n).skip(1) =~= s0.skip(n + 1));
                assert(self.slots@ =~= s0.skip(n + 1));
                n = n + 1;
            }
        }
    }

    /// Notes the total at `now`.
    pub fn observe(&mut self, total: u64, now: u64)
        ensures
            final(self).slots@ == observed(
                live(old(self).slots@, old(self).window, now),
                total,
                now,
            ),
            final(self).start == (if old(self).start is Some {
                old(self).start
            } else {
                Some(now)
            }),
            final(self).window == old(self).window,
            final(self).max_speed == old(self).max_speed,
    {
        if self.start.is_none() {
            self.start = Some(now);
        }
        self.remove_stale(now);
        let n: usize = self.slots.len();
        if n > 0 && self.slots[n - 1].0 == now {
            let _ = self.slots.pop_back();
        }
        self.slots.push_back((now, total));
    }

    /// Notes `bytes` more than at the last observation.
    pub fn update(&mut self, bytes: u64, now: u64)
        ensures
            final(self).slots@ == observed(
                live(old(self).slots@, old(self).window, now),
                state::capped(
                    bytes + if old(self).slots@.len() > 0 {
                        old(self).slots@.last().1 as int
                    } else {
                        0
                    },
                ),
                now,
            ),
            final(self).start == (if old(self).start is Some {
                old(self).start
            } else {
                Some(now)
            }),
            final(self).window == old(self).window,
            final(self).max_speed == old(self).max_speed,
    {
        let n: usize = self.slots.len();
        let before: u64 = if n > 0 {
            self.slots[n - 1].1
        } else {
            0
        };
        self.observe(before.saturating_add(bytes), now);
    }

    /// The speed over the window; it also raises the highest speed seen.
    pub fn speed(&mut self, now: u64) -> (r: u64)
        ensures
            final(self).slots@ == live(old(self).slots@, old(self).window, now),
            r == window_speed(final(self).slots@),
            final(self).max_speed == (if r > old(self).max_speed {
                r
            } else {
                old(self).max_speed
            }),
            final(self).window == old(self).window,
            final(self).start == old(self).start,
    {
        self.remove_stale(now);
        let n: usize = self.slots.len();
        if n < 2 {
            return 0;
        }
        let nanos: u64 = self.slots[n - 1].0.saturating_sub(self.slots[0].0);
        let s: u64 = rate_of(self.window_bytes(), nanos);
        if s > self.max_speed {
            self.max_speed = s;
        }
        s
    }

    /// The mean speed since the start; 0 within the first four milliseconds.
    pub fn avg_speed(&self, now: u64) -> (r: u64)
        ensures
            r == mean_speed(self.start, self.slots@, now),
    {
        let start: u64 = match self.start {
            Some(t) => t,
            None => {
                return 0;
            },
        };
        let n: usize = self.slots.len();
        if n == 0 {
            return 0;
        }
        let nanos: u64 = now.saturating_sub(start);
        if nanos / 1_000_000 <= 4 {
            return 0;
        }
        rate_of(self.slots[n - 1].1, nanos)
    }

    /// The highest speed over the window so far.
    pub fn max_speed(&self) -> (r: u64)
        ensures
            r == self.max_speed,
    {
        self.max_speed
    }

    /// The bytes that arrived within the window.
    pub fn window_bytes(&self) -> (r: u64)
        ensures
            r == window_gain(self.slots@),
    {
        let n: usize = self.slots.len();
        if n < 2 {
            return 0;
        }
        self.slots[n - 1].1.saturating_sub(self.slots[0].1)
    }
}

proof fn lemma_stale(s: Seq<(u64, u64)>, window: u64, now: u64)
    ensures
        0 <= stale_count(s, window, now) <= s.len(),
        forall|i: int|
            0 <= i < stale_count(s, window, now) ==> now - (#[trigger] s[i]).0 > window,
        stale_count(s, window, now) < s.len() ==> now - s[stale_count(s, window, now)].0 <= window,
    decreases s.len(),
{
    if s.len() > 0 && now - s[0].0 > window {
        let rest = s.skip(1);
        lemma_stale(rest, window, now);
        assert forall|i: int| 0 <= i < stale_count(s, window, now) implies now - (#[trigger] s[i]).0
            > window by {
            if i > 0 {
                assert(rest[i - 1] == s[i]);
            }
        }
    }
}

/// Observations are kept as long as they lie within the window: those that go are the oldest ones, all
/// of them outside it, and the first that stays lies within it.
pub proof fn law_the_window_keeps_what_is_recent(s: Seq<(u64, u64)>, window: u64, now: u64)
    ensures
        ({
            let kept = live(s, window, now);
            &&& kept.len() <= s.len()
            &&& kept == s.skip(s.len() - kept.len())
            &&& forall|i: int|
                0 <= i < s.len() - kept.len() ==> now - (#[trigger] s[i]).0 > window
            &&& kept.len() > 0 ==> now - kept[0].0 <= window
        }),
{
    lemma_stale(s, window, now);
}

/// A speed over a whole number of milliseconds is the bytes by the time, rounded down.
pub proof fn law_rates_are_bytes_by_time(bytes: u64, ms: u64)
    requires
        0 < ms,
        bytes * 1_000_000 <= u64::MAX,
    ensures
        rate(bytes as int, ms * 1_000_000) * ms <= bytes * 1_000_000 < (rate(
            bytes as int,
            ms * 1_000_000,
        ) + 1) * ms,
        rate(bytes as int, 0) == bytes * 1_000_000,
{
    let x = bytes * 1_000_000;
    let m = ms as int;
    assert(ms * 1_000_000 / 1_000_000 == m);
    let q = x / m;
    assert(q * m <= x < (q + 1) * m && 0 <= q <= x) by (nonlinear_arith)
        requires
            q == x / m,
            m > 0,
            x >= 0,
    ;
}

/// The speed over the window is that between its oldest and its newest observation; fewer than two
/// observations, or a total that fell, tell no speed.
pub proof fn law_the_speed_spans_the_window(s: Seq<(u64, u64)>)
    ensures
        s.len() < 2 ==> window_speed(s) == 0,
        s.len() >= 2 && s.last().1 <= s[0].1 ==> window_speed(s) == 0,
        s.len() >= 2 && s.last().1 >= s[0].1 && s.last().0 >= s[0].0 ==> window_speed(s) == rate(
            s.last().1 - s[0].1,
            s.last().0 - s[0].0,
        ),
{
    if s.len() >= 2 && s.last().1 <= s[0].1 {
        let t = time_between(s[0].0, s.last().0);
        let ms = if t >= 1_000_000 {
            t / 1_000_000
        } else {
            1
        };
        assert(0int * 1_000_000 / ms == 0) by (nonlinear_arith)
            requires
                ms > 0,
        ;
    }
}

/// The newest observation is the last one, and there is one for each moment.
pub proof fn law_observations_are_noted(s: Seq<(u64, u64)>, total: u64, now: u64)
    ensures
        observed(s, total, now).last() == (now, total),
        s.len() > 0 && s.last().0 == now ==> observed(s, total, now).len() == s.len() && observed(
            s,
            total,
            now,
        ).drop_last() == s.drop_last(),
        s.len() == 0 || s.last().0 != now ==> observed(s, total, now).drop_last() == s,
{
    assert(s.len() > 0 ==> s.drop_last().push((now, total)).drop_last() =~= s.drop_last());
    assert(s.push((now, total)).drop_last() =~= s);
}

} // verus!
