//! Rate limits: which settings are valid, and in which portions bytes are let through.

use crate::config::RuntimeConfig;
use crate::text;
use crate::text::{push_number, push_text};
use crate::types::{DownloadError, Result};
use vstd::prelude::*;

verus! {

/// The burst where none is set: 64 KiB.
pub const DEFAULT_BURST: u32 = 65536;

/// The largest portion that is let through at once: 64 KiB.
pub const BATCH_BYTES: u64 = 65536;

/// The settings of a token bucket with one token per byte.
#[derive(Debug, Clone, Copy, PartialEq, Eq, Structural)]
pub struct LimiterSettings {
    pub bytes_per_sec: u32,
    pub burst: u32,
}

/// The settings for a speed limit and an optional burst.
pub open spec fn settings(bytes_per_sec: u32, burst: Option<u32>) -> LimiterSettings {
    LimiterSettings {
        bytes_per_sec,
        burst: match burst {
            Some(b) => b,
            None => DEFAULT_BURST,
        },
    }
}

impl LimiterSettings {
    /// Fills in the default burst.
    pub fn new(bytes_per_sec: u32, burst: Option<u32>) -> (r: Self)
        ensures
            r == settings(bytes_per_sec, burst),
    {
        LimiterSettings {
            bytes_per_sec,
            burst: match burst {
                Some(b) => b,
                None => DEFAULT_BURST,
            },
        }
    }
}

/// What is wrong with the limits of a running download, if anything.
pub open spec fn runtime_limit_fault(limit: Option<u64>, burst: Option<u64>) -> Option<Seq<char>> {
    match limit {
        None => if burst is Some {
            Some("burst requires speed_limit"@)
        } else {
            None
        },
        Some(n) => if n > u32::MAX {
            Some("speed_limit "@ + text::digits(n as nat) + " exceeds 4294967295"@)
        } else if n == 0 {
            Some("speed_limit must be greater than zero"@)
        } else if burst == Some(0u64) {
            Some("burst must be greater than zero"@)
        } else if burst is Some && burst->0 > u32::MAX {
            Some("burst "@ + text::digits(burst->0 as nat) + " exceeds 4294967295"@)
        } else {
            None
        },
    }
}

/// A valid pair of limits in 32 bits.
pub open spec fn narrowed(limit: Option<u64>, burst: Option<u64>) -> Option<(u32, Option<u32>)> {
    match limit {
        None => None,
        Some(n) => Some(
            (
                n as u32,
                match burst {
                    Some(b) => Some(b as u32),
                    None => None,
                },
            ),
        ),
    }
}

/// Reads the limits of a running download: none, or a speed and an optional burst.
pub fn runtime_limiter_from_config(cfg: &RuntimeConfig) -> (r: std::result::Result<
    Option<(u32, Option<u32>)>,
    String,
>)
    ensures
        match r {
            Ok(v) => runtime_limit_fault(cfg.speed_limit, cfg.burst) is None && v == narrowed(
                cfg.speed_limit,
                cfg.burst,
            ),
            Err(t) => runtime_limit_fault(cfg.speed_limit, cfg.burst) == Some(t@),
        },
{
    let mut t: String = String::new();
    let ghost fault = runtime_limit_fault(cfg.speed_limit, cfg.burst);
    let limit: u64 = match cfg.speed_limit {
        Some(n) => n,
        None => {
            if cfg.burst.is_some() {
                push_text(&mut t, "burst requires speed_limit");
                assert(t@ =~= fault->0);
                return Err(t);
            }
            return Ok(None);
        },
    };
    if limit > u32::MAX as u64 {
        push_text(&mut t, "speed_limit ");
        push_number(&mut t, limit);
        push_text(&mut t, " exceeds 4294967295");
        assert(t@ =~= fault->0);
        return Err(t);
    }
    if limit == 0 {
        push_text(&mut t, "speed_limit must be greater than zero");
        assert(t@ =~= fault->0);
        return Err(t);
    }
    match cfg.burst {
        None => Ok(Some((limit as u32, None))),
        Some(b) => {
            if b == 0 {
                push_text(&mut t, "burst must be greater than zero");
                assert(t@ =~= fault->0);
                return Err(t);
            }
            if b > u32::MAX as u64 {
                push_text(&mut t, "burst ");
                push_number(&mut t, b);
                push_text(&mut t, " exceeds 4294967295");
                assert(t@ =~= fault->0);
                return Err(t);
            }
            Ok(Some((limit as u32, Some(b as u32))))
        },
    }
}

/// What is wrong with a configured limit, if anything. The names are those of the two settings and
/// of the one that a burst needs beside it.
pub open spec fn limit_fault(
    limit_name: Seq<char>,
    burst_name: Seq<char>,
    needed: Seq<char>,
    limit: Option<u64>,
    burst: Option<u64>,
) -> Option<Seq<char>> {
    match limit {
        Some(n) => if n == 0 {
            Some(limit_name + " 0 无效"@)
        } else if n > u32::MAX {
            Some(
                limit_name + " "@ + text::digits(n as nat) + " 超过 4294967295 需 ≤4GiB/s"@,
            )
        } else {
            match burst {
                Some(b) => if b == 0 {
                    Some(burst_name + " 0 无效"@)
                } else if b > u32::MAX {
                    Some(burst_name + " "@ + text::digits(b as nat) + " 超过 4294967295"@)
                } else {
                    None
                },
                None => None,
            }
        },
        None => if burst is Some {
            Some(burst_name + " 需配合 "@ + needed)
        } else {
            None
        },
    }
}

/// The settings that valid limits stand for.
pub open spec fn limit_settings(limit: Option<u64>, burst: Option<u64>) -> Option<LimiterSettings> {
    match limit {
        Some(n) => Some(
            settings(
                n as u32,
                match burst {
                    Some(b) => Some(b as u32),
                    None => None,
                },
            ),
        ),
        None => None,
    }
}

/// Checks a configured limit: a speed and a burst must be at least 1 and fit in 32 bits, and a burst
/// needs a speed.
pub fn check_limit(
    limit_name: &str,
    burst_name: &str,
    needed: &str,
    limit: Option<u64>,
    burst: Option<u64>,
) -> (r: Result<Option<LimiterSettings>>)
    ensures
        match r {
            Ok(v) => limit_fault(limit_name@, burst_name@, needed@, limit, burst) is None && v
                == limit_settings(limit, burst),
            Err(DownloadError::InvalidArgument(t)) => limit_fault(
                limit_name@,
                burst_name@,
                needed@,
                limit,
                burst,
            ) == Some(t@),
            Err(_) => false,
        },
{
    let mut t: String = String::new();
    let ghost fault = limit_fault(limit_name@, burst_name@, needed@, limit, burst);
    match limit {
        Some(n) => {
            if n == 0 {
                push_text(&mut t, limit_name);
                push_text(&mut t, " 0 无效");
                assert(t@ =~= fault->0);
                return Err(DownloadError::InvalidArgument(t));
            }
            if n > u32::MAX as u64 {
                push_text(&mut t, limit_name);
                push_text(&mut t, " ");
                push_number(&mut t, n);
                push_text(&mut t, " 超过 4294967295 需 ≤4GiB/s");
                assert(t@ =~= fault->0);
                return Err(DownloadError::InvalidArgument(t));
            }
            if let Some(b) = burst {
                if b == 0 {
                    push_text(&mut t, burst_name);
                    push_text(&mut t, " 0 无效");
                    assert(t@ =~= fault->0);
                    return Err(DownloadError::InvalidArgument(t));
                }
                if b > u32::MAX as u64 {
                    push_text(&mut t, burst_name);
                    push_text(&mut t, " ");
                    push_number(&mut t, b);
                    push_text(&mut t, " 超过 4294967295");
                    assert(t@ =~= fault->0);
                    return Err(DownloadError::InvalidArgument(t));
                }
                return Ok(Some(LimiterSettings::new(n as u32, Some(b as u32))));
            }
            Ok(Some(LimiterSettings::new(n as u32, None)))
        },
        None => {
            if burst.is_some() {
                push_text(&mut t, burst_name);
                push_text(&mut t, " 需配合 ");
                push_text(&mut t, needed);
                assert(t@ =~= fault->0);
                return Err(DownloadError::InvalidArgument(t));
            }
            Ok(None)
        },
    }
}

/// Portions added up.
pub open spec fn batch_sum(s: Seq<u32>) -> int
    decreases s.len(),
{
    if s.len() == 0 {
        0
    } else {
        batch_sum(s.drop_last()) + s.last()
    }
}

/// `r` cuts `len` into portions of `most`, with what is left at the end.
pub open spec fn cut_by(r: Seq<u32>, len: u64, most: u64) -> bool {
    &&& batch_sum(r) == len
    &&& forall|i: int| 0 <= i < r.len() ==> 0 < #[trigger] r[i] <= most
    &&& forall|i: int| 0 <= i < r.len() - 1 ==> #[trigger] r[i] == most
}

/// Cuts `len` into portions of `most`, with what is left at the end.
fn portions(len: u64, most: u64) -> (r: Vec<u32>)
    requires
        0 < most <= u32::MAX,
    ensures
        cut_by(r@, len, most),
{
    let mut out: Vec<u32> = Vec::new();
    let mut left: u64 = len;
    while left > 0
        invariant
            0 < most <= u32::MAX,
            batch_sum(out@) + left == len,
            forall|i: int| 0 <= i < out@.len() ==> 0 < #[trigger] out@[i] <= most,
            forall|i: int| 0 <= i < out@.len() - 1 ==> #[trigger] out@[i] == most,
            left > 0 && out@.len() > 0 ==> out@.last() == most,
        decreases left,
    {
        let batch: u64 = if left <= most {
            left
        } else {
            most
        };
        let ghost before = out@;
        out.push(batch as u32);
        assert(out@.drop_last() =~= before);
        left = left - batch;
    }
    out
}

/// Cuts a write into portions for the limiter: full portions, and what is left at the end.
pub fn rate_batches(len: u64) -> (r: Vec<u32>)
    ensures
        cut_by(r@, len, BATCH_BYTES),
{
    portions(len, BATCH_BYTES)
}

/// Cuts a demand for tokens into portions that a bucket of `burst` tokens can hold.
pub fn burst_batches(tokens: u32, burst: u32) -> (r: Vec<u32>)
    requires
        burst > 0,
    ensures
        cut_by(r@, tokens as u64, burst as u64),
{
    portions(tokens as u64, burst as u64)
}

proof fn lemma_full_portions(r: Seq<u32>, most: int)
    requires
        forall|i: int| 0 <= i < r.len() ==> #[trigger] r[i] == most,
    ensures
        batch_sum(r) == r.len() * most,
    decreases r.len(),
{
    if r.len() > 0 {
        let front = r.drop_last();
        assert forall|i: int| 0 <= i < front.len() implies #[trigger] front[i] == most by {
            assert(front[i] == r[i]);
        }
        lemma_full_portions(front, most);
        assert(r[r.len() - 1] == most);
        let n = r.len() as int;
        assert((n - 1) * most + most == n * most) by (nonlinear_arith);
    }
}

proof fn lemma_batch_sum(r: Seq<u32>)
    ensures
        batch_sum(r) == r.fold_left(0int, |a: int, x: u32| a + x),
    decreases r.len(),
{
    if r.len() > 0 {
        lemma_batch_sum(r.drop_last());
    }
}

/// What is let through in portions is let through whole, in as few portions as there can be: they add
/// up to it, none is larger than the largest portion, and one less would not do.
pub proof fn law_portions_are_as_few_as_can_be(r: Seq<u32>, len: u64, most: u64)
    requires
        most > 0,
        cut_by(r, len, most),
    ensures
        r.fold_left(0int, |a: int, x: u32| a + x) == len,
        forall|i: int| 0 <= i < r.len() ==> 0 < #[trigger] r[i] <= most,
        len == 0 <==> r.len() == 0,
        r.len() > 0 ==> (r.len() - 1) * most < len <= r.len() * most,
{
    lemma_batch_sum(r);
    if r.len() > 0 {
        let front = r.drop_last();
        assert forall|i: int| 0 <= i < front.len() implies #[trigger] front[i] == most by {
            assert(front[i] == r[i]);
        }
        lemma_full_portions(front, most as int);
        let n = r.len() as int;
        let m = most as int;
        assert((n - 1) * m + m == n * m) by (nonlinear_arith);
        assert(r[n - 1] <= most);
    }
}

/// Portions for the limiter have 64 KiB at most.
pub proof fn law_limiter_portions_have_64_kib(r: Seq<u32>, len: u64, i: int)
    requires
        cut_by(r, len, BATCH_BYTES),
        0 <= i < r.len(),
    ensures
        r[i] <= 65_536,
        i < r.len() - 1 ==> r[i] == 65_536,
{
}

/// The text begins with the other one.
pub open spec fn begins_with(t: Seq<char>, head: Seq<char>) -> bool {
    t.len() >= head.len() && t.take(head.len() as int) == head
}

/// What is said of limits that cannot be kept names the setting that is wrong: the speed if it is 0 or
/// too large, and else the burst.
pub proof fn law_limit_faults_name_the_setting(
    limit_name: Seq<char>,
    burst_name: Seq<char>,
    needed: Seq<char>,
    limit: Option<u64>,
    burst: Option<u64>,
)
    ensures
        limit_fault(limit_name, burst_name, needed, limit, burst) matches Some(t) ==> {
            &&& limit matches Some(n) ==> (n == 0 || n > 4_294_967_295 ==> begins_with(t, limit_name))
            &&& limit matches Some(n) ==> (1 <= n <= 4_294_967_295 ==> begins_with(t, burst_name))
            &&& limit is None ==> begins_with(t, burst_name) && t.len() >= needed.len() && t.skip(
                t.len() - needed.len(),
            ) == needed
        },
{
    if let Some(t) = limit_fault(limit_name, burst_name, needed, limit, burst) {
        if limit is None {
            assert(t.take(burst_name.len() as int) =~= burst_name);
            assert(t.skip(t.len() - needed.len()) =~= needed);
        } else if limit->0 == 0 || limit->0 > 4_294_967_295 {
            assert(t.take(limit_name.len() as int) =~= limit_name);
        } else {
            assert(t.take(burst_name.len() as int) =~= burst_name);
        }
    }
}

} // verus!
