//! The decisions of a download as a whole: its settings, how it starts, how its first ranges are cut,
//! and how a file of unknown size is streamed.

use crate::chunk;
use crate::chunk::{span_len, MIN_CHUNK_SIZE};
use crate::config;
use crate::config::{default_workers, DEFAULT_UPDATE_INTERVAL};
use crate::conservation;
use crate::limiter;
use crate::limiter::{check_limit, LimiterSettings};
use crate::monitor;
use crate::monitor::{ActionView, DownloadMonitor, MonitorAction, MonitorModel};
use crate::oversight;
use crate::source::{MultiRuntime, MultiSourceConfig, RuntimeModel, SourceConfig};
use crate::state;
use crate::types::{ChunkId, DownloadError, DownloadInfo, InfoView, Result};
use vstd::prelude::*;

verus! {

/// A smaller file is requested in one piece: 1 MiB.
pub const MIN_PARALLEL_FILE_SIZE: u64 = 1048576;

/// The settings of a download from one source.
#[derive(Debug)]
pub struct DownloaderConfig {
    pub url: String,
    pub output_path: String,
    /// The most connections at once.
    pub workers: u64,
}

/// Where a download gets its bytes from.
#[derive(Debug)]
pub enum DownloadMode {
    Single(DownloaderConfig),
    Multi(MultiSourceConfig),
}

/// Collects the settings of a download from one source.
#[derive(Debug)]
pub struct DownloadBuilder {
    pub url: String,
    pub output_path: String,
    pub workers: u64,
    /// The time between two progress reports, in nanoseconds.
    pub update_interval: u64,
    pub resume_enabled: bool,
    /// The speed limit in bytes per second.
    pub limit: Option<u64>,
    /// The burst in bytes.
    pub burst: Option<u64>,
}

impl DownloadBuilder {
    /// The defaults: as many workers as the machine can run, a report every half second, resuming
    /// switched on, and no limit.
    pub fn new(url: String, output_path: String, parallelism: Option<u64>) -> (r: Self)
        ensures
            r == (DownloadBuilder {
                url,
                output_path,
                workers: config::workers_for(parallelism),
                update_interval: DEFAULT_UPDATE_INTERVAL,
                resume_enabled: true,
                limit: None,
                burst: None,
            }),
            r.workers >= 1,
    {
        DownloadBuilder {
            url,
            output_path,
            workers: default_workers(parallelism),
            update_interval: DEFAULT_UPDATE_INTERVAL,
            resume_enabled: true,
            limit: None,
            burst: None,
        }
    }

    /// Sets the number of connections, at least 1.
    pub fn workers(self, workers: u64) -> (r: Self)
        ensures
            r == (DownloadBuilder { workers: config::at_least_one(workers), ..self }),
    {
        let mut b = self;
        b.workers = if workers >= 1 {
            workers
        } else {
            1
        };
        b
    }

    /// Sets the time between two progress reports; 0 is ignored.
    pub fn update_interval(self, update_interval: u64) -> (r: Self)
        ensures
            r == (DownloadBuilder {
                update_interval: if update_interval > 0 {
                    update_interval
                } else {
                    self.update_interval
                },
                ..self
            }),
    {
        let mut b = self;
        if update_interval > 0 {
            b.update_interval = update_interval;
        }
        b
    }

    /// Switches resuming on or off.
    pub fn resume(self, enabled: bool) -> (r: Self)
        ensures
            r == (DownloadBuilder { resume_enabled: enabled, ..self }),
    {
        let mut b = self;
        b.resume_enabled = enabled;
        b
    }

    /// Sets the speed limit in bytes per second.
    pub fn speed_limit(self, bytes_per_sec: u64) -> (r: Self)
        ensures
            r == (DownloadBuilder { limit: Some(bytes_per_sec), ..self }),
    {
        let mut b = self;
        b.limit = Some(bytes_per_sec);
        b
    }

    /// Sets the burst in bytes.
    pub fn with_burst(self, bytes: u64) -> (r: Self)
        ensures
            r == (DownloadBuilder { burst: Some(bytes), ..self }),
    {
        let mut b = self;
        b.burst = Some(bytes);
        b
    }

    /// The download with these settings.
    pub fn build(self) -> (r: Downloader)
        ensures
            r == (Downloader {
                mode: DownloadMode::Single(
                    DownloaderConfig {
                        url: self.url,
                        output_path: self.output_path,
                        workers: config::at_least_one(self.workers),
                    },
                ),
                update_interval: self.update_interval,
                resume_enabled: self.resume_enabled,
                limit: self.limit,
                burst: self.burst,
            }),
    {
        let mut d = Downloader::new(self.url, self.output_path, self.workers, self.update_interval);
        d.resume_enabled = self.resume_enabled;
        d.limit = self.limit;
        d.burst = self.burst;
        d
    }
}

/// A download that has not started.
#[derive(Debug)]
pub struct Downloader {
    pub mode: DownloadMode,
    /// The time between two progress reports, in nanoseconds.
    pub update_interval: u64,
    pub resume_enabled: bool,
    /// The speed limit in bytes per second, for a download from one source.
    pub limit: Option<u64>,
    /// The burst in bytes, for a download from one source.
    pub burst: Option<u64>,
}

impl Downloader {
    /// A download from one source, with at least one connection.
    pub fn new(url: String, output_path: String, workers: u64, update_interval: u64) -> (r: Self)
        ensures
            r == (Downloader {
                mode: DownloadMode::Single(
                    DownloaderConfig { url, output_path, workers: config::at_least_one(workers) },
                ),
                update_interval,
                resume_enabled: true,
                limit: None,
                burst: None,
            }),
    {
        Downloader {
            mode: DownloadMode::Single(
                DownloaderConfig {
                    url,
                    output_path,
                    workers: if workers >= 1 {
                        workers
                    } else {
                        1
                    },
                },
            ),
            update_interval,
            resume_enabled: true,
            limit: None,
            burst: None,
        }
    }

    /// A download from several sources.
    pub fn new_multi(config: MultiSourceConfig) -> (r: Self)
        ensures
            r == (Downloader {
                update_interval: config.update_interval,
                mode: DownloadMode::Multi(config),
                resume_enabled: true,
                limit: None,
                burst: None,
            }),
    {
        Downloader {
            update_interval: config.update_interval,
            mode: DownloadMode::Multi(config),
            resume_enabled: true,
            limit: None,
            burst: None,
        }
    }

    /// Starts collecting the settings of a download from one source.
    pub fn builder(url: String, output_path: String, parallelism: Option<u64>) -> (r:
        DownloadBuilder)
        ensures
            r == (DownloadBuilder {
                url,
                output_path,
                workers: config::workers_for(parallelism),
                update_interval: DEFAULT_UPDATE_INTERVAL,
                resume_enabled: true,
                limit: None,
                burst: None,
            }),
    {
        DownloadBuilder::new(url, output_path, parallelism)
    }

    /// Switches resuming on or off.
    pub fn with_resume(self, enabled: bool) -> (r: Self)
        ensures
            r == (Downloader { resume_enabled: enabled, ..self }),
    {
        let mut d = self;
        d.resume_enabled = enabled;
        d
    }

    /// The settings of the rate limiter, if there is to be one. Invalid limits are refused before
    /// anything is requested.
    pub fn limiter_settings(&self) -> (r: Result<Option<LimiterSettings>>)
        ensures
            match r {
                Ok(v) => limiter::limit_fault(
                    "speed_limit"@,
                    "burst"@,
                    "speed_limit"@,
                    self.limit,
                    self.burst,
                ) is None && v == limiter::limit_settings(self.limit, self.burst),
                Err(DownloadError::InvalidArgument(t)) => limiter::limit_fault(
                    "speed_limit"@,
                    "burst"@,
                    "speed_limit"@,
                    self.limit,
                    self.burst,
                ) == Some(t@),
                Err(_) => false,
            },
    {
        check_limit("speed_limit", "burst", "speed_limit", self.limit, self.burst)
    }
}

/// How a download goes on once its sources were asked.
#[derive(Debug)]
pub enum Course {
    /// In ranges of a file of known size, if the server takes ranges.
    Ranged { file_size: u64, support_ranges: bool },
    /// In one stream from this address, until it ends.
    Stream { url: String },
    /// Not at all.
    Fail(DownloadError),
}

/// How a download from the address `url` goes on after its probe.
pub open spec fn course_from(probe: Result<(u64, bool)>, url: String) -> Course {
    match probe {
        Ok(v) => Course::Ranged { file_size: v.0, support_ranges: v.1 },
        Err(DownloadError::MissingContentLength) => Course::Stream { url },
        Err(e) => Course::Fail(e),
    }
}

/// How a download from several sources goes on after its probes.
pub open spec fn course_from_any(probe: Result<(u64, bool)>, sources: Seq<SourceConfig>) -> Course {
    match probe {
        Ok(v) => Course::Ranged { file_size: v.0, support_ranges: v.1 },
        Err(DownloadError::MissingContentLength) => if sources.len() > 0 {
            Course::Stream { url: sources[0].url }
        } else {
            Course::Fail(DownloadError::NoAvailableSources)
        },
        Err(e) => Course::Fail(e),
    }
}

/// A download goes by ranges exactly if its probe told the size, with the size and the support that
/// the probe told; it is streamed, from its address or from the first source, exactly if the probe
/// left the size open; and any other fault of the probe ends it with that fault.
pub proof fn law_the_probe_sets_the_course(
    probe: Result<(u64, bool)>,
    url: String,
    sources: Seq<SourceConfig>,
)
    requires
        sources.len() > 0,
    ensures
        probe is Ok <==> course_from(probe, url) is Ranged,
        probe is Ok <==> course_from_any(probe, sources) is Ranged,
        probe matches Ok((n, ranges)) ==> course_from(probe, url) == (Course::Ranged {
            file_size: n,
            support_ranges: ranges,
        }) && course_from_any(probe, sources) == course_from(probe, url),
        probe matches Err(e) ==> (e is MissingContentLength <==> course_from(probe, url) is Stream),
        probe matches Err(e) ==> (e is MissingContentLength <==> course_from_any(
            probe,
            sources,
        ) is Stream),
        course_from(probe, url) matches Course::Stream { url: from } ==> from == url,
        course_from_any(probe, sources) matches Course::Stream { url: from } ==> from
            == sources[0].url,
        course_from(probe, url) matches Course::Fail(e) ==> probe == Err::<(u64, bool), _>(e),
        course_from_any(probe, sources) matches Course::Fail(e) ==> probe == Err::<(u64, bool), _>(
            e,
        ),
{
}

/// Decides how a download from one source goes on: where the server does not tell the size, the file
/// is streamed.
pub fn single_course(probe: Result<(u64, bool)>, url: &String) -> (r: Course)
    ensures
        r == course_from(probe, *url),
{
    match probe {
        Ok(v) => Course::Ranged { file_size: v.0, support_ranges: v.1 },
        Err(DownloadError::MissingContentLength) => Course::Stream { url: url.clone() },
        Err(e) => Course::Fail(e),
    }
}

/// Decides how a download from several sources goes on: without a usable source it fails, and where the
/// size stays unknown, the file is streamed from the first source.
pub fn multi_course(probe: Result<(u64, bool)>, config: &MultiSourceConfig) -> (r: Course)
    ensures
        r == course_from_any(probe, config.sources@),
{
    match probe {
        Ok(v) => Course::Ranged { file_size: v.0, support_ranges: v.1 },
        Err(DownloadError::MissingContentLength) => {
            if config.sources.len() > 0 {
                Course::Stream { url: config.sources[0].url.clone() }
            } else {
                Course::Fail(DownloadError::NoAvailableSources)
            }
        },
        Err(e) => Course::Fail(e),
    }
}

/// What was received of a file can be used: its rest can be requested, or nothing was received.
pub open spec fn usable(completed_bytes: u64, support_ranges: bool) -> bool {
    completed_bytes == 0 || support_ranges
}

/// A server that takes ranges can always be resumed from; one that does not, exactly if nothing was
/// received.
pub proof fn law_resuming_needs_ranges(completed_bytes: u64)
    ensures
        usable(completed_bytes, true),
        usable(completed_bytes, false) <==> completed_bytes < 1,
{
}

/// Refuses to resume a part of a file from a server that does not take ranges.
pub fn check_resumable(completed_bytes: u64, support_ranges: bool) -> (r: Result<()>)
    ensures
        match r {
            Ok(_) => usable(completed_bytes, support_ranges),
            Err(DownloadError::ResumeMetadata(t)) => !usable(completed_bytes, support_ranges) && t@
                == "partial resume requires HTTP Range support"@,
            Err(_) => false,
        },
{
    if completed_bytes > 0 && !support_ranges {
        return Err(
            DownloadError::ResumeMetadata("partial resume requires HTTP Range support".to_owned()),
        );
    }
    Ok(())
}

/// How a download ended, from what became of its ranges and of the writes to its file.
pub open spec fn settled(download: Result<()>, written: Result<()>) -> Result<()> {
    if written is Err {
        written
    } else {
        download
    }
}

/// A download went well exactly if its ranges did and its file was written. A fault of the writer is
/// told before any other; without one, the fault of the ranges is.
pub proof fn law_no_fault_is_passed_over(download: Result<()>, written: Result<()>)
    ensures
        settled(download, written) is Ok <==> download is Ok && written is Ok,
        written matches Err(e) ==> settled(download, written) == Err::<(), _>(e),
        written is Ok ==> (download matches Err(e) ==> settled(download, written) == Err::<(), _>(
            e,
        )),
{
}

/// How a download ended, from what became of its ranges and of the writes to its file. A fault of the
/// writer counts for more: where the file cannot be written, the ranges fail in its wake.
pub fn settle(download: Result<()>, written: Result<()>) -> (r: Result<()>)
    ensures
        r == settled(download, written),
{
    match written {
        Err(e) => Err(e),
        Ok(()) => download,
    }
}

/// How many connections a download gets: one, where the server does not take ranges or the file is
/// small.
pub open spec fn useful_workers(support_ranges: bool, workers: u64, file_size: u64) -> u64 {
    if !support_ranges || workers == 1 || file_size < MIN_PARALLEL_FILE_SIZE {
        1
    } else {
        workers
    }
}

/// How many connections a download gets.
pub fn effective_workers(support_ranges: bool, workers: u64, file_size: u64) -> (r: u64)
    ensures
        r == useful_workers(support_ranges, workers, file_size),
{
    if !support_ranges || workers == 1 || file_size < MIN_PARALLEL_FILE_SIZE {
        1
    } else {
        workers
    }
}

/// The place of the longest range, the last one of several, or -1.
pub open spec fn longest_place(s: Seq<(u64, u64)>) -> int
    decreases s.len(),
{
    if s.len() == 0 {
        -1
    } else {
        let p = longest_place(s.drop_last());
        if p >= 0 && chunk::span(s[p].0, s[p].1) > chunk::span(s.last().0, s.last().1) {
            p
        } else {
            s.len() - 1
        }
    }
}

/// The last byte of the first half of a range.
pub open spec fn half_end(start: u64, end: u64) -> u64 {
    (start + chunk::span(start, end) / 2 - 1) as u64
}

/// The longest range is long enough to be cut.
pub open spec fn may_halve(s: Seq<(u64, u64)>) -> bool {
    let p = longest_place(s);
    p >= 0 && chunk::span(s[p].0, s[p].1) >= 2 * MIN_CHUNK_SIZE
}

/// Ranges with the longest one cut in half.
pub open spec fn halved(s: Seq<(u64, u64)>) -> Seq<(u64, u64)> {
    let p = longest_place(s);
    let mid = half_end(s[p].0, s[p].1);
    s.take(p) + seq![(s[p].0, mid), ((mid + 1) as u64, s[p].1)] + s.skip(p + 1)
}

/// Ranges cut until there are `target` of them or none is long enough.
pub open spec fn cut_ranges(s: Seq<(u64, u64)>, target: int) -> Seq<(u64, u64)>
    decreases target - s.len(),
    via cut_ranges_decreases
{
    if s.len() < target && may_halve(s) {
        cut_ranges(halved(s), target)
    } else {
        s
    }
}

#[via_fn]
proof fn cut_ranges_decreases(s: Seq<(u64, u64)>, target: int) {
    lemma_longest_place(s);
}

proof fn lemma_longest_place(s: Seq<(u64, u64)>)
    ensures
        -1 <= longest_place(s) < s.len(),
        s.len() > 0 ==> longest_place(s) >= 0,
        forall|i: int|
            0 <= i < s.len() ==> chunk::span((#[trigger] s[i]).0, s[i].1) <= chunk::span(
                s[longest_place(s)].0,
                s[longest_place(s)].1,
            ),
    decreases s.len(),
{
    if s.len() > 0 {
        lemma_longest_place(s.drop_last());
        let q = longest_place(s.drop_last());
        assert forall|i: int| 0 <= i < s.len() implies chunk::span((#[trigger] s[i]).0, s[i].1)
            <= chunk::span(s[longest_place(s)].0, s[longest_place(s)].1) by {
            if i < s.len() - 1 {
                assert(s.drop_last()[i] == s[i]);
                assert(s.drop_last()[q] == s[q]);
            }
        }
    }
}

/// The ranges with which a download starts.
pub open spec fn first_ranges(s: Seq<(u64, u64)>, workers: u64, several_sources: bool) -> Seq<
    (u64, u64),
> {
    if several_sources {
        cut_ranges(s, config::at_least_one(workers) as int)
    } else {
        s
    }
}

/// Cuts the ranges of a download from several sources, so that each worker gets one. The longest
/// range is cut in half again and again, but never into parts below `MIN_CHUNK_SIZE`. The ranges of a
/// download from one source are left as they are: they are split while it runs.
pub fn split_resume_ranges(
    ranges: Vec<(u64, u64)>,
    workers: u64,
    split_for_multi_source: bool,
) -> (r: Vec<(u64, u64)>)
    ensures
        r@ == first_ranges(ranges@, workers, split_for_multi_source),
{
    if !split_for_multi_source {
        return ranges;
    }
    let target: u64 = if workers >= 1 {
        workers
    } else {
        1
    };
    let ghost want = cut_ranges(ranges@, target as int);
    let mut s: Vec<(u64, u64)> = ranges;
    while (s.len() as u64) < target
        invariant_except_break
            cut_ranges(s@, target as int) == want,
        ensures
            s@ == want,
        decreases target - s@.len(),
    {
        let p: usize = match find_longest(&s) {
            Some(p) => p,
            None => {
                break;
            },
        };
        let (start, end) = s[p];
        let len: u64 = span_len(start, end);
        if len < MIN_CHUNK_SIZE * 2 {
            break;
        }
        let mid: u64 = start + len / 2 - 1;
        let ghost before = s@;
        let _ = s.remove(p);
        s.insert(p, (start, mid));
        s.insert(p + 1, (mid + 1, end));
        assert(s@ =~= halved(before));
    }
    s
}

/// The place of the longest range.
fn find_longest(s: &Vec<(u64, u64)>) -> (r: Option<usize>)
    ensures
        match r {
            Some(p) => p == longest_place(s@) && p < s@.len(),
            None => s@.len() == 0,
        },
{
    if s.len() == 0 {
        return None;
    }
    let mut best: usize = 0;
    let mut i: usize = 1;
    proof {
        reveal_with_fuel(longest_place, 2);
    }
    while i < s.len()
        invariant
            1 <= i <= s@.len(),
            best < i,
            best == longest_place(s@.take(i as int)),
        decreases s.len() - i,
    {
        assert(s@.take(i + 1).drop_last() =~= s@.take(i as int));
        if span_len(s[best].0, s[best].1) <= span_len(s[i].0, s[i].1) {
            best = i;
        }
        i = i + 1;
    }
    assert(s@.take(i as int) =~= s@);
    Some(best)
}

/// The bytes of ranges at `x`, counted.
pub open spec fn times_held(s: Seq<(u64, u64)>, x: u64) -> int
    decreases s.len(),
{
    if s.len() == 0 {
        0
    } else {
        times_held(s.drop_last(), x) + (if s.last().0 <= x <= s.last().1 {
            1int
        } else {
            0
        })
    }
}

proof fn lemma_held_concat(a: Seq<(u64, u64)>, b: Seq<(u64, u64)>, x: u64)
    ensures
        times_held(a + b, x) == times_held(a, x) + times_held(b, x),
    decreases b.len(),
{
    if b.len() == 0 {
        assert(a + b =~= a);
    } else {
        lemma_held_concat(a, b.drop_last(), x);
        assert((a + b).drop_last() =~= a + b.drop_last());
    }
}

proof fn lemma_halved_held(s: Seq<(u64, u64)>, x: u64)
    requires
        may_halve(s),
    ensures
        times_held(halved(s), x) == times_held(s, x),
        halved(s).len() == s.len() + 1,
{
    lemma_longest_place(s);
    let p = longest_place(s);
    let mid = half_end(s[p].0, s[p].1);
    let two = seq![(s[p].0, mid), ((mid + 1) as u64, s[p].1)];
    let one = seq![s[p]];
    lemma_held_concat(s.take(p), two, x);
    lemma_held_concat(s.take(p) + two, s.skip(p + 1), x);
    lemma_held_concat(s.take(p), one, x);
    lemma_held_concat(s.take(p) + one, s.skip(p + 1), x);
    assert(s.take(p) + one + s.skip(p + 1) =~= s);
    assert(two.drop_last() =~= seq![(s[p].0, mid)]);
    reveal_with_fuel(times_held, 3);
}

/// Cutting ranges loses no byte and requests none twice: every byte is in as many ranges as before.
pub proof fn law_first_ranges_keep_every_byte(
    s: Seq<(u64, u64)>,
    workers: u64,
    several_sources: bool,
    x: u64,
)
    ensures
        times_held(first_ranges(s, workers, several_sources), x) == times_held(s, x),
{
    if several_sources {
        lemma_cut_held(s, config::at_least_one(workers) as int, x);
    }
}

proof fn lemma_cut_held(s: Seq<(u64, u64)>, target: int, x: u64)
    ensures
        times_held(cut_ranges(s, target), x) == times_held(s, x),
    decreases target - s.len(),
{
    if s.len() < target && may_halve(s) {
        lemma_halved_held(s, x);
        lemma_cut_held(halved(s), target, x);
    }
}

/// No more ranges come of cutting than there are workers, unless there were more before.
pub proof fn law_first_ranges_are_capped(
    s: Seq<(u64, u64)>,
    workers: u64,
    several_sources: bool,
)
    requires
        s.len() <= config::at_least_one(workers),
    ensures
        first_ranges(s, workers, several_sources).len() <= config::at_least_one(workers),
{
    if several_sources {
        lemma_cut_capped(s, config::at_least_one(workers) as int);
    }
}

proof fn lemma_cut_capped(s: Seq<(u64, u64)>, target: int)
    requires
        s.len() <= target,
    ensures
        cut_ranges(s, target).len() <= target,
    decreases target - s.len(),
{
    if s.len() < target && may_halve(s) {
        lemma_halved_held(s, 0);
        lemma_cut_capped(halved(s), target);
    }
}

/// Where ranges were cut, no part is below the minimum.
pub proof fn law_cutting_leaves_no_fragments(s: Seq<(u64, u64)>, workers: u64)
    requires
        forall|i: int|
            0 <= i < s.len() ==> chunk::span((#[trigger] s[i]).0, s[i].1) >= MIN_CHUNK_SIZE,
    ensures
        forall|i: int|
            0 <= i < first_ranges(s, workers, true).len() ==> chunk::span(
                (#[trigger] first_ranges(s, workers, true)[i]).0,
                first_ranges(s, workers, true)[i].1,
            ) >= MIN_CHUNK_SIZE,
{
    lemma_cut_sizes(s, config::at_least_one(workers) as int);
}

proof fn lemma_cut_sizes(s: Seq<(u64, u64)>, target: int)
    requires
        forall|i: int|
            0 <= i < s.len() ==> chunk::span((#[trigger] s[i]).0, s[i].1) >= MIN_CHUNK_SIZE,
    ensures
        forall|i: int|
            0 <= i < cut_ranges(s, target).len() ==> chunk::span(
                (#[trigger] cut_ranges(s, target)[i]).0,
                cut_ranges(s, target)[i].1,
            ) >= MIN_CHUNK_SIZE,
    decreases target - s.len(),
{
    if s.len() < target && may_halve(s) {
        lemma_longest_place(s);
        lemma_halved_held(s, 0);
        let p = longest_place(s);
        let h = halved(s);
        assert forall|i: int| 0 <= i < h.len() implies chunk::span((#[trigger] h[i]).0, h[i].1)
            >= MIN_CHUNK_SIZE by {
            if i < p {
                assert(h[i] == s[i]);
            } else if i > p + 1 {
                assert(h[i] == s[i - 1]);
            }
        }
        lemma_cut_sizes(h, target);
        assert(cut_ranges(s, target) == cut_ranges(h, target));
    } else {
        assert(cut_ranges(s, target) == s);
    }
}

/// Cutting ranges leaves their bytes as many as they were.
pub proof fn law_first_ranges_keep_the_size(
    s: Seq<(u64, u64)>,
    workers: u64,
    several_sources: bool,
)
    requires
        forall|i: int| 0 <= i < s.len() ==> (#[trigger] s[i]).1 < u64::MAX,
    ensures
        conservation::bytes_of(first_ranges(s, workers, several_sources))
            == conservation::bytes_of(s),
{
    if several_sources {
        lemma_cut_bytes(s, config::at_least_one(workers) as int);
    }
}

proof fn lemma_one_range(x: (u64, u64))
    ensures
        conservation::bytes_of(seq![x]) == chunk::span(x.0, x.1),
{
    assert(seq![x].drop_last() =~= Seq::empty());
    assert(conservation::bytes_of(Seq::empty()) == 0);
}

proof fn lemma_halved_bytes(s: Seq<(u64, u64)>)
    requires
        may_halve(s),
        s[longest_place(s)].1 < u64::MAX,
    ensures
        conservation::bytes_of(halved(s)) == conservation::bytes_of(s),
{
    lemma_longest_place(s);
    let p = longest_place(s);
    let mid = half_end(s[p].0, s[p].1);
    let first = (s[p].0, mid);
    let second = ((mid + 1) as u64, s[p].1);
    let front = s.take(p);
    let back = s.skip(p + 1);
    lemma_one_range(first);
    lemma_one_range(second);
    lemma_one_range(s[p]);
    conservation::lemma_bytes_concat(front, seq![first]);
    conservation::lemma_bytes_concat(front + seq![first], seq![second]);
    conservation::lemma_bytes_concat(front + seq![first] + seq![second], back);
    conservation::lemma_bytes_concat(front, seq![s[p]]);
    conservation::lemma_bytes_concat(front + seq![s[p]], back);
    assert(halved(s) =~= front + seq![first] + seq![second] + back);
    assert(s =~= front + seq![s[p]] + back);
}

proof fn lemma_cut_bytes(s: Seq<(u64, u64)>, target: int)
    requires
        forall|i: int| 0 <= i < s.len() ==> (#[trigger] s[i]).1 < u64::MAX,
    ensures
        conservation::bytes_of(cut_ranges(s, target)) == conservation::bytes_of(s),
    decreases target - s.len(),
{
    if s.len() < target && may_halve(s) {
        lemma_longest_place(s);
        lemma_halved_held(s, 0);
        lemma_halved_bytes(s);
        let p = longest_place(s);
        let h = halved(s);
        assert forall|i: int| 0 <= i < h.len() implies (#[trigger] h[i]).1 < u64::MAX by {
            if i < p {
                assert(h[i] == s[i]);
            } else if i > p + 1 {
                assert(h[i] == s[i - 1]);
            }
        }
        lemma_cut_bytes(h, target);
    }
}

/// The monitor with which a download in ranges starts, and what it does first.
pub open spec fn opening(
    file_size: u64,
    support_ranges: bool,
    workers: u64,
    update_interval: u64,
    lanes: Option<RuntimeModel>,
    limited: bool,
    ranges: Seq<(u64, u64)>,
    completed_bytes: u64,
    now: u64,
) -> (MonitorModel, Seq<ActionView>) {
    let workers = useful_workers(support_ranges, workers, file_size);
    let start = monitor::ready(
        file_size,
        completed_bytes,
        update_interval,
        workers,
        lanes,
        limited,
    );
    monitor::all_opened(start, first_ranges(ranges, workers, lanes is Some), now)
}

/// A download from one source starts with the ranges that it is given, each as a chunk, in order and
/// numbered from 0, and with nothing else. It may have as many connections as were asked for if the
/// server takes ranges and the file has at least 1 MiB, and one otherwise. What was received before
/// counts.
pub proof fn law_downloads_start_with_their_ranges(
    file_size: u64,
    support_ranges: bool,
    workers: u64,
    update_interval: u64,
    limited: bool,
    ranges: Seq<(u64, u64)>,
    completed_bytes: u64,
    now: u64,
)
    requires
        ranges.len() <= u64::MAX,
        completed_bytes <= file_size,
    ensures
        ({
            let (m, acts) = opening(
                file_size,
                support_ranges,
                workers,
                update_interval,
                None,
                limited,
                ranges,
                completed_bytes,
                now,
            );
            &&& acts.len() == ranges.len()
            &&& forall|i: int|
                0 <= i < ranges.len() ==> #[trigger] acts[i] == (ActionView::Spawn {
                    id: i as u64,
                    start: ranges[i].0,
                    end: ranges[i].1,
                    lane: None,
                })
            &&& m.conc.max_workers == (if support_ranges && file_size >= 1_048_576 {
                workers
            } else {
                1
            })
            &&& m.st.total_file_size == file_size
            &&& m.st.completed_bytes == completed_bytes
            &&& m.limited == limited
            &&& m.pending.len() == 0 && m.retry.lost.len() == 0
        }),
{
    let w = useful_workers(support_ranges, workers, file_size);
    let start = monitor::ready(file_size, completed_bytes, update_interval, w, None, limited);
    oversight::law_first_chunks_start_in_order(start, ranges, now);
    lemma_opening_keeps(start, ranges, now);
}

proof fn lemma_opening_keeps(m: MonitorModel, ranges: Seq<(u64, u64)>, now: u64)
    ensures
        ({
            let n = monitor::all_opened(m, ranges, now).0;
            &&& n.conc == m.conc && n.retry == m.retry && n.limited == m.limited
            &&& n.st.total_file_size == m.st.total_file_size && n.st.completed_bytes
                == m.st.completed_bytes
        }),
    decreases ranges.len(),
{
    if ranges.len() > 0 {
        lemma_opening_keeps(m, ranges.drop_last(), now);
    }
}

/// Starts a download in ranges: the monitor, and the first chunks.
///
/// `ranges` are the parts of the file that are still to be requested, and `completed_bytes` is what
/// was received before. The download counts as limited if it has a limiter of its own or one of its
/// sources has.
pub fn begin(
    file_size: u64,
    support_ranges: bool,
    workers: u64,
    update_interval: u64,
    limiter: Option<LimiterSettings>,
    runtime: Option<MultiRuntime>,
    ranges: Vec<(u64, u64)>,
    completed_bytes: u64,
    now: u64,
) -> (r: (DownloadMonitor, Vec<MonitorAction>))
    requires
        runtime matches Some(m) ==> m.wf(),
    ensures
        r.0.wf(),
        ({
            let opened = opening(
                file_size,
                support_ranges,
                workers,
                update_interval,
                match runtime {
                    Some(m) => Some(m.model()),
                    None => None,
                },
                limiter is Some || (runtime matches Some(m) && m.limited()),
                ranges@,
                completed_bytes,
                now,
            );
            &&& r.0.model() =~= opened.0
            &&& monitor::action_views(r.1@) == opened.1
        }),
        r.0.update_interval == update_interval,
        r.0.lagged_count == 0,
        r.0.global_limiter == limiter,
        monitor::same_sources(r.0.runtime, runtime),
{
    let workers: u64 = effective_workers(support_ranges, workers, file_size);
    let several: bool = runtime.is_some();
    let limited: bool = match &runtime {
        Some(rt) => limiter.is_some() || rt.has_rate_limit(),
        None => limiter.is_some(),
    };
    let first: Vec<(u64, u64)> = split_resume_ranges(ranges, workers, several);
    let mut m = DownloadMonitor::new_with_completed(
        file_size,
        completed_bytes,
        update_interval,
        workers,
    ).with_rate_limit(limiter);
    if let Some(rt) = runtime {
        m = m.with_runtime(rt);
    }
    m.set_rate_limited(limited);
    let acts: Vec<MonitorAction> = m.spawn_initial(&first, now);
    (m, acts)
}

/// A download of a file of unknown size, in one stream.
#[derive(Debug, Clone, Copy, PartialEq, Eq, Structural)]
pub struct StreamRun {
    /// The bytes received so far.
    pub received: u64,
    /// `received` at the last report.
    pub reported: u64,
}

/// The speed of `bytes` within `elapsed` nanoseconds, in thousandths of a byte per second; 0 if no
/// time has passed.
pub open spec fn stream_speed(bytes: int, elapsed: u64) -> u64 {
    if elapsed == 0 {
        0
    } else {
        state::capped(bytes * 1_000_000_000_000 / elapsed as int)
    }
}

/// The stream after `len` more bytes.
pub open spec fn streamed(s: StreamRun, len: u64) -> StreamRun {
    StreamRun { received: state::capped(s.received + len), ..s }
}

/// Where a piece of a stream belongs in the file, and the report of it; nothing for an empty piece.
pub open spec fn stream_piece(s: StreamRun, len: u64) -> Option<(u64, InfoView)> {
    if len == 0 {
        None
    } else {
        Some(
            (
                s.received,
                InfoView::ChunkProgress {
                    id: 0,
                    start_byte: 0,
                    end_byte: 0,
                    downloaded: streamed(s, len).received,
                },
            ),
        )
    }
}

/// The report of a stream `elapsed` nanoseconds after the last one.
pub open spec fn stream_report(s: StreamRun, elapsed: u64) -> InfoView {
    let speed = stream_speed(s.received - s.reported, elapsed);
    InfoView::MonitorUpdate {
        total_size: 0,
        total_downloaded: s.received,
        total_speed: speed,
        chunk_details: seq![(0u64, 0u64, s.received, speed, 0u8)],
    }
}

/// The last reports of a stream.
pub open spec fn stream_end(s: StreamRun) -> (InfoView, InfoView) {
    (
        InfoView::MonitorUpdate {
            total_size: s.received,
            total_downloaded: s.received,
            total_speed: 0,
            chunk_details: Seq::empty(),
        },
        InfoView::DownloadComplete { id: 0 },
    )
}

/// Every piece of a stream that is not empty is written where the bytes before it end, and is reported
/// with all bytes received so far, its own among them. While the stream runs its size is unknown, which
/// the reports say by 0; at its end the size is what was received.
pub proof fn law_streams_tell_what_they_received(s: StreamRun, len: u64, elapsed: u64)
    requires
        s.received + len <= u64::MAX,
    ensures
        len > 0 ==> (stream_piece(s, len) matches Some((offset, info)) && offset == s.received && (
        info matches InfoView::ChunkProgress { downloaded, .. } && downloaded == s.received + len)),
        len == 0 ==> stream_piece(s, len) is None,
        stream_report(s, elapsed) matches InfoView::MonitorUpdate {
            total_size,
            total_downloaded,
            total_speed,
            ..
        } && total_size == 0 && total_downloaded == s.received && total_speed == stream_speed(
            s.received - s.reported,
            elapsed,
        ),
        stream_end(s).0 matches InfoView::MonitorUpdate { total_size, total_downloaded, .. }
            && total_size == s.received && total_downloaded == s.received,
        stream_end(s).1 is DownloadComplete,
{
}

/// The stream after a report.
pub open spec fn stream_told(s: StreamRun) -> StreamRun {
    StreamRun { reported: s.received, ..s }
}

/// The stream after pieces of these lengths.
pub open spec fn stream_after(s: StreamRun, lens: Seq<u64>) -> StreamRun
    decreases lens.len(),
{
    if lens.len() == 0 {
        s
    } else {
        streamed(stream_after(s, lens.drop_last()), lens.last())
    }
}

/// The pieces of a stream lie one behind the other: each begins where those before it end, so that the
/// position of a stream is what it has received in all.
pub proof fn law_stream_pieces_are_adjacent(s: StreamRun, lens: Seq<u64>)
    requires
        s.received + lens.fold_left(0int, |a: int, n: u64| a + n) <= u64::MAX,
    ensures
        stream_after(s, lens).received == s.received + lens.fold_left(
            0int,
            |a: int, n: u64| a + n,
        ),
        stream_after(s, lens).reported == s.reported,
    decreases lens.len(),
{
    if lens.len() > 0 {
        law_stream_pieces_are_adjacent(s, lens.drop_last());
    }
}

/// A report brings what is reported up to what was received, and changes nothing else.
pub proof fn law_stream_reports_catch_up(s: StreamRun)
    ensures
        stream_told(s).received == s.received,
        stream_told(s).reported == s.received,
{
}

impl StreamRun {
    /// No report runs ahead of what was received.
    pub open spec fn wf(self) -> bool {
        self.reported <= self.received
    }

    /// Nothing was received.
    pub fn new() -> (r: Self)
        ensures
            r == (StreamRun { received: 0, reported: 0 }),
            r.wf(),
    {
        StreamRun { received: 0, reported: 0 }
    }

    /// Takes in `len` bytes. Gives the offset at which they belong in the file, and the report of the
    /// progress; nothing where there are none.
    pub fn on_bytes(&mut self, len: u64) -> (r: Option<(u64, DownloadInfo)>)
        requires
            old(self).wf(),
        ensures
            final(self).wf(),
            *final(self) == streamed(*old(self), len),
            match r {
                None => stream_piece(*old(self), len) is None,
                Some((offset, info)) => stream_piece(*old(self), len) == Some((offset, info@)),
            },
    {
        if len == 0 {
            return None;
        }
        let offset: u64 = self.received;
        self.received = self.received.saturating_add(len);
        Some(
            (
                offset,
                DownloadInfo::ChunkProgress {
                    id: 0,
                    start_byte: 0,
                    end_byte: 0,
                    downloaded: self.received,
                },
            ),
        )
    }

    /// The report that is due `elapsed` nanoseconds after the last one.
    pub fn on_tick(&mut self, elapsed: u64) -> (r: DownloadInfo)
        requires
            old(self).wf(),
        ensures
            final(self).wf(),
            *final(self) == stream_told(*old(self)),
            r@ == stream_report(*old(self), elapsed),
    {
        let fresh: u64 = self.received - self.reported;
        let speed: u64 = if elapsed > 0 {
            let exact: u128 = (fresh as u128) * 1_000_000_000_000u128 / (elapsed as u128);
            if exact <= u64::MAX as u128 {
                exact as u64
            } else {
                u64::MAX
            }
        } else {
            0
        };
        self.reported = self.received;
        let mut chunk_details: Vec<(ChunkId, u64, u64, u64, u8)> = Vec::new();
        chunk_details.push((0, 0, self.received, speed, 0));
        assert(chunk_details@ =~= seq![(0u64, 0u64, self.received, speed, 0u8)]);
        DownloadInfo::MonitorUpdate {
            total_size: 0,
            total_downloaded: self.received,
            total_speed: speed,
            chunk_details,
        }
    }

    /// The stream ended: the last report, in which the bytes received are the size of the file, and
    /// the report that the download is complete.
    pub fn finish(&self) -> (r: (DownloadInfo, DownloadInfo))
        ensures
            (r.0@, r.1@) == stream_end(*self),
    {
        let chunk_details: Vec<(ChunkId, u64, u64, u64, u8)> = Vec::new();
        assert(chunk_details@ =~= Seq::empty());
        (
            DownloadInfo::MonitorUpdate {
                total_size: self.received,
                total_downloaded: self.received,
                total_speed: 0,
                chunk_details,
            },
            DownloadInfo::DownloadComplete(0),
        )
    }
}

/// A download gets all its connections where the server takes ranges and the file has at least 1 MiB,
/// and a single one otherwise.
pub proof fn law_connections_need_ranges_and_size(support_ranges: bool, workers: u64, file_size: u64)
    ensures
        support_ranges && file_size >= 1_048_576 ==> useful_workers(
            support_ranges,
            workers,
            file_size,
        ) == workers,
        !support_ranges || file_size < 1_048_576 ==> useful_workers(
            support_ranges,
            workers,
            file_size,
        ) == 1,
{
}

/// Ranges are cut until every worker has one, or until no range of 20 KiB is left. The ranges of a
/// single source are not cut.
pub proof fn law_every_worker_gets_a_range(s: Seq<(u64, u64)>, workers: u64)
    ensures
        first_ranges(s, workers, false) == s,
        ({
            let r = first_ranges(s, workers, true);
            r.len() >= workers || forall|i: int|
                0 <= i < r.len() ==> chunk::span((#[trigger] r[i]).0, r[i].1) < 20_480
        }),
{
    lemma_cut_as_far_as_possible(s, config::at_least_one(workers) as int);
}

proof fn lemma_cut_as_far_as_possible(s: Seq<(u64, u64)>, target: int)
    ensures
        cut_ranges(s, target).len() >= target || forall|i: int|
            0 <= i < cut_ranges(s, target).len() ==> chunk::span(
                (#[trigger] cut_ranges(s, target)[i]).0,
                cut_ranges(s, target)[i].1,
            ) < 20_480,
    decreases target - s.len(),
{
    lemma_longest_place(s);
    if s.len() < target && may_halve(s) {
        lemma_halved_held(s, 0);
        lemma_cut_as_far_as_possible(halved(s), target);
        assert(cut_ranges(s, target) == cut_ranges(halved(s), target));
    } else {
        assert(cut_ranges(s, target) == s);
    }
}

/// Each cut halves a longest range: it leaves two adjacent ranges that differ by one byte at most, and
/// all others as they are.
pub proof fn law_the_longest_range_is_halved(s: Seq<(u64, u64)>)
    requires
        may_halve(s),
    ensures
        ({
            let t = halved(s);
            exists|p: int|
                {
                    &&& 0 <= p < s.len()
                    &&& forall|i: int|
                        0 <= i < s.len() ==> chunk::span((#[trigger] s[i]).0, s[i].1)
                            <= chunk::span(s[p].0, s[p].1)
                    &&& #[trigger] t.take(p) == s.take(p)
                    &&& t.skip(p + 2) == s.skip(p + 1)
                    &&& t.len() == s.len() + 1
                    &&& t[p].0 == s[p].0 && t[p + 1].1 == s[p].1 && t[p + 1].0 == t[p].1 + 1
                    &&& s[p].1 < u64::MAX ==> 0 <= (t[p + 1].1 - t[p + 1].0) - (t[p].1 - t[p].0) <= 1
                }
        }),
{
    lemma_longest_place(s);
    let p = longest_place(s);
    let t = halved(s);
    assert(t.take(p) =~= s.take(p));
    assert(t.skip(p + 2) =~= s.skip(p + 1));
}

/// The speed of a stream is the bytes since the last report by the time since then; without time it
/// is none.
pub proof fn law_stream_speed_is_bytes_by_time(bytes: u64, elapsed: u64)
    ensures
        stream_speed(bytes as int, 0) == 0,
        elapsed > 0 && bytes * 1_000_000_000_000 < elapsed * u64::MAX ==> stream_speed(
            bytes as int,
            elapsed,
        ) * elapsed <= bytes * 1_000_000_000_000 < (stream_speed(bytes as int, elapsed) + 1)
            * elapsed,
{
    if elapsed > 0 && bytes * 1_000_000_000_000 < elapsed * u64::MAX {
        let x = bytes * 1_000_000_000_000;
        let e = elapsed as int;
        let q = x / e;
        assert(q * e <= x < (q + 1) * e && 0 <= q < u64::MAX) by (nonlinear_arith)
            requires
                q == x / e,
                e > 0,
                0 <= x < e * u64::MAX,
        ;
    }
}

} // verus!
