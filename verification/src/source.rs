//! Downloads from several sources: their configuration, the probing of their lanes, and which lane
//! serves the next chunk.

use crate::lane;
use crate::lane::{copy_text, find_lane, LaneCandidate, LaneEntry, LaneModel, LaneScheduler};
use crate::limiter;
use crate::limiter::{check_limit, LimiterSettings};
use crate::state;
use crate::text::{push_text, same_text};
use crate::types::{joined, DownloadError, Result};
use vstd::prelude::*;

verus! {

/// A proxy.
#[derive(Debug)]
pub struct ProxyConfig {
    pub id: String,
    pub url: String,
}

impl ProxyConfig {
    /// A proxy whose id is `proxy-` and its address.
    pub fn new(url: &str) -> (r: Self)
        ensures
            r.id@ == "proxy-"@ + url@,
            r.url@ == url@,
    {
        ProxyConfig { id: joined("proxy-", url), url: url.to_owned() }
    }

    /// Sets the id.
    pub fn with_id(self, id: &str) -> (r: Self)
        ensures
            r.id@ == id@,
            r.url == self.url,
    {
        ProxyConfig { id: id.to_owned(), url: self.url }
    }

    /// An HTTP proxy.
    pub fn http(url: &str) -> (r: Result<Self>)
        ensures
            r matches Ok(p) && p.id@ == "proxy-"@ + url@ && p.url@ == url@,
    {
        Ok(Self::new(url))
    }

    /// An HTTPS proxy.
    pub fn https(url: &str) -> (r: Result<Self>)
        ensures
            r matches Ok(p) && p.id@ == "proxy-"@ + url@ && p.url@ == url@,
    {
        Ok(Self::new(url))
    }

    /// A SOCKS5 proxy.
    pub fn socks5(url: &str) -> (r: Result<Self>)
        ensures
            r matches Ok(p) && p.id@ == "proxy-"@ + url@ && p.url@ == url@,
    {
        Ok(Self::new(url))
    }
}

/// A source of the file.
#[derive(Debug)]
pub struct SourceConfig {
    pub id: String,
    pub url: String,
    pub proxies: Vec<ProxyConfig>,
    /// The speed limit in bytes per second.
    pub speed_limit: Option<u64>,
    /// The burst in bytes.
    pub burst: Option<u64>,
}

impl SourceConfig {
    /// A source whose id is `source-` and its address, without proxies and limits.
    pub fn new(url: &str) -> (r: Self)
        ensures
            r.id@ == "source-"@ + url@,
            r.url@ == url@,
            r.proxies@ == Seq::<ProxyConfig>::empty(),
            r.speed_limit is None,
            r.burst is None,
    {
        SourceConfig {
            id: joined("source-", url),
            url: url.to_owned(),
            proxies: Vec::new(),
            speed_limit: None,
            burst: None,
        }
    }

    /// Sets the id.
    pub fn with_id(self, id: &str) -> (r: Self)
        ensures
            r.id@ == id@,
            r == (SourceConfig { id: r.id, ..self }),
    {
        let mut s = self;
        s.id = id.to_owned();
        s
    }

    /// Sets the speed limit.
    pub fn with_speed_limit(self, bytes_per_sec: u64) -> (r: Self)
        ensures
            r == (SourceConfig { speed_limit: Some(bytes_per_sec), ..self }),
    {
        let mut s = self;
        s.speed_limit = Some(bytes_per_sec);
        s
    }

    /// Sets the burst.
    pub fn with_burst(self, burst_bytes: u64) -> (r: Self)
        ensures
            r == (SourceConfig { burst: Some(burst_bytes), ..self }),
    {
        let mut s = self;
        s.burst = Some(burst_bytes);
        s
    }

    /// Sets the proxies.
    pub fn with_proxies(self, proxies: Vec<ProxyConfig>) -> (r: Self)
        ensures
            r == (SourceConfig { proxies, ..self }),
    {
        let mut s = self;
        s.proxies = proxies;
        s
    }
}

/// A download from several sources.
#[derive(Debug)]
pub struct MultiSourceConfig {
    pub output_path: String,
    /// The number of connections.
    pub workers: u64,
    /// The time between two progress reports, in nanoseconds.
    pub update_interval: u64,
    pub sources: Vec<SourceConfig>,
    pub lane_model: LaneModel,
    pub max_chunks_per_lane: usize,
    pub max_chunks_per_source: Option<usize>,
    pub global_speed_limit: Option<u64>,
    pub global_burst: Option<u64>,
}

impl MultiSourceConfig {
    /// A configuration without sources: at least one worker, one lane per source, one chunk per lane,
    /// no limits.
    pub fn new(output_path: &str, workers: u64, update_interval: u64) -> (r: Self)
        ensures
            r.output_path@ == output_path@,
            r.workers == (if workers >= 1 {
                workers
            } else {
                1
            }),
            r.update_interval == update_interval,
            r.sources@ == Seq::<SourceConfig>::empty(),
            r.lane_model == LaneModel::PerSource,
            r.max_chunks_per_lane == 1,
            r.max_chunks_per_source is None,
            r.global_speed_limit is None,
            r.global_burst is None,
    {
        MultiSourceConfig {
            output_path: output_path.to_owned(),
            workers: if workers >= 1 {
                workers
            } else {
                1
            },
            update_interval,
            sources: Vec::new(),
            lane_model: LaneModel::PerSource,
            max_chunks_per_lane: 1,
            max_chunks_per_source: None,
            global_speed_limit: None,
            global_burst: None,
        }
    }

    /// Sets the sources.
    pub fn with_sources(self, sources: Vec<SourceConfig>) -> (r: Self)
        ensures
            r == (MultiSourceConfig { sources, ..self }),
    {
        let mut c = self;
        c.sources = sources;
        c
    }

    /// Sets what makes up a lane.
    pub fn with_lane_model(self, lane_model: LaneModel) -> (r: Self)
        ensures
            r == (MultiSourceConfig { lane_model, ..self }),
    {
        let mut c = self;
        c.lane_model = lane_model;
        c
    }

    /// Sets the number of chunks per lane, at least 1.
    pub fn with_max_chunks_per_lane(self, max_chunks_per_lane: usize) -> (r: Self)
        ensures
            r == (MultiSourceConfig {
                max_chunks_per_lane: if max_chunks_per_lane >= 1 {
                    max_chunks_per_lane
                } else {
                    1
                },
                ..self
            }),
    {
        let mut c = self;
        c.max_chunks_per_lane = if max_chunks_per_lane >= 1 {
            max_chunks_per_lane
        } else {
            1
        };
        c
    }

    /// Sets the number of chunks per source; `None` is no limit.
    pub fn with_max_chunks_per_source(self, max_chunks_per_source: Option<usize>) -> (r: Self)
        ensures
            r == (MultiSourceConfig { max_chunks_per_source, ..self }),
    {
        let mut c = self;
        c.max_chunks_per_source = max_chunks_per_source;
        c
    }

    /// Sets the speed limit of the whole download.
    pub fn with_global_speed_limit(self, bytes_per_sec: u64) -> (r: Self)
        ensures
            r == (MultiSourceConfig { global_speed_limit: Some(bytes_per_sec), ..self }),
    {
        let mut c = self;
        c.global_speed_limit = Some(bytes_per_sec);
        c
    }

    /// Sets the burst of the whole download.
    pub fn with_global_burst(self, burst_bytes: u64) -> (r: Self)
        ensures
            r == (MultiSourceConfig { global_burst: Some(burst_bytes), ..self }),
    {
        let mut c = self;
        c.global_burst = Some(burst_bytes);
        c
    }
}

/// Whether `reqwest::Proxy::all` takes a text for the address of a proxy.
pub uninterp spec fn proxy_accepted(url: Seq<char>) -> bool;

/// Calls `reqwest::Proxy::all` and tells whether it took the address. Claimed: that depends on the
/// text alone.
#[verifier::external_body]
pub(crate) fn proxy_parses(url: &str) -> (r: bool)
    ensures
        r == proxy_accepted(url@),
{
    reqwest::Proxy::all(url).is_ok()
}

/// A lane before it is probed: its ids, the address that it asks, and the proxy that it goes
/// through.
#[derive(Debug)]
pub struct LanePlan {
    pub lane_id: String,
    pub source_id: String,
    pub proxy_id: Option<String>,
    pub proxy_url: Option<String>,
    pub url: String,
}

/// A planned lane in mathematical terms.
pub struct LanePlanView {
    pub lane_id: Seq<char>,
    pub source_id: Seq<char>,
    pub proxy_id: Option<Seq<char>>,
    pub proxy_url: Option<Seq<char>>,
    pub url: Seq<char>,
}

impl View for LanePlan {
    type V = LanePlanView;

    open spec fn view(&self) -> LanePlanView {
        LanePlanView {
            lane_id: self.lane_id@,
            source_id: self.source_id@,
            proxy_id: crate::chunk::text_of(self.proxy_id),
            proxy_url: crate::chunk::text_of(self.proxy_url),
            url: self.url@,
        }
    }
}

/// The lane of a source without proxies.
pub open spec fn direct_lane(s: SourceConfig) -> LanePlanView {
    LanePlanView {
        lane_id: s.id@,
        source_id: s.id@,
        proxy_id: None,
        proxy_url: None,
        url: s.url@,
    }
}

/// The lane of a source through a proxy. With one lane per source it shares the source's id.
pub open spec fn proxied_lane(s: SourceConfig, p: ProxyConfig, model: LaneModel) -> LanePlanView {
    LanePlanView {
        lane_id: match model {
            LaneModel::PerSource => s.id@,
            LaneModel::PerSourceProxy => s.id@ + "::"@ + p.id@,
        },
        source_id: s.id@,
        proxy_id: Some(p.id@),
        proxy_url: Some(p.url@),
        url: s.url@,
    }
}

/// The lanes of a source through its first `n` proxies; proxies with an unusable address are left
/// out.
pub open spec fn proxied_lanes(s: SourceConfig, model: LaneModel, n: int) -> Seq<LanePlanView>
    decreases n,
{
    if n <= 0 {
        Seq::empty()
    } else {
        let front = proxied_lanes(s, model, n - 1);
        let p = s.proxies@[n - 1];
        if proxy_accepted(p.url@) {
            front.push(proxied_lane(s, p, model))
        } else {
            front
        }
    }
}

/// The lanes of a source.
pub open spec fn source_lanes(s: SourceConfig, model: LaneModel) -> Seq<LanePlanView> {
    if s.proxies@.len() == 0 {
        seq![direct_lane(s)]
    } else {
        proxied_lanes(s, model, s.proxies@.len() as int)
    }
}

/// The lanes of all sources, in order.
pub open spec fn all_lanes(s: Seq<SourceConfig>, model: LaneModel) -> Seq<LanePlanView>
    decreases s.len(),
{
    if s.len() == 0 {
        Seq::empty()
    } else {
        all_lanes(s.drop_last(), model) + source_lanes(s.last(), model)
    }
}

/// Planned lanes in mathematical terms.
pub open spec fn plan_views(s: Seq<LanePlan>) -> Seq<LanePlanView> {
    Seq::new(s.len(), |i: int| s[i]@)
}

/// The lane of a source through a proxy, if the proxy's address is usable.
pub fn lane_through_proxy(
    source: &SourceConfig,
    proxy: &ProxyConfig,
    model: LaneModel,
    usable: bool,
) -> (r: Option<LanePlan>)
    ensures
        match r {
            Some(plan) => usable && plan@ == proxied_lane(*source, *proxy, model),
            None => !usable,
        },
{
    if !usable {
        return None;
    }
    let lane_id: String = match model {
        LaneModel::PerSource => source.id.clone(),
        LaneModel::PerSourceProxy => {
            let mut t: String = String::new();
            push_text(&mut t, source.id.as_str());
            push_text(&mut t, "::");
            push_text(&mut t, proxy.id.as_str());
            assert(t@ =~= source.id@ + "::"@ + proxy.id@);
            t
        },
    };
    Some(
        LanePlan {
            lane_id,
            source_id: source.id.clone(),
            proxy_id: Some(proxy.id.clone()),
            proxy_url: Some(proxy.url.clone()),
            url: source.url.clone(),
        },
    )
}

/// Plans the lanes of all sources: one per source, or one per usable proxy where a source has any.
pub fn expand_lanes(config: &MultiSourceConfig) -> (r: Vec<LanePlan>)
    ensures
        plan_views(r@) == all_lanes(config.sources@, config.lane_model),
{
    let mut out: Vec<LanePlan> = Vec::new();
    let model: LaneModel = config.lane_model;
    let mut i: usize = 0;
    assert(plan_views(out@) =~= all_lanes(config.sources@.take(0), model));
    while i < config.sources.len()
        invariant
            i <= config.sources@.len(),
            model == config.lane_model,
            plan_views(out@) == all_lanes(config.sources@.take(i as int), model),
        decreases config.sources.len() - i,
    {
        let source: &SourceConfig = &config.sources[i];
        let ghost before = plan_views(out@);
        assert(config.sources@.take(i + 1).drop_last() =~= config.sources@.take(i as int));
        if source.proxies.len() == 0 {
            out.push(
                LanePlan {
                    lane_id: source.id.clone(),
                    source_id: source.id.clone(),
                    proxy_id: None,
                    proxy_url: None,
                    url: source.url.clone(),
                },
            );
            assert(plan_views(out@) =~= before + seq![direct_lane(*source)]);
        } else {
            let mut j: usize = 0;
            assert(before + proxied_lanes(*source, model, 0) =~= before);
            while j < source.proxies.len()
                invariant
                    j <= source.proxies@.len(),
                    plan_views(out@) == before + proxied_lanes(*source, model, j as int),
                decreases source.proxies.len() - j,
            {
                let proxy: &ProxyConfig = &source.proxies[j];
                let usable: bool = proxy_parses(proxy.url.as_str());
                let ghost sofar = plan_views(out@);
                if let Some(plan) = lane_through_proxy(source, proxy, model, usable) {
                    out.push(plan);
                    assert(plan_views(out@) =~= sofar.push(proxied_lane(*source, *proxy, model)));
                    assert(plan_views(out@) =~= before + proxied_lanes(*source, model, j + 1));
                }
                j = j + 1;
            }
        }
        i = i + 1;
    }
    assert(config.sources@.take(i as int) =~= config.sources@);
    out
}

/// The speed that stands in where none was measured: 1 B/s, in thousandths of a byte per second.
pub const UNKNOWN_SPEED: u64 = 1000;

/// The speed of a probe that brought `bytes` in `elapsed` nanoseconds, counted as at least a
/// millisecond. A probe that failed or brought nothing counts with `UNKNOWN_SPEED`.
pub open spec fn probed_speed(bytes: Option<u64>, elapsed: u64) -> u64 {
    match bytes {
        None => UNKNOWN_SPEED,
        Some(n) => {
            let v = state::capped(
                n * 1_000_000_000_000 / (if elapsed >= 1_000_000 {
                    elapsed as int
                } else {
                    1_000_000
                }),
            );
            if v > 0 {
                v
            } else {
                UNKNOWN_SPEED
            }
        },
    }
}

/// The speed of a probe.
pub fn measured_speed(bytes: Option<u64>, elapsed: u64) -> (r: u64)
    ensures
        r == probed_speed(bytes, elapsed),
{
    match bytes {
        None => UNKNOWN_SPEED,
        Some(n) => {
            let t: u128 = if elapsed >= 1_000_000 {
                elapsed as u128
            } else {
                1_000_000
            };
            let v: u128 = (n as u128) * 1_000_000_000_000u128 / t;
            if v == 0 {
                UNKNOWN_SPEED
            } else if v <= u64::MAX as u128 {
                v as u64
            } else {
                u64::MAX
            }
        },
    }
}

/// A lane that answered its probe. `client` is the number of the connection pool that serves it.
#[derive(Debug)]
pub struct LaneRuntime {
    pub lane_id: String,
    pub source_id: String,
    pub proxy_id: Option<String>,
    pub url: String,
    pub client: usize,
    pub probe_speed: u64,
}

/// The lanes that answered so far and can be used: they support ranges and agree on the file's size.
#[derive(Debug)]
pub struct ProbeBoard {
    pub range_size: Option<u64>,
    pub range: Vec<LaneRuntime>,
}

/// A lane that tells `file_size` is taken in if it supports ranges and agrees with the lanes that were
/// taken in before.
pub open spec fn taken_in(b: ProbeBoard, file_size: u64, support_ranges: bool) -> bool {
    support_ranges && (b.range_size is None || b.range_size == Some(file_size))
}

/// The size and the lanes that the download uses, if there are any.
pub open spec fn board_outcome(b: ProbeBoard) -> Option<(u64, Seq<LaneRuntime>)> {
    if b.range@.len() > 0 && b.range_size is Some {
        Some((b.range_size->0, b.range@))
    } else {
        None
    }
}

impl ProbeBoard {
    /// No lane has answered.
    pub fn new() -> (r: Self)
        ensures
            r.range_size is None,
            r.range@ == Seq::<LaneRuntime>::empty(),
    {
        ProbeBoard { range_size: None, range: Vec::new() }
    }

    /// Takes a lane in that answered, or leaves it out. Whether its speed is to be measured.
    pub fn offer(&mut self, lane: LaneRuntime, file_size: u64, support_ranges: bool) -> (r: bool)
        ensures
            r == taken_in(*old(self), file_size, support_ranges),
            !r ==> *final(self) == *old(self),
            r ==> final(self).range_size == Some(file_size) && final(self).range@ == old(
                self,
            ).range@.push(lane),
            weighed(
                *old(self),
                *final(self),
                LaneAnswer { lane, file_size, support_ranges, speed: None },
            ),
    {
        if !support_ranges {
            return false;
        }
        match self.range_size {
            Some(n) => {
                if n != file_size {
                    return false;
                }
            },
            None => {
                self.range_size = Some(file_size);
            },
        }
        self.range.push(lane);
        true
    }

    /// Notes the measured speed of the lane that was taken in last.
    pub fn record_speed(&mut self, speed: u64)
        ensures
            final(self).range_size == old(self).range_size,
            final(self).range@ == last_measured(old(self).range@, speed),
    {
        let n: usize = self.range.len();
        if n > 0 {
            self.range[n - 1].probe_speed = speed;
        }
        assert(self.range@ =~= last_measured(old(self).range@, speed));
    }
}

/// Lanes with the speed of the last one set.
pub open spec fn last_measured(s: Seq<LaneRuntime>, speed: u64) -> Seq<LaneRuntime> {
    if s.len() > 0 {
        s.drop_last().push(LaneRuntime { probe_speed: speed, ..s.last() })
    } else {
        s
    }
}

/// The answer of a lane: what it tells of the file, and its speed if that was measured.
pub struct LaneAnswer {
    pub lane: LaneRuntime,
    pub file_size: u64,
    pub support_ranges: bool,
    pub speed: Option<u64>,
}

impl LaneAnswer {
    /// The lane as it is used, with its speed.
    pub open spec fn measured(self) -> LaneRuntime {
        match self.speed {
            Some(speed) => LaneRuntime { probe_speed: speed, ..self.lane },
            None => self.lane,
        }
    }
}

/// A lane that answered was put behind the others, or was left out.
pub open spec fn weighed(before: ProbeBoard, after: ProbeBoard, a: LaneAnswer) -> bool {
    if taken_in(before, a.file_size, a.support_ranges) {
        after.range_size == Some(a.file_size) && after.range@ == before.range@.push(a.measured())
    } else {
        after.range_size == before.range_size && after.range@ == before.range@
    }
}

/// The answer `k` was weighed.
pub open spec fn weighed_in_turn(
    boards: Seq<ProbeBoard>,
    answers: Seq<LaneAnswer>,
    k: int,
) -> bool {
    weighed(boards[k], boards[k + 1], answers[k])
}

/// Noting the speed of a lane right after it was taken in weighs the lane with its speed.
pub proof fn law_a_measured_lane_is_weighed_with_its_speed(
    before: ProbeBoard,
    between: ProbeBoard,
    after: ProbeBoard,
    a: LaneAnswer,
)
    requires
        a.speed is Some,
        taken_in(before, a.file_size, a.support_ranges),
        weighed(before, between, LaneAnswer { speed: None, ..a }),
        after.range_size == between.range_size,
        after.range@ == last_measured(between.range@, a.speed->0),
    ensures
        weighed(before, after, a),
{
    assert(between.range@.drop_last() =~= before.range@);
}

/// The size that the first lane with range support told.
pub open spec fn first_ranged_size(answers: Seq<LaneAnswer>) -> Option<u64>
    decreases answers.len(),
{
    if answers.len() == 0 {
        None
    } else if first_ranged_size(answers.drop_last()) is Some {
        first_ranged_size(answers.drop_last())
    } else if answers.last().support_ranges {
        Some(answers.last().file_size)
    } else {
        None
    }
}

/// The lanes with range support that told `size`, in the order of their answers.
pub open spec fn agreeing_lanes(answers: Seq<LaneAnswer>, size: u64) -> Seq<LaneRuntime>
    decreases answers.len(),
{
    if answers.len() == 0 {
        Seq::empty()
    } else {
        let front = agreeing_lanes(answers.drop_last(), size);
        if answers.last().support_ranges && answers.last().file_size == size {
            front.push(answers.last().measured())
        } else {
            front
        }
    }
}

/// The lanes that a download uses after these answers.
pub open spec fn lanes_in_use(answers: Seq<LaneAnswer>) -> Seq<LaneRuntime> {
    match first_ranged_size(answers) {
        Some(n) => agreeing_lanes(answers, n),
        None => Seq::empty(),
    }
}

proof fn lemma_no_ranged_lane(answers: Seq<LaneAnswer>, size: u64)
    ensures
        first_ranged_size(answers) is None <==> forall|i: int|
            0 <= i < answers.len() ==> !(#[trigger] answers[i]).support_ranges,
        first_ranged_size(answers) is None ==> agreeing_lanes(answers, size).len() == 0,
        first_ranged_size(answers) matches Some(n) ==> agreeing_lanes(answers, n).len() > 0,
    decreases answers.len(),
{
    if answers.len() > 0 {
        let front = answers.drop_last();
        lemma_no_ranged_lane(front, size);
        if first_ranged_size(answers) is None {
            assert forall|i: int| 0 <= i < answers.len() implies !(
            #[trigger] answers[i]).support_ranges by {
                if i < front.len() {
                    assert(!front[i].support_ranges);
                }
            }
        } else if forall|i: int|
            0 <= i < answers.len() ==> !(#[trigger] answers[i]).support_ranges {
            assert forall|i: int| 0 <= i < front.len() implies !(
            #[trigger] front[i]).support_ranges by {
                assert(!answers[i].support_ranges);
            }
            assert(!answers[answers.len() - 1].support_ranges);
        }
    }
}

/// Whatever the lanes answer: those without range support are skipped, the first one with it gives the
/// file's size, and exactly those lanes are used, in the order of their answers, that support ranges
/// and tell that size. No lane can be used exactly if none of them supports ranges.
pub proof fn law_only_agreeing_range_lanes_are_used(
    boards: Seq<ProbeBoard>,
    answers: Seq<LaneAnswer>,
)
    requires
        boards.len() == answers.len() + 1,
        boards[0].range_size is None && boards[0].range@.len() == 0,
        forall|k: int| 0 <= k < answers.len() ==> #[trigger] weighed_in_turn(boards, answers, k),
    ensures
        boards.last().range_size == first_ranged_size(answers),
        boards.last().range@ == lanes_in_use(answers),
        board_outcome(boards.last()) is None <==> forall|i: int|
            0 <= i < answers.len() ==> !(#[trigger] answers[i]).support_ranges,
    decreases answers.len(),
{
    lemma_no_ranged_lane(answers, 0);
    if answers.len() > 0 {
        let front = answers.drop_last();
        let earlier = boards.drop_last();
        assert forall|k: int| 0 <= k < front.len() implies #[trigger] weighed_in_turn(
            earlier,
            front,
            k,
        ) by {
            assert(weighed_in_turn(boards, answers, k));
        }
        law_only_agreeing_range_lanes_are_used(earlier, front);
        lemma_no_ranged_lane(front, answers.last().file_size);
        assert(weighed_in_turn(boards, answers, answers.len() - 1));
        assert(earlier.last() == boards[answers.len() - 1]);
        if first_ranged_size(front) is None {
            assert(agreeing_lanes(front, answers.last().file_size) =~= Seq::empty());
        }
        assert(boards.last().range@ =~= lanes_in_use(answers));
    } else {
        assert(boards.last() == boards[0]);
        assert(boards.last().range@ =~= lanes_in_use(answers));
    }
}

/// The candidates that lanes stand for.
pub open spec fn candidates_of(s: Seq<LaneRuntime>) -> Seq<LaneCandidate> {
    Seq::new(
        s.len(),
        |i: int|
            LaneCandidate {
                lane_id: s[i].lane_id,
                source_id: s[i].source_id,
                proxy_id: s[i].proxy_id,
                probe_speed: s[i].probe_speed,
            },
    )
}

/// What is wrong with a source's limits, if anything.
pub open spec fn source_fault(s: SourceConfig) -> Option<Seq<char>> {
    limiter::limit_fault(
        "source "@ + s.id@ + " speed_limit"@,
        "source "@ + s.id@ + " burst"@,
        "speed_limit"@,
        s.speed_limit,
        s.burst,
    )
}

/// The first fault among the limits of sources.
pub open spec fn sources_fault(s: Seq<SourceConfig>) -> Option<Seq<char>>
    decreases s.len(),
{
    if s.len() == 0 {
        None
    } else if sources_fault(s.drop_last()) is Some {
        sources_fault(s.drop_last())
    } else {
        source_fault(s.last())
    }
}

/// The limits of the sources that have one, in order.
pub open spec fn source_limits(s: Seq<SourceConfig>) -> Seq<(String, LimiterSettings)>
    decreases s.len(),
{
    if s.len() == 0 {
        Seq::empty()
    } else {
        let front = source_limits(s.drop_last());
        match limiter::limit_settings(s.last().speed_limit, s.last().burst) {
            Some(v) => front.push((s.last().id, v)),
            None => front,
        }
    }
}

/// Checks the limits of all sources.
pub fn check_source_limits(sources: &Vec<SourceConfig>) -> (r: Result<
    Vec<(String, LimiterSettings)>,
>)
    ensures
        match r {
            Ok(v) => sources_fault(sources@) is None && v@ == source_limits(sources@),
            Err(DownloadError::InvalidArgument(t)) => sources_fault(sources@) == Some(t@),
            Err(_) => false,
        },
{
    let mut out: Vec<(String, LimiterSettings)> = Vec::new();
    let mut i: usize = 0;
    assert(source_limits(sources@.take(0)) =~= Seq::<(String, LimiterSettings)>::empty());
    while i < sources.len()
        invariant
            i <= sources@.len(),
            sources_fault(sources@.take(i as int)) is None,
            out@ == source_limits(sources@.take(i as int)),
        decreases sources.len() - i,
    {
        let s: &SourceConfig = &sources[i];
        let head: String = joined("source ", s.id.as_str());
        let limit_name: String = joined(head.as_str(), " speed_limit");
        let burst_name: String = joined(head.as_str(), " burst");
        proof {
            assert(sources@.take(i + 1).drop_last() =~= sources@.take(i as int));
            assert(limit_name@ =~= "source "@ + s.id@ + " speed_limit"@);
            assert(burst_name@ =~= "source "@ + s.id@ + " burst"@);
        }
        match check_limit(
            limit_name.as_str(),
            burst_name.as_str(),
            "speed_limit",
            s.speed_limit,
            s.burst,
        ) {
            Ok(Some(v)) => {
                out.push((s.id.clone(), v));
            },
            Ok(None) => {},
            Err(e) => {
                proof {
                    lemma_first_fault(sources@, i + 1);
                }
                return Err(e);
            },
        }
        i = i + 1;
    }
    assert(sources@.take(i as int) =~= sources@);
    Ok(out)
}

/// A fault found among the first sources is the first fault.
proof fn lemma_first_fault(s: Seq<SourceConfig>, n: int)
    requires
        0 <= n <= s.len(),
        sources_fault(s.take(n)) is Some,
    ensures
        sources_fault(s) == sources_fault(s.take(n)),
    decreases s.len() - n,
{
    if n < s.len() {
        assert(s.take(n + 1).drop_last() =~= s.take(n));
        lemma_first_fault(s, n + 1);
    } else {
        assert(s.take(n) =~= s);
    }
}

/// A lane that was given a chunk: its id, and the number of the lane runtime that serves the chunk.
#[derive(Debug)]
pub struct LaneClaim {
    pub lane_id: String,
    pub runtime: usize,
}

/// The lanes of a running download from several sources.
#[derive(Debug)]
pub struct MultiRuntime {
    pub scheduler: LaneScheduler,
    pub runtimes: Vec<LaneRuntime>,
    /// How often each lane of the scheduler was used.
    pub turns: Vec<usize>,
    pub supports_ranges: bool,
    pub per_source_limits: Vec<(String, LimiterSettings)>,
    pub global_limit: Option<LimiterSettings>,
}

/// How many runtimes serve the lane `id`.
pub open spec fn serving(s: Seq<LaneRuntime>, id: Seq<char>) -> int
    decreases s.len(),
{
    if s.len() == 0 {
        0
    } else {
        serving(s.drop_last(), id) + if s.last().lane_id@ == id {
            1int
        } else {
            0
        }
    }
}

/// The place of the `n`-th runtime that serves the lane `id`, counted from 0, or -1.
pub open spec fn nth_serving(s: Seq<LaneRuntime>, id: Seq<char>, n: int) -> int
    decreases s.len(),
{
    if s.len() == 0 {
        -1
    } else if nth_serving(s.drop_last(), id, n) >= 0 {
        nth_serving(s.drop_last(), id, n)
    } else if s.last().lane_id@ == id && serving(s.drop_last(), id) == n {
        s.len() - 1
    } else {
        -1
    }
}

/// A runtime found among the first ones is the one found among all.
proof fn lemma_nth_stable(s: Seq<LaneRuntime>, id: Seq<char>, n: int, k: int)
    requires
        0 <= k <= s.len(),
        nth_serving(s.take(k), id, n) >= 0,
    ensures
        nth_serving(s, id, n) == nth_serving(s.take(k), id, n),
    decreases s.len() - k,
{
    if k < s.len() {
        assert(s.take(k + 1).drop_last() =~= s.take(k));
        lemma_nth_stable(s, id, n, k + 1);
    } else {
        assert(s.take(k) =~= s);
    }
}

/// There are enough runtimes for every number below their count.
pub proof fn lemma_nth_exists(s: Seq<LaneRuntime>, id: Seq<char>, n: int)
    ensures
        serving(s, id) >= 0,
        -1 <= nth_serving(s, id, n) < s.len(),
        0 <= n < serving(s, id) <==> nth_serving(s, id, n) >= 0 && n >= 0,
        nth_serving(s, id, n) >= 0 ==> s[nth_serving(s, id, n)].lane_id@ == id,
    decreases s.len(),
{
    if s.len() > 0 {
        lemma_nth_exists(s.drop_last(), id, n);
    }
}

/// How many runtimes serve the lane `id`.
fn count_serving(s: &Vec<LaneRuntime>, id: &str) -> (r: usize)
    ensures
        r == serving(s@, id@),
{
    let mut n: usize = 0;
    let mut i: usize = 0;
    while i < s.len()
        invariant
            i <= s@.len(),
            n == serving(s@.take(i as int), id@),
            n <= i,
        decreases s.len() - i,
    {
        assert(s@.take(i + 1).drop_last() =~= s@.take(i as int));
        if same_text(s[i].lane_id.as_str(), id) {
            n = n + 1;
        }
        i = i + 1;
    }
    assert(s@.take(i as int) =~= s@);
    n
}

/// The place of the `n`-th runtime that serves the lane `id`.
fn find_serving(s: &Vec<LaneRuntime>, id: &str, n: usize) -> (r: Option<usize>)
    ensures
        match r {
            Some(p) => p < s@.len() && nth_serving(s@, id@, n as int) == p,
            None => nth_serving(s@, id@, n as int) < 0,
        },
{
    let mut seen: usize = 0;
    let mut i: usize = 0;
    while i < s.len()
        invariant
            i <= s@.len(),
            seen == serving(s@.take(i as int), id@),
            seen <= i,
            nth_serving(s@.take(i as int), id@, n as int) < 0,
        decreases s.len() - i,
    {
        assert(s@.take(i + 1).drop_last() =~= s@.take(i as int));
        if same_text(s[i].lane_id.as_str(), id) {
            if seen == n {
                proof {
                    lemma_nth_stable(s@, id@, n as int, i + 1);
                }
                return Some(i);
            }
            seen = seen + 1;
        }
        i = i + 1;
    }
    assert(s@.take(i as int) =~= s@);
    None
}

/// The last limit for a source, if there is one.
pub open spec fn limit_for(s: Seq<(String, LimiterSettings)>, source: Seq<char>) -> Option<
    LimiterSettings,
>
    decreases s.len(),
{
    if s.len() == 0 {
        None
    } else if s.last().0@ == source {
        Some(s.last().1)
    } else {
        limit_for(s.drop_last(), source)
    }
}

/// How a download from several sources is set up on the lanes that came out of the probes.
pub open spec fn well_set_up(
    r: Result<(u64, MultiRuntime)>,
    config: MultiSourceConfig,
    board: ProbeBoard,
) -> bool {
    match board_outcome(board) {
        None => r == Err::<(u64, MultiRuntime), DownloadError>(DownloadError::NoAvailableSources),
        Some((size, lanes)) => match sources_fault(config.sources@) {
            Some(t) => r matches Err(DownloadError::InvalidArgument(e)) && e@ == t,
            None => match limiter::limit_fault(
                "global_speed_limit"@,
                "global_burst"@,
                "global_speed_limit"@,
                config.global_speed_limit,
                config.global_burst,
            ) {
                Some(t) => r matches Err(DownloadError::InvalidArgument(e)) && e@ == t,
                None => r matches Ok((n, m)) && n == size && m.wf() && m.supports_ranges
                    && m.runtimes@ == lanes && m.per_source_limits@
                    == source_limits(config.sources@) && m.global_limit
                    == limiter::limit_settings(
                    config.global_speed_limit,
                    config.global_burst,
                ) && m.scheduler.lanes@ == lane::lanes_of(
                    candidates_of(lanes),
                    config.lane_model,
                ) && m.scheduler.lane_model == config.lane_model
                    && m.scheduler.max_chunks_per_source == config.max_chunks_per_source
                    && m.scheduler.max_chunks_per_lane == (if config.max_chunks_per_lane
                    >= 1 {
                    config.max_chunks_per_lane
                } else {
                    1
                }) && m.scheduler.max_workers == (if config.workers >= 1 {
                    lane::capped_size(config.workers as int)
                } else {
                    1
                }) && (forall|i: int| 0 <= i < m.turns@.len() ==> #[trigger] m.turns@[i]
                    == 0),
            },
        },
    }
}

impl MultiRuntime {
    /// There is a use count for each lane.
    pub open spec fn wf(self) -> bool {
        self.turns@.len() == self.scheduler.lanes@.len()
    }

    /// The lanes in mathematical terms.
    pub open spec fn model(self) -> RuntimeModel {
        RuntimeModel {
            limits: self.scheduler.limits(),
            lanes: self.scheduler.lanes@,
            runtimes: self.runtimes@,
            turns: self.turns@,
        }
    }

    /// A source or the whole has a limit.
    pub open spec fn limited(self) -> bool {
        self.per_source_limits@.len() > 0 || self.global_limit is Some
    }

    /// The parts that handing out chunks leaves alone.
    pub open spec fn same_setup(self, other: MultiRuntime) -> bool {
        &&& self.runtimes == other.runtimes
        &&& self.supports_ranges == other.supports_ranges
        &&& self.per_source_limits == other.per_source_limits
        &&& self.global_limit == other.global_limit
        &&& self.scheduler.same_limits(other.scheduler)
    }

    /// Sets a download up on the lanes that can be used. Gives the file's size with it. It fails if
    /// there is no such lane, or with the first fault among the limits.
    pub fn from_config(config: &MultiSourceConfig, board: ProbeBoard) -> (r: Result<(u64, Self)>)
        ensures
            well_set_up(r, *config, board),
    {
        let size: u64 = match board.range_size {
            Some(n) => n,
            None => {
                return Err(DownloadError::NoAvailableSources);
            },
        };
        let runtimes: Vec<LaneRuntime> = board.range;
        if runtimes.len() == 0 {
            return Err(DownloadError::NoAvailableSources);
        }
        let mut candidates: Vec<LaneCandidate> = Vec::new();
        let mut i: usize = 0;
        while i < runtimes.len()
            invariant
                i <= runtimes@.len(),
                candidates@ =~= candidates_of(runtimes@).take(i as int),
            decreases runtimes.len() - i,
        {
            let lane: &LaneRuntime = &runtimes[i];
            let c: LaneCandidate = LaneCandidate::new(
                lane.lane_id.clone(),
                lane.source_id.clone(),
                copy_text(&lane.proxy_id),
                lane.probe_speed,
            );
            assert(c == candidates_of(runtimes@)[i as int]);
            candidates.push(c);
            i = i + 1;
        }
        assert(candidates@ =~= candidates_of(runtimes@));
        let workers: usize = if config.workers <= usize::MAX as u64 {
            config.workers as usize
        } else {
            usize::MAX
        };
        let scheduler: LaneScheduler = LaneScheduler::from_candidates(
            candidates,
            config.lane_model,
            workers,
            config.max_chunks_per_lane,
            config.max_chunks_per_source,
        );
        let per_source_limits: Vec<(String, LimiterSettings)> = match check_source_limits(
            &config.sources,
        ) {
            Ok(v) => v,
            Err(e) => {
                return Err(e);
            },
        };
        let global_limit: Option<LimiterSettings> = match check_limit(
            "global_speed_limit",
            "global_burst",
            "global_speed_limit",
            config.global_speed_limit,
            config.global_burst,
        ) {
            Ok(v) => v,
            Err(e) => {
                return Err(e);
            },
        };
        let mut turns: Vec<usize> = Vec::new();
        let mut j: usize = 0;
        while j < scheduler.lanes.len()
            invariant
                j <= scheduler.lanes@.len(),
                turns@.len() == j,
                forall|k: int| 0 <= k < j ==> #[trigger] turns@[k] == 0,
            decreases scheduler.lanes.len() - j,
        {
            turns.push(0);
            j = j + 1;
        }
        Ok(
            (
                size,
                MultiRuntime {
                    scheduler,
                    runtimes,
                    turns,
                    supports_ranges: true,
                    per_source_limits,
                    global_limit,
                },
            ),
        )
    }

    /// The limit of a lane's source.
    pub fn limiter_for_lane(&self, lane_id: &str) -> (r: Option<LimiterSettings>)
        ensures
            r == ({
                let p = lane::lane_place(self.scheduler.lanes@, lane_id@);
                if p >= 0 {
                    limit_for(
                        self.per_source_limits@,
                        self.scheduler.lanes@[p].candidate.source_id@,
                    )
                } else {
                    None
                }
            }),
    {
        let p: usize = match find_lane(&self.scheduler.lanes, lane_id) {
            Some(p) => p,
            None => {
                return None;
            },
        };
        let source: &str = self.scheduler.lanes[p].candidate.source_id.as_str();
        let mut i: usize = self.per_source_limits.len();
        let ghost all = self.per_source_limits@;
        assert(all.take(i as int) =~= all);
        while i > 0
            invariant
                i <= all.len(),
                all == self.per_source_limits@,
                p < self.scheduler.lanes@.len(),
                lane::lane_place(self.scheduler.lanes@, lane_id@) == p,
                source@ == self.scheduler.lanes@[p as int].candidate.source_id@,
                limit_for(all.take(i as int), source@) == limit_for(all, source@),
            decreases i,
        {
            assert(all.take(i as int).drop_last() =~= all.take(i - 1));
            if same_text(self.per_source_limits[i - 1].0.as_str(), source) {
                return Some(self.per_source_limits[i - 1].1);
            }
            i = i - 1;
        }
        None
    }

    /// The limit of the whole download.
    pub fn global_limiter(&self) -> (r: Option<LimiterSettings>)
        ensures
            r == self.global_limit,
    {
        self.global_limit
    }

    /// Whether anything is limited.
    pub fn has_rate_limit(&self) -> (r: bool)
        ensures
            r == self.limited(),
    {
        self.per_source_limits.len() > 0 || self.global_limit.is_some()
    }

    /// Gives the best lane one more chunk, and picks the runtime that serves it: those of a lane take
    /// turns.
    pub fn claim_request_builder(&mut self, now: u64) -> (r: Option<LaneClaim>)
        requires
            old(self).wf(),
        ensures
            final(self).wf(),
            final(self).same_setup(*old(self)),
            final(self).model() =~= claim(old(self).model(), now).0,
            r == claim(old(self).model(), now).1,
    {
        let p: usize = match self.scheduler.best_lane_index(now) {
            Some(p) => p,
            None => {
                return None;
            },
        };
        let lane_id: String = self.scheduler.lanes[p].candidate.lane_id.clone();
        proof {
            lane::lemma_lane_place(self.scheduler.lanes@, lane_id@);
        }
        self.scheduler.assign_chunk(lane_id.as_str());
        let count: usize = count_serving(&self.runtimes, lane_id.as_str());
        if count == 0 {
            return None;
        }
        let turn: usize = self.turns[p];
        let pick: usize = turn % count;
        proof {
            lemma_nth_exists(self.runtimes@, lane_id@, pick as int);
        }
        match find_serving(&self.runtimes, lane_id.as_str(), pick) {
            Some(k) => {
                self.turns.set(p, turn.saturating_add(1));
                Some(LaneClaim { lane_id, runtime: k })
            },
            None => None,
        }
    }

    /// The first runtime of a lane.
    pub fn lane_runtime(&self, lane_id: &str) -> (r: Option<usize>)
        ensures
            match r {
                Some(k) => k < self.runtimes@.len() && nth_serving(self.runtimes@, lane_id@, 0)
                    == k,
                None => nth_serving(self.runtimes@, lane_id@, 0) < 0,
            },
    {
        find_serving(&self.runtimes, lane_id, 0)
    }

    /// The first runtime of the best lane.
    pub fn best_lane_runtime(&mut self, now: u64) -> (r: Option<usize>)
        ensures
            final(self).same_setup(*old(self)),
            final(self).turns == old(self).turns,
            final(self).scheduler.lanes@ == lane::all_refreshed(old(self).scheduler.lanes@, now),
            ({
                let p = lane::best_place(
                    old(self).scheduler.limits(),
                    final(self).scheduler.lanes@,
                );
                let first = nth_serving(
                    final(self).runtimes@,
                    final(self).scheduler.lanes@[p].candidate.lane_id@,
                    0,
                );
                match r {
                    Some(k) => p >= 0 && first == k,
                    None => p < 0 || first < 0,
                }
            }),
    {
        match self.scheduler.best_lane(now) {
            Some(id) => self.lane_runtime(id.as_str()),
            None => None,
        }
    }

    /// The client and the address of the best lane.
    pub fn primary_lane(&mut self, now: u64) -> (r: Option<(usize, String)>)
        ensures
            final(self).same_setup(*old(self)),
            final(self).turns == old(self).turns,
            final(self).scheduler.lanes@ == lane::all_refreshed(old(self).scheduler.lanes@, now),
            ({
                let p = lane::best_place(
                    old(self).scheduler.limits(),
                    final(self).scheduler.lanes@,
                );
                let first = nth_serving(
                    final(self).runtimes@,
                    final(self).scheduler.lanes@[p].candidate.lane_id@,
                    0,
                );
                match r {
                    Some((client, url)) => {
                        &&& p >= 0 && first >= 0
                        &&& client == final(self).runtimes@[first].client
                        &&& url == final(self).runtimes@[first].url
                    },
                    None => p < 0 || first < 0,
                }
            }),
    {
        match self.scheduler.best_lane(now) {
            Some(id) => match self.lane_runtime(id.as_str()) {
                Some(k) => Some((self.runtimes[k].client, self.runtimes[k].url.clone())),
                None => None,
            },
            None => None,
        }
    }

    /// One chunk less runs on a lane.
    pub fn release_chunk(&mut self, lane_id: &str)
        ensures
            final(self).same_setup(*old(self)),
            final(self).turns == old(self).turns,
            ({
                let p = lane::lane_place(old(self).scheduler.lanes@, lane_id@);
                final(self).scheduler.lanes@ == lane::replaced(
                    old(self).scheduler.lanes@,
                    p,
                    lane::idler(old(self).scheduler.lanes@[p]),
                )
            }),
    {
        self.scheduler.release_chunk(lane_id);
    }

    /// A chunk completed on a lane.
    pub fn record_success(&mut self, lane_id: &str)
        ensures
            final(self).same_setup(*old(self)),
            final(self).turns == old(self).turns,
            ({
                let p = lane::lane_place(old(self).scheduler.lanes@, lane_id@);
                final(self).scheduler.lanes@ == lane::replaced(
                    old(self).scheduler.lanes@,
                    p,
                    lane::restored(old(self).scheduler.lanes@[p]),
                )
            }),
    {
        self.scheduler.record_success(lane_id);
    }

    /// A chunk failed on a lane.
    pub fn record_failure(&mut self, lane_id: &str, now: u64)
        ensures
            final(self).same_setup(*old(self)),
            final(self).turns == old(self).turns,
            ({
                let p = lane::lane_place(old(self).scheduler.lanes@, lane_id@);
                final(self).scheduler.lanes@ == lane::replaced(
                    old(self).scheduler.lanes@,
                    p,
                    lane::failed_lane(old(self).scheduler.lanes@[p], now),
                )
            }),
    {
        self.scheduler.record_failure(lane_id, now);
    }
}

/// The lanes of a download in mathematical terms.
#[verifier::ext_equal]
pub struct RuntimeModel {
    pub limits: lane::LaneLimits,
    pub lanes: Seq<LaneEntry>,
    pub runtimes: Seq<LaneRuntime>,
    pub turns: Seq<usize>,
}

/// What handing out a chunk does: the lanes afterwards, and the lane and the runtime that got the
/// chunk.
pub open spec fn claim(m: RuntimeModel, now: u64) -> (RuntimeModel, Option<LaneClaim>) {
    let fresh = lane::all_refreshed(m.lanes, now);
    let p = lane::best_place(m.limits, fresh);
    if p < 0 {
        (RuntimeModel { lanes: fresh, ..m }, None)
    } else {
        let id = fresh[p].candidate.lane_id;
        let at = lane::lane_place(fresh, id@);
        let count = serving(m.runtimes, id@);
        let busy = lane::replaced(fresh, at, lane::busier(fresh[at]));
        if count == 0 {
            (RuntimeModel { lanes: busy, ..m }, None)
        } else {
            (
                RuntimeModel {
                    lanes: busy,
                    turns: m.turns.update(
                        p,
                        if m.turns[p] < usize::MAX {
                            (m.turns[p] + 1) as usize
                        } else {
                            usize::MAX
                        },
                    ),
                    ..m
                },
                Some(
                    LaneClaim {
                        lane_id: id,
                        runtime: nth_serving(m.runtimes, id@, m.turns[p] as int % count) as usize,
                    },
                ),
            )
        }
    }
}

/// The lanes after a chunk left the lane `id`, with success or without.
pub open spec fn released(m: RuntimeModel, id: Seq<char>, success: bool, now: u64) -> RuntimeModel {
    let p = lane::lane_place(m.lanes, id);
    let judged = lane::replaced(
        m.lanes,
        p,
        if success {
            lane::restored(m.lanes[p])
        } else {
            lane::failed_lane(m.lanes[p], now)
        },
    );
    let q = lane::lane_place(judged, id);
    RuntimeModel { lanes: lane::replaced(judged, q, lane::idler(judged[q])), ..m }
}

/// A lane's place does not depend on what runs on it.
pub proof fn lemma_lane_place_kept(s: Seq<LaneEntry>, t: Seq<LaneEntry>, id: Seq<char>)
    requires
        s.len() == t.len(),
        forall|i: int|
            0 <= i < s.len() ==> (#[trigger] s[i]).candidate.lane_id@ == t[i].candidate.lane_id@,
    ensures
        lane::lane_place(s, id) == lane::lane_place(t, id),
{
    lane::lemma_lane_place(s, id);
    lane::lemma_lane_place(t, id);
    let p = lane::lane_place(s, id);
    let q = lane::lane_place(t, id);
    if p >= 0 {
        assert(t[p].candidate.lane_id@ == id);
    }
    if q >= 0 {
        assert(s[q].candidate.lane_id@ == id);
    }
}

/// A chunk that leaves its lane, with success or without, gives back the room that it took.
pub proof fn law_release_gives_the_room_back(
    m: RuntimeModel,
    now: u64,
    success: bool,
    later: u64,
)
    requires
        claim(m, now).1 is Some,
        forall|i: int| 0 <= i < m.lanes.len() ==> (#[trigger] m.lanes[i]).active_chunks < usize::MAX,
    ensures
        ({
            let (taken, c) = claim(m, now);
            let back = released(taken, c->0.lane_id@, success, later);
            &&& back.lanes.len() == m.lanes.len()
            &&& forall|i: int|
                0 <= i < m.lanes.len() ==> (#[trigger] back.lanes[i]).active_chunks
                    == m.lanes[i].active_chunks
        }),
{
    let (taken, c) = claim(m, now);
    let id = c->0.lane_id@;
    let fresh = lane::all_refreshed(m.lanes, now);
    let p = lane::best_place(m.limits, fresh);
    let n = fresh.len() as int;
    lane::law_first_open_lane(m.limits, fresh, false, n);
    lane::law_first_open_lane(m.limits, fresh, true, n);
    assert(fresh[p].candidate.lane_id@ == id);
    lane::lemma_lane_place(fresh, id);
    let at = lane::lane_place(fresh, id);
    assert(0 <= at < fresh.len());
    lemma_lane_place_kept(fresh, taken.lanes, id);
    let judged = lane::replaced(
        taken.lanes,
        at,
        if success {
            lane::restored(taken.lanes[at])
        } else {
            lane::failed_lane(taken.lanes[at], later)
        },
    );
    lemma_lane_place_kept(taken.lanes, judged, id);
    let back = released(taken, id, success, later);
    assert forall|i: int| 0 <= i < m.lanes.len() implies (#[trigger] back.lanes[i]).active_chunks
        == m.lanes[i].active_chunks by {
        assert(fresh[i] == lane::refreshed(m.lanes[i], now));
    }
}

} // verus!
