use simple_downloader::downloader::begin;
use simple_downloader::lane::{LaneCandidate, LaneHealth, LaneModel, LaneScheduler};
use simple_downloader::limiter::LimiterSettings;
use simple_downloader::source::{
    expand_lanes, measured_speed, LaneRuntime, MultiRuntime, MultiSourceConfig, ProbeBoard,
    ProxyConfig, SourceConfig, UNKNOWN_SPEED,
};
use simple_downloader::monitor::DownloadMonitor;
use simple_downloader::types::{DownloadError, DownloadInfo};

const SECOND: u64 = 1_000_000_000;

fn candidate(lane: &str, source: &str, proxy: Option<&str>, speed: u64) -> LaneCandidate {
    LaneCandidate::new(
        lane.to_string(),
        source.to_string(),
        proxy.map(|p| p.to_string()),
        speed,
    )
}

#[test]
fn per_source_lane_model_shares_capacity_across_proxies() {
    let mut scheduler = LaneScheduler::from_candidates(
        vec![
            candidate("lane-a", "source-a", None, 120_000),
            candidate("lane-b", "source-a", Some("proxy-b"), 90_000),
            candidate("lane-c", "source-b", None, 80_000),
        ],
        LaneModel::PerSource,
        4,
        2,
        Some(2),
    );

    assert!(scheduler.available_capacity() == 4);
    assert!(scheduler.lane_ids().len() == 2);
    let first = scheduler.best_lane(0).expect("first lane");
    let second = scheduler.best_lane(0).expect("second lane");

    assert!(first.as_str() == "source-a");
    assert!(second.as_str() == "source-a");

    scheduler.assign_chunk(&first);
    scheduler.assign_chunk(&second);

    let third = scheduler.best_lane(0).expect("third lane");
    assert!(third.as_str() == "source-b");
}

#[test]
fn failing_lane_is_blacklisted_until_released() {
    let mut scheduler = LaneScheduler::from_candidates(
        vec![
            candidate("lane-a", "source-a", None, 100_000),
            candidate("lane-b", "source-b", None, 90_000),
        ],
        LaneModel::PerSource,
        2,
        1,
        None,
    );

    let lane = scheduler.best_lane(0).expect("lane");
    scheduler.assign_chunk(&lane);
    scheduler.record_failure(&lane, 1);
    scheduler.record_failure(&lane, 2);
    scheduler.record_failure(&lane, 3);

    assert!(scheduler.lane_health(&lane, 3) == Some(LaneHealth::Blacklisted));
    assert!(scheduler.best_lane(3).expect("fallback").as_str() == "source-b");
}

#[test]
fn per_source_proxy_lane_model_keeps_distinct_proxy_lanes() {
    let scheduler = LaneScheduler::from_candidates(
        vec![
            candidate("lane-a", "source-a", None, 120_000),
            candidate("lane-b", "source-a", Some("proxy-b"), 90_000),
            candidate("lane-c", "source-b", None, 80_000),
        ],
        LaneModel::PerSourceProxy,
        4,
        2,
        Some(2),
    );

    assert!(scheduler.lane_ids().len() == 3);
}

#[test]
fn lane_blacklist_decay_unit() {
    let now = 100 * SECOND;
    let mut sched = LaneScheduler::from_candidates(
        vec![
            candidate("a", "src-a", None, 100_000),
            candidate("b", "src-b", None, 90_000),
        ],
        LaneModel::PerSource,
        2,
        1,
        None,
    );
    let lane = sched.best_lane(now).unwrap();
    assert_eq!(lane.as_str(), "src-a");
    sched.record_failure(&lane, now);
    sched.record_failure(&lane, now);
    sched.record_failure(&lane, now);
    assert_eq!(sched.lane_health(&lane, now), Some(LaneHealth::Blacklisted));
    let fallback = sched.best_lane(now).unwrap();
    assert_eq!(fallback.as_str(), "src-b");
    sched.set_blacklisted_at_for_integration_test("src-a", now - 31 * SECOND);
    assert_eq!(sched.lane_health("src-a", now), Some(LaneHealth::Healthy));
    let recovered = sched.best_lane(now).unwrap();
    assert_eq!(recovered.as_str(), "src-a");
}

#[test]
fn a_success_clears_failures() {
    let mut sched = LaneScheduler::from_candidates(
        vec![candidate("a", "src-a", None, 100_000)],
        LaneModel::PerSource,
        2,
        2,
        None,
    );
    sched.record_failure("src-a", 1);
    sched.record_failure("src-a", 2);
    sched.record_success("src-a");
    sched.record_failure("src-a", 3);
    assert_eq!(sched.lane_health("src-a", 4), Some(LaneHealth::Healthy));
    assert_eq!(sched.lane_health("nowhere", 4), None);
}

#[test]
fn capacity_runs_out_and_comes_back() {
    let mut sched = LaneScheduler::from_candidates(
        vec![candidate("a", "src-a", None, 100_000)],
        LaneModel::PerSource,
        1,
        4,
        None,
    );
    let id = sched.best_lane(0).unwrap();
    sched.assign_chunk(&id);
    assert_eq!(sched.available_capacity(), 0);
    assert_eq!(sched.best_lane(0), None);
    sched.release_chunk(&id);
    assert_eq!(sched.best_lane(0), Some(id));
}

fn runtime(lane: &str, source: &str, url: &str, client: usize) -> LaneRuntime {
    LaneRuntime {
        lane_id: lane.to_string(),
        source_id: source.to_string(),
        proxy_id: None,
        url: url.to_string(),
        client,
        probe_speed: 1000,
    }
}

#[test]
fn sources_with_bad_proxies_lose_those_lanes_only() {
    let source = SourceConfig::new("http://a/f").with_id("s").with_proxies(vec![
        ProxyConfig::new("http://127.0.0.1:8080").with_id("good"),
        ProxyConfig::new("").with_id("bad"),
    ]);
    let config = MultiSourceConfig::new("out.bin", 4, SECOND / 2)
        .with_sources(vec![source])
        .with_lane_model(LaneModel::PerSourceProxy);
    let lanes = expand_lanes(&config);
    let ids: Vec<Option<String>> = lanes.iter().map(|l| l.proxy_id.clone()).collect();
    assert!(ids.contains(&Some("good".to_string())));
    assert!(!ids.contains(&Some("bad".to_string())));
}

#[test]
fn speed_is_measured_over_the_elapsed_time() {
    assert_eq!(measured_speed(Some(2048), SECOND / 2), 4_096_000);
    assert_eq!(measured_speed(None, SECOND), UNKNOWN_SPEED);
}

#[test]
fn lanes_must_agree_on_the_size() {
    let mut board = ProbeBoard::new();
    assert!(board.offer(runtime("a", "a", "http://a/f", 0), 1000, true));
    assert!(!board.offer(runtime("b", "b", "http://b/f", 1), 1001, true));
    assert!(board.offer(runtime("c", "c", "http://c/f", 2), 1000, true));
}

#[test]
fn lanes_without_range_support_are_skipped() {
    let config = MultiSourceConfig::new("out.bin", 4, SECOND / 2);
    let mut board = ProbeBoard::new();
    assert!(!board.offer(runtime("a", "a", "http://a/f", 0), 1001, false));
    match MultiRuntime::from_config(&config, board) {
        Err(DownloadError::NoAvailableSources) => {}
        other => panic!("{:?}", other.is_ok()),
    }
    let mut board = ProbeBoard::new();
    assert!(!board.offer(runtime("a", "a", "http://a/f", 0), 1001, false));
    assert!(board.offer(runtime("b", "b", "http://b/f", 1), 1000, true));
    assert!(!board.offer(runtime("c", "c", "http://c/f", 2), 1000, false));
    let (size, rt) = MultiRuntime::from_config(&config, board).unwrap();
    assert_eq!(size, 1000);
    assert!(rt.supports_ranges);
    assert_eq!(rt.runtimes.len(), 1);
}

#[test]
fn a_download_without_lanes_has_no_sources() {
    let config = MultiSourceConfig::new("out.bin", 4, SECOND / 2);
    match MultiRuntime::from_config(&config, ProbeBoard::new()) {
        Err(DownloadError::NoAvailableSources) => {}
        other => panic!("{:?}", other.is_ok()),
    }
}

fn two_sources() -> (MultiSourceConfig, ProbeBoard) {
    let config = MultiSourceConfig::new("out.bin", 4, SECOND / 2)
        .with_sources(vec![
            SourceConfig::new("http://a/f").with_id("a").with_speed_limit(1000),
            SourceConfig::new("http://b/f").with_id("b"),
        ])
        .with_max_chunks_per_lane(2)
        .with_global_speed_limit(5000)
        .with_global_burst(100);
    let mut board = ProbeBoard::new();
    for (i, l) in expand_lanes(&config).into_iter().enumerate() {
        assert!(board.offer(
            LaneRuntime {
                lane_id: l.lane_id,
                source_id: l.source_id,
                proxy_id: l.proxy_id,
                url: l.url,
                client: i,
                probe_speed: 0,
            },
            1000,
            true
        ));
        board.record_speed(10_000 * (i as u64 + 1));
    }
    (config, board)
}

#[test]
fn the_fastest_lane_is_claimed_first() {
    let (config, board) = two_sources();
    let (size, mut rt) = MultiRuntime::from_config(&config, board).unwrap();
    assert_eq!(size, 1000);
    assert!(rt.has_rate_limit());
    assert_eq!(rt.global_limiter(), Some(LimiterSettings { bytes_per_sec: 5000, burst: 100 }));
    let mut ids = vec![];
    for _ in 0..4 {
        ids.push(rt.claim_request_builder(0).unwrap().lane_id);
    }
    assert_eq!(ids, vec!["b", "b", "a", "a"]);
    assert!(rt.claim_request_builder(0).is_none());
    assert_eq!(
        rt.limiter_for_lane("a"),
        Some(LimiterSettings { bytes_per_sec: 1000, burst: 65536 })
    );
    assert_eq!(rt.limiter_for_lane("b"), None);
    rt.release_chunk("a");
    let again = rt.claim_request_builder(0).unwrap();
    assert_eq!(again.lane_id, "a");
    assert_eq!(rt.runtimes[again.runtime].url, "http://a/f");
}

#[test]
fn the_primary_lane_is_the_best_one() {
    let (config, board) = two_sources();
    let (_, mut rt) = MultiRuntime::from_config(&config, board).unwrap();
    assert_eq!(rt.primary_lane(0), Some((1, "http://b/f".to_string())));
    assert_eq!(rt.best_lane_runtime(0), rt.lane_runtime("b"));
}

#[test]
fn source_limits_are_checked() {
    let config = MultiSourceConfig::new("out.bin", 4, SECOND / 2)
        .with_sources(vec![SourceConfig::new("http://a/f").with_id("a").with_speed_limit(0)]);
    let mut board = ProbeBoard::new();
    board.offer(runtime("a", "a", "http://a/f", 0), 1000, true);
    assert!(matches!(
        MultiRuntime::from_config(&config, board),
        Err(DownloadError::InvalidArgument(_))
    ));
}

#[test]
fn proxies_are_named_after_their_address() {
    let p = ProxyConfig::http("http://127.0.0.1:8080").unwrap();
    assert_eq!(p.id, "proxy-http://127.0.0.1:8080");
    assert_eq!(p.url, "http://127.0.0.1:8080");
    let p = ProxyConfig::socks5("socks5://127.0.0.1:1080").unwrap().with_id("p");
    assert_eq!(p.id, "p");
    assert!(ProxyConfig::https("https://127.0.0.1:8080").is_ok());
}

fn loads(m: &DownloadMonitor) -> Vec<usize> {
    m.runtime.as_ref().unwrap().scheduler.lanes.iter().map(|l| l.active_chunks).collect()
}

#[test]
fn lanes_count_the_chunks_that_run_on_them() {
    let (config, board) = two_sources();
    let (_, rt) = MultiRuntime::from_config(&config, board).unwrap();
    let ranges = vec![(0, 99), (100, 199), (200, 299), (300, 399), (400, 499)];
    let (mut m, acts) = begin(2_000_000, true, 8, SECOND, None, Some(rt), ranges, 0, 0);
    // A limit of one source or of all of them freezes splitting.
    assert!(m.is_rate_limited);
    assert_eq!(acts.len(), 4);
    assert_eq!(loads(&m), vec![2, 2]);
    assert_eq!(m.pending_bisects.len(), 1);
    let on_first = m.lane_bindings[&0].clone();
    let _ = m.handle_download_info(DownloadInfo::DownloadComplete(0), 1);
    assert_eq!(loads(&m).iter().sum::<usize>(), 3);
    assert!(!m.lane_bindings.contains_key(&0));
    // The waiting range starts on the lane that has room again.
    let _ = m.handle_tick(SECOND, 4, SECOND);
    assert_eq!(m.lane_bindings[&4], on_first);
    assert_eq!(loads(&m), vec![2, 2]);
    assert!(m.pending_bisects.is_empty());
    // Reports and ticks leave the sources and their limits alone.
    let rt = m.runtime.as_ref().unwrap();
    assert!(rt.supports_ranges);
    assert_eq!(rt.limiter_for_lane("a").unwrap().bytes_per_sec, 1000);
    assert_eq!(rt.global_limiter().unwrap().bytes_per_sec, 5000);
}

#[test]
fn a_source_is_capped_across_its_lanes() {
    let proxies = vec![
        ProxyConfig::new("http://127.0.0.1:1").with_id("p1"),
        ProxyConfig::new("http://127.0.0.1:2").with_id("p2"),
    ];
    let config = MultiSourceConfig::new("out.bin", 8, SECOND / 2)
        .with_sources(vec![SourceConfig::new("http://a/f").with_id("a").with_proxies(proxies)])
        .with_lane_model(LaneModel::PerSourceProxy)
        .with_max_chunks_per_lane(3)
        .with_max_chunks_per_source(Some(2));
    let mut board = ProbeBoard::new();
    for (i, l) in expand_lanes(&config).into_iter().enumerate() {
        assert!(board.offer(runtime(&l.lane_id, &l.source_id, &l.url, i), 1000, true));
    }
    let (_, mut rt) = MultiRuntime::from_config(&config, board).unwrap();
    assert!(rt.claim_request_builder(0).is_some());
    assert!(rt.claim_request_builder(0).is_some());
    assert!(rt.claim_request_builder(0).is_none());
}

#[test]
fn the_first_range_lane_gives_the_size() {
    let answers = [(500, false), (1000, true), (500, true), (1000, false), (1000, true)];
    let mut board = ProbeBoard::new();
    let mut used = Vec::new();
    for (i, (size, ranges)) in answers.into_iter().enumerate() {
        if board.offer(runtime("l", "s", "http://a/f", i), size, ranges) {
            board.record_speed(7);
            used.push(i);
        }
    }
    assert_eq!(used, vec![1, 4]);
    assert_eq!(board.range_size, Some(1000));
    assert!(board.range.iter().all(|l| l.probe_speed == 7));
}
