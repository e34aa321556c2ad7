use simple_downloader::downloader::{
    check_resumable, effective_workers, multi_course, settle, single_course, Course,
    DownloadBuilder, DownloadMode, Downloader, StreamRun,
};
use simple_downloader::config::{apply_config, default_workers, RuntimeConfig, DEFAULT_UPDATE_INTERVAL};
use simple_downloader::limiter::{
    burst_batches, rate_batches, runtime_limiter_from_config, LimiterSettings,
};
use simple_downloader::resource::{ClientPlan, FirstByteReply, PlainReply, Resource};
use simple_downloader::source::{MultiSourceConfig, SourceConfig};
use simple_downloader::speed::SpeedEstimator;
use simple_downloader::trace::{level_label, Env, LogLevel};
use simple_downloader::types::{DownloadError, DownloadInfo};
use simple_downloader::util::{
    get_file_info, needs_cross_check, parse_content_range, parse_length, parse_range_total,
    HeadReply, RangeReply,
};

const SECOND: u64 = 1_000_000_000;
const MIB: u64 = 1024 * 1024;

fn head(len: Option<&str>, ranges: Option<&str>) -> Option<HeadReply> {
    Some(HeadReply {
        content_length: len.map(|t| t.to_string()),
        accept_ranges: ranges.map(|t| t.to_string()),
    })
}

fn range(status: u16, cr: Option<&str>, len: Option<&str>, first: Option<u8>) -> Option<RangeReply> {
    Some(RangeReply {
        status,
        content_range: cr.map(|t| t.to_string()),
        content_length: len.map(|t| t.to_string()),
        body_first: first,
    })
}

#[test]
fn a_coherent_probe_is_believed() {
    let h = head(Some("1000"), Some("bytes"));
    let r = range(206, Some("bytes 0-0/1000"), Some("1"), Some(7));
    assert!(needs_cross_check(&r));
    assert_eq!(get_file_info(&h, &r, Some(7)).unwrap(), (1000, true));
}

#[test]
fn head_without_accept_ranges_still_finds_ranges() {
    let h = head(Some("18"), None);
    let r = range(206, Some("bytes 0-0/18"), Some("1"), Some(b'h'));
    assert_eq!(get_file_info(&h, &r, Some(b'h')).unwrap(), (18, true));
}

#[test]
fn lying_probes_are_distrusted() {
    let h = head(Some("1000"), Some("bytes"));
    let empty = range(206, Some("bytes 0-0/1000"), Some("1"), None);
    assert!(matches!(
        get_file_info(&h, &empty, None),
        Err(DownloadError::MissingContentLength)
    ));
    let other = range(206, Some("bytes 0-0/1000"), Some("1"), Some(1));
    assert!(matches!(
        get_file_info(&h, &other, Some(2)),
        Err(DownloadError::MissingContentLength)
    ));
}

#[test]
fn a_partial_reply_without_a_total_is_not_doubted() {
    let h = head(Some("1000"), None);
    for cr in [None, Some("bytes 0-0/*")] {
        let empty = range(206, cr, Some("1"), None);
        assert!(!needs_cross_check(&empty));
        assert_eq!(get_file_info(&h, &empty, None), Ok((1000, true)));
        let other = range(206, cr, Some("77"), Some(1));
        assert!(!needs_cross_check(&other));
        assert_eq!(get_file_info(&h, &other, Some(2)), Ok((1000, true)));
        assert_eq!(get_file_info(&None, &other, Some(2)), Ok((77, true)));
    }
}

#[test]
fn nothing_known_is_an_error() {
    assert!(matches!(
        get_file_info(&None, &None, None),
        Err(DownloadError::MissingContentLength)
    ));
}

#[test]
fn a_server_without_ranges_tells_the_size_by_its_length() {
    let r = range(200, None, Some("500"), None);
    assert_eq!(get_file_info(&None, &r, None).unwrap(), (500, false));
}

#[test]
fn content_ranges_are_read() {
    assert_eq!(parse_content_range("bytes 0-0/1000"), Some((0, 0, 1000)));
    assert_eq!(parse_content_range(" bytes 5-9/* "), Some((5, 9, 0)));
    assert_eq!(parse_content_range("bytes 0-x/1000"), None);
    assert_eq!(parse_content_range("0-0/1000"), None);
    assert_eq!(parse_range_total("bytes 0-0/ 42 "), Some(42));
    assert_eq!(parse_range_total("bytes 0-0/*"), None);
    assert_eq!(parse_length("18446744073709551615"), Some(u64::MAX));
    assert_eq!(parse_length("18446744073709551616"), None);
    assert_eq!(parse_length(""), None);
    assert_eq!(parse_length("+7"), Some(7));
    assert_eq!(parse_length("-7"), None);
}

#[test]
fn builder_defaults_are_sensible() {
    let builder = DownloadBuilder::new(
        "https://example.com/file.bin".to_string(),
        "file.bin".to_string(),
        None,
    );

    assert!(builder.workers >= 1);
    assert_eq!(builder.update_interval, DEFAULT_UPDATE_INTERVAL);
    assert_eq!(builder.workers, 4);
}

fn builder() -> DownloadBuilder {
    Downloader::builder("http://a/f".to_string(), "out.bin".to_string(), Some(8))
}

#[test]
fn builders_keep_their_settings() {
    let d = builder().workers(0).update_interval(0).update_interval(7).resume(false).build();
    match &d.mode {
        DownloadMode::Single(c) => {
            assert_eq!((c.url.as_str(), c.output_path.as_str()), ("http://a/f", "out.bin"));
            assert_eq!(c.workers, 1);
        }
        DownloadMode::Multi(_) => panic!(),
    }
    assert_eq!(d.update_interval, 7);
    assert!(!d.resume_enabled);
    assert!(d.with_resume(true).resume_enabled);
    let m = Downloader::new_multi(MultiSourceConfig::new("o", 3, 9));
    assert_eq!(m.update_interval, 9);
    assert!(matches!(m.mode, DownloadMode::Multi(_)));
}

fn refused(d: Downloader) -> String {
    match d.limiter_settings() {
        Err(DownloadError::InvalidArgument(t)) => t,
        other => panic!("{:?}", other),
    }
}

#[test]
fn invalid_limits_are_refused() {
    assert_eq!(refused(builder().speed_limit(0).build()), "speed_limit 0 无效");
    assert_eq!(
        refused(builder().speed_limit(1 << 32).build()),
        "speed_limit 4294967296 超过 4294967295 需 ≤4GiB/s"
    );
    assert_eq!(refused(builder().speed_limit(1).with_burst(0).build()), "burst 0 无效");
    assert_eq!(
        refused(builder().speed_limit(1).with_burst(1 << 32).build()),
        "burst 4294967296 超过 4294967295"
    );
    assert_eq!(refused(builder().with_burst(1).build()), "burst 需配合 speed_limit");
}

#[test]
fn valid_limits_are_taken() {
    assert_eq!(builder().build().limiter_settings().unwrap(), None);
    assert_eq!(
        builder().speed_limit(9).build().limiter_settings().unwrap(),
        Some(LimiterSettings { bytes_per_sec: 9, burst: 65536 })
    );
    assert_eq!(
        builder().speed_limit(9).with_burst(3).build().limiter_settings().unwrap(),
        Some(LimiterSettings { bytes_per_sec: 9, burst: 3 })
    );
}

#[test]
fn running_limits_are_checked() {
    let base = RuntimeConfig::with_parallelism(Some(2));
    assert_eq!(runtime_limiter_from_config(&base), Ok(None));
    let with = |speed_limit, burst| RuntimeConfig { speed_limit, burst, ..base };
    assert_eq!(runtime_limiter_from_config(&with(Some(5), Some(6))), Ok(Some((5, Some(6)))));
    assert_eq!(
        runtime_limiter_from_config(&with(None, Some(6))),
        Err("burst requires speed_limit".to_string())
    );
    assert_eq!(
        runtime_limiter_from_config(&with(Some(0), None)),
        Err("speed_limit must be greater than zero".to_string())
    );
    assert_eq!(
        runtime_limiter_from_config(&with(Some(1 << 32), None)),
        Err("speed_limit 4294967296 exceeds 4294967295".to_string())
    );
    assert_eq!(
        runtime_limiter_from_config(&with(Some(1), Some(0))),
        Err("burst must be greater than zero".to_string())
    );
    assert_eq!(
        runtime_limiter_from_config(&with(Some(1), Some(1 << 32))),
        Err("burst 4294967296 exceeds 4294967295".to_string())
    );
}

#[test]
fn settings_are_swapped() {
    let mut shared = RuntimeConfig::with_parallelism(None).with_workers(0);
    assert_eq!(shared.workers, 1);
    let new = shared.with_update_interval(5).with_update_interval(0);
    let before = apply_config(&mut shared, new);
    assert_eq!(before.update_interval, DEFAULT_UPDATE_INTERVAL);
    assert_eq!(shared.update_interval, 5);
    assert_eq!(default_workers(Some(0)), 1);
    assert_eq!(default_workers(Some(12)), 12);
    assert_eq!(default_workers(None), 4);
}

#[test]
fn writes_are_cut_for_the_limiter() {
    assert_eq!(rate_batches(0), Vec::<u32>::new());
    assert_eq!(rate_batches(65536), vec![65536]);
    assert_eq!(rate_batches(140_000), vec![65536, 65536, 8928]);
    assert_eq!(burst_batches(2500, 1000), vec![1000, 1000, 500]);
    assert_eq!(burst_batches(1000, 1000), vec![1000]);
}

#[test]
fn files_of_unknown_size_are_streamed() {
    let url = "http://a/f".to_string();
    assert!(matches!(
        single_course(Ok((10, true)), &url),
        Course::Ranged { file_size: 10, support_ranges: true }
    ));
    match single_course(Err(DownloadError::MissingContentLength), &url) {
        Course::Stream { url } => assert_eq!(url, "http://a/f"),
        other => panic!("{:?}", other),
    }
    assert!(matches!(
        single_course(Err(DownloadError::Request("x".to_string())), &url),
        Course::Fail(DownloadError::Request(_))
    ));
}

#[test]
fn without_usable_sources_there_is_no_download() {
    let none = MultiSourceConfig::new("o", 3, 9);
    assert!(matches!(
        multi_course(Err(DownloadError::NoAvailableSources), &none),
        Course::Fail(DownloadError::NoAvailableSources)
    ));
    let some = none.with_sources(vec![SourceConfig::new("http://s1/f"), SourceConfig::new("http://s2/f")]);
    assert!(matches!(
        multi_course(Err(DownloadError::NoAvailableSources), &some),
        Course::Fail(DownloadError::NoAvailableSources)
    ));
    match multi_course(Err(DownloadError::MissingContentLength), &some) {
        Course::Stream { url } => assert_eq!(url, "http://s1/f"),
        other => panic!("{:?}", other),
    }
    assert!(matches!(
        multi_course(Err(DownloadError::InvalidArgument("x".to_string())), &some),
        Course::Fail(DownloadError::InvalidArgument(_))
    ));
    assert!(matches!(
        multi_course(Ok((5, false)), &some),
        Course::Ranged { file_size: 5, support_ranges: false }
    ));
}

#[test]
fn a_part_is_resumed_only_with_ranges() {
    assert!(check_resumable(0, false).is_ok());
    assert!(check_resumable(5, true).is_ok());
    match check_resumable(5, false) {
        Err(DownloadError::ResumeMetadata(t)) => {
            assert_eq!(t, "partial resume requires HTTP Range support")
        }
        other => panic!("{:?}", other),
    }
}

#[test]
fn small_files_get_one_worker() {
    assert_eq!(effective_workers(true, 8, MIB), 8);
    assert_eq!(effective_workers(true, 8, MIB - 1), 1);
    assert_eq!(effective_workers(false, 8, MIB), 1);
}

#[test]
fn a_stream_tells_its_progress() {
    let mut s = StreamRun::new();
    assert!(s.on_bytes(0).is_none());
    assert_eq!(
        s.on_bytes(100),
        Some((
            0,
            DownloadInfo::ChunkProgress { id: 0, start_byte: 0, end_byte: 0, downloaded: 100 }
        ))
    );
    assert_eq!(s.on_bytes(50).unwrap().0, 100);
    assert_eq!(
        s.on_tick(SECOND / 2),
        DownloadInfo::MonitorUpdate {
            total_size: 0,
            total_downloaded: 150,
            total_speed: 300_000,
            chunk_details: vec![(0, 0, 150, 300_000, 0)],
        }
    );
    let (update, complete) = s.finish();
    assert!(update.is_complete());
    assert_eq!(complete, DownloadInfo::DownloadComplete(0));
}

#[test]
fn window_and_avg() {
    let mut est = SpeedEstimator::new(10 * SECOND);
    let t0 = 5 * SECOND;
    est.update(1000, t0);
    let s0 = est.speed(t0);
    assert_eq!(s0, 0);
    let t1 = t0 + SECOND;
    est.update(1000, t1);
    let s1 = est.speed(t1);
    assert!(s1 > 0);
    let avg = est.avg_speed(t1);
    assert!(avg > 0);
    assert_eq!(est.max_speed(), s1);
    assert_eq!(est.window_bytes(), 1000);
}

#[test]
fn env_infer_does_not_panic() {
    let _ = Env::infer(true).default_filter();
    assert_ne!(Env::infer(true).default_filter(), Env::infer(false).default_filter());
    assert_eq!(level_label(LogLevel::Warn), "警告");
}

#[test]
fn a_resource_learns_from_a_plain_reply() {
    let mut r = Resource::new(3, false, "http://a/f".to_string(), None);
    assert_eq!(r.get_id(), 3);
    assert!(matches!(r.client_plan(), ClientPlan::Direct));
    let refused = PlainReply { ok: false, content_length: Some("5".to_string()), accept_ranges: None };
    assert_eq!(r.on_plain_reply(&refused), None);
    let reply = PlainReply {
        ok: true,
        content_length: Some("5".to_string()),
        accept_ranges: Some("Bytes".to_string()),
    };
    assert_eq!(r.on_plain_reply(&reply), Some(5));
    assert!(r.accept_ranges && r.support_pool);
    assert!(matches!(r.client_plan(), ClientPlan::Kept));
}

#[test]
fn a_resource_learns_from_its_first_byte() {
    let mut r = Resource::new(0, false, "http://a/f".to_string(), None);
    let nothing = FirstByteReply { content_range: None, content_length: None };
    assert!(matches!(
        r.on_first_byte_reply(&nothing),
        Err(DownloadError::MissingContentLength)
    ));
    let total = FirstByteReply {
        content_range: Some("bytes 0-0/77".to_string()),
        content_length: Some("1".to_string()),
    };
    assert_eq!(r.on_first_byte_reply(&total).unwrap(), 77);
    assert!(r.accept_ranges);
    let mut plain = Resource::new(0, false, "http://a/f".to_string(), None);
    let length = FirstByteReply {
        content_range: Some("bytes 0-0/*".to_string()),
        content_length: Some("9".to_string()),
    };
    assert_eq!(plain.on_first_byte_reply(&length).unwrap(), 9);
    assert!(!plain.accept_ranges);
}

#[test]
fn a_resource_goes_through_a_valid_proxy_only() {
    let good = Resource::new(
        0,
        false,
        "http://a/f".to_string(),
        Some("http://127.0.0.1:8080".to_string()),
    );
    assert!(matches!(good.client_plan(), ClientPlan::Proxied { .. }));
    let bad = Resource::new(0, false, "http://a/f".to_string(), Some("".to_string()));
    assert!(matches!(bad.client_plan(), ClientPlan::BadProxy { .. }));
}

#[test]
fn errors_have_messages() {
    let t = || "x".to_string();
    assert_eq!(DownloadError::Request(t()).message(), "网络请求失败: x");
    assert_eq!(DownloadError::Io(t()).message(), "文件 I/O 错误: x");
    assert_eq!(DownloadError::Join(t()).message(), "并发任务执行失败: x");
    assert_eq!(
        DownloadError::MissingContentLength.message(),
        "无法从服务器响应头中获取文件大小 (Content-Length)"
    );
    assert_eq!(DownloadError::NoAvailableSources.message(), "没有可用的下载源");
    assert_eq!(
        DownloadError::ResumeTargetMissing(t()).message(),
        "断点续传元数据存在，但目标文件不存在: x"
    );
    assert_eq!(DownloadError::ResumeMetadata(t()).message(), "断点续传元数据无效: x");
    assert_eq!(DownloadError::PermanentFailure(t()).message(), "下载失败，已达重试上限: x");
    assert_eq!(DownloadError::InvalidArgument(t()).message(), "无效参数: x");
}

#[test]
fn a_fault_of_the_writer_is_what_a_download_ends_with() {
    let disk = DownloadError::Io("no space left".to_string());
    let lost = DownloadError::PermanentFailure("writer closed".to_string());
    assert_eq!(settle(Err(lost.clone()), Err(disk.clone())), Err(disk.clone()));
    assert_eq!(settle(Ok(()), Err(disk.clone())), Err(disk));
    assert_eq!(settle(Err(lost.clone()), Ok(())), Err(lost));
    assert_eq!(settle(Ok(()), Ok(())), Ok(()));
}

fn update(total_size: u64, total_downloaded: u64) -> DownloadInfo {
    DownloadInfo::MonitorUpdate { total_size, total_downloaded, total_speed: 0, chunk_details: vec![] }
}

#[test]
fn an_empty_file_is_complete_and_a_stream_is_not() {
    assert!(update(0, 0).is_complete());
    assert!(!update(0, 10).is_complete());
    assert!(!update(10, 9).is_complete());
    assert!(update(10, 10).is_complete());
    assert!(!DownloadInfo::DownloadComplete(0).is_complete());
    assert_eq!(update(10, 9).total_bytes(), 10);
    assert_eq!(update(10, 9).downloaded_bytes(), 9);
    assert_eq!(DownloadInfo::DownloadComplete(3).total_bytes(), 0);
}

#[test]
fn test_get_file_info_head_success() {
    let h = head(Some("102400"), Some("bytes"));
    // The request for the first byte is refused.
    let r = range(501, None, Some("0"), None);
    assert!(!needs_cross_check(&r));
    assert_eq!(get_file_info(&h, &r, None), Ok((102400, true)));
}

#[test]
fn test_get_file_info_range_get_success() {
    let r = range(206, Some("bytes 0-0/102400"), Some("1"), Some(b'a'));
    assert_eq!(get_file_info(&None, &r, None), Ok((102400, true)));
}

#[test]
fn test_get_file_info_fallback_to_content_length() {
    let r = range(200, None, Some("102400"), Some(0));
    assert_eq!(get_file_info(&None, &r, None), Ok((102400, false)));
}

#[test]
fn lying_range_probe_is_distrusted() {
    let h = head(Some("5"), None);
    let r = range(206, Some("bytes 0-0/5"), None, None);
    assert_eq!(get_file_info(&h, &r, None), Err(DownloadError::MissingContentLength));
}

#[test]
fn incoherent_range_cache_is_distrusted() {
    let h = head(Some("5"), None);
    let r = range(206, Some("bytes 0-0/5"), None, Some(b'X'));
    assert!(needs_cross_check(&r));
    assert_eq!(get_file_info(&h, &r, Some(b'Y')), Err(DownloadError::MissingContentLength));
}

#[test]
fn coherent_range_cache_stays_ranged() {
    let h = head(Some("5"), None);
    let r = range(206, Some("bytes 0-0/5"), None, Some(b'H'));
    assert!(needs_cross_check(&r));
    assert_eq!(get_file_info(&h, &r, Some(b'H')), Ok((5, true)));
}

#[test]
fn missing_content_length_streaming_fallback() {
    let r = range(200, None, None, Some(b'c'));
    let url = "http://a/file".to_string();
    let probe = get_file_info(&head(None, None), &r, None);
    match single_course(probe, &url) {
        Course::Stream { url: u } => assert_eq!(u, url),
        other => panic!("{:?}", other),
    }
    let body = b"chunked-body-no-length-12345";
    let mut run = StreamRun::new();
    let mut disk = Vec::new();
    for piece in body.chunks(5) {
        let (offset, _) = run.on_bytes(piece.len() as u64).unwrap();
        assert_eq!(offset, disk.len() as u64);
        disk.extend_from_slice(piece);
    }
    assert_eq!(disk, body);
    let (update, complete) = run.finish();
    assert!(update.is_complete());
    assert_eq!(complete, DownloadInfo::DownloadComplete(0));
}

#[test]
fn zero_byte_still_works() {
    assert!(update(0, 0).is_complete());
    assert!(!update(0, 10).is_complete());
}

#[test]
fn invalid_zero_returns_error() {
    let d = builder().speed_limit(0).build();
    assert!(matches!(d.limiter_settings(), Err(DownloadError::InvalidArgument(_))));
}
