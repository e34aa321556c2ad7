use simple_downloader::config::RuntimeConfig;
use simple_downloader::downloader::{begin, split_resume_ranges};
use simple_downloader::limiter::LimiterSettings;
use simple_downloader::monitor::{
    is_reliable_event, DownloadMonitor, LimiterChange, MonitorAction, MonitorEvent, Verdict,
};
use simple_downloader::types::{DownloadCmd, DownloadError, DownloadInfo};

const SECOND: u64 = 1_000_000_000;
const HALF: u64 = 500_000_000;
const MIB: u64 = 1024 * 1024;

fn spawns(actions: &[MonitorAction]) -> Vec<(u64, u64, u64)> {
    actions
        .iter()
        .filter_map(|a| match a {
            MonitorAction::Spawn { id, start, end, .. } => Some((*id, *start, *end)),
            _ => None,
        })
        .collect()
}

fn running(file_size: u64, ranges: Vec<(u64, u64)>, completed: u64) -> DownloadMonitor {
    let (m, _) = begin(file_size, true, 4, HALF, None, None, ranges, completed, 0);
    m
}

#[test]
fn apply_config_updates_and_disables_global_limiter() {
    let mut monitor = DownloadMonitor::new(1, HALF, 1);
    let limited = RuntimeConfig {
        workers: 2,
        update_interval: SECOND,
        speed_limit: Some(1024),
        burst: Some(1024),
    };

    let settings = LimiterSettings { bytes_per_sec: 1024, burst: 1024 };
    assert_eq!(monitor.apply_config(&limited), LimiterChange::Install { settings });

    assert_eq!(monitor.update_interval, SECOND);
    assert!(monitor.is_rate_limited);
    assert_eq!(monitor.global_limiter, Some(settings));
    assert_eq!(monitor.concurrency_manager.max_workers(), 2);
    assert_eq!(monitor.apply_config(&limited), LimiterChange::Reconfigure { settings });

    let change = monitor.apply_config(&RuntimeConfig { speed_limit: None, burst: None, ..limited });

    assert_eq!(change, LimiterChange::Disable);
    assert!(!monitor.is_rate_limited);
    assert!(monitor.global_limiter.is_none());
}

#[test]
fn invalid_limits_change_nothing() {
    let mut monitor = DownloadMonitor::new(1, HALF, 1);
    let bad = RuntimeConfig { workers: 0, update_interval: 0, speed_limit: None, burst: Some(1) };
    assert_eq!(monitor.apply_config(&bad), LimiterChange::Keep);
    assert_eq!(monitor.update_interval, HALF);
    assert_eq!(monitor.concurrency_manager.max_workers(), 1);
}

#[test]
fn a_download_starts_with_its_ranges() {
    let (m, acts) = begin(4 * MIB, true, 4, HALF, None, None, vec![(0, 4 * MIB - 1)], 0, 0);
    assert_eq!(spawns(&acts), vec![(0, 0, 4 * MIB - 1)]);
    assert_eq!(m.concurrency_manager.max_workers(), 4);
    // A small file is requested over one connection.
    let (small, _) = begin(1000, true, 4, HALF, None, None, vec![(0, 999)], 0, 0);
    assert_eq!(small.concurrency_manager.max_workers(), 1);
}

#[test]
fn a_download_is_complete_when_its_chunks_are() {
    let mut m = running(1000, vec![(0, 499), (500, 999)], 0);
    let acts = m.handle_download_info(DownloadInfo::DownloadComplete(0), 1);
    assert_eq!(acts.len(), 1);
    assert!(!m.on_task_joined(0));
    let _ = m.handle_download_info(DownloadInfo::DownloadComplete(1), 2);
    assert!(!m.on_task_joined(1));
    assert!(m.on_task_joined(0));
    let (_, done) = m.handle_tick(HALF, 0, 3);
    assert!(done);
    assert!(m.failure().is_none());
}

#[test]
fn a_tick_without_time_does_nothing() {
    let mut m = running(1000, vec![(0, 999)], 0);
    let (acts, done) = m.handle_tick(0, 0, 3);
    assert!(acts.is_empty());
    assert!(!done);
}

#[test]
fn progress_is_reported_with_every_tick() {
    let mut m = running(1000, vec![(0, 999)], 0);
    let _ = m.handle_download_info(
        DownloadInfo::ChunkProgress { id: 0, start_byte: 0, end_byte: 999, downloaded: 400 },
        1,
    );
    let (acts, _) = m.handle_tick(SECOND, 1, 2);
    match &acts[0] {
        MonitorAction::Notify(DownloadInfo::MonitorUpdate {
            total_size,
            total_downloaded,
            total_speed,
            chunk_details,
        }) => {
            assert_eq!((*total_size, *total_downloaded), (1000, 400));
            assert_eq!(*total_speed, 120_000);
            assert_eq!(*chunk_details, vec![(0, 1000, 400, 120_000, 0)]);
        }
        other => panic!("{:?}", other),
    }
}

fn progress(id: u64, start_byte: u64, end_byte: u64, downloaded: u64) -> DownloadInfo {
    DownloadInfo::ChunkProgress { id, start_byte, end_byte, downloaded }
}

#[test]
fn late_progress_is_ignored() {
    let mut m = running(1000, vec![(0, 499), (500, 999)], 0);
    let _ = m.handle_download_info(DownloadInfo::DownloadComplete(0), 1);
    // The chunk has ended.
    assert!(m.handle_download_info(progress(0, 0, 499, 400), 2).is_empty());
    assert_eq!(m.state.total_downloaded(), 500);
    assert!(m.state.chunks.get(0).is_none());
    let _ = m.handle_download_info(
        DownloadInfo::ChunkFailed { id: 1, start: 600, end: 999, error: "timeout".to_string() },
        2,
    );
    let _ = m.handle_tick(SECOND, 0, 3 * SECOND);
    // The chunk is tried again, and this comes from the attempt before.
    assert!(m.handle_download_info(progress(1, 500, 999, 100), 4 * SECOND).is_empty());
    assert_eq!(m.state.total_downloaded(), 600);
    let _ = m.handle_download_info(progress(1, 600, 999, 50), 4 * SECOND);
    assert_eq!(m.state.total_downloaded(), 650);
}

#[test]
fn the_first_progress_of_a_chunk_puts_it_into_the_table() {
    let mut m = DownloadMonitor::new(1000, HALF, 4);
    assert!(m.handle_download_info(progress(7, 100, 899, 40), 5).is_empty());
    let c = m.state.chunks.get(7).unwrap();
    assert_eq!((c.start_byte, c.end_byte, c.downloaded_bytes), (100, 899, 40));
    // The end follows the reports, up and down.
    let _ = m.handle_download_info(progress(7, 100, 599, 50), 6);
    assert_eq!(m.state.chunks.get(7).unwrap().end_byte, 599);
    let _ = m.handle_download_info(progress(7, 100, 799, 60), 7);
    assert_eq!(m.state.chunks.get(7).unwrap().end_byte, 799);
    let _ = m.handle_download_info(DownloadInfo::DownloadComplete(7), 8);
    assert_eq!(m.state.completed_bytes, 700);
}

#[test]
fn a_failed_chunk_is_retried_where_it_stopped() {
    let mut m = running(1000, vec![(0, 999)], 0);
    let _ = m.handle_download_info(
        DownloadInfo::ChunkFailed { id: 0, start: 300, end: 999, error: "timeout".to_string() },
        0,
    );
    assert_eq!(m.state.completed_bytes, 300);
    let (early, _) = m.handle_tick(HALF, 0, HALF);
    assert!(spawns(&early).is_empty());
    let (acts, done) = m.handle_tick(HALF, 0, 2 * SECOND);
    assert_eq!(spawns(&acts), vec![(0, 300, 999)]);
    assert!(!done);
    assert!(acts.iter().any(|a| matches!(
        a,
        MonitorAction::Notify(DownloadInfo::ChunkStatusChanged { id: 0, status: 1, message: Some(t) })
            if t == "正在进行第 1 次重试"
    )));
    let _ = m.handle_download_info(DownloadInfo::DownloadComplete(0), 3 * SECOND);
    assert!(m.on_task_joined(0));
}

#[test]
fn a_split_range_becomes_a_chunk_of_its_own() {
    let mut m = running(1000, vec![(0, 999)], 0);
    let acts = m.handle_download_info(
        DownloadInfo::ChunkBisected { original_id: 0, new_start: 600, new_end: 999 },
        1,
    );
    assert_eq!(spawns(&acts), vec![(1, 600, 999)]);
    // The chunk tells its new end itself, but counts only with what it kept.
    assert_eq!(m.state.chunks.get(0).unwrap().end_byte, 999);
    let _ = m.handle_download_info(DownloadInfo::DownloadComplete(0), 2);
    let _ = m.handle_download_info(DownloadInfo::DownloadComplete(1), 3);
    assert_eq!(m.state.completed_bytes, 1000);
    assert!(m.on_task_joined(0));
}

#[test]
fn a_split_chunk_counts_with_what_it_kept() {
    for told in [599, 999] {
        let mut m = running(1000, vec![(0, 999)], 0);
        let _ = m.handle_download_info(
            DownloadInfo::ChunkBisected { original_id: 0, new_start: 600, new_end: 999 },
            1,
        );
        let _ = m.handle_download_info(progress(0, 0, told, 300), 2);
        assert_eq!(m.state.chunks.get(0).unwrap().end_byte, told);
        let _ = m.handle_download_info(
            DownloadInfo::ChunkBisected { original_id: 0, new_start: 400, new_end: 599 },
            3,
        );
        let _ = m.handle_download_info(DownloadInfo::DownloadComplete(0), 4);
        assert_eq!(m.state.completed_bytes, 400);
    }
}

#[test]
fn a_lost_writer_ends_the_download() {
    let mut m = running(1000, vec![(0, 999)], 0);
    let _ = m.handle_download_info(
        DownloadInfo::ChunkFailed { id: 0, start: 0, end: 999, error: "writer closed".to_string() },
        0,
    );
    assert!(matches!(m.failure(), Some(DownloadError::PermanentFailure(_))));
}

#[test]
fn a_limited_download_is_not_split() {
    let limit = Some(LimiterSettings { bytes_per_sec: 1000, burst: 1000 });
    let (mut m, _) = begin(50 * MIB, true, 8, HALF, limit, None, vec![(0, 50 * MIB - 1)], 0, 0);
    assert!(m.is_rate_limited);
    let mut now = 0;
    let mut got = 0;
    for _ in 0..20 {
        now += HALF;
        got += MIB;
        let _ = m.handle_download_info(
            DownloadInfo::ChunkProgress {
                id: 0,
                start_byte: 0,
                end_byte: 50 * MIB - 1,
                downloaded: got,
            },
            now,
        );
        let (acts, _) = m.handle_tick(HALF, 1, now);
        assert!(!acts.iter().any(|a| matches!(a, MonitorAction::Command(_))));
    }
}

#[test]
fn an_unlimited_download_is_split() {
    let mut m = running(50 * MIB, vec![(0, 50 * MIB - 1)], 0);
    let mut now = 0;
    let mut got = 0;
    let mut split = false;
    for _ in 0..20 {
        now += HALF;
        got += MIB;
        let _ = m.handle_download_info(
            DownloadInfo::ChunkProgress {
                id: 0,
                start_byte: 0,
                end_byte: 50 * MIB - 1,
                downloaded: got,
            },
            now,
        );
        let (acts, _) = m.handle_tick(HALF, 1, now);
        split = split
            || acts.iter().any(|a| {
                matches!(a, MonitorAction::Command(DownloadCmd::BisectDownload { id: 0 }))
            });
    }
    assert!(split);
}

#[test]
fn lost_reports_are_counted() {
    let mut m = running(1000, vec![(0, 999)], 0);
    let info = m.on_lagged(5);
    assert_eq!(m.lagged_count, 5);
    assert!(matches!(info, DownloadInfo::MonitorUpdate { .. }));
    let _ = m.on_lagged(u64::MAX);
    assert_eq!(m.lagged_count, u64::MAX);
}

#[test]
fn what_changes_the_chunks_must_not_get_lost() {
    assert!(is_reliable_event(&DownloadInfo::DownloadComplete(1)));
    assert!(is_reliable_event(&DownloadInfo::ChunkBisected {
        original_id: 0,
        new_start: 1,
        new_end: 2
    }));
    assert!(!is_reliable_event(&DownloadInfo::ChunkProgress {
        id: 0,
        start_byte: 0,
        end_byte: 1,
        downloaded: 1
    }));
}

#[test]
fn the_balance_holds_through_failures_and_splits() {
    let size = 100_000;
    let mut m = running(size, vec![(0, size - 1)], 0);
    let outstanding = |m: &DownloadMonitor| -> u64 {
        let active: u64 = m.state.chunks.entries.iter().map(|c| c.held() - c.start_byte + 1).sum();
        let waiting: u64 = m.pending_bisects.iter().map(|(s, e)| e - s + 1).sum();
        let retries: u64 = m.retry_handler.retry_queue.iter().map(|c| c.end - c.start + 1).sum();
        let delayed: u64 = m
            .retry_handler
            .delayed_retry_queue
            .iter()
            .map(|d| d.chunk.end - d.chunk.start + 1)
            .sum();
        active + waiting + retries + delayed
    };
    let _ = m.handle_download_info(
        DownloadInfo::ChunkBisected { original_id: 0, new_start: 50_000, new_end: size - 1 },
        1,
    );
    assert_eq!(m.state.completed_bytes + outstanding(&m), size);
    let _ = m.handle_download_info(
        DownloadInfo::ChunkFailed { id: 1, start: 70_000, end: size - 1, error: "x".to_string() },
        2,
    );
    assert_eq!(m.state.completed_bytes, 20_000);
    assert_eq!(m.state.completed_bytes + outstanding(&m), size);
    let _ = m.handle_tick(HALF, 1, 5 * SECOND);
    assert_eq!(m.state.completed_bytes + outstanding(&m), size);
    let _ = m.handle_download_info(DownloadInfo::DownloadComplete(0), 6 * SECOND);
    let _ = m.handle_download_info(DownloadInfo::DownloadComplete(1), 6 * SECOND);
    assert_eq!(m.state.completed_bytes, size);
    assert!(m.are_all_tasks_done());
}

#[test]
fn split_resume_ranges_caps_initial_ranges_to_worker_count() {
    let ranges = vec![(0, 9), (20, 29)];

    let split = split_resume_ranges(ranges, 2, true);

    assert_eq!(split.len(), 2);
    assert_eq!(split, vec![(0, 9), (20, 29)]);
}

#[test]
fn first_ranges_are_halved_for_several_sources() {
    let whole = vec![(0, 4 * MIB - 1)];
    assert_eq!(split_resume_ranges(whole.clone(), 4, false), whole);
    assert_eq!(
        split_resume_ranges(whole.clone(), 4, true),
        vec![
            (0, MIB - 1),
            (MIB, 2 * MIB - 1),
            (2 * MIB, 3 * MIB - 1),
            (3 * MIB, 4 * MIB - 1)
        ]
    );
    // Of several longest ranges the last one is cut.
    assert_eq!(
        split_resume_ranges(whole, 3, true),
        vec![(0, 2 * MIB - 1), (2 * MIB, 3 * MIB - 1), (3 * MIB, 4 * MIB - 1)]
    );
    assert_eq!(split_resume_ranges(vec![(0, 20_000)], 8, true), vec![(0, 20_000)]);
    assert_eq!(split_resume_ranges(vec![], 8, true), vec![]);
}

#[test]
fn events_drive_a_download_to_its_end() {
    let mut m = running(1000, vec![(0, 999)], 0);
    let report = DownloadInfo::ChunkProgress { id: 0, start_byte: 0, end_byte: 999, downloaded: 400 };
    let (acts, verdict) = m.on_event(MonitorEvent::Broadcast(report), 1);
    assert!(acts.is_empty() && matches!(verdict, Verdict::GoOn));
    assert_eq!(m.state.total_downloaded(), 400);
    // What also comes the reliable way is not taken from the broadcast.
    let _ = m.on_event(MonitorEvent::Broadcast(DownloadInfo::DownloadComplete(0)), 2);
    assert_eq!(m.state.total_downloaded(), 400);
    let (_, verdict) = m.on_event(MonitorEvent::TaskJoined { running: 0 }, 3);
    assert!(matches!(verdict, Verdict::GoOn));
    let (acts, verdict) = m.on_event(MonitorEvent::Lagged { skipped: 5 }, 3);
    assert_eq!((acts.len(), m.lagged_count), (1, 5));
    assert!(matches!(verdict, Verdict::GoOn));
    let _ = m.on_event(MonitorEvent::Reliable(DownloadInfo::DownloadComplete(0)), 4);
    let (_, verdict) = m.on_event(MonitorEvent::Tick { elapsed: HALF, running: 1 }, 5);
    assert!(matches!(verdict, Verdict::GoOn));
    let (_, verdict) = m.on_event(MonitorEvent::Tick { elapsed: 0, running: 0 }, 5);
    assert!(matches!(verdict, Verdict::GoOn));
    let (_, verdict) = m.on_event(MonitorEvent::Tick { elapsed: HALF, running: 0 }, 6);
    assert!(matches!(verdict, Verdict::Done));
}

#[test]
fn a_download_that_fails_for_good_stops_its_chunks() {
    let mut m = running(1000, vec![(0, 999)], 0);
    let failed =
        DownloadInfo::ChunkFailed { id: 0, start: 0, end: 999, error: "writer closed".to_string() };
    let (acts, verdict) = m.on_event(MonitorEvent::Reliable(failed), 0);
    assert!(matches!(verdict, Verdict::Failed(DownloadError::PermanentFailure(_))));
    assert!(matches!(acts.last(), Some(MonitorAction::Command(DownloadCmd::TerminateAll))));
    let mut m = running(1000, vec![(0, 999)], 0);
    let (_, verdict) = m.on_event(MonitorEvent::Closed, 0);
    assert!(matches!(verdict, Verdict::Done));
}
