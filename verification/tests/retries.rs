use simple_downloader::retry::{FailedChunkInfo, RetryHandler};
use simple_downloader::state::{ChunkState, DownloadState};
use simple_downloader::types::DownloadInfo;

const SECOND: u64 = 1_000_000_000;

fn fail(h: &mut RetryHandler, state: &mut DownloadState, error: &str, now: u64) -> DownloadInfo {
    h.on_chunk_failed(1, 0, 999, error, state, now)
}

fn status(info: &DownloadInfo) -> u8 {
    match info {
        DownloadInfo::ChunkStatusChanged { status, .. } => *status,
        other => panic!("{:?}", other),
    }
}

fn message(info: &DownloadInfo) -> String {
    match info {
        DownloadInfo::ChunkStatusChanged { message: Some(m), .. } => m.clone(),
        other => panic!("{:?}", other),
    }
}

#[test]
fn retry_permanent_failure_unit() {
    let info = DownloadInfo::MonitorUpdate {
        total_size: 100,
        total_downloaded: 100,
        total_speed: 0,
        chunk_details: vec![],
    };
    assert!(info.is_complete());
    let zero = DownloadInfo::MonitorUpdate {
        total_size: 0,
        total_downloaded: 0,
        total_speed: 0,
        chunk_details: vec![],
    };
    assert!(zero.is_complete());
}

#[test]
fn state_complete_uses_size_not_downloaded() {
    let state = DownloadInfo::MonitorUpdate {
        total_size: 10,
        total_downloaded: 10,
        total_speed: 0,
        chunk_details: vec![],
    };
    let _ = state.is_complete();
    assert_eq!(state.downloaded_bytes(), 10);
    assert_eq!(state.total_bytes(), 10);
}

#[test]
fn ten_retries_come_soon_and_the_next_one_later() {
    let mut h = RetryHandler::new();
    let mut state = DownloadState::new(1000);
    let mut now = 0;
    for n in 1..=10 {
        let info = fail(&mut h, &mut state, "timeout", now);
        assert_eq!(status(&info), 2);
        assert_eq!(message(&info), format!("将进行第 {} 次重试 (共 10 次)", n));
        now += 100 * SECOND;
    }
    let info = fail(&mut h, &mut state, "timeout", now);
    assert_eq!(status(&info), 3);
    assert_eq!(message(&info), "将在 10s 后重试");
    assert_eq!(h.retry_queue_len(), 10);
    assert_eq!(h.delayed_queue_len(), 1);
}

#[test]
fn a_chunk_is_given_up_after_thirty_attempts() {
    let mut h = RetryHandler::new();
    let mut state = DownloadState::new(1000);
    for n in 0..30 {
        let info = fail(&mut h, &mut state, "timeout", n * 100 * SECOND);
        assert_ne!(status(&info), 5);
        assert!(!h.has_permanent_failure());
    }
    let info = fail(&mut h, &mut state, "timeout", 5000 * SECOND);
    assert_eq!(status(&info), 5);
    assert_eq!(message(&info), "永久失败，已重试 30 次: timeout");
    assert!(h.has_permanent_failure());
    assert!(h.permanent_failure_message().is_some());
    assert_eq!(h.total_attempts_for_test(1), 31);
}

#[test]
fn a_lost_writer_is_not_retried() {
    let mut h = RetryHandler::new();
    let mut state = DownloadState::new(1000);
    let info = fail(&mut h, &mut state, "write failed: writer closed", 0);
    assert_eq!(status(&info), 5);
    assert!(h.has_permanent_failure());
    assert_eq!(h.retry_queue_len(), 0);
}

#[test]
fn a_failed_chunk_keeps_what_it_received() {
    let mut h = RetryHandler::new();
    let mut state = DownloadState::new(1000);
    state.chunks.insert(ChunkState::new(1, 0, 999, 0));
    let _ = h.on_chunk_failed(1, 400, 999, "timeout", &mut state, 5);
    assert_eq!(state.completed_bytes, 400);
    assert!(state.chunks.is_empty());
    let c = h.pop_ready_chunk(5 + SECOND).unwrap();
    assert_eq!((c.id, c.start, c.end, c.attempts), (1, 400, 999, 1));
}

#[test]
fn a_retry_waits_for_its_delay() {
    let mut h = RetryHandler::new();
    let mut state = DownloadState::new(1000);
    let _ = fail(&mut h, &mut state, "timeout", 0);
    assert!(h.pop_ready_chunk(SECOND - 1).is_none());
    assert!(h.pop_ready_chunk(SECOND).is_some());
    assert!(h.are_all_tasks_done());
}

#[test]
fn success_starts_the_count_anew() {
    let mut h = RetryHandler::new();
    let mut state = DownloadState::new(1000);
    let _ = fail(&mut h, &mut state, "timeout", 0);
    let _ = fail(&mut h, &mut state, "timeout", 10 * SECOND);
    h.on_download_complete(&1);
    let info = fail(&mut h, &mut state, "timeout", 20 * SECOND);
    assert_eq!(message(&info), "将进行第 1 次重试 (共 10 次)");
}

#[test]
fn delayed_ranges_come_back_when_they_are_due() {
    let mut h = RetryHandler::new();
    let mut state = DownloadState::new(1000);
    for n in 0..11 {
        let _ = fail(&mut h, &mut state, "timeout", n * 100 * SECOND);
    }
    assert_eq!(h.delayed_queue_len(), 1);
    h.process_queues(1000 * SECOND + 9 * SECOND);
    assert_eq!(h.delayed_queue_len(), 1);
    h.process_queues(1000 * SECOND + 10 * SECOND);
    assert_eq!(h.delayed_queue_len(), 0);
    assert_eq!(h.retry_queue_len(), 11);
}

#[test]
fn draining_does_not_wait() {
    let mut h = RetryHandler::new();
    let mut state = DownloadState::new(1000);
    for n in 0..11 {
        let _ = fail(&mut h, &mut state, "timeout", n * 100 * SECOND);
    }
    h.force_drain_delayed(1000 * SECOND);
    assert_eq!(h.delayed_queue_len(), 0);
}

fn piece(id: u64, start: u64, end: u64) -> FailedChunkInfo {
    FailedChunkInfo { id, start, end, ready_at: 7, attempts: 1 }
}

#[test]
fn small_neighbours_are_fused() {
    let mut h = RetryHandler::new();
    h.push_back_retry(piece(2, 100, 199));
    h.push_back_retry(piece(1, 0, 99));
    h.push_back_retry(piece(3, 500, 599));
    h.coalesce_small_fragments();
    assert_eq!(h.retry_queue_len(), 2);
    let a = h.pop_ready_chunk(7).unwrap();
    assert_eq!((a.id, a.start, a.end), (1, 0, 199));
    let b = h.pop_ready_chunk_starved().unwrap();
    assert_eq!((b.id, b.start, b.end), (3, 500, 599));
}

#[test]
fn only_small_neighbours_are_fused() {
    let mut h = RetryHandler::new();
    h.push_back_retry(piece(1, 0, 524_287));
    h.push_back_retry(piece(2, 524_288, 624_287));
    h.coalesce_small_fragments();
    assert_eq!(h.retry_queue_len(), 2);
    let a = h.pop_ready_chunk(7).unwrap();
    assert_eq!((a.id, a.start, a.end), (1, 0, 524_287));
    let b = h.pop_ready_chunk(7).unwrap();
    assert_eq!((b.id, b.start, b.end), (2, 524_288, 624_287));
}

#[test]
fn fusing_twice_changes_nothing() {
    let mut h = RetryHandler::new();
    for i in 0..5 {
        h.push_back_retry(piece(i, i * 100_000, i * 100_000 + 99_999));
    }
    h.coalesce_small_fragments();
    // Three pieces make 300000 bytes, which is no longer small.
    assert_eq!(h.retry_queue_len(), 2);
    let once: Vec<FailedChunkInfo> = h.retry_queue.iter().cloned().collect();
    h.coalesce_small_fragments();
    let twice: Vec<FailedChunkInfo> = h.retry_queue.iter().cloned().collect();
    assert_eq!(once, twice);
}

#[test]
fn a_retry_can_be_put_back() {
    let mut h = RetryHandler::new();
    h.push_back_retry(piece(1, 0, 9));
    h.push_front_retry(piece(2, 10, 19));
    assert_eq!(h.pop_ready_chunk(7).unwrap().id, 2);
    let c = h.pop_ready_chunk(7).unwrap();
    h.push_back_retry_with_backoff(c, 100);
    assert!(h.pop_ready_chunk(100).is_none());
}
