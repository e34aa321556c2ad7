use simple_downloader::state::{ChunkState, DownloadState, MAX_CHUNK_SPEED};

const TENTH: u64 = 100_000_000;

#[test]
fn regression_card_complete_uses_size_not_stale_downloaded() {
    let mut state = DownloadState::with_completed(1000, 0);
    let chunk_id = 1;
    state.chunks.insert(ChunkState::new(chunk_id, 0, 999, 0));
    state.complete_chunk(chunk_id);
    assert_eq!(state.completed_bytes, 1000, "should use size() not stale 0");
    assert!(state.is_download_finished(), "should be finished after size add");
    assert_eq!(state.total_downloaded(), 1000);
}

#[test]
fn regression_preserve_exact_avoids_throttle_gap() {
    let mut state = DownloadState::with_completed(1000, 0);
    let chunk_id = 2;
    let mut chunk = ChunkState::new(chunk_id, 0, 999, 0);
    chunk.update_downloaded(400, 1);
    state.chunks.insert(chunk);
    state.preserve_partial_exact(chunk_id, 600);
    assert_eq!(state.completed_bytes, 600);
    state.chunks.remove(chunk_id);
    assert_eq!(state.total_downloaded(), 600);
}

#[test]
fn regression_speed_guard_tiny_elapsed() {
    let mut chunk = ChunkState::new(1, 0, 9999, 0);
    chunk.update_downloaded(100 * 1024, 1);
    chunk.update_speed(1_000_000, 30);
    assert_eq!(chunk.speed, 0, "tiny elapsed should be ignored");
    chunk.update_speed(5 * TENTH, 30);
    assert!(chunk.speed > 0 && chunk.speed < 1_000_000_000 * 1000);
    // 30% of 204800 bytes per second.
    assert_eq!(chunk.speed, 61_440_000);
}

#[test]
fn regression_speed_cap() {
    let mut chunk = ChunkState::new(1, 0, 10_000_000, 0);
    chunk.update_downloaded(2 * 1024 * 1024 * 1024, 1);
    chunk.update_speed(5 * TENTH, 30);
    assert!(chunk.speed <= 1024 * 1024 * 1024 * 1000 + 1000, "should be capped at 1GiB/s");
    assert_eq!(chunk.speed, MAX_CHUNK_SPEED * 30 / 100);
}

#[test]
fn regression_speed_zero_delta_no_spike() {
    let mut chunk = ChunkState::new(1, 0, 1000, 0);
    chunk.update_downloaded(100, 1);
    chunk.update_speed(5 * TENTH, 30);
    let speed1 = chunk.speed;
    chunk.update_speed(5 * TENTH, 30);
    assert_eq!(chunk.speed, speed1, "zero delta should not change speed");
}

#[test]
fn high_concurrency_does_not_stall_at_100() {
    let file_size: u64 = 2 * 1024 * 1024;
    let chunk_size = file_size / 8;
    let mut state = DownloadState::with_completed(file_size, 0);
    for i in 0..8 {
        let start = i * chunk_size;
        let mut end = start + chunk_size - 1;
        if i == 7 {
            end = file_size - 1;
        }
        state.chunks.insert(ChunkState::new(i, start, end, 0));
    }
    assert_eq!(state.total_downloaded(), 0);
    for i in 0..8 {
        state.complete_chunk(i);
    }
    assert!(state.is_download_finished(), "card 100% should be finished via size()");
    assert_eq!(state.total_downloaded(), file_size);
}

#[test]
fn speed_does_not_spike_on_tiny_elapsed() {
    let mut chunk = ChunkState::new(1, 0, 999_999, 0);
    chunk.update_downloaded(500 * 1024, 1);
    let before = chunk.speed;
    chunk.update_speed(1_000_000, 30);
    assert_eq!(chunk.speed, before, "tiny elapsed should not spike");

    let mut chunk2 = ChunkState::new(2, 0, 3_000_000_000, 0);
    chunk2.update_downloaded(2 * 1024 * 1024 * 1024, 1);
    chunk2.update_speed(5 * TENTH, 30);
    assert!(chunk2.speed <= 1024 * 1024 * 1024 * 1000 + 1000, "speed should be capped");
}

#[test]
fn progress_speed_stable_under_high_throughput() {
    let mut chunk = ChunkState::new(1, 0, 10 * 1024 * 1024 - 1, 0);
    for step in 1..=5 {
        chunk.update_downloaded(step * 2 * 1024 * 1024, step);
        chunk.update_speed(5 * TENTH, 30);
        assert!(
            chunk.speed < 500 * 1024 * 1024 * 1000,
            "speed spike too high at step {}: {}",
            step,
            chunk.speed
        );
    }
    let before = chunk.speed;
    chunk.update_speed(5 * TENTH, 30);
    assert_eq!(chunk.speed, before);
}

#[test]
fn speeds_are_smoothed() {
    let mut chunk = ChunkState::new(1, 0, 999_999, 0);
    chunk.update_downloaded(1000, 1);
    chunk.update_speed(10 * TENTH, 30);
    assert_eq!(chunk.speed, 300_000);
    chunk.update_downloaded(2000, 2);
    chunk.update_speed(10 * TENTH, 30);
    assert_eq!(chunk.speed, 510_000);
}

#[test]
fn completion_accounts_for_the_whole_chunk() {
    let mut state = DownloadState::with_completed(1000, 0);
    let mut c = ChunkState::new(7, 0, 499, 0);
    c.update_downloaded(200, 1);
    state.chunks.insert(c);
    assert_eq!(state.total_downloaded(), 200);
    state.complete_chunk(7);
    assert_eq!(state.total_downloaded(), 500);
    assert!(!state.is_download_finished());
}

#[test]
fn completed_bytes_are_capped_at_the_file_size() {
    let state = DownloadState::with_completed(1000, 5000);
    assert_eq!(state.completed_bytes, 1000);
    assert!(state.is_download_finished());
}

#[test]
fn a_chunk_tells_its_size_and_what_is_left() {
    let mut c = ChunkState::new(1, 100, 299, 0);
    assert_eq!(c.size(), 200);
    c.update_downloaded(150, 1);
    assert_eq!(c.remaining_bytes(), 50);
    assert!(c.is_splittable(25));
    assert!(!c.is_splittable(26));
    c.update_end_byte(199);
    assert_eq!(c.size(), 100);
    assert_eq!(c.remaining_bytes(), 0);
}

#[test]
fn progress_time_moves_only_with_new_bytes() {
    let mut c = ChunkState::new(1, 0, 999, 5);
    c.update_downloaded(10, 20);
    assert_eq!(c.last_progress_at, 20);
    c.update_downloaded(10, 30);
    assert_eq!(c.last_progress_at, 20);
}
