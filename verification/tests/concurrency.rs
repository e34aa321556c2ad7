use simple_downloader::concurrency::{
    ConcurrencyManager, DownloadPhase, ObservationState, MIN_SPLIT_INTERVAL,
};
use simple_downloader::state::{ChunkState, DownloadState};
use simple_downloader::types::{ChunkId, DownloadCmd};

const NOW: u64 = 1_000_000_000_000;
const POLICY_COOLDOWN: u64 = 350_000_000;

/// Whole bytes per second, in thousandths.
fn bps(speed: f64) -> u64 {
    (speed * 1000.0) as u64
}

fn chunk(id: ChunkId, start: u64, end: u64, downloaded: u64, speed: f64) -> ChunkState {
    let mut chunk = ChunkState::new(id, start, end, NOW);
    chunk.downloaded_bytes = downloaded;
    chunk.speed = bps(speed);
    chunk
}

fn state_with(total_file_size: u64, chunks: Vec<ChunkState>) -> DownloadState {
    let mut state = DownloadState::new(total_file_size);
    for c in chunks {
        state.chunks.insert(c);
    }
    state
}

#[test]
fn stalled_chunk_gets_skewed_split_without_observation() {
    let mut manager = ConcurrencyManager::new(8);
    manager.phase = DownloadPhase::Stable;
    manager.max_speed = bps(10_000.0);
    manager.recent_best_speed = bps(10_000.0);
    manager.last_split_time = Some(NOW - MIN_SPLIT_INTERVAL);
    manager.speed_samples = vec![bps(5000.0), bps(5000.0), bps(5000.0)];
    let state = state_with(
        5_000_000,
        vec![
            chunk(1, 0, 60_000, 55_000, 9000.0),
            chunk(2, 60_001, 5_000_000 - 1, 1000, 6.0),
        ],
    );
    let cmd = manager.decide_and_act(&state, NOW);
    assert_eq!(cmd, Some(DownloadCmd::BisectDownloadSkewed { id: 2 }));
    assert_eq!(manager.observation_state, ObservationState::Ready);
}

#[test]
fn probing_phase_does_not_split_without_positive_speed_evidence() {
    let mut manager = ConcurrencyManager::new(4);
    manager.last_split_time = Some(NOW - MIN_SPLIT_INTERVAL);
    let state = state_with(100_000, vec![chunk(1, 0, 99_999, 0, 0.0)]);
    assert_eq!(manager.decide_and_act(&state, NOW), None);
}

#[test]
fn stable_phase_refreshes_max_speed_without_forcing_split() {
    let mut manager = ConcurrencyManager::new(2);
    manager.phase = DownloadPhase::Stable;
    manager.max_speed = bps(100.0);
    manager.last_split_time = Some(NOW - MIN_SPLIT_INTERVAL);
    manager.speed_samples = vec![bps(100.0), bps(100.0), bps(100.0)];
    let state = state_with(
        50_000,
        vec![
            chunk(1, 0, 19_999, 5_000, 7500.0),
            chunk(2, 20_000, 39_999, 5_000, 7500.0),
        ],
    );
    let cmd = manager.decide_and_act(&state, NOW);
    assert_eq!(manager.max_speed, bps(3825.0));
    assert_eq!(cmd, None);
}

#[test]
fn stable_phase_no_mechanical_refill_when_concurrency_not_full() {
    let mut manager = ConcurrencyManager::new(3);
    manager.phase = DownloadPhase::Stable;
    manager.max_speed = bps(10_000.0);
    manager.recent_best_speed = bps(10_000.0);
    manager.last_split_time = Some(NOW - MIN_SPLIT_INTERVAL);
    manager.speed_samples = vec![bps(1000.0), bps(1000.0), bps(1000.0)];
    let state = state_with(
        200_000,
        vec![
            chunk(1, 0, 60_000, 55_000, 5000.0),
            chunk(2, 60_001, 120_000, 15_000, 5000.0),
        ],
    );
    assert_eq!(manager.decide_and_act(&state, NOW), None);
}

#[test]
fn stable_phase_starts_observation_window_after_split() {
    let mut manager = ConcurrencyManager::new(3);
    manager.phase = DownloadPhase::Stable;
    manager.max_speed = bps(10_000.0);
    manager.recent_best_speed = bps(10_000.0);
    manager.last_split_time = Some(NOW - MIN_SPLIT_INTERVAL);
    manager.speed_samples = vec![bps(7000.0), bps(7000.0), bps(7000.0)];
    let state = state_with(
        5_000_000,
        vec![
            chunk(1, 0, 1_060_000, 55_000, 4000.0),
            chunk(2, 1_060_001, 2_120_000, 15_000, 3000.0),
        ],
    );
    assert_eq!(
        manager.decide_and_act(&state, NOW),
        Some(DownloadCmd::BisectDownload { id: 2 })
    );
    assert_eq!(manager.observation_state, ObservationState::Observing);

    manager.last_split_time = Some(NOW - MIN_SPLIT_INTERVAL);
    assert_eq!(manager.decide_and_act(&state, NOW), None);
    assert_eq!(manager.observation_state, ObservationState::Observing);

    manager.last_split_time = Some(NOW - MIN_SPLIT_INTERVAL);
    assert_eq!(manager.decide_and_act(&state, NOW), None);
    assert_eq!(manager.observation_state, ObservationState::Ready);
}

#[test]
fn stable_phase_combined_gain_gate_passes() {
    let mut manager = ConcurrencyManager::new(4);
    manager.phase = DownloadPhase::Stable;
    manager.max_speed = bps(10_000.0);
    manager.recent_best_speed = bps(10_000.0);
    manager.last_split_time = Some(NOW - MIN_SPLIT_INTERVAL);
    manager.speed_samples = vec![bps(7000.0), bps(7000.0), bps(7000.0)];
    let state1 = state_with(
        5_000_000,
        vec![
            chunk(1, 0, 1_060_000, 55_000, 4000.0),
            chunk(2, 1_060_001, 2_120_000, 15_000, 3000.0),
        ],
    );
    assert_eq!(
        manager.decide_and_act(&state1, NOW),
        Some(DownloadCmd::BisectDownload { id: 2 })
    );

    manager.last_split_time = Some(NOW - MIN_SPLIT_INTERVAL);
    let state2 = state_with(
        5_000_000,
        vec![
            chunk(1, 0, 60_000, 58_000, 4500.0),
            chunk(2, 60_001, 90_000, 10_000, 2250.0),
            chunk(3, 90_001, 120_000, 10_000, 2250.0),
        ],
    );
    manager.speed_samples = vec![bps(7000.0), bps(7000.0), bps(7000.0)];
    assert_eq!(manager.decide_and_act(&state2, NOW), None);

    manager.last_split_time = Some(NOW - MIN_SPLIT_INTERVAL);
    let state3 = state_with(
        5_000_000,
        vec![
            chunk(1, 0, 60_000, 60_000, 0.0),
            chunk(2, 60_001, 90_000, 20_000, 3500.0),
            chunk(3, 90_001, 120_000, 20_000, 3500.0),
            chunk(4, 120_001, 199_999, 10_000, 4000.0),
        ],
    );
    manager.speed_samples = vec![bps(7000.0), bps(9000.0), bps(11000.0)];
    let _ = manager.decide_and_act(&state3, NOW);
    assert_eq!(manager.recent_best_speed, bps(11000.0));
}

#[test]
fn stable_phase_combined_gain_gate_fails() {
    let mut manager = ConcurrencyManager::new(3);
    manager.phase = DownloadPhase::Stable;
    manager.max_speed = bps(10_000.0);
    manager.recent_best_speed = bps(10_000.0);
    manager.last_split_time = Some(NOW - MIN_SPLIT_INTERVAL);
    manager.speed_samples = vec![bps(7000.0), bps(7000.0), bps(7000.0)];
    let state1 = state_with(
        5_000_000,
        vec![
            chunk(1, 0, 1_060_000, 55_000, 4000.0),
            chunk(2, 1_060_001, 2_120_000, 15_000, 3000.0),
        ],
    );
    assert_eq!(
        manager.decide_and_act(&state1, NOW),
        Some(DownloadCmd::BisectDownload { id: 2 })
    );

    manager.last_split_time = Some(NOW - MIN_SPLIT_INTERVAL);
    let state2 = state_with(
        5_000_000,
        vec![
            chunk(1, 0, 60_000, 58_000, 4000.0),
            chunk(2, 60_001, 90_000, 10_000, 1750.0),
            chunk(3, 90_001, 120_000, 10_000, 1750.0),
        ],
    );
    manager.speed_samples = vec![bps(7000.0), bps(7000.0), bps(7000.0)];
    let _ = manager.decide_and_act(&state2, NOW);
    assert_eq!(manager.observation_state, ObservationState::Observing);

    manager.last_split_time = Some(NOW - MIN_SPLIT_INTERVAL);
    let _ = manager.decide_and_act(&state2, NOW);
    assert_eq!(manager.observation_state, ObservationState::Ready);

    manager.last_split_time = Some(NOW - MIN_SPLIT_INTERVAL);
    assert_eq!(manager.decide_and_act(&state2, NOW), None);
    assert_eq!(manager.observation_state, ObservationState::Ready);
}

#[test]
fn probing_phase_stops_after_consecutive_no_gain() {
    let mut manager = ConcurrencyManager::new(4);
    manager.last_split_time = Some(NOW - MIN_SPLIT_INTERVAL);
    manager.max_speed = bps(1000.0);
    manager.speed_samples = vec![bps(1000.0), bps(1000.0), bps(1000.0)];
    let state1 = state_with(
        5_000_000,
        vec![
            chunk(1, 0, 49_999, 25_000, 500.0),
            chunk(2, 50_000, 99_999, 25_000, 500.0),
        ],
    );
    let _ = manager.decide_and_act(&state1, NOW);
    assert_eq!(manager.phase, DownloadPhase::Stable);
    assert_eq!(manager.consecutive_probe_no_gain, 1);
}

#[test]
fn probing_does_not_split_without_throughput_evidence() {
    let mut manager = ConcurrencyManager::new(4);
    let state = state_with(200_000, vec![chunk(1, 0, 199_999, 0, 0.0)]);
    assert_eq!(manager.decide_and_act(&state, NOW + POLICY_COOLDOWN), None);
}

#[test]
fn reactive_refill_does_not_split_only_because_worker_slot_is_free() {
    let mut manager = ConcurrencyManager::new(2);
    let full_state = state_with(
        400_000,
        vec![
            chunk(1, 0, 199_999, 50_000, 100_000.0),
            chunk(2, 200_000, 399_999, 50_000, 100_000.0),
        ],
    );
    let mut now = NOW + POLICY_COOLDOWN;
    assert_eq!(manager.decide_and_act(&full_state, now), None);

    let one_idle_slot_without_benefit =
        state_with(400_000, vec![chunk(1, 0, 199_999, 50_000, 0.0)]);
    now += POLICY_COOLDOWN;
    assert_eq!(
        manager.decide_and_act(&one_idle_slot_without_benefit, now),
        None
    );
}

#[test]
fn stable_policy_does_not_split_near_completion() {
    let mut manager = ConcurrencyManager::new(2);
    let full_state = state_with(
        200_000,
        vec![
            chunk(1, 0, 99_999, 90_000, 50_000.0),
            chunk(2, 100_000, 199_999, 90_000, 50_000.0),
        ],
    );
    let mut now = NOW + POLICY_COOLDOWN;
    assert_eq!(manager.decide_and_act(&full_state, now), None);

    let nearly_complete = state_with(200_000, vec![chunk(1, 0, 199_999, 196_000, 50_000.0)]);
    now += POLICY_COOLDOWN;
    assert_eq!(manager.decide_and_act(&nearly_complete, now), None);
}

#[test]
fn steady_stable_speed_does_not_reprobe_against_stale_baseline() {
    let mut manager = ConcurrencyManager::new(3);
    let saturated_state = state_with(
        900_000,
        vec![
            chunk(1, 0, 299_999, 50_000, 150_000.0),
            chunk(2, 300_000, 599_999, 50_000, 150_000.0),
            chunk(3, 600_000, 899_999, 50_000, 150_000.0),
        ],
    );
    let mut now = NOW + POLICY_COOLDOWN;
    assert_eq!(manager.decide_and_act(&saturated_state, now), None);

    let steady_state_with_idle_slot = state_with(
        900_000,
        vec![
            chunk(1, 0, 299_999, 50_000, 150_000.0),
            chunk(2, 300_000, 599_999, 50_000, 150_000.0),
        ],
    );
    for _ in 0..4 {
        now += POLICY_COOLDOWN;
        assert_eq!(manager.decide_and_act(&steady_state_with_idle_slot, now), None);
    }
}

#[test]
fn split_target_prefers_remaining_splittable_work_over_original_size() {
    let mut manager = ConcurrencyManager::new(3);
    let saturated_state = state_with(
        1_600_000,
        vec![
            chunk(1, 0, 999_999, 900_000, 25_000.0),
            chunk(2, 1_000_000, 1_499_999, 0, 25_000.0),
            chunk(3, 1_500_000, 1_599_999, 0, 25_000.0),
        ],
    );
    let mut now = NOW + POLICY_COOLDOWN;
    assert_eq!(manager.decide_and_act(&saturated_state, now), None);

    let refill_state = state_with(
        1_600_000,
        vec![
            chunk(1, 0, 999_999, 989_760, 25_000.0),
            chunk(2, 1_000_000, 1_499_999, 0, 25_000.0),
        ],
    );
    now += POLICY_COOLDOWN;
    assert_eq!(
        manager.decide_and_act(&refill_state, now),
        Some(DownloadCmd::BisectDownload { id: 2 })
    );
}

#[test]
fn no_decision_before_the_interval_has_passed() {
    let mut manager = ConcurrencyManager::new(8);
    manager.last_split_time = Some(NOW);
    let state = state_with(50_000_000, vec![chunk(1, 0, 49_999_999, 1_000_000, 500_000.0)]);
    assert_eq!(manager.decide_and_act(&state, NOW), None);
}

#[test]
fn a_growing_download_is_split_while_probing() {
    let mut manager = ConcurrencyManager::new(8);
    let state = state_with(50_000_000, vec![chunk(1, 0, 49_999_999, 1_000_000, 500_000.0)]);
    let mut now = NOW;
    let mut seen = None;
    for _ in 0..6 {
        now += POLICY_COOLDOWN;
        if let Some(cmd) = manager.decide_and_act(&state, now) {
            seen = Some(cmd);
            break;
        }
    }
    assert_eq!(seen, Some(DownloadCmd::BisectDownload { id: 1 }));
}

#[test]
fn commands_keep_their_distance() {
    let mut manager = ConcurrencyManager::new(64);
    let state = state_with(50_000_000, vec![chunk(1, 0, 49_999_999, 1_000_000, 500_000.0)]);
    let mut times = Vec::new();
    for i in 0..400 {
        let now = u64::MAX - (400 - i) * 10_000_000;
        if manager.decide_and_act(&state, now).is_some() {
            times.push(now);
        }
    }
    assert!(!times.is_empty());
    for pair in times.windows(2) {
        assert!(pair[1] - pair[0] >= MIN_SPLIT_INTERVAL);
    }
}

#[test]
fn worker_limit_is_at_least_one() {
    let mut manager = ConcurrencyManager::new(8);
    assert_eq!(manager.max_workers(), 8);
    manager.set_max_workers(0);
    assert_eq!(manager.max_workers(), 1);
}

#[test]
fn samples_follow_the_interval() {
    let samples = ConcurrencyManager::required_samples_for_interval;
    assert_eq!(samples(500_000_000), 2);
    assert_eq!(samples(300_000_000), 4);
    assert_eq!(samples(1), 5);
    assert_eq!(samples(10_000_000_000), 2);
}

#[test]
fn larger_files_are_split_closer_to_their_end() {
    let threshold = ConcurrencyManager::adaptive_remaining_threshold;
    assert_eq!(threshold(20 * 1024 * 1024, 2), 80);
    assert_eq!(threshold(10 * 1024 * 1024, 2), 100);
    assert_eq!(threshold(5 * 1024 * 1024, 2), 120);
    assert_eq!(threshold(1024 * 1024, 2), 180);
    assert_eq!(threshold(1000, 2), 300);
    assert_eq!(threshold(1000, 1), 120);
}
