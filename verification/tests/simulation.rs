//! Whole downloads, with a server and a disk in memory.

use simple_downloader::chunk::{ChunkAction, ChunkEvent, ChunkRun};
use simple_downloader::downloader::begin;
use simple_downloader::monitor::{
    is_reliable_event, DownloadMonitor, MonitorAction, MonitorEvent, Verdict,
};
use simple_downloader::resume::{FoundLedger, ResumeMetadata, ResumePlan, ResumeRecorder};
use simple_downloader::source::{
    expand_lanes, LaneRuntime, MultiRuntime, MultiSourceConfig, ProbeBoard, SourceConfig,
};
use simple_downloader::types::{DownloadCmd, DownloadError, DownloadInfo};
use simple_downloader::writer::WriteBuffer;

const SECOND: u64 = 1_000_000_000;
const STEP: u64 = 10_000_000;

fn deterministic_bytes(len: usize) -> Vec<u8> {
    (0..len).map(|i| (i % 251) as u8).collect()
}

/// A running chunk, with what its connection still delivers.
struct Connection {
    run: ChunkRun,
    body: Vec<u8>,
    sent: usize,
    commands: Vec<DownloadCmd>,
    ended: bool,
}

struct World {
    file: Vec<u8>,
    disk: Vec<u8>,
    monitor: DownloadMonitor,
    connections: Vec<Connection>,
    buffer: WriteBuffer,
    recorder: Option<ResumeRecorder>,
    now: u64,
    last_tick: u64,
    /// Bytes that a connection delivers per step.
    rate: usize,
    /// The first reply that is longer than this ends there.
    cut: Option<usize>,
    requests: Vec<(Option<usize>, u64, u64)>,
    failures: usize,
    verdict: Option<Verdict>,
}

impl World {
    fn new(file: Vec<u8>, monitor: DownloadMonitor, rate: usize) -> Self {
        World {
            file,
            disk: Vec::new(),
            monitor,
            connections: Vec::new(),
            buffer: WriteBuffer::new(),
            recorder: None,
            now: 0,
            last_tick: 0,
            rate,
            cut: None,
            requests: Vec::new(),
            failures: 0,
            verdict: None,
        }
    }

    fn put(&mut self, offset: u64, data: &[u8]) {
        let end = offset as usize + data.len();
        if self.disk.len() < end {
            self.disk.resize(end, 0);
        }
        self.disk[offset as usize..end].copy_from_slice(data);
        if let Some(recorder) = self.recorder.as_mut() {
            let complete = recorder.record_write(offset, data.len() as u64);
            for index in complete {
                let s = recorder.metadata.segments[index];
                recorder.complete_segment(index, &self.disk[s.start as usize..=s.end as usize]);
            }
        }
    }

    fn running(&self) -> usize {
        self.connections.iter().filter(|c| !c.ended).count()
    }

    fn perform(&mut self, actions: Vec<MonitorAction>) {
        for action in actions {
            match action {
                MonitorAction::Notify(_) => {}
                MonitorAction::Command(cmd) => {
                    for c in self.connections.iter_mut().filter(|c| !c.ended) {
                        c.commands.push(cmd.clone());
                    }
                }
                MonitorAction::Spawn { id, start, end, lane } => {
                    self.requests.push((lane.map(|l| l.runtime), start, end));
                    let mut body = self.file[start as usize..=end as usize].to_vec();
                    if let Some(cut) = self.cut {
                        if body.len() > cut {
                            body.truncate(cut);
                            self.cut = None;
                        }
                    }
                    self.connections.push(Connection {
                        run: ChunkRun::begin(id, start, end, self.now),
                        body,
                        sent: 0,
                        commands: Vec::new(),
                        ended: false,
                    });
                    let answer = ChunkEvent::Answered {
                        status: 206,
                        content_range: Some(format!("bytes {}-{}/{}", start, end, self.file.len())),
                    };
                    self.feed(self.connections.len() - 1, answer, &[]);
                }
            }
        }
    }

    fn tell(&mut self, event: MonitorEvent) {
        if self.verdict.is_some() {
            return;
        }
        let (actions, verdict) = self.monitor.on_event(event, self.now);
        self.perform(actions);
        if !matches!(verdict, Verdict::GoOn) {
            self.verdict = Some(verdict);
        }
    }

    fn report(&mut self, info: DownloadInfo) {
        if matches!(info, DownloadInfo::ChunkFailed { .. }) {
            self.failures += 1;
        }
        if is_reliable_event(&info) {
            self.tell(MonitorEvent::Reliable(info.clone()));
        }
        self.tell(MonitorEvent::Broadcast(info));
    }

    /// Hands an event to a chunk, and does what it asks for until it listens again.
    fn feed(&mut self, i: usize, event: ChunkEvent, piece: &[u8]) {
        let mut event = event;
        loop {
            let (reports, action) = self.connections[i].run.on_event(event, self.now);
            for info in reports {
                self.report(info);
            }
            event = match action {
                ChunkAction::Listen => return,
                ChunkAction::End => {
                    self.connections[i].ended = true;
                    let running = self.running();
                    self.tell(MonitorEvent::TaskJoined { running });
                    return;
                }
                ChunkAction::Announce { midpoint, new_start, new_end } => {
                    let original_id = self.connections[i].run.id;
                    self.report(DownloadInfo::ChunkBisected { original_id, new_start, new_end });
                    ChunkEvent::Announced { midpoint, heard: true }
                }
                ChunkAction::Write { offset, len } => {
                    let data = piece[..len as usize].to_vec();
                    if let Some((at, bytes)) = self.buffer.on_write(offset, data) {
                        self.put(at, &bytes);
                    }
                    ChunkEvent::Written { len, received: piece.len() as u64 }
                }
            };
        }
    }

    fn step(&mut self) {
        self.now += STEP;
        for i in 0..self.connections.len() {
            if self.connections[i].ended || self.verdict.is_some() {
                continue;
            }
            if !self.connections[i].commands.is_empty() {
                let cmd = self.connections[i].commands.remove(0);
                self.feed(i, ChunkEvent::Command(cmd), &[]);
                continue;
            }
            let c = &mut self.connections[i];
            let n = self.rate.min(c.body.len() - c.sent);
            if n == 0 {
                self.feed(i, ChunkEvent::Ended, &[]);
            } else {
                let piece = c.body[c.sent..c.sent + n].to_vec();
                c.sent += n;
                self.feed(i, ChunkEvent::Piece { received: n as u64 }, &piece);
            }
        }
        let elapsed = self.now - self.last_tick;
        if elapsed >= self.monitor.update_interval {
            self.last_tick = self.now;
            let running = self.running();
            self.tell(MonitorEvent::Tick { elapsed, running });
        }
    }

    /// Runs to the end, for an hour at most.
    fn run(&mut self, first: Vec<MonitorAction>) {
        self.perform(first);
        let mut steps = 0;
        while self.verdict.is_none() {
            self.step();
            steps += 1;
            assert!(steps < 360_000, "the download does not end");
        }
        if let Some((at, bytes)) = self.buffer.take_pending() {
            self.put(at, &bytes);
        }
    }

    fn assert_complete(&self) {
        assert!(matches!(self.verdict, Some(Verdict::Done)), "{:?}", self.verdict);
        assert_eq!(self.disk.len(), self.file.len());
        assert!(self.disk == self.file);
    }
}

fn whole(len: usize) -> Vec<(u64, u64)> {
    vec![(0, len as u64 - 1)]
}

fn lanes(config: &MultiSourceConfig, size: u64) -> MultiRuntime {
    let mut board = ProbeBoard::new();
    for (client, l) in expand_lanes(config).into_iter().enumerate() {
        let lane = LaneRuntime {
            lane_id: l.lane_id,
            source_id: l.source_id,
            proxy_id: l.proxy_id,
            url: l.url,
            client,
            probe_speed: 0,
        };
        assert!(board.offer(lane, size, true));
        board.record_speed(1000);
    }
    MultiRuntime::from_config(config, board).unwrap().1
}

#[test]
fn truncated_range_must_not_stall_after_retry() {
    let body = deterministic_bytes(128 * 1024);
    let (m, first) = begin(131072, true, 1, SECOND / 20, None, None, whole(body.len()), 0, 0);
    let mut w = World::new(body, m, 8 * 1024);
    w.cut = Some(32 * 1024);
    w.run(first);
    assert!(w.failures >= 1);
    w.assert_complete();
    assert_eq!(w.requests, vec![(None, 0, 131071), (None, 32768, 131071)]);
    assert_eq!(w.monitor.state.total_downloaded(), 131072);
}

#[test]
fn large_file_high_concurrency_no_lagged_loss() {
    let body = deterministic_bytes(3 * 1024 * 1024);
    let size = body.len() as u64;
    let (m, first) = begin(size, true, 8, SECOND / 10, None, None, whole(body.len()), 0, 0);
    let mut w = World::new(body, m, 4 * 1024);
    w.run(first);
    w.assert_complete();
    // More than one connection was used.
    assert!(w.requests.len() > 1, "{:?}", w.requests);
}

#[test]
fn multi_source_downloader_uses_multiple_sources_for_initial_chunks() {
    let body = vec![7_u8; 2 * 1024 * 1024];
    let split = body.len() as u64 / 2;
    let config = MultiSourceConfig::new("out.bin", 2, SECOND / 20).with_sources(vec![
        SourceConfig::new("http://first/file").with_id("first"),
        SourceConfig::new("http://second/file").with_id("second"),
    ]);
    let size = body.len() as u64;
    let rt = lanes(&config, size);
    let (m, first) = begin(size, true, 2, SECOND / 20, None, Some(rt), whole(body.len()), 0, 0);
    let mut w = World::new(body, m, 64 * 1024);
    w.run(first);
    w.assert_complete();
    assert_eq!(w.requests[0], (Some(0), 0, split - 1));
    assert_eq!(w.requests[1], (Some(1), split, size - 1));
}

#[test]
fn per_lane_pending_not_lost() {
    let body = deterministic_bytes(2 * 1024 * 1024);
    let size = body.len() as u64;
    let config = MultiSourceConfig::new("out.bin", 8, SECOND / 5)
        .with_sources(vec![
            SourceConfig::new("http://a/pending.bin").with_id("s1"),
            SourceConfig::new("http://b/pending.bin").with_id("s2"),
        ])
        .with_max_chunks_per_lane(1)
        .with_max_chunks_per_source(Some(2));
    let rt = lanes(&config, size);
    let (m, first) = begin(size, true, 8, SECOND / 5, None, Some(rt), whole(body.len()), 0, 0);
    assert_eq!(first.len(), 2);
    assert_eq!(m.pending_bisects.len(), 6);
    let mut w = World::new(body, m, 32 * 1024);
    w.run(first);
    w.assert_complete();
    assert!(w.requests.len() >= 8);
}

#[test]
fn zero_byte_via_test_server_is_complete() {
    let (m, first) = begin(0, true, 4, SECOND / 2, None, None, vec![], 0, 0);
    assert!(first.is_empty());
    let update = m.monitor_update();
    assert!(update.is_complete());
    let mut w = World::new(vec![], m, 1024);
    w.run(first);
    w.assert_complete();
}

#[test]
fn a_server_that_always_cuts_fails_the_download() {
    let body = deterministic_bytes(64 * 1024);
    let (m, first) = begin(65536, true, 1, SECOND / 2, None, None, whole(body.len()), 0, 0);
    let mut w = World::new(body, m, 1024);
    // Every request is cut before its first byte.
    w.perform(first);
    let mut steps = 0;
    while w.verdict.is_none() {
        for c in w.connections.iter_mut() {
            c.body.clear();
            c.sent = 0;
        }
        w.step();
        steps += 1;
        assert!(steps < 100_000);
    }
    assert!(matches!(w.verdict, Some(Verdict::Failed(DownloadError::PermanentFailure(_)))));
    assert_eq!(w.failures, 31);
}

/// Downloads the first part of a file, and gives the disk and the ledger that it leaves.
fn interrupted(body: &[u8], steps: usize) -> (Vec<u8>, ResumeMetadata) {
    let size = body.len() as u64;
    let plan = ResumePlan::prepare("f.bin", size, true, FoundLedger::Nothing).unwrap();
    let ranges = plan.remaining_ranges.clone();
    let (m, first) = begin(size, true, 2, SECOND / 10, None, None, ranges, 0, 0);
    let mut w = World::new(body.to_vec(), m, 16 * 1024);
    w.recorder = plan.into_recorder(0);
    w.perform(first);
    for _ in 0..steps {
        w.step();
    }
    assert!(w.verdict.is_none());
    (w.disk, w.recorder.unwrap().metadata)
}

fn checked(mut ledger: ResumeMetadata, disk: &[u8]) -> ResumeMetadata {
    for i in 0..ledger.segments.len() {
        let bytes = match ledger.segment_to_read(i, disk.len() as u64) {
            Some((start, len)) => disk[start as usize..(start + len) as usize].to_vec(),
            None => vec![],
        };
        ledger.verify_segment(i, disk.len() as u64, &bytes);
    }
    ledger
}

fn resumed(body: &[u8], disk: Vec<u8>, ledger: ResumeMetadata) -> (World, u64) {
    let size = body.len() as u64;
    let ledger = checked(ResumeMetadata::from_bytes(&ledger.to_bytes()).unwrap(), &disk);
    let plan = ResumePlan::prepare("f.bin", size, true, FoundLedger::Checked(ledger)).unwrap();
    assert!(!plan.truncate_output);
    let completed = plan.completed_bytes;
    let ranges = plan.remaining_ranges.clone();
    let (m, first) = begin(size, true, 2, SECOND / 10, None, None, ranges, completed, 0);
    let mut w = World::new(body.to_vec(), m, 16 * 1024);
    w.disk = disk;
    w.run(first);
    (w, completed)
}

#[test]
fn resume_preserve_partial_via_test_server() {
    let body = deterministic_bytes(1024 * 1024);
    let (disk, ledger) = interrupted(&body, 20);
    let (w, completed) = resumed(&body, disk, ledger);
    w.assert_complete();
    assert!(completed >= 65536);
    let requested: u64 = w.requests.iter().map(|(_, s, e)| e - s + 1).sum();
    assert!(requested >= body.len() as u64 - completed);
    assert!(w.requests.iter().all(|(_, s, _)| *s >= 65536));
}

#[test]
fn a_changed_segment_is_downloaded_again() {
    let body = deterministic_bytes(1024 * 1024);
    let (mut disk, ledger) = interrupted(&body, 20);
    disk[0] ^= 0xff;
    let (w, _) = resumed(&body, disk, ledger);
    w.assert_complete();
    assert!(w.requests.iter().any(|(_, s, _)| *s == 0));
}
