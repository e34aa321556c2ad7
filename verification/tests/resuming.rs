use simple_downloader::resume::{
    add_covered_range, covers_segment, full_ranges, hash_bytes, metadata_path_for, temp_path_for,
    FoundLedger, ResumeMetadata, ResumePlan, ResumeRecorder, DEFAULT_SEGMENT_SIZE, FLUSH_SEGMENTS,
};
use simple_downloader::types::{DownloadCmd, DownloadError};
use simple_downloader::writer::{WriteBuffer, WriterAction, WriterEvent, WriterRun};

#[test]
fn metadata_reconstructs_remaining_ranges_from_verified_segments() {
    let mut metadata = ResumeMetadata::new(DEFAULT_SEGMENT_SIZE * 3, DEFAULT_SEGMENT_SIZE);
    metadata.set_segment_hash(0, 11);
    metadata.set_segment_hash(2, 33);

    assert_eq!(
        metadata.remaining_ranges(),
        vec![(DEFAULT_SEGMENT_SIZE, DEFAULT_SEGMENT_SIZE * 2 - 1)]
    );
    assert_eq!(metadata.completed_bytes(), DEFAULT_SEGMENT_SIZE * 2);
}

#[test]
fn remaining_ranges_merge_adjacent_unverified_segments() {
    let mut metadata = ResumeMetadata::new(DEFAULT_SEGMENT_SIZE * 3, DEFAULT_SEGMENT_SIZE);
    metadata.set_segment_hash(0, 11);

    assert_eq!(
        metadata.remaining_ranges(),
        vec![(DEFAULT_SEGMENT_SIZE, DEFAULT_SEGMENT_SIZE * 3 - 1)]
    );
}

#[test]
fn hash_is_stable() {
    assert_eq!(hash_bytes(b"abc"), hash_bytes(b"abc"));
    assert_ne!(hash_bytes(b"abc"), hash_bytes(b"abd"));
}

#[test]
fn hash_has_the_published_values() {
    assert_eq!(hash_bytes(b""), 0xcbf29ce484222325);
    assert_eq!(hash_bytes(b"a"), 0xaf63dc4c8601ec8c);
    assert_eq!(hash_bytes(b"foobar"), 0x85944171f73967e8);
}

#[test]
fn a_ledger_survives_its_bytes() {
    let mut metadata = ResumeMetadata::new(DEFAULT_SEGMENT_SIZE * 2 + 5, DEFAULT_SEGMENT_SIZE);
    metadata.set_segment_hash(1, 77);
    let bytes = metadata.to_bytes();
    assert!(!bytes.is_empty());
    let back = ResumeMetadata::from_bytes(&bytes).unwrap();
    assert_eq!(back.version, metadata.version);
    assert_eq!(back.file_size, metadata.file_size);
    assert_eq!(back.segment_size, metadata.segment_size);
    assert_eq!(back.segments.len(), 3);
    assert_eq!(back.segments[0].hash, None);
    assert_eq!(back.segments[1].hash, Some(77));
    assert_eq!(back.remaining_ranges(), metadata.remaining_ranges());
}

#[test]
fn bytes_that_are_no_ledger_are_refused() {
    let bytes = [0xffu8; 7];
    match ResumeMetadata::from_bytes(&bytes) {
        Err(DownloadError::ResumeMetadata(t)) => assert!(!t.is_empty()),
        other => panic!("{:?}", other),
    }
}

#[test]
fn a_ledger_of_another_file_is_refused() {
    let metadata = ResumeMetadata::new(1000, 100);
    assert!(metadata.validate_shape(1000).is_ok());
    assert!(matches!(
        metadata.validate_shape(1001),
        Err(DownloadError::ResumeMetadata(_))
    ));
    let mut other = ResumeMetadata::new(1000, 100);
    other.version = 99;
    assert!(matches!(
        other.validate_shape(1000),
        Err(DownloadError::ResumeMetadata(_))
    ));
}

#[test]
fn verified_and_remaining_ranges_make_up_the_file() {
    let mut metadata = ResumeMetadata::new(1000, 300);
    metadata.set_segment_hash(1, 5);
    metadata.set_segment_hash(3, 6);
    assert_eq!(metadata.verified_ranges(), vec![(300, 599), (900, 999)]);
    assert_eq!(metadata.remaining_ranges(), vec![(0, 299), (600, 899)]);
    assert_eq!(metadata.checked_completed_bytes(), Some(400));
}

#[test]
fn a_tampered_segment_is_not_trusted() {
    let mut metadata = ResumeMetadata::new(200, 100);
    let good = [7u8; 100];
    metadata.set_segment_hash(0, hash_bytes(&good));
    metadata.set_segment_hash(1, hash_bytes(&good));
    assert_eq!(metadata.segment_to_read(0, 200), Some((0, 100)));
    metadata.verify_segment(0, 200, &good);
    let mut bad = good;
    bad[50] = 8;
    metadata.verify_segment(1, 200, &bad);
    assert_eq!(metadata.verified_ranges(), vec![(0, 99)]);
}

#[test]
fn ledger_paths_stand_beside_the_file() {
    assert_eq!(metadata_path_for("dir/out.bin"), "dir/out.bin.download.bitcode");
    assert_eq!(
        temp_path_for("dir/out.bin.download.bitcode"),
        "dir/out.bin.download.download.bitcode.tmp"
    );
}

#[test]
fn a_plan_without_a_ledger_starts_anew() {
    let plan = ResumePlan::prepare("out.bin", 1000, true, FoundLedger::Nothing).unwrap();
    assert_eq!(plan.completed_bytes, 0);
    assert_eq!(plan.remaining_ranges, vec![(0, 999)]);
    assert!(plan.truncate_output);
    assert!(plan.into_recorder(0).is_some());

    let off = ResumePlan::prepare("out.bin", 1000, false, FoundLedger::Nothing).unwrap();
    assert_eq!(off.remaining_ranges, vec![(0, 999)]);
    assert!(off.into_recorder(0).is_none());
    assert_eq!(full_ranges(0), vec![]);
}

#[test]
fn metadata_without_target_file_is_refused() {
    match ResumePlan::prepare("out.bin", 1000, true, FoundLedger::WithoutFile) {
        Err(DownloadError::ResumeTargetMissing(p)) => assert_eq!(p, "out.bin"),
        other => panic!("{:?}", other.is_ok()),
    }
}

#[test]
fn a_plan_with_a_ledger_resumes() {
    let mut metadata = ResumeMetadata::new(1000, 300);
    metadata.set_segment_hash(0, 5);
    let plan = ResumePlan::prepare("out.bin", 1000, true, FoundLedger::Checked(metadata)).unwrap();
    assert_eq!(plan.completed_bytes, 300);
    assert_eq!(plan.remaining_ranges, vec![(300, 999)]);
    assert!(!plan.truncate_output);
}

#[test]
fn covered_ranges_merge() {
    let mut r = vec![];
    add_covered_range(&mut r, 0, 9);
    add_covered_range(&mut r, 20, 29);
    assert!(!covers_segment(&r, 0, 29));
    add_covered_range(&mut r, 10, 19);
    assert_eq!(r, vec![(0, 29)]);
    assert!(covers_segment(&r, 5, 25));
}

#[test]
fn a_segment_is_complete_once_all_its_bytes_are_written() {
    let metadata = ResumeMetadata::new(300, 100);
    let mut rec = ResumeRecorder::new("l".to_string(), metadata, 0);
    assert_eq!(rec.record_write(0, 60), Vec::<usize>::new());
    assert_eq!(rec.record_write(60, 90), vec![0]);
    rec.complete_segment(0, &[1u8; 100]);
    assert_eq!(rec.metadata.segments[0].hash, Some(hash_bytes(&[1u8; 100])));
    assert_eq!(rec.record_write(150, 150), vec![1, 2]);
}

#[test]
fn hashed_segments_are_those_whose_bytes_were_written() {
    let file: Vec<u8> = (0..=99).collect();
    let mut rec = ResumeRecorder::new("l".to_string(), ResumeMetadata::new(100, 30), 0);
    let mut written = [false; 100];
    for (offset, len) in [(95, 5), (10, 25), (0, 0), (60, 15), (35, 25), (0, 5), (5, 7), (75, 20)] {
        for i in rec.record_write(offset, len) {
            let seg = rec.metadata.segments[i];
            rec.complete_segment(i, &file[seg.start as usize..=seg.end as usize]);
        }
        written[offset as usize..(offset + len) as usize].fill(true);
        for seg in &rec.metadata.segments {
            let bytes = seg.start as usize..=seg.end as usize;
            let whole = written[bytes.clone()].iter().all(|w| *w);
            assert_eq!(seg.hash, whole.then_some(hash_bytes(&file[bytes])));
        }
    }
    assert!(written.iter().all(|w| *w));
}

#[test]
fn a_changed_byte_changes_the_hash() {
    let bytes: Vec<u8> = (0..200).collect();
    let hash = hash_bytes(&bytes);
    for i in 0..bytes.len() {
        let mut other = bytes.clone();
        other[i] ^= 1 << (i % 8);
        assert_ne!(hash_bytes(&other), hash);
    }
}

#[test]
fn a_ledger_is_saved_after_enough_segments() {
    let metadata = ResumeMetadata::new(100, 10);
    let mut rec = ResumeRecorder::new("l".to_string(), metadata, 0);
    assert!(!rec.note_completed(1, 1));
    assert!(rec.note_completed(FLUSH_SEGMENTS, 2));
    assert!(rec.needs_flush());
    rec.mark_saved(3);
    assert!(!rec.needs_flush());
}

#[test]
fn writes_in_a_row_are_gathered() {
    let mut b = WriteBuffer::new();
    assert_eq!(b.on_write(0, vec![1, 2]), None);
    assert_eq!(b.on_write(2, vec![3]), None);
    assert_eq!(b.on_write(10, vec![9]), Some((0, vec![1, 2, 3])));
    assert_eq!(b.take_pending(), Some((10, vec![9])));
    assert_eq!(b.take_pending(), None);
}

#[test]
fn only_a_resumed_download_needs_its_ledger_saved() {
    let fresh = ResumePlan::prepare("f.bin", 100, true, FoundLedger::Nothing).unwrap();
    let lost = DownloadError::Io("disk full".to_string());
    assert_eq!(fresh.after_save(Err(lost.clone())), Ok(()));
    let found = FoundLedger::Checked(ResumeMetadata::new(100, 10));
    let resumed = ResumePlan::prepare("f.bin", 100, true, found).unwrap();
    assert_eq!(resumed.after_save(Err(lost.clone())), Err(lost));
    assert_eq!(resumed.after_save(Ok(())), Ok(()));
}

fn deterministic_bytes(len: usize) -> Vec<u8> {
    (0..len).map(|i| (i % 251) as u8).collect()
}

/// The ledger of a file whose first `verified_len` bytes are known, checked against `disk`.
fn seeded(body: &[u8], verified_len: usize, disk: &[u8]) -> FoundLedger {
    let mut metadata = ResumeMetadata::new(body.len() as u64, verified_len as u64);
    metadata.set_segment_hash(0, hash_bytes(&body[..verified_len]));
    for i in 0..metadata.segments.len() {
        let bytes = match metadata.segment_to_read(i, disk.len() as u64) {
            Some((start, len)) => disk[start as usize..(start + len) as usize].to_vec(),
            None => vec![],
        };
        metadata.verify_segment(i, disk.len() as u64, &bytes);
    }
    FoundLedger::Checked(metadata)
}

#[test]
fn single_source_resumes_verified_prefix_without_restarting_from_zero() {
    let body = deterministic_bytes(128 * 1024);
    let found = seeded(&body, 65536, &body[..65536]);
    let plan = ResumePlan::prepare("single.bin", 131072, true, found).unwrap();
    assert_eq!(plan.remaining_ranges, vec![(65536, 131071)]);
    assert_eq!(plan.completed_bytes, 65536);
    assert!(!plan.truncate_output);
}

#[test]
fn metadata_without_target_file_is_fail_stop() {
    let plan = ResumePlan::prepare("missing.bin", 16384, true, FoundLedger::WithoutFile);
    assert!(matches!(plan, Err(DownloadError::ResumeTargetMissing(p)) if p == "missing.bin"));
}

#[test]
fn corrupted_verified_segment_is_invalidated_and_redownloaded() {
    let body = deterministic_bytes(96 * 1024);
    let mut disk = body[..32768].to_vec();
    disk[0] ^= 0xff;
    let found = seeded(&body, 32768, &disk);
    let plan = ResumePlan::prepare("corrupt.bin", 98304, true, found).unwrap();
    assert_eq!(plan.remaining_ranges, vec![(0, 98303)]);
    assert_eq!(plan.completed_bytes, 0);
}

#[test]
fn disabling_resume_uses_fresh_download_path() {
    let body = deterministic_bytes(64 * 1024);
    let found = seeded(&body, 32768, &body[..32768]);
    let plan = ResumePlan::prepare("opt-out.bin", 65536, false, found).unwrap();
    assert_eq!(plan.remaining_ranges, vec![(0, 65535)]);
    assert!(plan.truncate_output && plan.metadata.is_none());
}

#[test]
fn test_file_writer_task() {
    let mut buffer = WriteBuffer::new();
    assert!(buffer.on_write(0, b"Hello".to_vec()).is_none());
    assert_eq!(buffer.on_write(10, b"World".to_vec()), Some((0, b"Hello".to_vec())));
    assert_eq!(buffer.take_pending(), Some((10, b"World".to_vec())));
    assert!(buffer.take_pending().is_none());
}

fn write(offset: u64, data: &[u8]) -> WriterEvent {
    WriterEvent::Command(DownloadCmd::WriteFile { offset, data: data.to_vec() })
}

#[test]
fn a_writer_puts_everything_on_the_disk_before_it_ends() {
    let mut run = WriterRun::new();
    assert!(matches!(run.on_event(write(0, b"ab")), WriterAction::Receive));
    assert!(matches!(run.on_event(write(2, b"cd")), WriterAction::Receive));
    match run.on_event(write(10, b"xy")) {
        WriterAction::Put { offset: 0, data } => assert_eq!(data, b"abcd"),
        other => panic!("{:?}", other),
    }
    assert!(matches!(run.on_event(WriterEvent::Put(Ok(()))), WriterAction::Receive));
    let ignored = WriterEvent::Command(DownloadCmd::BisectDownload { id: 1 });
    assert!(matches!(run.on_event(ignored), WriterAction::Receive));
    match run.on_event(WriterEvent::Command(DownloadCmd::TerminateAll)) {
        WriterAction::Put { offset: 10, data } => assert_eq!(data, b"xy"),
        other => panic!("{:?}", other),
    }
    assert!(matches!(run.on_event(WriterEvent::Put(Ok(()))), WriterAction::Save));
    assert!(matches!(run.on_event(WriterEvent::Saved(Ok(()))), WriterAction::Flush));
    assert!(matches!(run.on_event(WriterEvent::Flushed(Ok(()))), WriterAction::End(Ok(()))));
}

#[test]
fn the_first_fault_ends_the_writing() {
    let full = DownloadError::Io("no space left".to_string());
    let other = DownloadError::Io("other".to_string());
    let mut run = WriterRun::new();
    let _ = run.on_event(write(0, b"ab"));
    assert!(matches!(run.on_event(write(10, b"xy")), WriterAction::Put { .. }));
    assert!(matches!(run.on_event(WriterEvent::Put(Err(full.clone()))), WriterAction::Save));
    assert!(run.buffer.pending.is_none());
    match run.on_event(WriterEvent::Saved(Err(other.clone()))) {
        WriterAction::End(Err(e)) => assert_eq!(e, full),
        action => panic!("{:?}", action),
    }
    let mut run = WriterRun::new();
    assert!(matches!(run.on_event(WriterEvent::Closed), WriterAction::Save));
    match run.on_event(WriterEvent::Saved(Err(other.clone()))) {
        WriterAction::End(Err(e)) => assert_eq!(e, other),
        action => panic!("{:?}", action),
    }
}
