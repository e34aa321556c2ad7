use simple_downloader::chunk::{
    check_reply, check_response, range_header, split_range, split_range_skewed, ChunkAction,
    ChunkDirective, ChunkEvent, ChunkRun, DataPlan, MIN_CHUNK_SIZE,
};
use simple_downloader::types::{DownloadCmd, DownloadInfo};

#[test]
fn split_range_allows_exactly_two_minimum_chunks() {
    let end = (MIN_CHUNK_SIZE * 2) - 1;

    assert_eq!(
        split_range(0, end),
        Some((MIN_CHUNK_SIZE - 1, MIN_CHUNK_SIZE))
    );
}

#[test]
fn split_range_rejects_ranges_smaller_than_two_minimum_chunks() {
    let end = (MIN_CHUNK_SIZE * 2) - 2;

    assert_eq!(split_range(0, end), None);
}

#[test]
fn a_skewed_split_keeps_an_eighth() {
    let size = MIN_CHUNK_SIZE * 80;
    assert_eq!(
        split_range_skewed(0, size - 1),
        Some((size / 8 - 1, size / 8))
    );
    assert_eq!(split_range_skewed(0, MIN_CHUNK_SIZE * 2 - 2), None);
}

#[test]
fn the_range_header_names_both_ends() {
    assert_eq!(range_header(5, 1023), "bytes=5-1023");
}

#[test]
fn whole_file_reply_is_taken_only_for_the_whole_file() {
    assert_eq!(check_response(200, "200 OK", &None, 0, 0), None);
    assert!(check_response(200, "200 OK", &None, 100, 199).is_some());
}

#[test]
fn partial_reply_must_be_the_requested_range() {
    let good = Some("bytes 100-199/1000".to_string());
    assert_eq!(check_response(206, "206 Partial Content", &good, 100, 199), None);
    let wrong = Some("bytes 0-99/1000".to_string());
    assert!(check_response(206, "206 Partial Content", &wrong, 100, 199).is_some());
    assert!(check_response(404, "404 Not Found", &None, 100, 199).is_some());
}

#[test]
fn a_chunk_runs_to_its_end() {
    let mut run = ChunkRun::begin(3, 0, 99, 0);
    assert_eq!(run.on_data(60), DataPlan::Write { offset: 0, len: 60 });
    let (_, done) = run.on_written(60, 60, 1);
    assert!(!done);
    // Only what belongs to the range is written.
    assert_eq!(run.on_data(60), DataPlan::Write { offset: 60, len: 40 });
    let (_, done) = run.on_written(40, 60, 2);
    assert!(done);
    assert_eq!(run.on_data(10), DataPlan::Stop);
    let reports = run.finish();
    assert_eq!(reports.last(), Some(&DownloadInfo::DownloadComplete(3)));
}

#[test]
fn an_early_end_is_a_failure() {
    let mut run = ChunkRun::begin(3, 0, 99, 0);
    let _ = run.on_written(60, 60, 1);
    let reports = run.on_eof();
    match reports.last() {
        Some(DownloadInfo::ChunkFailed { id, start, end, .. }) => {
            assert_eq!((*id, *start, *end), (3, 60, 99));
        }
        other => panic!("{:?}", other),
    }
    assert!(run.failed);
}

#[test]
fn a_split_gives_the_second_half_away() {
    let end = MIN_CHUNK_SIZE * 4 - 1;
    let mut run = ChunkRun::begin(3, 0, end, 0);
    match run.on_command(&DownloadCmd::BisectDownload { id: 3 }) {
        ChunkDirective::Split { midpoint, new_start, new_end } => {
            assert_eq!(midpoint, MIN_CHUNK_SIZE * 2 - 1);
            assert_eq!(new_start, MIN_CHUNK_SIZE * 2);
            assert_eq!(new_end, end);
            run.commit_split(midpoint);
        }
        other => panic!("{:?}", other),
    }
    assert_eq!(run.end, MIN_CHUNK_SIZE * 2 - 1);
    assert_eq!(
        run.on_command(&DownloadCmd::BisectDownload { id: 4 }),
        ChunkDirective::Continue
    );
    assert_eq!(run.on_command(&DownloadCmd::TerminateAll), ChunkDirective::Stop);
    assert_eq!(
        run.on_command(&DownloadCmd::TerminateChunk { id: 3 }),
        ChunkDirective::Abandon
    );
}

#[test]
fn a_closed_writer_fails_the_chunk_with_its_rest() {
    let mut run = ChunkRun::begin(9, 10, 19, 0);
    let _ = run.on_written(4, 4, 1);
    let reports = run.on_writer_closed();
    match reports.last() {
        Some(DownloadInfo::ChunkFailed { id, start, end, error }) => {
            assert_eq!((*id, *start, *end), (9, 14, 19));
            assert!(!error.is_empty());
        }
        other => panic!("{:?}", other),
    }
}

#[test]
fn small_progress_is_not_reported_at_once() {
    let mut run = ChunkRun::begin(1, 0, 10_000_000, 0);
    let (first, _) = run.on_written(100, 100, 1);
    assert!(first.is_none());
    let (second, _) = run.on_written(100_000, 100_000, 2);
    assert_eq!(
        second,
        Some(DownloadInfo::ChunkProgress {
            id: 1,
            start_byte: 0,
            end_byte: 10_000_000,
            downloaded: 100_100,
        })
    );
}

fn answered(status: u16, content_range: Option<&str>) -> ChunkEvent {
    ChunkEvent::Answered {
        status,
        content_range: content_range.map(|t| t.to_string()),
    }
}

#[test]
fn events_drive_a_chunk_to_its_end() {
    let mut run = ChunkRun::begin(7, 0, 99, 0);
    let (reports, next) = run.on_event(answered(206, Some("bytes 0-99/100")), 0);
    assert_eq!((reports.len(), next), (0, ChunkAction::Listen));
    let (_, next) = run.on_event(ChunkEvent::Piece { received: 40 }, 1);
    assert_eq!(next, ChunkAction::Write { offset: 0, len: 40 });
    let (reports, next) = run.on_event(ChunkEvent::Written { len: 40, received: 40 }, 1);
    assert_eq!((reports.len(), next), (0, ChunkAction::Listen));
    let (_, next) = run.on_event(ChunkEvent::Piece { received: 100 }, 2);
    assert_eq!(next, ChunkAction::Write { offset: 40, len: 60 });
    let (reports, next) = run.on_event(ChunkEvent::Written { len: 60, received: 100 }, 2);
    assert_eq!(next, ChunkAction::End);
    assert_eq!(
        reports,
        vec![
            DownloadInfo::ChunkProgress { id: 7, start_byte: 0, end_byte: 99, downloaded: 100 },
            DownloadInfo::DownloadComplete(7),
        ]
    );
}

#[test]
fn a_refused_reply_fails_the_chunk() {
    let mut run = ChunkRun::begin(1, 100, 199, 0);
    let (reports, next) = run.on_event(answered(200, None), 0);
    assert_eq!(next, ChunkAction::End);
    assert!(matches!(&reports[..], [DownloadInfo::ChunkFailed { id: 1, start: 100, end: 199, .. }]));
    let mut run = ChunkRun::begin(1, 100, 199, 0);
    let (reports, _) = run.on_event(ChunkEvent::Unanswered { error: "reset".to_string() }, 0);
    assert_eq!(
        reports,
        vec![DownloadInfo::ChunkFailed { id: 1, start: 100, end: 199, error: "reset".to_string() }]
    );
}

#[test]
fn an_unexpected_status_is_shown_with_its_reason() {
    assert_eq!(
        check_reply(404, &None, 100, 199),
        Some(
            "unexpected status 404 Not Found for Range request bytes=100-199, Content-Range: "
                .to_string()
        )
    );
    assert_eq!(
        check_reply(599, &Some("bytes */7".to_string()), 1, 2),
        Some(
            "unexpected status 599 <unknown status code> for Range request bytes=1-2, \
             Content-Range: bytes */7"
                .to_string()
        )
    );
    assert_eq!(check_reply(206, &Some("bytes 1-2/7".to_string()), 1, 2), None);
}

#[test]
fn an_unheard_split_is_not_made() {
    let end = MIN_CHUNK_SIZE * 4 - 1;
    let mut run = ChunkRun::begin(2, 0, end, 0);
    let cmd = DownloadCmd::BisectDownload { id: 2 };
    let (_, next) = run.on_event(ChunkEvent::Command(cmd.clone()), 0);
    let midpoint = MIN_CHUNK_SIZE * 2 - 1;
    assert_eq!(
        next,
        ChunkAction::Announce { midpoint, new_start: midpoint + 1, new_end: end }
    );
    let (_, next) = run.on_event(ChunkEvent::Announced { midpoint, heard: false }, 0);
    assert_eq!((run.end, next), (end, ChunkAction::Listen));
    let _ = run.on_event(ChunkEvent::Announced { midpoint, heard: true }, 0);
    assert_eq!(run.end, midpoint);
}

#[test]
fn a_chunk_ends_as_it_is_told() {
    let mut run = ChunkRun::begin(4, 0, 99, 0);
    let (reports, next) =
        run.on_event(ChunkEvent::Command(DownloadCmd::TerminateChunk { id: 4 }), 0);
    assert_eq!(next, ChunkAction::End);
    assert_eq!(
        reports,
        vec![DownloadInfo::ChunkFailed {
            id: 4,
            start: 0,
            end: 99,
            error: "connection stalled".to_string()
        }]
    );
    let mut run = ChunkRun::begin(4, 0, 99, 0);
    let (reports, next) = run.on_event(ChunkEvent::Command(DownloadCmd::TerminateAll), 0);
    let stopped = vec![DownloadInfo::ChunkFailed {
        id: 4,
        start: 0,
        end: 99,
        error: "chunk stopped".to_string(),
    }];
    assert_eq!((&reports, next), (&stopped, ChunkAction::End));
    let mut run = ChunkRun::begin(4, 0, 99, 0);
    let (reports, _) = run.on_event(ChunkEvent::Ended, 0);
    assert!(matches!(&reports[..], [DownloadInfo::ChunkFailed { start: 0, end: 99, .. }]));
    let mut run = ChunkRun::begin(4, 0, 99, 0);
    let (reports, _) = run.on_event(ChunkEvent::WriterClosed, 0);
    assert!(matches!(&reports[..], [DownloadInfo::ChunkFailed { .. }]));
    let mut run = ChunkRun::begin(4, 0, 99, 0);
    let (reports, _) = run.on_event(ChunkEvent::Broken { error: "x".to_string() }, 0);
    assert!(matches!(&reports[..], [DownloadInfo::ChunkFailed { .. }]));
    let mut run = ChunkRun::begin(4, 0, 99, 0);
    let (reports, _) = run.on_event(ChunkEvent::CommandsClosed, 0);
    assert_eq!(reports, stopped);
}

#[test]
fn a_stopped_chunk_is_done_only_with_its_whole_range() {
    let mut run = ChunkRun::begin(4, 0, 99, 0);
    run.on_event(ChunkEvent::Piece { received: 40 }, 0);
    run.on_event(ChunkEvent::Written { len: 40, received: 40 }, 0);
    let (reports, next) = run.on_event(ChunkEvent::Command(DownloadCmd::TerminateAll), 0);
    assert_eq!(
        reports,
        vec![
            DownloadInfo::ChunkProgress { id: 4, start_byte: 0, end_byte: 99, downloaded: 40 },
            DownloadInfo::ChunkFailed {
                id: 4,
                start: 40,
                end: 99,
                error: "chunk stopped".to_string()
            },
        ]
    );
    assert_eq!(next, ChunkAction::End);
    let mut run = ChunkRun::begin(4, 0, 99, 0);
    run.on_event(ChunkEvent::Piece { received: 100 }, 0);
    run.on_event(ChunkEvent::Written { len: 100, received: 100 }, 0);
    let (reports, _) = run.on_event(ChunkEvent::Command(DownloadCmd::TerminateAll), 0);
    assert_eq!(reports, vec![DownloadInfo::DownloadComplete(4)]);
}

/// Runs a chunk on a reply with the given body. Gives what it wrote and what it reported.
fn received(
    run: &mut ChunkRun,
    status: u16,
    content_range: Option<&str>,
    body: &[u8],
) -> (Vec<u8>, Vec<DownloadInfo>) {
    let mut written = Vec::new();
    let (mut infos, mut next) = run.on_event(answered(status, content_range), 0);
    let mut pieces = body.chunks(7);
    let mut piece: &[u8] = &[];
    while next != ChunkAction::End {
        let event = match next {
            ChunkAction::Write { offset, len } => {
                assert_eq!(offset, run.start_byte + written.len() as u64);
                written.extend_from_slice(&piece[..len as usize]);
                ChunkEvent::Written { len, received: piece.len() as u64 }
            }
            _ => match pieces.next() {
                Some(p) => {
                    piece = p;
                    ChunkEvent::Piece { received: p.len() as u64 }
                }
                None => ChunkEvent::Ended,
            },
        };
        let (mut reports, action) = run.on_event(event, 0);
        infos.append(&mut reports);
        next = action;
    }
    (written, infos)
}

#[test]
fn test_chunk_download_success() {
    let test_data = b"Hello World! This is a test file content.";
    let len = test_data.len() as u64;
    let mut run = ChunkRun::begin(1, 0, len - 1, 0);
    let cr = format!("bytes 0-{}/{}", len - 1, len);
    let (written, infos) = received(&mut run, 206, Some(&cr), test_data);
    assert_eq!(written, test_data);
    assert_eq!(infos.last(), Some(&DownloadInfo::DownloadComplete(1)));
}

#[test]
fn test_chunk_200_single_segment_downgrade_allowed() {
    let mut run = ChunkRun::begin(10, 0, 9, 0);
    let (written, infos) = received(&mut run, 200, None, b"0123456789");
    assert_eq!(written, b"0123456789");
    assert_eq!(infos.last(), Some(&DownloadInfo::DownloadComplete(10)));
}

fn failure(infos: &[DownloadInfo]) -> String {
    match infos.last() {
        Some(DownloadInfo::ChunkFailed { error, .. }) => error.clone(),
        other => panic!("{:?}", other),
    }
}

#[test]
fn test_chunk_200_multi_segment_rejected() {
    let mut run = ChunkRun::begin(11, 10, 19, 0);
    let (written, infos) = received(&mut run, 200, None, b"0123456789");
    assert!(written.is_empty());
    assert!(failure(&infos).contains("200"));
}

#[test]
fn test_chunk_206_wrong_content_range_rejected() {
    let mut run = ChunkRun::begin(12, 10, 19, 0);
    let (written, infos) = received(&mut run, 206, Some("bytes 0-9/20"), b"0123456789");
    assert!(written.is_empty());
    assert!(failure(&infos).contains("Content-Range mismatch"));
}

#[test]
fn test_chunk_early_eof_is_failed() {
    let mut run = ChunkRun::begin(99, 0, 1023, 0);
    let (written, infos) = received(&mut run, 206, Some("bytes 0-1023/1024"), &[0u8; 512]);
    assert_eq!(written.len(), 512);
    assert!(failure(&infos).contains("early EOF"));
    assert!(!infos.contains(&DownloadInfo::DownloadComplete(99)));
}

#[test]
fn test_chunk_request_failure() {
    let mut run = ChunkRun::begin(1, 0, 100, 0);
    let (_, infos) = received(&mut run, 500, None, b"");
    assert!(failure(&infos).contains("500 Internal Server Error"));
}
