//! One ranged request: which bytes it may write, how it is split, and what it reports.

use crate::text;
use crate::text::{push_number, push_text};
use crate::types::{ChunkId, DownloadCmd, DownloadInfo, InfoView};
use crate::util;
use crate::util::parse_content_range;
use vstd::prelude::*;

verus! {

/// The smallest chunk that a split may leave on either side: 10 KiB.
pub const MIN_CHUNK_SIZE: u64 = 10240;

/// A report is due after this many unreported bytes.
pub const PROGRESS_THROTTLE_BYTES: u64 = 65536;

/// A report is due after this many nanoseconds.
pub const PROGRESS_THROTTLE_INTERVAL: u64 = 50_000_000;

/// The number of bytes in `first..=last`, 1 if `last` lies before `first`; capped at `u64::MAX`.
pub open spec fn span(first: u64, last: u64) -> int {
    let n: int = if last >= first {
        last - first + 1
    } else {
        1
    };
    if n <= u64::MAX {
        n
    } else {
        u64::MAX as int
    }
}

/// The number of bytes in `first..=last`.
pub fn span_len(first: u64, last: u64) -> (r: u64)
    ensures
        r == span(first, last),
{
    last.saturating_sub(first).saturating_add(1)
}

/// Where an even split of `offset..=end` falls: the last byte kept and the first byte given away.
pub open spec fn even_split(offset: u64, end: u64) -> Option<(u64, u64)> {
    let n = span(offset, end);
    if n < 2 * MIN_CHUNK_SIZE {
        None
    } else {
        Some(((offset + n / 2 - 1) as u64, (offset + n / 2) as u64))
    }
}

/// Where a skewed split of `offset..=end` falls: an eighth is kept, or the minimum chunk size if
/// that is more.
pub open spec fn skewed_split(offset: u64, end: u64) -> Option<(u64, u64)> {
    let n = span(offset, end);
    let kept: int = if n / 8 >= MIN_CHUNK_SIZE {
        n / 8
    } else {
        MIN_CHUNK_SIZE as int
    };
    if n < 2 * MIN_CHUNK_SIZE {
        None
    } else {
        Some(((offset + kept - 1) as u64, (offset + kept) as u64))
    }
}

/// Splits `offset..=end` in two halves, unless a half would fall below the minimum chunk size.
pub fn split_range(offset: u64, end: u64) -> (r: Option<(u64, u64)>)
    ensures
        r == even_split(offset, end),
{
    let remaining: u64 = span_len(offset, end);
    if remaining < MIN_CHUNK_SIZE * 2 {
        return None;
    }
    let left: u64 = remaining / 2;
    let midpoint: u64 = offset + left - 1;
    Some((midpoint, midpoint + 1))
}

/// Splits `offset..=end` so that the smaller part stays.
pub fn split_range_skewed(offset: u64, end: u64) -> (r: Option<(u64, u64)>)
    ensures
        r == skewed_split(offset, end),
{
    let remaining: u64 = span_len(offset, end);
    if remaining < MIN_CHUNK_SIZE * 2 {
        return None;
    }
    let mut left: u64 = remaining / 8;
    if left < MIN_CHUNK_SIZE {
        left = MIN_CHUNK_SIZE;
    }
    let midpoint: u64 = offset + left - 1;
    Some((midpoint, midpoint + 1))
}

/// Either split cuts the range in two adjacent parts that together are the whole, and neither part
/// is smaller than the minimum chunk size.
pub proof fn law_split_is_a_partition(offset: u64, end: u64, skewed: bool)
    requires
        offset <= end,
        (if skewed {
            skewed_split(offset, end)
        } else {
            even_split(offset, end)
        }) is Some,
    ensures
        ({
            let (kept_last, given_first) = (if skewed {
                skewed_split(offset, end)
            } else {
                even_split(offset, end)
            })->0;
            &&& offset <= kept_last
            &&& given_first == kept_last + 1
            &&& given_first <= end
            &&& span(offset, kept_last) >= MIN_CHUNK_SIZE
            &&& span(given_first, end) >= MIN_CHUNK_SIZE
        }),
{
}

/// How a request names the range `start..=end`.
pub open spec fn range_request(start: u64, end: u64) -> Seq<char> {
    "bytes="@ + text::digits(start as nat) + "-"@ + text::digits(end as nat)
}

/// A request names its range and no other: behind the unit stand the first and the last byte, in that
/// order, with a dash between them.
pub proof fn law_requests_name_their_range(start: u64, end: u64)
    ensures
        ({
            let h = range_request(start, end);
            let dash = text::first_index(h, '-');
            &&& h.len() > 6 && h.take(6) == "bytes="@
            &&& 6 < dash < h.len()
            &&& text::parsed_number(h.subrange(6, dash)) == Some(start)
            &&& text::parsed_number(h.skip(dash + 1)) == Some(end)
        }),
{
    reveal_strlit("bytes=");
    reveal_strlit("-");
    let a = text::digits(start as nat);
    let b = text::digits(end as nat);
    text::lemma_digits(start as nat);
    text::lemma_digits(end as nat);
    text::law_number_round_trip(start);
    text::law_number_round_trip(end);
    let head = "bytes="@ + a;
    let h = range_request(start, end);
    assert(h =~= head.push('-') + b);
    assert forall|i: int| 0 <= i < head.len() implies head[i] != '-' by {
        if i >= 6 {
            assert(head[i] == a[i - 6]);
            assert(text::is_digit(a[i - 6]));
        }
    }
    text::lemma_first_index_at(head, '-', b);
    assert(h.take(6) =~= "bytes="@);
    assert(h.subrange(6, head.len() as int) =~= a);
    assert(h.skip(head.len() as int + 1) =~= b);
}

/// The value of the `Range` header for `start..=end`.
pub fn range_header(start: u64, end: u64) -> (r: String)
    ensures
        r@ == range_request(start, end),
{
    let mut out: String = String::new();
    push_text(&mut out, "bytes=");
    push_number(&mut out, start);
    push_text(&mut out, "-");
    push_number(&mut out, end);
    assert(out@ =~= "bytes="@ + text::digits(start as nat) + "-"@ + text::digits(end as nat));
    out
}

/// The range as it stands in messages: `<start>-<end>`.
pub open spec fn dashed(start: u64, end: u64) -> Seq<char> {
    text::digits(start as nat) + "-"@ + text::digits(end as nat)
}

/// Appends `<start>-<end>`.
fn push_dashed(s: &mut String, start: u64, end: u64)
    ensures
        final(s)@ == old(s)@ + dashed(start, end),
{
    push_number(s, start);
    push_text(s, "-");
    push_number(s, end);
    assert(s@ =~= old(s)@ + dashed(start, end));
}

/// What is wrong with the reply to a request for `start..=end`, if anything. A partial reply must
/// cover exactly that range. A full reply is accepted only for a range that starts at 0.
pub open spec fn response_fault(
    status: u16,
    status_text: Seq<char>,
    header: Option<Seq<char>>,
    start: u64,
    end: u64,
) -> Option<Seq<char>> {
    if status == 206 {
        match header {
            None => Some("missing Content-Range header for 206 Partial Content"@),
            Some(h) => match util::content_range(h) {
                None => Some("invalid Content-Range header for 206: "@ + h),
                Some((first, last, _)) => if first != start || last != end {
                    Some(
                        "Content-Range mismatch: expected bytes "@ + dashed(start, end)
                            + "/*, got "@ + h,
                    )
                } else {
                    None
                },
            },
        }
    } else if status == 200 {
        if start != 0 {
            Some(
                "server returned 200 OK but Range requested "@ + dashed(start, end)
                    + ", only single-segment full download (0-*) is allowed to downgrade"@,
            )
        } else {
            None
        }
    } else {
        Some(
            "unexpected status "@ + status_text + " for Range request bytes="@ + dashed(start, end)
                + ", Content-Range: "@ + (match header {
                Some(h) => h,
                None => Seq::empty(),
            }),
        )
    }
}

/// The characters of an optional string.
pub open spec fn text_of(s: Option<String>) -> Option<Seq<char>> {
    match s {
        Some(t) => Some(t@),
        None => None,
    }
}

/// Checks the reply to a request for `start..=end`. `status_text` is how the status is shown in
/// messages, `header` the reply's `Content-Range`.
pub fn check_response(
    status: u16,
    status_text: &str,
    header: &Option<String>,
    start: u64,
    end: u64,
) -> (r: Option<String>)
    ensures
        text_of(r) == response_fault(status, status_text@, text_of(*header), start, end),
{
    let mut out: String = String::new();
    let ghost fault = response_fault(status, status_text@, text_of(*header), start, end);
    if status == 206 {
        match header {
            None => {
                push_text(&mut out, "missing Content-Range header for 206 Partial Content");
                assert(out@ =~= fault->0);
                Some(out)
            },
            Some(h) => match parse_content_range(h.as_str()) {
                None => {
                    push_text(&mut out, "invalid Content-Range header for 206: ");
                    push_text(&mut out, h.as_str());
                    assert(out@ =~= fault->0);
                    Some(out)
                },
                Some((first, last, _)) => if first != start || last != end {
                    push_text(&mut out, "Content-Range mismatch: expected bytes ");
                    push_dashed(&mut out, start, end);
                    push_text(&mut out, "/*, got ");
                    push_text(&mut out, h.as_str());
                    assert(out@ =~= fault->0);
                    Some(out)
                } else {
                    None
                },
            },
        }
    } else if status == 200 {
        if start != 0 {
            push_text(&mut out, "server returned 200 OK but Range requested ");
            push_dashed(&mut out, start, end);
            push_text(
                &mut out,
                ", only single-segment full download (0-*) is allowed to downgrade",
            );
            assert(out@ =~= fault->0);
            Some(out)
        } else {
            None
        }
    } else {
        push_text(&mut out, "unexpected status ");
        push_text(&mut out, status_text);
        push_text(&mut out, " for Range request bytes=");
        push_dashed(&mut out, start, end);
        push_text(&mut out, ", Content-Range: ");
        if let Some(h) = header {
            push_text(&mut out, h.as_str());
        }
        assert(out@ =~= fault->0);
        Some(out)
    }
}

/// How `reqwest::StatusCode` shows a status.
pub uninterp spec fn status_shown(status: u16) -> Seq<char>;

/// Calls the `Display` of `reqwest::StatusCode`. Claimed: the text depends on the status alone, and
/// begins with its number and a space; the words that follow are not spelled out. A number that is no
/// status is shown as the error that `StatusCode::from_u16` gives for it.
#[verifier::external_body]
fn show_status(status: u16) -> (r: String)
    ensures
        r@ == status_shown(status),
        100 <= status <= 999 ==> (text::digits(status as nat) + " "@).is_prefix_of(r@),
{
    match reqwest::StatusCode::from_u16(status) {
        Ok(s) => s.to_string(),
        Err(e) => e.to_string(),
    }
}

/// Checks the reply to a request for `start..=end`: its status and its `Content-Range`.
pub fn check_reply(status: u16, header: &Option<String>, start: u64, end: u64) -> (r: Option<
    String,
>)
    ensures
        text_of(r) == response_fault(status, status_shown(status), text_of(*header), start, end),
{
    let shown: String = show_status(status);
    check_response(status, shown.as_str(), header, start, end)
}

/// What a running chunk does on a command.
#[derive(Debug, Clone, Copy, PartialEq, Eq, Structural)]
pub enum ChunkDirective {
    /// The command is for others, or cannot be followed.
    Continue,
    /// Announce that `new_start..=new_end` is given away and, once that is announced, keep only what
    /// lies up to `midpoint`.
    Split { midpoint: u64, new_start: u64, new_end: u64 },
    /// Give the connection up; what is left is reported as failed.
    Abandon,
    /// Stop receiving; what is left, if anything, is reported as failed.
    Stop,
}

/// What a running chunk does with a piece of the reply's body.
#[derive(Debug, Clone, Copy, PartialEq, Eq, Structural)]
pub enum DataPlan {
    /// The range is complete; stop receiving.
    Stop,
    /// Write the first `len` bytes of the piece at `offset`.
    Write { offset: u64, len: u64 },
}

/// What reaches a chunk.
#[derive(Debug)]
pub enum ChunkEvent {
    /// The request failed.
    Unanswered { error: String },
    /// The server replied.
    Answered { status: u16, content_range: Option<String> },
    /// A command came.
    Command(DownloadCmd),
    /// Nobody gives commands any more.
    CommandsClosed,
    /// The split at `midpoint` was announced; `heard` tells whether anyone received that.
    Announced { midpoint: u64, heard: bool },
    /// A piece of the reply's body came.
    Piece { received: u64 },
    /// The writer took the first `len` bytes of a piece.
    Written { len: u64, received: u64 },
    /// The writer is gone.
    WriterClosed,
    /// The connection broke.
    Broken { error: String },
    /// The reply's body ended.
    Ended,
}

/// An event in mathematical terms.
pub enum ChunkEventView {
    Unanswered { error: Seq<char> },
    Answered { status: u16, content_range: Option<Seq<char>> },
    Command { cmd: DownloadCmd },
    CommandsClosed,
    Announced { midpoint: u64, heard: bool },
    Piece { received: u64 },
    Written { len: u64, received: u64 },
    WriterClosed,
    Broken { error: Seq<char> },
    Ended,
}

impl View for ChunkEvent {
    type V = ChunkEventView;

    open spec fn view(&self) -> ChunkEventView {
        match *self {
            ChunkEvent::Unanswered { error } => ChunkEventView::Unanswered { error: error@ },
            ChunkEvent::Answered { status, content_range } => ChunkEventView::Answered {
                status,
                content_range: text_of(content_range),
            },
            ChunkEvent::Command(cmd) => ChunkEventView::Command { cmd },
            ChunkEvent::CommandsClosed => ChunkEventView::CommandsClosed,
            ChunkEvent::Announced { midpoint, heard } => ChunkEventView::Announced {
                midpoint,
                heard,
            },
            ChunkEvent::Piece { received } => ChunkEventView::Piece { received },
            ChunkEvent::Written { len, received } => ChunkEventView::Written { len, received },
            ChunkEvent::WriterClosed => ChunkEventView::WriterClosed,
            ChunkEvent::Broken { error } => ChunkEventView::Broken { error: error@ },
            ChunkEvent::Ended => ChunkEventView::Ended,
        }
    }
}

/// What a chunk does next.
#[derive(Debug, Clone, Copy, PartialEq, Eq, Structural)]
pub enum ChunkAction {
    /// Wait for a command or for the next piece of the body.
    Listen,
    /// Announce that `new_start..=new_end` is given away, and that the chunk keeps what lies up to
    /// `midpoint`.
    Announce { midpoint: u64, new_start: u64, new_end: u64 },
    /// Hand the first `len` bytes of the piece to the writer, for `offset`.
    Write { offset: u64, len: u64 },
    /// The chunk has ended.
    End,
}

/// A chunk that runs: it owns `start_byte..=end` and has received what lies before
/// `offset`.
#[derive(Debug, Clone)]
pub struct ChunkRun {
    pub id: ChunkId,
    pub start_byte: u64,
    pub end: u64,
    pub offset: u64,
    /// The bytes that the last report told.
    pub last_reported: u64,
    /// When the last report was made, in nanoseconds.
    pub last_progress: u64,
    pub failed: bool,
}

/// The report of what a chunk has received so far.
pub open spec fn progress_report(c: ChunkRun) -> DownloadInfo {
    DownloadInfo::ChunkProgress {
        id: c.id,
        start_byte: c.start_byte,
        end_byte: c.end,
        downloaded: c.received(),
    }
}

/// `info` says that chunk `id` failed with `start..=end` left to do, for the reason `error`.
pub open spec fn is_failure_report(
    info: DownloadInfo,
    id: ChunkId,
    start: u64,
    end: u64,
    error: Seq<char>,
) -> bool {
    info matches DownloadInfo::ChunkFailed { id: i, start: s, end: e, error: t } && i == id && s
        == start && e == end && t@ == error
}

/// `reports` are a chunk's last words: what it has received, if that was not reported yet, and then
/// that the rest of its range failed.
pub open spec fn failure_reports(
    c: ChunkRun,
    error: Seq<char>,
    reports: Seq<DownloadInfo>,
) -> bool {
    if c.received() != c.last_reported {
        &&& reports.len() == 2
        &&& reports[0] == progress_report(c)
        &&& is_failure_report(reports[1], c.id, c.offset, c.end, error)
    } else {
        &&& reports.len() == 1
        &&& is_failure_report(reports[0], c.id, c.offset, c.end, error)
    }
}

/// The message of a reply that ends too soon.
pub open spec fn early_eof_text(c: ChunkRun) -> Seq<char> {
    "early EOF: expected "@ + text::digits(span(c.start_byte, c.end) as nat) + " bytes ("@ + dashed(
        c.start_byte,
        c.end,
    ) + "), got "@ + text::digits(c.received() as nat)
}

/// What a chunk does on a command.
pub open spec fn directive(c: ChunkRun, cmd: DownloadCmd) -> ChunkDirective {
    let split = match cmd {
        DownloadCmd::BisectDownload { id } => if id == c.id {
            even_split(c.offset, c.end)
        } else {
            None
        },
        DownloadCmd::BisectDownloadSkewed { id } => if id == c.id {
            skewed_split(c.offset, c.end)
        } else {
            None
        },
        _ => None,
    };
    match split {
        Some((midpoint, new_start)) => ChunkDirective::Split { midpoint, new_start, new_end: c.end },
        None => if cmd == (DownloadCmd::TerminateChunk { id: c.id }) {
            ChunkDirective::Abandon
        } else if cmd == DownloadCmd::TerminateAll {
            ChunkDirective::Stop
        } else {
            ChunkDirective::Continue
        },
    }
}

/// What a chunk does with `received` bytes of body.
pub open spec fn data_plan(c: ChunkRun, received: u64) -> DataPlan {
    if c.offset > c.end {
        DataPlan::Stop
    } else {
        let allowed = span(c.offset, c.end);
        DataPlan::Write {
            offset: c.offset,
            len: if received <= allowed {
                received
            } else {
                allowed as u64
            },
        }
    }
}

/// The chunk after `len` bytes were written, before any report.
pub open spec fn advanced(c: ChunkRun, len: u64) -> ChunkRun {
    ChunkRun {
        offset: if c.offset + len <= u64::MAX {
            (c.offset + len) as u64
        } else {
            u64::MAX
        },
        ..c
    }
}

/// A report is due: enough bytes, enough time, the end of the range, or a piece that was cut.
pub open spec fn report_due(c: ChunkRun, cut: bool, now: u64) -> bool {
    ||| c.received() - c.last_reported >= PROGRESS_THROTTLE_BYTES
    ||| now - c.last_progress >= PROGRESS_THROTTLE_INTERVAL
    ||| c.offset >= c.end
    ||| cut
}

/// What a chunk reports when it fails: what it has received, if that was not reported yet, and then
/// that the rest of its range failed.
pub open spec fn last_words(c: ChunkRun, error: Seq<char>) -> Seq<InfoView> {
    let failed = InfoView::ChunkFailed { id: c.id, start: c.offset, end: c.end, error };
    if c.received() != c.last_reported {
        seq![progress_report(c)@, failed]
    } else {
        seq![failed]
    }
}

/// What a chunk reports when it has received its range: what was not reported yet, and that it is done.
pub open spec fn closing_words(c: ChunkRun) -> Seq<InfoView> {
    let done = InfoView::DownloadComplete { id: c.id };
    if c.received() != c.last_reported {
        seq![progress_report(c)@, done]
    } else {
        seq![done]
    }
}

/// The chunk fails.
pub open spec fn ends_failed(c: ChunkRun, error: Seq<char>) -> (
    ChunkRun,
    Seq<InfoView>,
    ChunkAction,
) {
    (ChunkRun { failed: true, ..c }, last_words(c, error), ChunkAction::End)
}

/// The chunk has received its range.
pub open spec fn ends_well(c: ChunkRun) -> (ChunkRun, Seq<InfoView>, ChunkAction) {
    (c, closing_words(c), ChunkAction::End)
}

/// The chunk is stopped from outside: it is done only if it has received its whole range.
pub open spec fn ends_stopped(c: ChunkRun) -> (ChunkRun, Seq<InfoView>, ChunkAction) {
    if c.offset == c.end + 1 {
        ends_well(c)
    } else {
        ends_failed(c, stopped_text())
    }
}

/// The message of a chunk that was stopped before it had received its range.
pub open spec fn stopped_text() -> Seq<char> {
    "chunk stopped"@
}

/// The message of a chunk whose connection was given up.
pub open spec fn stalled_text() -> Seq<char> {
    "connection stalled"@
}

/// The message of a chunk that lost its writer.
pub open spec fn writer_closed_text(id: ChunkId) -> Seq<char> {
    "[Chunk "@ + text::digits(id as nat) + "] 文件写入通道已关闭"@
}

/// The chunk after it told what it has received.
pub open spec fn told(c: ChunkRun, now: u64) -> ChunkRun {
    ChunkRun { last_reported: c.received(), last_progress: now, ..c }
}

/// What an event makes of a running chunk: the chunk afterwards, its reports, and what it does next.
pub open spec fn on_chunk_event(c: ChunkRun, e: ChunkEventView, now: u64) -> (
    ChunkRun,
    Seq<InfoView>,
    ChunkAction,
) {
    match e {
        ChunkEventView::Unanswered { error } => ends_failed(c, error),
        ChunkEventView::Answered { status, content_range } => match response_fault(
            status,
            status_shown(status),
            content_range,
            c.start_byte,
            c.end,
        ) {
            Some(error) => ends_failed(c, error),
            None => (c, Seq::empty(), ChunkAction::Listen),
        },
        ChunkEventView::Command { cmd } => match directive(c, cmd) {
            ChunkDirective::Continue => (c, Seq::empty(), ChunkAction::Listen),
            ChunkDirective::Split { midpoint, new_start, new_end } => (
                c,
                Seq::empty(),
                ChunkAction::Announce { midpoint, new_start, new_end },
            ),
            ChunkDirective::Abandon => ends_failed(c, stalled_text()),
            ChunkDirective::Stop => ends_stopped(c),
        },
        ChunkEventView::CommandsClosed => ends_stopped(c),
        ChunkEventView::Announced { midpoint, heard } => (
            if heard {
                ChunkRun { end: midpoint, ..c }
            } else {
                c
            },
            Seq::empty(),
            ChunkAction::Listen,
        ),
        ChunkEventView::Piece { received } => match data_plan(c, received) {
            DataPlan::Stop => ends_well(c),
            DataPlan::Write { offset, len } => (
                c,
                Seq::empty(),
                ChunkAction::Write { offset, len },
            ),
        },
        ChunkEventView::Written { len, received } => {
            let moved = advanced(c, len);
            let due = report_due(moved, len < received, now);
            let after = if due {
                told(moved, now)
            } else {
                moved
            };
            let progress = if due {
                seq![progress_report(moved)@]
            } else {
                Seq::empty()
            };
            if len < received {
                (after, progress + closing_words(after), ChunkAction::End)
            } else {
                (after, progress, ChunkAction::Listen)
            }
        },
        ChunkEventView::WriterClosed => ends_failed(c, writer_closed_text(c.id)),
        ChunkEventView::Broken { error } => ends_failed(c, error),
        ChunkEventView::Ended => if c.offset <= c.end && c.offset != u64::MAX {
            ends_failed(c, early_eof_text(c))
        } else {
            ends_well(c)
        },
    }
}

/// Reports in mathematical terms.
pub open spec fn report_views(s: Seq<DownloadInfo>) -> Seq<InfoView> {
    Seq::new(s.len(), |i: int| s[i]@)
}

impl ChunkRun {
    /// The number of bytes received.
    pub open spec fn received(self) -> u64 {
        if self.offset >= self.start_byte {
            (self.offset - self.start_byte) as u64
        } else {
            0
        }
    }

    /// The position lies within the range or just behind it, and no report told too much.
    pub open spec fn wf(self) -> bool {
        &&& self.start_byte <= self.offset <= self.end + 1
        &&& self.last_reported <= self.received()
    }

    /// A chunk that has received nothing.
    pub fn begin(id: ChunkId, start_byte: u64, end_byte: u64, now: u64) -> (r: ChunkRun)
        ensures
            r == (ChunkRun {
                id,
                start_byte,
                end: end_byte,
                offset: start_byte,
                last_reported: 0,
                last_progress: now,
                failed: false,
            }),
            start_byte <= end_byte ==> r.wf(),
    {
        ChunkRun {
            id,
            start_byte,
            end: end_byte,
            offset: start_byte,
            last_reported: 0,
            last_progress: now,
            failed: false,
        }
    }

    /// The number of bytes received.
    fn received_len(&self) -> (r: u64)
        ensures
            r == self.received(),
    {
        self.offset.saturating_sub(self.start_byte)
    }

    /// The report of what was received.
    fn report(&self) -> (r: DownloadInfo)
        ensures
            r == progress_report(*self),
    {
        DownloadInfo::ChunkProgress {
            id: self.id,
            start_byte: self.start_byte,
            end_byte: self.end,
            downloaded: self.received_len(),
        }
    }

    /// Decides on a command.
    pub fn on_command(&self, cmd: &DownloadCmd) -> (r: ChunkDirective)
        ensures
            r == directive(*self, *cmd),
    {
        match cmd {
            DownloadCmd::BisectDownload { id } => {
                if *id == self.id {
                    if let Some((midpoint, new_start)) = split_range(self.offset, self.end) {
                        return ChunkDirective::Split { midpoint, new_start, new_end: self.end };
                    }
                }
                ChunkDirective::Continue
            },
            DownloadCmd::BisectDownloadSkewed { id } => {
                if *id == self.id {
                    if let Some((midpoint, new_start)) = split_range_skewed(self.offset, self.end) {
                        return ChunkDirective::Split { midpoint, new_start, new_end: self.end };
                    }
                }
                ChunkDirective::Continue
            },
            DownloadCmd::TerminateChunk { id } => if *id == self.id {
                ChunkDirective::Abandon
            } else {
                ChunkDirective::Continue
            },
            DownloadCmd::TerminateAll => ChunkDirective::Stop,
            DownloadCmd::WriteFile { .. } => ChunkDirective::Continue,
        }
    }

    /// Keeps only what lies up to `midpoint`, once the rest was announced.
    pub fn commit_split(&mut self, midpoint: u64)
        ensures
            *final(self) == (ChunkRun { end: midpoint, ..*old(self) }),
    {
        self.end = midpoint;
    }

    /// Decides what to write of a piece of `received` bytes.
    pub fn on_data(&self, received: u64) -> (r: DataPlan)
        ensures
            r == data_plan(*self, received),
    {
        if self.offset > self.end {
            return DataPlan::Stop;
        }
        let allowed: u64 = span_len(self.offset, self.end);
        let len: u64 = if received <= allowed {
            received
        } else {
            allowed
        };
        DataPlan::Write { offset: self.offset, len }
    }

    /// Moves on after the writer took `len` bytes of a piece of `received` bytes. Gives the report
    /// that is due, and whether the range is complete.
    pub fn on_written(&mut self, len: u64, received: u64, now: u64) -> (r: (
        Option<DownloadInfo>,
        bool,
    ))
        ensures
            ({
                let moved = advanced(*old(self), len);
                if report_due(moved, len < received, now) {
                    &&& r.0 == Some(progress_report(moved))
                    &&& *final(self) == (ChunkRun {
                        last_reported: moved.received(),
                        last_progress: now,
                        ..moved
                    })
                } else {
                    r.0 is None && *final(self) == moved
                }
            }),
            r.1 == (len < received),
            old(self).wf() && old(self).end < u64::MAX && data_plan(*old(self), received) == (
            DataPlan::Write { offset: old(self).offset, len }) ==> final(self).wf() && (r.1 ==>
                final(self).offset == final(self).end + 1),
    {
        self.offset = self.offset.saturating_add(len);
        let downloaded: u64 = self.received_len();
        let due: bool = downloaded.saturating_sub(self.last_reported) >= PROGRESS_THROTTLE_BYTES
            || now.saturating_sub(self.last_progress) >= PROGRESS_THROTTLE_INTERVAL || self.offset
            >= self.end || len < received;
        let mut report: Option<DownloadInfo> = None;
        if due {
            report = Some(self.report());
            self.last_reported = downloaded;
            self.last_progress = now;
        }
        (report, len < received)
    }

    /// Ends the chunk with a failure: what was received stands, the rest is reported as failed.
    pub fn fail(&mut self, error: String) -> (r: Vec<DownloadInfo>)
        ensures
            *final(self) == (ChunkRun { failed: true, ..*old(self) }),
            failure_reports(*old(self), error@, r@),
    {
        let mut out: Vec<DownloadInfo> = Vec::new();
        if self.received_len() != self.last_reported {
            out.push(self.report());
        }
        out.push(
            DownloadInfo::ChunkFailed { id: self.id, start: self.offset, end: self.end, error },
        );
        self.failed = true;
        out
    }

    /// The writer is gone.
    pub fn on_writer_closed(&mut self) -> (r: Vec<DownloadInfo>)
        ensures
            *final(self) == (ChunkRun { failed: true, ..*old(self) }),
            failure_reports(*old(self), writer_closed_text(old(self).id), r@),
    {
        let mut t: String = String::new();
        push_text(&mut t, "[Chunk ");
        push_number(&mut t, self.id);
        push_text(&mut t, "] 文件写入通道已关闭");
        assert(t@ =~= writer_closed_text(self.id));
        self.fail(t)
    }

    /// The reply's body ended. That is a failure exactly if part of the range is still missing.
    pub fn on_eof(&mut self) -> (r: Vec<DownloadInfo>)
        ensures
            old(self).offset <= old(self).end && old(self).offset != u64::MAX ==> *final(self) == (
            ChunkRun { failed: true, ..*old(self) }) && failure_reports(
                *old(self),
                early_eof_text(*old(self)),
                r@,
            ),
            !(old(self).offset <= old(self).end && old(self).offset != u64::MAX) ==> *final(self)
                == *old(self) && r@.len() == 0,
    {
        if self.offset != self.end.saturating_add(1) && self.offset <= self.end {
            let mut t: String = String::new();
            push_text(&mut t, "early EOF: expected ");
            push_number(&mut t, span_len(self.start_byte, self.end));
            push_text(&mut t, " bytes (");
            push_dashed(&mut t, self.start_byte, self.end);
            push_text(&mut t, "), got ");
            push_number(&mut t, self.received_len());
            assert(t@ =~= early_eof_text(*self));
            return self.fail(t);
        }
        Vec::new()
    }

    /// What is reported when the chunk has received its range: nothing more after a failure, else
    /// what was not reported yet and that the chunk is done.
    pub fn finish(&self) -> (r: Vec<DownloadInfo>)
        ensures
            r@ == (if self.failed {
                Seq::empty()
            } else if self.received() != self.last_reported {
                seq![progress_report(*self), DownloadInfo::DownloadComplete(self.id)]
            } else {
                seq![DownloadInfo::DownloadComplete(self.id)]
            }),
    {
        let mut out: Vec<DownloadInfo> = Vec::new();
        if !self.failed {
            if self.received_len() != self.last_reported {
                out.push(self.report());
            }
            out.push(DownloadInfo::DownloadComplete(self.id));
        }
        out
    }

    /// The chunk is stopped from outside. That is a failure exactly if part of the range is still
    /// missing.
    pub fn on_stop(&mut self) -> (r: Vec<DownloadInfo>)
        requires
            !old(self).failed,
        ensures
            *final(self) == ends_stopped(*old(self)).0,
            report_views(r@) == ends_stopped(*old(self)).1,
    {
        let ghost c = *self;
        if self.end < u64::MAX && self.offset == self.end + 1 {
            let out: Vec<DownloadInfo> = self.finish();
            assert(report_views(out@) =~= closing_words(c));
            return out;
        }
        let out: Vec<DownloadInfo> = self.fail("chunk stopped".to_owned());
        assert(report_views(out@) =~= last_words(c, stopped_text()));
        out
    }

    /// Takes an event in. Gives the reports to send, and what to do next. After a chunk has ended it
    /// takes no more events.
    pub fn on_event(&mut self, event: ChunkEvent, now: u64) -> (r: (Vec<DownloadInfo>, ChunkAction))
        requires
            !old(self).failed,
        ensures
            ({
                let (c, words, next) = on_chunk_event(*old(self), event@, now);
                &&& *final(self) == c
                &&& report_views(r.0@) == words
                &&& r.1 == next
            }),
    {
        let ghost want = on_chunk_event(*self, event@, now);
        let mut out: Vec<DownloadInfo> = Vec::new();
        let mut next: ChunkAction = ChunkAction::Listen;
        assert(report_views(out@) =~= Seq::empty());
        match event {
            ChunkEvent::Unanswered { error } => {
                out = self.fail(error);
                next = ChunkAction::End;
            },
            ChunkEvent::Answered { status, content_range } => {
                let fault: Option<String> = check_reply(
                    status,
                    &content_range,
                    self.start_byte,
                    self.end,
                );
                if let Some(error) = fault {
                    out = self.fail(error);
                    next = ChunkAction::End;
                }
            },
            ChunkEvent::Command(cmd) => match self.on_command(&cmd) {
                ChunkDirective::Continue => {},
                ChunkDirective::Split { midpoint, new_start, new_end } => {
                    next = ChunkAction::Announce { midpoint, new_start, new_end };
                },
                ChunkDirective::Abandon => {
                    out = self.fail("connection stalled".to_owned());
                    next = ChunkAction::End;
                },
                ChunkDirective::Stop => {
                    out = self.on_stop();
                    next = ChunkAction::End;
                },
            },
            ChunkEvent::CommandsClosed => {
                out = self.on_stop();
                next = ChunkAction::End;
            },
            ChunkEvent::Announced { midpoint, heard } => {
                if heard {
                    self.commit_split(midpoint);
                }
            },
            ChunkEvent::Piece { received } => match self.on_data(received) {
                DataPlan::Stop => {
                    out = self.finish();
                    next = ChunkAction::End;
                },
                DataPlan::Write { offset, len } => {
                    next = ChunkAction::Write { offset, len };
                },
            },
            ChunkEvent::Written { len, received } => {
                let (report, complete) = self.on_written(len, received, now);
                if let Some(info) = report {
                    out.push(info);
                }
                if complete {
                    let mut last: Vec<DownloadInfo> = self.finish();
                    out.append(&mut last);
                    next = ChunkAction::End;
                }
            },
            ChunkEvent::WriterClosed => {
                out = self.on_writer_closed();
                next = ChunkAction::End;
            },
            ChunkEvent::Broken { error } => {
                out = self.fail(error);
                next = ChunkAction::End;
            },
            ChunkEvent::Ended => {
                out = self.on_eof();
                if !self.failed {
                    out = self.finish();
                }
                next = ChunkAction::End;
            },
        }
        assert(report_views(out@) =~= want.1);
        (out, next)
    }
}

/// A chunk that fails leaves exactly the bytes that it did not receive: what it received and what
/// it reports as failed are adjacent and together are its whole range.
pub proof fn law_failure_leaves_the_rest(c: ChunkRun, error: Seq<char>, reports: Seq<DownloadInfo>)
    requires
        c.wf(),
        c.offset <= c.end,
        failure_reports(c, error, reports),
    ensures
        is_failure_report(
            reports.last(),
            c.id,
            (c.start_byte + c.received()) as u64,
            c.end,
            error,
        ),
        c.received() + (c.end - c.offset + 1) == c.end - c.start_byte + 1,
{
}

/// A split keeps a chunk's position valid, and what it keeps and gives away is what was left.
pub proof fn law_split_keeps_the_rest(c: ChunkRun, cmd: DownloadCmd)
    requires
        c.wf(),
        c.offset <= c.end,
        directive(c, cmd) is Split,
    ensures
        ({
            let d = directive(c, cmd);
            let kept = ChunkRun { end: d->midpoint, ..c };
            &&& kept.wf()
            &&& kept.offset <= kept.end
            &&& d->new_start == kept.end + 1
            &&& d->new_end == c.end
            &&& (kept.end - kept.offset + 1) + (d->new_end - d->new_start + 1) == c.end - c.offset
                + 1
        }),
{
    law_split_is_a_partition(c.offset, c.end, cmd is BisectDownloadSkewed);
}

/// A report that decides what becomes of a chunk.
pub open spec fn is_verdict(info: InfoView) -> bool {
    info is DownloadComplete || info is ChunkFailed
}

/// A chunk tells once what became of it: its last report, and no other, says that it is done or that
/// it failed.
pub proof fn law_one_verdict(c: ChunkRun, e: ChunkEventView, now: u64)
    ensures
        ({
            let (after, words, next) = on_chunk_event(c, e, now);
            &&& next is End ==> words.len() > 0
            &&& forall|i: int|
                0 <= i < words.len() ==> (is_verdict(#[trigger] words[i]) <==> next is End && i
                    == words.len() - 1)
        }),
{
}

/// The writer took what the chunk wanted written.
pub open spec fn taken_as_planned(c: ChunkRun, e: ChunkEventView) -> bool {
    e matches ChunkEventView::Written { len, received } ==> data_plan(c, received) == (
    DataPlan::Write { offset: c.offset, len })
}

/// A chunk says that it is done only when it has received its whole range.
pub proof fn law_done_means_received(c: ChunkRun, e: ChunkEventView, now: u64)
    requires
        c.wf(),
        c.end < u64::MAX,
        taken_as_planned(c, e),
    ensures
        ({
            let (after, words, next) = on_chunk_event(c, e, now);
            next is End && words.last() is DownloadComplete ==> after.offset == after.end + 1
        }),
{
}

/// What has become of a chunk: where it stands, what it does next, what it has reported, and the bytes
/// that the writer took from it.
pub struct ChunkCourse {
    pub run: ChunkRun,
    pub next: ChunkAction,
    pub words: Seq<InfoView>,
    pub written: Set<int>,
}

/// The bytes that the writer takes with an event.
pub open spec fn taken_with(c: ChunkRun, e: ChunkEventView) -> Set<int> {
    match e {
        ChunkEventView::Written { len, .. } => Set::new(
            |x: int| c.offset <= x < c.offset + len,
        ),
        _ => Set::empty(),
    }
}

/// Where a run of events, each with its time, leaves a chunk.
pub open spec fn course(c: ChunkRun, events: Seq<(ChunkEventView, u64)>) -> ChunkCourse
    decreases events.len(),
{
    if events.len() == 0 {
        ChunkCourse {
            run: c,
            next: ChunkAction::Listen,
            words: Seq::empty(),
            written: Set::empty(),
        }
    } else {
        let before = course(c, events.drop_last());
        let (e, now) = events.last();
        let (run, words, next) = on_chunk_event(before.run, e, now);
        ChunkCourse {
            run,
            next,
            words: before.words + words,
            written: before.written.union(taken_with(before.run, e)),
        }
    }
}

/// An event is what the chunk's last action can lead to.
pub open spec fn answers(before: ChunkCourse, e: ChunkEventView) -> bool {
    match before.next {
        ChunkAction::Listen => e !is Announced && e !is Written && e !is WriterClosed,
        ChunkAction::Announce { midpoint, .. } => e matches ChunkEventView::Announced {
            midpoint: m,
            ..
        } && m == midpoint,
        ChunkAction::Write { len, .. } => {
            ||| e is WriterClosed
            ||| e is Written && e->len == len && taken_as_planned(before.run, e)
        },
        ChunkAction::End => false,
    }
}

/// Every event of a run is what the chunk's last action can lead to.
pub open spec fn in_order(c: ChunkRun, events: Seq<(ChunkEventView, u64)>) -> bool
    decreases events.len(),
{
    events.len() == 0 || {
        &&& in_order(c, events.drop_last())
        &&& answers(course(c, events.drop_last()), events.last().0)
    }
}

/// Whatever reply, pieces and commands a chunk gets: the writer took every byte before its position,
/// and if the chunk ever reported that it is done, the writer took every byte of the range that the
/// chunk kept.
pub proof fn law_a_done_chunk_has_written_its_range(
    c: ChunkRun,
    events: Seq<(ChunkEventView, u64)>,
)
    requires
        c.wf(),
        c.offset == c.start_byte,
        c.start_byte <= c.end < u64::MAX,
        in_order(c, events),
    ensures
        ({
            let d = course(c, events);
            &&& d.run.wf()
            &&& d.run.start_byte == c.start_byte && d.run.end <= c.end
            &&& forall|x: int|
                c.start_byte <= x < d.run.offset ==> #[trigger] d.written.contains(x)
            &&& forall|i: int|
                0 <= i < d.words.len() && (#[trigger] d.words[i]) is DownloadComplete ==> {
                    &&& d.next is End
                    &&& forall|x: int|
                        c.start_byte <= x <= d.run.end ==> #[trigger] d.written.contains(x)
                }
            &&& d.next matches ChunkAction::Announce { midpoint, .. } ==> d.run.offset <= midpoint
                <= d.run.end
        }),
    decreases events.len(),
{
    if events.len() > 0 {
        law_a_done_chunk_has_written_its_range(c, events.drop_last());
        let before = course(c, events.drop_last());
        let (e, now) = events.last();
        let d = course(c, events);
        let words = on_chunk_event(before.run, e, now).1;
        law_one_verdict(before.run, e, now);
        law_done_means_received(before.run, e, now);
        if let ChunkEventView::Command { cmd } = e {
            if directive(before.run, cmd) is Split {
                law_split_keeps_the_rest(before.run, cmd);
            }
        }
        assert forall|i: int| 0 <= i < d.words.len() && (#[trigger] d.words[i]) is DownloadComplete implies {
            &&& d.next is End
            &&& forall|x: int| c.start_byte <= x <= d.run.end ==> #[trigger] d.written.contains(x)
        } by {
            if i < before.words.len() {
                assert(before.words[i] is DownloadComplete);
            } else {
                assert(words[i - before.words.len()] is DownloadComplete);
            }
        }
    }
}

/// What moves a running chunk: a piece of the body, or a command.
pub enum ChunkStep {
    Piece { received: u64 },
    Ordered { cmd: DownloadCmd },
}

/// Where a step leaves the chunk's position and end.
pub open spec fn after_step(c: ChunkRun, step: ChunkStep) -> ChunkRun {
    match step {
        ChunkStep::Piece { received } => match data_plan(c, received) {
            DataPlan::Write { offset, len } => advanced(c, len),
            DataPlan::Stop => c,
        },
        ChunkStep::Ordered { cmd } => match directive(c, cmd) {
            ChunkDirective::Split { midpoint, .. } => ChunkRun { end: midpoint, ..c },
            _ => c,
        },
    }
}

/// Where a run of steps leaves the chunk.
pub open spec fn after_steps(c: ChunkRun, steps: Seq<ChunkStep>) -> ChunkRun
    decreases steps.len(),
{
    if steps.len() == 0 {
        c
    } else {
        after_step(after_steps(c, steps.drop_last()), steps.last())
    }
}

/// No byte of a chunk's range is lost, whatever pieces and commands come: at every moment the range
/// is the bytes received, then the bytes still to receive, then the bytes given away.
pub proof fn law_run_conserves_the_range(c: ChunkRun, steps: Seq<ChunkStep>)
    requires
        c.wf(),
        c.offset <= c.end < u64::MAX,
    ensures
        ({
            let now = after_steps(c, steps);
            &&& now.wf()
            &&& now.start_byte == c.start_byte
            &&& c.offset <= now.offset
            &&& now.offset <= now.end + 1
            &&& now.end <= c.end
        }),
    decreases steps.len(),
{
    if steps.len() > 0 {
        law_run_conserves_the_range(c, steps.drop_last());
        let before = after_steps(c, steps.drop_last());
        match steps.last() {
            ChunkStep::Piece { received } => {},
            ChunkStep::Ordered { cmd } => {
                if directive(before, cmd) is Split {
                    assert(before.offset <= before.end);
                    law_split_keeps_the_rest(before, cmd);
                }
            },
        }
    }
}

} // verus!
