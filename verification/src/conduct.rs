//! How a chunk conducts itself while it runs: which replies it takes, where its bytes go, what it tells
//! and how it ends.

use crate::chunk;
use crate::chunk::{ChunkAction, ChunkEventView, ChunkRun};
use crate::text;
use crate::types::{ChunkId, DownloadCmd, DownloadInfo, InfoView};
use crate::util;
use vstd::prelude::*;

verus! {

/// The reply is one for the range `start..=end`: a partial reply whose `Content-Range` names exactly
/// that range, or the whole file for a range that begins with it.
pub open spec fn fits(status: u16, header: Option<Seq<char>>, start: u64, end: u64) -> bool {
    ||| status == 206 && (header matches Some(h) && util::content_range(h) matches Some((f, l, _))
        && f == start && l == end)
    ||| status == 200 && start == 0
}

/// The chunk has failed, and its last report hands back `start..=end`, for the reason `error`.
pub open spec fn gave_up(
    c: ChunkRun,
    words: Seq<InfoView>,
    next: ChunkAction,
    start: u64,
    end: u64,
    error: Seq<char>,
) -> bool {
    &&& next is End
    &&& c.failed
    &&& words.len() > 0
    &&& words.last() == (InfoView::ChunkFailed { id: c.id, start, end, error })
}

/// A chunk goes on only after a reply that fits its range. Every other reply, whatever its status,
/// ends the chunk: it hands its whole rest back as failed and its position does not move.
pub proof fn law_only_fitting_replies_are_taken(
    c: ChunkRun,
    status: u16,
    header: Option<Seq<char>>,
    now: u64,
)
    ensures
        ({
            let (after, words, next) = chunk::on_chunk_event(
                c,
                ChunkEventView::Answered { status, content_range: header },
                now,
            );
            &&& fits(status, header, c.start_byte, c.end) ==> next is Listen && words.len() == 0
                && after == c
            &&& !fits(status, header, c.start_byte, c.end) ==> next is End && after.failed
                && after.offset == c.offset && words.len() > 0
            &&& !fits(status, header, c.start_byte, c.end) ==> (
            words.last() matches InfoView::ChunkFailed { id, start, end, .. } && id == c.id && start
                == c.offset && end == c.end)
        }),
{
}

/// What holds of a whole run of events holds of its beginning.
proof fn lemma_beginning(c: ChunkRun, events: Seq<(ChunkEventView, u64)>, n: int)
    requires
        chunk::in_order(c, events),
        0 <= n <= events.len(),
    ensures
        chunk::in_order(c, events.take(n)),
    decreases events.len(),
{
    if n < events.len() {
        lemma_beginning(c, events.drop_last(), n);
        assert(events.drop_last().take(n) =~= events.take(n));
    } else {
        assert(events.take(n) =~= events);
    }
}

/// A chunk whose request was answered with anything but a fitting reply writes no byte and hands its
/// whole range back: nothing can follow that answer.
pub proof fn law_refused_replies_leave_nothing_behind(
    c: ChunkRun,
    events: Seq<(ChunkEventView, u64)>,
)
    requires
        chunk::in_order(c, events),
        events.len() > 0,
        c.offset == c.start_byte,
        events[0].0 matches ChunkEventView::Answered { status, content_range } && !fits(
            status,
            content_range,
            c.start_byte,
            c.end,
        ),
    ensures
        ({
            let d = chunk::course(c, events);
            &&& d.written == Set::<int>::empty()
            &&& d.next is End
            &&& d.words.len() > 0
            &&& d.words.last() matches InfoView::ChunkFailed { id, start, end, .. } && id == c.id
                && start == c.start_byte && end == c.end
        }),
{
    let one = events.take(1);
    let status = events[0].0->status;
    let header = events[0].0->content_range;
    law_only_fitting_replies_are_taken(c, status, header, events[0].1);
    assert(one.drop_last() =~= Seq::empty());
    assert(one.last() == events[0]);
    let none = chunk::course(c, Seq::empty());
    assert(none.run == c && none.words.len() == 0);
    let d = chunk::course(c, one);
    let words = chunk::on_chunk_event(c, events[0].0, events[0].1).1;
    assert(d.words =~= words);
    assert(d.written =~= Set::<int>::empty());
    if events.len() > 1 {
        let two = events.take(2);
        lemma_beginning(c, events, 2);
        assert(two.drop_last() =~= one);
        assert(false);
    }
    assert(events =~= one);
}

/// A piece of the body goes to the chunk's position, as far as it belongs to the chunk's range, and no
/// further. Once the range is full, the chunk is done.
pub proof fn law_pieces_go_where_they_belong(c: ChunkRun, received: u64, now: u64)
    requires
        c.end < u64::MAX,
    ensures
        ({
            let (after, words, next) = chunk::on_chunk_event(
                c,
                ChunkEventView::Piece { received },
                now,
            );
            &&& after == c
            &&& c.offset <= c.end ==> words.len() == 0 && (next matches ChunkAction::Write {
                offset,
                len,
            } && offset == c.offset && len <= received && offset + len <= c.end + 1 && (len
                == received || offset + len == c.end + 1))
            &&& c.offset > c.end ==> next is End && words.len() > 0 && words.last() == (
            InfoView::DownloadComplete { id: c.id })
        }),
{
}

/// What the writer took moves the chunk's position by as much, and nothing else. It is reported once
/// 64 KiB or 50 ms have gathered since the last report, when the end of the range is reached, and when
/// the piece went beyond it; a report tells exactly what was received. A piece that went beyond the
/// range ends the chunk, which is then done.
pub proof fn law_written_bytes_are_told(c: ChunkRun, len: u64, received: u64, now: u64)
    requires
        c.wf(),
        c.end < u64::MAX,
        c.offset + len <= c.end + 1,
    ensures
        ({
            let (after, words, next) = chunk::on_chunk_event(
                c,
                ChunkEventView::Written { len, received },
                now,
            );
            let had = c.offset + len - c.start_byte;
            let due = had - c.last_reported >= 65_536 || now - c.last_progress >= 50_000_000
                || c.offset + len >= c.end || len < received;
            let told = InfoView::ChunkProgress {
                id: c.id,
                start_byte: c.start_byte,
                end_byte: c.end,
                downloaded: had as u64,
            };
            &&& after.offset == c.offset + len
            &&& after.id == c.id && after.start_byte == c.start_byte && after.end == c.end
                && after.failed == c.failed
            &&& due ==> words.len() > 0 && words[0] == told && after.last_reported == had
                && after.last_progress == now
            &&& !due ==> words.len() == 0 && after.last_reported == c.last_reported
                && after.last_progress == c.last_progress
            &&& len >= received ==> next is Listen && words.len() <= 1
            &&& len < received ==> next is End && words.len() == 2 && words.last() == (
            InfoView::DownloadComplete { id: c.id })
        }),
{
}

/// An even split leaves two halves, of which the second is larger by one byte at most. It is announced
/// wherever each half has at least 10 KiB, and never otherwise.
pub proof fn law_even_splits_are_even(c: ChunkRun, now: u64)
    requires
        c.offset <= c.end < u64::MAX,
    ensures
        ({
            let (after, words, next) = chunk::on_chunk_event(
                c,
                ChunkEventView::Command { cmd: DownloadCmd::BisectDownload { id: c.id } },
                now,
            );
            let n = c.end - c.offset + 1;
            &&& after == c && words.len() == 0
            &&& n < 20_480 ==> next is Listen
            &&& n >= 20_480 ==> (next matches ChunkAction::Announce { midpoint, new_start, new_end }
                && new_start == midpoint + 1 && new_end == c.end && 0 <= (new_end - new_start + 1)
                - (midpoint - c.offset + 1) <= 1)
        }),
{
}

/// A skewed split keeps an eighth of the rest, rounded down, but at least 10 KiB. It is announced
/// wherever the rest has at least 20 KiB, and never otherwise.
pub proof fn law_skewed_splits_keep_an_eighth(c: ChunkRun, now: u64)
    requires
        c.offset <= c.end < u64::MAX,
    ensures
        ({
            let (after, words, next) = chunk::on_chunk_event(
                c,
                ChunkEventView::Command { cmd: DownloadCmd::BisectDownloadSkewed { id: c.id } },
                now,
            );
            let n = c.end - c.offset + 1;
            &&& after == c && words.len() == 0
            &&& n < 20_480 ==> next is Listen
            &&& n >= 20_480 ==> (next matches ChunkAction::Announce { midpoint, new_start, new_end }
                && new_start == midpoint + 1 && new_end == c.end && ({
                let kept = midpoint - c.offset + 1;
                &&& kept >= 10_240
                &&& kept > 10_240 ==> kept * 8 <= n < (kept + 1) * 8
                &&& kept == 10_240 ==> n < 81_928
            }))
        }),
{
}

/// An announced split takes effect if it was heard, and only then: the chunk keeps what lies up to the
/// midpoint, and loses nothing that it has received.
pub proof fn law_heard_splits_take_effect(c: ChunkRun, midpoint: u64, heard: bool, now: u64)
    ensures
        ({
            let (after, words, next) = chunk::on_chunk_event(
                c,
                ChunkEventView::Announced { midpoint, heard },
                now,
            );
            &&& next is Listen
            &&& words.len() == 0
            &&& after.end == (if heard {
                midpoint
            } else {
                c.end
            })
            &&& after.id == c.id && after.start_byte == c.start_byte && after.offset == c.offset
            &&& after.last_reported == c.last_reported && after.last_progress == c.last_progress
            &&& after.failed == c.failed
        }),
{
}

/// A chunk does not heed what is meant for others: a split or an end of another chunk, and bytes for
/// the writer.
pub proof fn law_other_chunks_commands_are_not_heeded(c: ChunkRun, cmd: DownloadCmd, now: u64)
    requires
        match cmd {
            DownloadCmd::BisectDownload { id } => id != c.id,
            DownloadCmd::BisectDownloadSkewed { id } => id != c.id,
            DownloadCmd::TerminateChunk { id } => id != c.id,
            DownloadCmd::WriteFile { .. } => true,
            _ => false,
        },
    ensures
        chunk::on_chunk_event(c, ChunkEventView::Command { cmd }, now) == (
            c,
            Seq::<InfoView>::empty(),
            ChunkAction::Listen,
        ),
{
}

/// A chunk that is told to give up its connection, whose request or body fails, whose writer is gone
/// or whose body ends too soon hands back exactly what it has not received, with the reason.
pub proof fn law_failures_hand_the_rest_back(c: ChunkRun, error: Seq<char>, now: u64)
    requires
        c.offset <= c.end < u64::MAX,
    ensures
        ({
            let (a, words, next) = chunk::on_chunk_event(
                c,
                ChunkEventView::Command { cmd: DownloadCmd::TerminateChunk { id: c.id } },
                now,
            );
            gave_up(a, words, next, c.offset, c.end, "connection stalled"@)
        }),
        ({
            let (a, words, next) = chunk::on_chunk_event(
                c,
                ChunkEventView::Unanswered { error },
                now,
            );
            gave_up(a, words, next, c.offset, c.end, error)
        }),
        ({
            let (a, words, next) = chunk::on_chunk_event(c, ChunkEventView::Broken { error }, now);
            gave_up(a, words, next, c.offset, c.end, error)
        }),
        ({
            let (a, words, next) = chunk::on_chunk_event(c, ChunkEventView::WriterClosed, now);
            next is End && a.failed && words.len() > 0 && (
            words.last() matches InfoView::ChunkFailed { id, start, end, .. } && id == c.id && start
                == c.offset && end == c.end)
        }),
        ({
            let (a, words, next) = chunk::on_chunk_event(c, ChunkEventView::Ended, now);
            next is End && a.failed && words.len() > 0 && (
            words.last() matches InfoView::ChunkFailed { id, start, end, .. } && id == c.id && start
                == c.offset && end == c.end)
        }),
        ({
            let (a, words, next) = chunk::on_chunk_event(
                c,
                ChunkEventView::Command { cmd: DownloadCmd::TerminateAll },
                now,
            );
            gave_up(a, words, next, c.offset, c.end, "chunk stopped"@)
        }),
        ({
            let (a, words, next) = chunk::on_chunk_event(c, ChunkEventView::CommandsClosed, now);
            gave_up(a, words, next, c.offset, c.end, "chunk stopped"@)
        }),
{
}

/// A chunk that has received its whole range is done when its body ends, when a further piece comes
/// and when it is stopped; it does not fail.
pub proof fn law_a_full_chunk_is_done(c: ChunkRun, received: u64, now: u64)
    requires
        c.offset == c.end + 1,
    ensures
        ({
            let done = InfoView::DownloadComplete { id: c.id };
            let (a, ended, na) = chunk::on_chunk_event(c, ChunkEventView::Ended, now);
            let (b, more, nb) = chunk::on_chunk_event(c, ChunkEventView::Piece { received }, now);
            let (d, stopped, nd) = chunk::on_chunk_event(
                c,
                ChunkEventView::Command { cmd: DownloadCmd::TerminateAll },
                now,
            );
            let (f, closed, nf) = chunk::on_chunk_event(c, ChunkEventView::CommandsClosed, now);
            &&& na is End && ended.len() > 0 && ended.last() == done && a == c
            &&& nb is End && more.len() > 0 && more.last() == done && b == c
            &&& nd is End && stopped.len() > 0 && stopped.last() == done && d == c
            &&& nf is End && closed.len() > 0 && closed.last() == done && f == c
        }),
{
}

/// Before a chunk says how it ended, it tells what it has received, unless that was told already.
pub proof fn law_nothing_received_stays_untold(c: ChunkRun, e: ChunkEventView, now: u64)
    requires
        c.wf(),
        c.end < u64::MAX,
        e !is Written,
        chunk::on_chunk_event(c, e, now).2 is End,
    ensures
        ({
            let words = chunk::on_chunk_event(c, e, now).1;
            let had = c.offset - c.start_byte;
            &&& words.len() == (if had == c.last_reported {
                1int
            } else {
                2
            })
            &&& had != c.last_reported ==> words[0] == (InfoView::ChunkProgress {
                id: c.id,
                start_byte: c.start_byte,
                end_byte: c.end,
                downloaded: had as u64,
            })
        }),
{
}

/// The reason for which a reply is refused tells what came: the `Content-Range` that does not fit or
/// cannot be read, and for a status that is not expected the range that was requested.
pub proof fn law_refusals_tell_what_came(
    status: u16,
    shown: Seq<char>,
    header: Option<Seq<char>>,
    start: u64,
    end: u64,
)
    ensures
        ({
            let fault = chunk::response_fault(status, shown, header, start, end);
            &&& fault is None <==> fits(status, header, start, end)
            &&& fault matches Some(t) ==> (header matches Some(h) ==> (status == 206 ==> t.len()
                >= h.len() && t.skip(t.len() - h.len()) == h))
            &&& fault matches Some(t) ==> (status != 206 ==> text::has_part(
                t,
                text::digits(start as nat) + "-"@ + text::digits(end as nat),
            ))
            &&& fault matches Some(t) ==> (status != 206 && status != 200 ==> text::has_part(
                t,
                shown,
            ))
        }),
{
    if let Some(t) = chunk::response_fault(status, shown, header, start, end) {
        let range = chunk::dashed(start, end);
        text::law_parts_stand_between_two_ends(t, range);
        text::law_parts_stand_between_two_ends(t, shown);
        if status == 206 {
            if let Some(h) = header {
                assert(t.skip(t.len() - h.len()) =~= h);
            }
        } else if status == 200 {
            assert(t == "server returned 200 OK but Range requested "@ + range
                + ", only single-segment full download (0-*) is allowed to downgrade"@);
        } else {
            let tail = ", Content-Range: "@ + (match header {
                Some(h) => h,
                None => Seq::empty(),
            });
            assert(t =~= ("unexpected status "@ + shown + " for Range request bytes="@) + range
                + tail);
            assert(t =~= "unexpected status "@ + shown + (" for Range request bytes="@ + range
                + tail));
        }
    }
}

/// A report of a failure is one of this chunk, with this rest and for this reason.
pub proof fn law_failure_reports_say_what_is_left(
    info: DownloadInfo,
    id: ChunkId,
    start: u64,
    end: u64,
    error: Seq<char>,
)
    ensures
        chunk::is_failure_report(info, id, start, end, error) <==> info@ == (
        InfoView::ChunkFailed { id, start, end, error }),
{
}

} // verus!
