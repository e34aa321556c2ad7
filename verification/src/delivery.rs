//! What a finished download has delivered: every byte of the file was written.

use crate::chunk;
use crate::chunk::{ChunkEventView, ChunkRun};
use crate::conservation;
use crate::downloader;
use crate::monitor;
use crate::monitor::{EventView, MonitorModel};
use crate::resume;
use crate::resume::SegmentRecord;
use crate::retry;
use crate::retry::RetryModel;
use crate::source::RuntimeModel;
use crate::types::InfoView;
use vstd::prelude::*;

verus! {

/// The byte `x` lies in a range.
pub open spec fn lies_in(x: int, r: (u64, u64)) -> bool {
    r.0 <= x <= r.1
}

/// The byte `x` lies in a range that is not yet received.
pub open spec fn waits(m: MonitorModel, x: int) -> bool {
    exists|r: (u64, u64)| #[trigger] conservation::outstanding(m).count(r) > 0 && lies_in(x, r)
}

/// Every byte of the file is among the bytes `w`, which get written, or lies in a range that is not
/// yet received.
pub open spec fn accounted(m: MonitorModel, w: Set<int>) -> bool {
    forall|x: int| 0 <= x < m.st.total_file_size ==> #[trigger] w.contains(x) || waits(m, x)
}

/// A report is true to the bytes `w` that get written: a chunk that is done wrote its range, and a
/// chunk that failed wrote what lies before the rest that it names.
pub open spec fn truthful(m: MonitorModel, info: InfoView, w: Set<int>) -> bool {
    match info {
        InfoView::DownloadComplete { id } => forall|x: int|
            m.st.chunk(id).start_byte <= x <= m.st.chunk(id).held_end() ==> #[trigger] w.contains(x),
        InfoView::ChunkFailed { id, start, .. } => forall|x: int|
            m.st.chunk(id).start_byte <= x < start ==> #[trigger] w.contains(x),
        _ => true,
    }
}

/// The bytes that a chunk has received are among the bytes `w` that get written, and so are those that
/// the writer takes with an event.
pub open spec fn handed_on(c: ChunkRun, e: ChunkEventView, w: Set<int>) -> bool {
    &&& forall|x: int| c.start_byte <= x < c.offset ==> #[trigger] w.contains(x)
    &&& e matches ChunkEventView::Written { len, .. } ==> forall|x: int|
        c.offset <= x < c.offset + len ==> #[trigger] w.contains(x)
}

/// The monitor knows the range of a chunk.
pub open spec fn same_range(m: MonitorModel, c: ChunkRun) -> bool {
    &&& m.st.chunk(c.id).start_byte == c.start_byte
    &&& m.st.chunk(c.id).held_end() == c.end
}

/// What a chunk reports is true: it says that it is done only when its whole range was handed to the
/// writer, and when it fails it names no byte as received that was not.
pub proof fn law_chunks_report_truthfully(
    m: MonitorModel,
    c: ChunkRun,
    e: ChunkEventView,
    w: Set<int>,
    now: u64,
)
    requires
        c.wf(),
        c.end < u64::MAX,
        chunk::taken_as_planned(c, e),
        handed_on(c, e, w),
    ensures
        ({
            let (after, words, next) = chunk::on_chunk_event(c, e, now);
            &&& forall|x: int| after.start_byte <= x < after.offset ==> #[trigger] w.contains(x)
            &&& same_range(m, after) ==> forall|i: int|
                0 <= i < words.len() ==> truthful(m, #[trigger] words[i], w)
        }),
{
}

/// Whatever the chunks report, every byte stays accounted for.
pub proof fn law_reports_account_for_every_byte(
    m: MonitorModel,
    info: InfoView,
    w: Set<int>,
    now: u64,
)
    requires
        conservation::tidy(m),
        conservation::balanced(m),
        conservation::fits(m, info),
        truthful(m, info, w),
        accounted(m, w),
        m.next_id < u64::MAX,
    ensures
        accounted(monitor::on_report(m, info, now).0, w),
        monitor::on_report(m, info, now).0.st.total_file_size == m.st.total_file_size,
{
    broadcast use vstd::multiset::group_multiset_axioms;
    broadcast use vstd::seq_lib::group_to_multiset_ensures;

    let n = monitor::on_report(m, info, now).0;
    let old_ranges = conservation::outstanding(m);
    let new_ranges = conservation::outstanding(n);
    match info {
        InfoView::ChunkProgress { id, start_byte, end_byte, downloaded } => {
            conservation::lemma_progress_keeps_ranges(m, id, start_byte, end_byte, downloaded, now);
            assert(new_ranges == old_ranges);
        },
        InfoView::DownloadComplete { id } => {
            let c = m.st.chunk(id);
            conservation::lemma_fits_in_balance(m, id);
            conservation::law_completion_settles_one_range(m, id, now);
            assert forall|x: int| 0 <= x < m.st.total_file_size implies #[trigger] w.contains(x)
                || waits(n, x) by {
                if !w.contains(x) {
                    let r = choose|r: (u64, u64)| #[trigger]
                        old_ranges.count(r) > 0 && lies_in(x, r);
                    assert(r != (c.start_byte, c.held_end()));
                    assert(new_ranges.count(r) > 0);
                }
            }
        },
        InfoView::ChunkFailed { id, start, end, error } => {
            let c = m.st.chunk(id);
            conservation::lemma_fits_in_balance(m, id);
            conservation::law_failure_leaves_the_rest_outstanding(m, id, start, error, now);
            assert forall|x: int| 0 <= x < m.st.total_file_size implies #[trigger] w.contains(x)
                || waits(n, x) by {
                if !w.contains(x) {
                    let r = choose|r: (u64, u64)| #[trigger]
                        old_ranges.count(r) > 0 && lies_in(x, r);
                    if r == (c.start_byte, c.held_end()) {
                        assert(new_ranges.count((start, end)) > 0);
                        assert(lies_in(x, (start, end)));
                    } else {
                        assert(new_ranges.count(r) > 0);
                    }
                }
            }
        },
        InfoView::ChunkBisected { original_id, new_start, new_end } => {
            let c = m.st.chunk(original_id);
            conservation::law_splits_keep_every_range(m, original_id, new_start, now);
            let first = (c.start_byte, (new_start - 1) as u64);
            let second = (new_start, new_end);
            assert forall|x: int| 0 <= x < m.st.total_file_size implies #[trigger] w.contains(x)
                || waits(n, x) by {
                if !w.contains(x) {
                    let r = choose|r: (u64, u64)| #[trigger]
                        old_ranges.count(r) > 0 && lies_in(x, r);
                    if r == (c.start_byte, c.held_end()) {
                        assert(new_ranges.count(first) > 0);
                        assert(new_ranges.count(second) > 0);
                        assert(lies_in(x, first) || lies_in(x, second));
                    } else {
                        assert(new_ranges.count(r) > 0);
                    }
                }
            }
        },
        _ => {},
    }
}

/// The ids that have been given out and the ranges that will need one.
pub open spec fn ids_spoken_for(m: MonitorModel) -> int {
    m.next_id + m.pending.len()
}

proof fn lemma_drained_ids(m: MonitorModel, now: u64)
    requires
        ids_spoken_for(m) <= u64::MAX,
    ensures
        ids_spoken_for(monitor::drained(m, now).0) == ids_spoken_for(m),
    decreases m.pending.len(),
{
    if m.pending.len() > 0 {
        let (lanes, room, lane) = monitor::seek_room(m.lanes, now);
        if room {
            let (start, end) = m.pending[0];
            let taken = MonitorModel {
                lanes,
                pending: m.pending.skip(1),
                next_id: monitor::next_id(m.next_id),
                ..m
            };
            lemma_drained_ids(
                monitor::started(taken, m.next_id, start, end, lane, now),
                now,
            );
        }
    }
}

proof fn lemma_retried_ids(m: MonitorModel, now: u64)
    ensures
        ids_spoken_for(monitor::retried(m, now).0) == ids_spoken_for(m),
    decreases m.retry.retry.len(),
{
    let s = m.retry.retry;
    let p = retry::ready_place(s, now);
    retry::lemma_ready_place(s, now);
    if p >= 0 {
        let c = s[p];
        let (lanes, room, lane) = monitor::seek_room(m.lanes, now);
        let taken = MonitorModel {
            lanes,
            retry: RetryModel { retry: s.remove(p), ..m.retry },
            ..m
        };
        if room {
            lemma_retried_ids(monitor::started(taken, c.id, c.start, c.end, lane, now), now);
        } else {
            lemma_retried_ids(taken, now);
        }
    }
}

/// When time passes, every byte stays accounted for.
pub proof fn law_ticks_account_for_every_byte(m: MonitorModel, elapsed: u64, w: Set<int>, now: u64)
    requires
        conservation::tidy(m),
        accounted(m, w),
        ids_spoken_for(m) <= u64::MAX,
    ensures
        accounted(monitor::on_tick(m, elapsed, now).0, w),
        monitor::on_tick(m, elapsed, now).0.st.total_file_size == m.st.total_file_size,
        ids_spoken_for(monitor::on_tick(m, elapsed, now).0) == ids_spoken_for(m),
{
    let n = monitor::on_tick(m, elapsed, now).0;
    conservation::law_ticks_keep_every_range(m, elapsed, now);
    conservation::lemma_ticks_receive_nothing(m, elapsed, now);
    let a = monitor::weighed(m, elapsed, now).0;
    lemma_drained_ids(a, now);
    let b = monitor::drained(a, now).0;
    lemma_retried_ids(MonitorModel { retry: retry::processed(b.retry, now), ..b }, now);
    assert forall|x: int| 0 <= x < m.st.total_file_size implies #[trigger] w.contains(x) || waits(
        n,
        x,
    ) by {
        if !w.contains(x) {
            let r = choose|r: (u64, u64)| #[trigger]
                conservation::outstanding(m).count(r) > 0 && lies_in(x, r);
            assert(conservation::outstanding(n).count(r) > 0);
        }
    }
}

/// An event that the chunks of a monitor give rise to: its reports fit the monitor and are true to
/// the bytes `w` that get written.
pub open spec fn faithful(m: MonitorModel, e: EventView, w: Set<int>) -> bool {
    match e {
        EventView::Reliable { info } => conservation::fits(m, info) && truthful(m, info, w),
        EventView::Broadcast { info } => monitor::reliable(info) || conservation::fits(m, info),
        _ => true,
    }
}

/// What events, each with its time, make of a monitor.
pub open spec fn after_events(m: MonitorModel, events: Seq<(EventView, u64)>) -> MonitorModel
    decreases events.len(),
{
    if events.len() == 0 {
        m
    } else {
        monitor::on_event(
            after_events(m, events.drop_last()),
            events.last().0,
            events.last().1,
        ).0
    }
}

/// Each of the events is faithful when it comes.
pub open spec fn all_faithful(m: MonitorModel, events: Seq<(EventView, u64)>, w: Set<int>) -> bool
    decreases events.len(),
{
    events.len() > 0 ==> {
        &&& all_faithful(m, events.drop_last(), w)
        &&& faithful(after_events(m, events.drop_last()), events.last().0, w)
    }
}

/// A download on the way: no id is used twice, what was received and what was not make up the file,
/// and every byte is accounted for.
pub open spec fn on_course(m: MonitorModel, w: Set<int>) -> bool {
    &&& conservation::tidy(m)
    &&& conservation::balanced(m)
    &&& accounted(m, w)
}

proof fn lemma_report_on_course(m: MonitorModel, info: InfoView, w: Set<int>, now: u64)
    requires
        on_course(m, w),
        conservation::fits(m, info),
        truthful(m, info, w),
        ids_spoken_for(m) < u64::MAX,
    ensures
        ({
            let n = monitor::on_report(m, info, now).0;
            &&& on_course(n, w)
            &&& n.st.total_file_size == m.st.total_file_size
            &&& ids_spoken_for(n) <= ids_spoken_for(m) + 1
        }),
{
    conservation::law_reports_keep_the_balance(m, info, now);
    law_reports_account_for_every_byte(m, info, w, now);
}

/// Faithful events keep a download on course.
pub proof fn law_events_keep_the_course(
    m: MonitorModel,
    events: Seq<(EventView, u64)>,
    w: Set<int>,
)
    requires
        on_course(m, w),
        all_faithful(m, events, w),
        ids_spoken_for(m) + events.len() <= u64::MAX,
    ensures
        ({
            let n = after_events(m, events);
            &&& on_course(n, w)
            &&& n.st.total_file_size == m.st.total_file_size
            &&& ids_spoken_for(n) <= ids_spoken_for(m) + events.len()
        }),
    decreases events.len(),
{
    if events.len() > 0 {
        law_events_keep_the_course(m, events.drop_last(), w);
        let before = after_events(m, events.drop_last());
        let (e, now) = events.last();
        match e {
            EventView::Reliable { info } => {
                lemma_report_on_course(before, info, w, now);
            },
            EventView::Broadcast { info } => {
                if !monitor::reliable(info) {
                    lemma_report_on_course(before, info, w, now);
                }
            },
            EventView::Tick { elapsed, running } => {
                if elapsed > 0 {
                    conservation::law_ticks_keep_the_balance(before, elapsed, now);
                    law_ticks_account_for_every_byte(before, elapsed, w, now);
                }
            },
            _ => {},
        }
    }
}

/// A download whose monitor has nothing left to do, and which gave no range up, has written every
/// byte of the file: those of `ranges`, and those that were there before.
///
/// `w` are the bytes that were there before or get written. `m` is the monitor before it starts the
/// download of `ranges`, and `events` is all that reaches it.
pub proof fn law_finished_downloads_are_whole(
    m: MonitorModel,
    ranges: Seq<(u64, u64)>,
    now: u64,
    events: Seq<(EventView, u64)>,
    w: Set<int>,
)
    requires
        monitor::idle(m),
        m.retry.lost.len() == 0,
        m.st.completed_bytes + conservation::bytes_of(ranges) == m.st.total_file_size,
        forall|x: int|
            0 <= x < m.st.total_file_size ==> #[trigger] w.contains(x) || exists|i: int|
                0 <= i < ranges.len() && lies_in(x, #[trigger] ranges[i]),
        m.next_id + ranges.len() + events.len() <= u64::MAX,
        all_faithful(monitor::all_opened(m, ranges, now).0, events, w),
        ({
            let n = after_events(monitor::all_opened(m, ranges, now).0, events);
            monitor::idle(n) && n.retry.lost.len() == 0
        }),
    ensures
        forall|x: int| 0 <= x < m.st.total_file_size ==> #[trigger] w.contains(x),
{
    broadcast use vstd::multiset::group_multiset_axioms;
    broadcast use vstd::seq_lib::group_to_multiset_ensures;

    let start = monitor::all_opened(m, ranges, now).0;
    let n = after_events(start, events);
    conservation::law_downloads_start_in_balance(m, ranges, now);
    lemma_opened_ids(m, ranges, now);
    conservation::lemma_idle_is_tidy(m);
    conservation::lemma_all_opened(m, ranges, now);
    assert forall|x: int| 0 <= x < m.st.total_file_size implies #[trigger] w.contains(x) || waits(
        start,
        x,
    ) by {
        if !w.contains(x) {
            let i = choose|i: int| 0 <= i < ranges.len() && lies_in(x, #[trigger] ranges[i]);
            assert(ranges.contains(ranges[i]));
            assert(ranges.to_multiset().count(ranges[i]) > 0);
            assert(conservation::outstanding(start).count(ranges[i]) > 0);
        }
    }
    law_events_keep_the_course(start, events, w);
    assert(conservation::outstanding(n).len() == 0) by {
        conservation::lemma_idle_has_no_ranges(n);
    }
    assert forall|x: int| 0 <= x < m.st.total_file_size implies #[trigger] w.contains(x) by {
        if !w.contains(x) {
            assert(waits(n, x));
        }
    }
}

/// The first ranges take one id each, at once or later.
proof fn lemma_opened_ids(m: MonitorModel, ranges: Seq<(u64, u64)>, now: u64)
    requires
        ids_spoken_for(m) + ranges.len() <= u64::MAX,
    ensures
        ids_spoken_for(monitor::all_opened(m, ranges, now).0) == ids_spoken_for(m) + ranges.len(),
    decreases ranges.len(),
{
    if ranges.len() > 0 {
        lemma_opened_ids(m, ranges.drop_last(), now);
    }
}

/// A byte that lies in one of the ranges.
proof fn lemma_within(s: Seq<(u64, u64)>, i: int, x: u64)
    requires
        0 <= i < s.len(),
        s[i].0 <= x <= s[i].1,
    ensures
        resume::within(s, x),
        downloader::times_held(s, x) > 0,
    decreases s.len(),
{
    lemma_held_at_least_never(s.drop_last(), x);
    if i < s.len() - 1 {
        lemma_within(s.drop_last(), i, x);
    }
}

proof fn lemma_held_at_least_never(s: Seq<(u64, u64)>, x: u64)
    ensures
        downloader::times_held(s, x) >= 0,
    decreases s.len(),
{
    if s.len() > 0 {
        lemma_held_at_least_never(s.drop_last(), x);
    }
}

/// The range in which a byte lies.
proof fn lemma_range_of(s: Seq<(u64, u64)>, x: u64) -> (i: int)
    requires
        resume::within(s, x) || downloader::times_held(s, x) > 0,
    ensures
        0 <= i < s.len(),
        s[i].0 <= x <= s[i].1,
    decreases s.len(),
{
    if s.last().0 <= x <= s.last().1 {
        s.len() - 1
    } else {
        lemma_range_of(s.drop_last(), x)
    }
}

/// Up to the end of a segment every byte lies in a segment.
proof fn lemma_segments_hold(s: Seq<SegmentRecord>, file_size: u64, n: int, x: u64)
    requires
        resume::tiles(s, file_size),
        1 <= n <= s.len(),
        x <= s[n - 1].end,
    ensures
        resume::in_segment_where(s.take(n), true, x) || resume::in_segment_where(
            s.take(n),
            false,
            x,
        ),
    decreases n,
{
    assert(s.take(n).drop_last() =~= s.take(n - 1));
    if x < s[n - 1].start {
        if n == 1 {
            assert(s[0].start == 0);
        } else {
            assert(s[n - 1].start == s[n - 2].end + 1);
            lemma_segments_hold(s, file_size, n - 1, x);
        }
    }
}

/// The bytes of segments lie within the file.
proof fn lemma_segments_end(s: Seq<SegmentRecord>, file_size: u64, n: int, hashed: bool, x: u64)
    requires
        resume::tiles(s, file_size),
        0 <= n <= s.len(),
        resume::in_segment_where(s.take(n), hashed, x),
    ensures
        x < file_size,
    decreases n,
{
    if n > 0 {
        assert(s.take(n).drop_last() =~= s.take(n - 1));
        assert(s[n - 1].end < file_size);
        if resume::in_segment_where(s.take(n - 1), hashed, x) {
            lemma_segments_end(s, file_size, n - 1, hashed, x);
        }
    }
}

/// Two ways to add up the bytes of ranges.
proof fn lemma_sums_agree(s: Seq<(u64, u64)>)
    requires
        forall|i: int| 0 <= i < s.len() ==> (#[trigger] s[i]).0 <= s[i].1 < u64::MAX,
    ensures
        conservation::bytes_of(s) == resume::byte_sum(s),
    decreases s.len(),
{
    if s.len() > 0 {
        lemma_sums_agree(s.drop_last());
    }
}

/// A resumed download whose monitor has nothing left to do, and which gave no range up, has every byte
/// of the file: those that its ledger vouches for, and those that it wrote.
///
/// `s` are the segments of the ledger, and `w` the bytes that were there before or get written. The
/// download starts as `downloader::begin` starts it, with what remains by the ledger.
pub proof fn law_resumed_downloads_are_whole(
    s: Seq<SegmentRecord>,
    file_size: u64,
    update_interval: u64,
    workers: u64,
    lanes: Option<RuntimeModel>,
    limited: bool,
    now: u64,
    events: Seq<(EventView, u64)>,
    w: Set<int>,
)
    requires
        resume::tiles(s, file_size),
        forall|x: u64| #[trigger]
            resume::in_segment_where(s, true, x) ==> w.contains(x as int),
        ({
            let ranges = downloader::first_ranges(
                resume::contiguous(resume::ranges_where(s, false)),
                workers,
                lanes is Some,
            );
            let m = monitor::ready(
                file_size,
                resume::hashed_bytes(s) as u64,
                update_interval,
                workers,
                lanes,
                limited,
            );
            let start = monitor::all_opened(m, ranges, now).0;
            let n = after_events(start, events);
            &&& ranges.len() + events.len() <= u64::MAX
            &&& all_faithful(start, events, w)
            &&& monitor::idle(n)
            &&& n.retry.lost.len() == 0
        }),
    ensures
        forall|x: int| 0 <= x < file_size ==> #[trigger] w.contains(x),
{
    let whole = resume::contiguous(resume::ranges_where(s, false));
    let ranges = downloader::first_ranges(whole, workers, lanes is Some);
    resume::law_verified_and_remaining_make_up_the_file(s, file_size);
    assert(s.take(s.len() as int) =~= s);
    assert forall|i: int| 0 <= i < whole.len() implies (#[trigger] whole[i]).0 <= whole[i].1
        < u64::MAX by {
        lemma_within(whole, i, whole[i].1);
        resume::law_ranges_follow_the_segments(s, file_size, false, whole[i].1);
        lemma_segments_end(s, file_size, s.len() as int, false, whole[i].1);
    }
    lemma_sums_agree(whole);
    downloader::law_first_ranges_keep_the_size(whole, workers, lanes is Some);
    conservation::lemma_bytes_nonneg(whole);
    resume::lemma_hashed_grows(s, s.len() as int);
    assert forall|x: int| 0 <= x < file_size implies #[trigger] w.contains(x) || exists|i: int|
        0 <= i < ranges.len() && lies_in(x, #[trigger] ranges[i]) by {
        let y = x as u64;
        lemma_segments_hold(s, file_size, s.len() as int, y);
        if !resume::in_segment_where(s, true, y) {
            resume::law_ranges_follow_the_segments(s, file_size, false, y);
            let i = lemma_range_of(whole, y);
            lemma_within(whole, i, y);
            downloader::law_first_ranges_keep_every_byte(whole, workers, lanes is Some, y);
            let j = lemma_range_of(ranges, y);
            assert(lies_in(x, ranges[j]));
        }
    }
    let m = monitor::ready(
        file_size,
        resume::hashed_bytes(s) as u64,
        update_interval,
        workers,
        lanes,
        limited,
    );
    law_finished_downloads_are_whole(m, ranges, now, events, w);
}

} // verus!
