//! The file writer: writes that continue each other are joined before they reach the disk, and the
//! first fault ends the writing.

use crate::types::{DownloadCmd, DownloadError, Result};
use vstd::prelude::*;

verus! {

/// The largest joined write: 128 KiB.
pub const COALESCE_LIMIT: usize = 131_072;

/// A write: where it goes, and its bytes.
pub type PendingWrite = (u64, Vec<u8>);

/// A file's bytes by position, after `data` was written at `offset`.
pub open spec fn written(file: Map<int, u8>, offset: int, data: Seq<u8>) -> Map<int, u8> {
    file.union_prefer_right(
        Map::new(|x: int| offset <= x < offset + data.len(), |x: int| data[x - offset]),
    )
}

/// A file's bytes after a write that may be none.
pub open spec fn written_if(file: Map<int, u8>, w: Option<(int, Seq<u8>)>) -> Map<int, u8> {
    match w {
        Some((offset, data)) => written(file, offset, data),
        None => file,
    }
}

/// The write as mathematical values.
pub open spec fn plain(w: Option<PendingWrite>) -> Option<(int, Seq<u8>)> {
    match w {
        Some((offset, data)) => Some((offset as int, data@)),
        None => None,
    }
}

/// A write continues the waiting one, and the two together are not too large.
pub open spec fn continues(waiting: (int, Seq<u8>), offset: int, data: Seq<u8>) -> bool {
    waiting.0 + waiting.1.len() == offset && waiting.1.len() + data.len() <= COALESCE_LIMIT
}

/// What a new write sends to the disk, and what waits afterwards.
pub open spec fn buffered(waiting: Option<(int, Seq<u8>)>, offset: int, data: Seq<u8>) -> (
    Option<(int, Seq<u8>)>,
    Option<(int, Seq<u8>)>,
) {
    match waiting {
        Some(w) => if continues(w, offset, data) {
            (None, Some((w.0, w.1 + data)))
        } else {
            (waiting, Some((offset, data)))
        },
        None => (None, Some((offset, data))),
    }
}

/// The writer's buffer.
#[derive(Debug)]
pub struct WriteBuffer {
    pub pending: Option<PendingWrite>,
}

impl WriteBuffer {
    /// An empty buffer.
    pub fn new() -> (r: Self)
        ensures
            r.pending is None,
    {
        WriteBuffer { pending: None }
    }

    /// Takes a write in. Gives the write that has to reach the disk first, if any.
    pub fn on_write(&mut self, offset: u64, data: Vec<u8>) -> (r: Option<PendingWrite>)
        ensures
            (plain(r), plain(final(self).pending)) == buffered(
                plain(old(self).pending),
                offset as int,
                data@,
            ),
    {
        match self.pending.take() {
            Some((p_offset, p_data)) => {
                let mut joined: Vec<u8> = p_data;
                let n: usize = joined.len();
                let follows: bool = p_offset <= offset && offset - p_offset == n as u64;
                if follows && n <= COALESCE_LIMIT && data.len() <= COALESCE_LIMIT - n {
                    let mut tail: Vec<u8> = data;
                    joined.append(&mut tail);
                    self.pending = Some((p_offset, joined));
                    None
                } else {
                    self.pending = Some((offset, data));
                    Some((p_offset, joined))
                }
            },
            None => {
                self.pending = Some((offset, data));
                None
            },
        }
    }

    /// Gives up what waits: at the end it has to reach the disk, after an error it is dropped.
    pub fn take_pending(&mut self) -> (r: Option<PendingWrite>)
        ensures
            r == old(self).pending,
            final(self).pending is None,
    {
        self.pending.take()
    }
}

/// Two writes of which the second continues the first are one write.
proof fn lemma_joined_write(file: Map<int, u8>, offset: int, a: Seq<u8>, b: Seq<u8>)
    ensures
        written(written(file, offset, a), offset + a.len(), b) == written(file, offset, a + b),
{
    assert(written(written(file, offset, a), offset + a.len(), b) =~= written(
        file,
        offset,
        a + b,
    ));
}

/// Buffering never changes what the file holds in the end: what reached the disk and what waits give
/// the file that the writes themselves give.
pub proof fn law_buffering_is_transparent(
    file: Map<int, u8>,
    waiting: Option<(int, Seq<u8>)>,
    offset: int,
    data: Seq<u8>,
)
    ensures
        ({
            let (flushed, left) = buffered(waiting, offset, data);
            written_if(written_if(file, flushed), left) == written(
                written_if(file, waiting),
                offset,
                data,
            )
        }),
{
    match waiting {
        Some(w) => {
            if continues(w, offset, data) {
                lemma_joined_write(file, w.0, w.1, data);
            }
        },
        None => {},
    }
}

/// The disk and the buffer after a run of writes, from an empty buffer.
pub open spec fn after_writes(file: Map<int, u8>, writes: Seq<(int, Seq<u8>)>) -> (
    Map<int, u8>,
    Option<(int, Seq<u8>)>,
)
    decreases writes.len(),
{
    if writes.len() == 0 {
        (file, None)
    } else {
        let (disk, waiting) = after_writes(file, writes.drop_last());
        let (flushed, left) = buffered(waiting, writes.last().0, writes.last().1);
        (written_if(disk, flushed), left)
    }
}

/// The file after a run of writes, one by one.
pub open spec fn all_written(file: Map<int, u8>, writes: Seq<(int, Seq<u8>)>) -> Map<int, u8>
    decreases writes.len(),
{
    if writes.len() == 0 {
        file
    } else {
        written(all_written(file, writes.drop_last()), writes.last().0, writes.last().1)
    }
}

/// Every write reaches the file: once the buffer is emptied, the file holds what the writes put into
/// it, one by one.
pub proof fn law_every_write_reaches_the_file(file: Map<int, u8>, writes: Seq<(int, Seq<u8>)>)
    ensures
        ({
            let (disk, waiting) = after_writes(file, writes);
            written_if(disk, waiting) == all_written(file, writes)
        }),
    decreases writes.len(),
{
    if writes.len() > 0 {
        law_every_write_reaches_the_file(file, writes.drop_last());
        let (disk, waiting) = after_writes(file, writes.drop_last());
        law_buffering_is_transparent(disk, waiting, writes.last().0, writes.last().1);
    }
}

/// What reaches the writer.
#[derive(Debug)]
pub enum WriterEvent {
    /// A command came.
    Command(DownloadCmd),
    /// Nobody gives commands any more.
    Closed,
    /// What became of a write to the disk.
    Put(Result<()>),
    /// What became of the attempt to save the ledger.
    Saved(Result<()>),
    /// What became of the attempt to flush the file.
    Flushed(Result<()>),
}

/// What the writer does next.
#[derive(Debug)]
pub enum WriterAction {
    /// Wait for the next command.
    Receive,
    /// Write to the disk.
    Put { offset: u64, data: Vec<u8> },
    /// Save the ledger, if there is one.
    Save,
    /// Flush the file.
    Flush,
    /// The writer has ended.
    End(Result<()>),
}

/// What the writer does next, in mathematical terms.
pub enum WriterStep {
    Receive,
    Put { offset: int, data: Seq<u8> },
    Save,
    Flush,
    End(Result<()>),
}

impl View for WriterAction {
    type V = WriterStep;

    open spec fn view(&self) -> WriterStep {
        match *self {
            WriterAction::Receive => WriterStep::Receive,
            WriterAction::Put { offset, data } => WriterStep::Put {
                offset: offset as int,
                data: data@,
            },
            WriterAction::Save => WriterStep::Save,
            WriterAction::Flush => WriterStep::Flush,
            WriterAction::End(r) => WriterStep::End(r),
        }
    }
}

/// A writer at work.
#[derive(Debug)]
pub struct WriterRun {
    pub buffer: WriteBuffer,
    /// No more commands are taken.
    pub stopping: bool,
    /// The first fault.
    pub fault: Option<DownloadError>,
}

/// The writer in mathematical terms.
pub struct WriterModel {
    pub waiting: Option<(int, Seq<u8>)>,
    pub stopping: bool,
    pub fault: Option<DownloadError>,
}

/// Puts what waits on the disk, if anything does, or else saves the ledger.
pub open spec fn emptied(m: WriterModel) -> (WriterModel, WriterStep) {
    let n = WriterModel { waiting: None, stopping: true, ..m };
    match m.waiting {
        Some((offset, data)) => (n, WriterStep::Put { offset, data }),
        None => (n, WriterStep::Save),
    }
}

/// What an event makes of a writer, and what it does next.
///
/// After a fault nothing more is written and what waits is dropped; the ledger is saved all the same.
/// The writer ends with the first fault, if there was one.
pub open spec fn on_writer_event(m: WriterModel, e: WriterEvent) -> (WriterModel, WriterStep) {
    match e {
        WriterEvent::Command(DownloadCmd::WriteFile { offset, data }) => {
            let (first, left) = buffered(m.waiting, offset as int, data@);
            (
                WriterModel { waiting: left, ..m },
                match first {
                    Some((o, d)) => WriterStep::Put { offset: o, data: d },
                    None => WriterStep::Receive,
                },
            )
        },
        WriterEvent::Command(DownloadCmd::TerminateAll) => emptied(m),
        WriterEvent::Command(_) => (m, WriterStep::Receive),
        WriterEvent::Closed => emptied(m),
        WriterEvent::Put(Ok(_)) => (
            m,
            if m.stopping {
                WriterStep::Save
            } else {
                WriterStep::Receive
            },
        ),
        WriterEvent::Put(Err(f)) => (
            WriterModel { waiting: None, stopping: true, fault: Some(f) },
            WriterStep::Save,
        ),
        WriterEvent::Saved(saved) => match (m.fault, saved) {
            (Some(f), _) => (WriterModel { fault: None, ..m }, WriterStep::End(Err(f))),
            (None, Err(f)) => (m, WriterStep::End(Err(f))),
            (None, Ok(_)) => (m, WriterStep::Flush),
        },
        WriterEvent::Flushed(flushed) => (m, WriterStep::End(flushed)),
    }
}

impl WriterRun {
    /// The writer in mathematical terms.
    pub open spec fn model(self) -> WriterModel {
        WriterModel {
            waiting: plain(self.buffer.pending),
            stopping: self.stopping,
            fault: self.fault,
        }
    }

    /// A writer that has nothing to write yet.
    pub fn new() -> (r: Self)
        ensures
            r.model() == (WriterModel { waiting: None, stopping: false, fault: None }),
    {
        WriterRun { buffer: WriteBuffer::new(), stopping: false, fault: None }
    }

    /// Takes no more commands: what waits is put on the disk, or else the ledger is saved.
    fn wind_up(&mut self) -> (r: WriterAction)
        ensures
            (final(self).model(), r@) == emptied(old(self).model()),
    {
        self.stopping = true;
        match self.buffer.take_pending() {
            Some((offset, data)) => WriterAction::Put { offset, data },
            None => WriterAction::Save,
        }
    }

    /// Takes an event in, and tells what to do next.
    pub fn on_event(&mut self, event: WriterEvent) -> (r: WriterAction)
        ensures
            (final(self).model(), r@) == on_writer_event(old(self).model(), event),
    {
        match event {
            WriterEvent::Command(DownloadCmd::WriteFile { offset, data }) => {
                match self.buffer.on_write(offset, data) {
                    Some((o, d)) => WriterAction::Put { offset: o, data: d },
                    None => WriterAction::Receive,
                }
            },
            WriterEvent::Command(DownloadCmd::TerminateAll) => self.wind_up(),
            WriterEvent::Command(_) => WriterAction::Receive,
            WriterEvent::Closed => self.wind_up(),
            WriterEvent::Put(Ok(_)) => if self.stopping {
                WriterAction::Save
            } else {
                WriterAction::Receive
            },
            WriterEvent::Put(Err(f)) => {
                let _ = self.buffer.take_pending();
                self.stopping = true;
                self.fault = Some(f);
                WriterAction::Save
            },
            WriterEvent::Saved(saved) => match self.fault.take() {
                Some(f) => WriterAction::End(Err(f)),
                None => match saved {
                    Err(f) => WriterAction::End(Err(f)),
                    Ok(_) => WriterAction::Flush,
                },
            },
            WriterEvent::Flushed(flushed) => WriterAction::End(flushed),
        }
    }
}

/// A writer with its disk: what it did last, the write that is on its way to the disk, and the writes
/// that it took.
pub struct Desk {
    pub m: WriterModel,
    pub disk: Map<int, u8>,
    pub on_the_way: Option<(int, Seq<u8>)>,
    pub taken: Seq<(int, Seq<u8>)>,
    pub last: WriterStep,
}

/// The event answers what the writer did last.
pub open spec fn in_turn(last: WriterStep, e: WriterEvent) -> bool {
    match last {
        WriterStep::Receive => e is Command || e is Closed,
        WriterStep::Put { .. } => e is Put,
        WriterStep::Save => e is Saved,
        WriterStep::Flush => e is Flushed,
        WriterStep::End(_) => false,
    }
}

/// The desk after an event. A write to the disk that fails leaves the disk as it was.
pub open spec fn after_event(d: Desk, e: WriterEvent) -> Desk {
    let (m, step) = on_writer_event(d.m, e);
    Desk {
        m,
        disk: if e matches WriterEvent::Put(r) && r is Ok {
            written_if(d.disk, d.on_the_way)
        } else {
            d.disk
        },
        on_the_way: match step {
            WriterStep::Put { offset, data } => Some((offset, data)),
            _ => None,
        },
        taken: match e {
            WriterEvent::Command(DownloadCmd::WriteFile { offset, data }) => d.taken.push(
                (offset as int, data@),
            ),
            _ => d.taken,
        },
        last: step,
    }
}

/// The desk after events, from a file and an idle writer.
pub open spec fn after_all(file: Map<int, u8>, events: Seq<WriterEvent>) -> Desk
    decreases events.len(),
{
    if events.len() == 0 {
        Desk {
            m: WriterModel { waiting: None, stopping: false, fault: None },
            disk: file,
            on_the_way: None,
            taken: Seq::empty(),
            last: WriterStep::Receive,
        }
    } else {
        after_event(after_all(file, events.drop_last()), events.last())
    }
}

/// Each event answers what the writer did before.
pub open spec fn all_in_turn(file: Map<int, u8>, events: Seq<WriterEvent>) -> bool
    decreases events.len(),
{
    events.len() > 0 ==> {
        &&& all_in_turn(file, events.drop_last())
        &&& in_turn(after_all(file, events.drop_last()).last, events.last())
    }
}

/// Without a fault, the disk, the write on its way and what waits hold what was taken; at the end
/// nothing waits.
proof fn lemma_desk(file: Map<int, u8>, events: Seq<WriterEvent>)
    requires
        all_in_turn(file, events),
    ensures
        ({
            let d = after_all(file, events);
            &&& d.m.fault is None && !(d.last matches WriterStep::End(r) && r is Err) ==> written_if(
                written_if(d.disk, d.on_the_way),
                d.m.waiting,
            ) == all_written(file, d.taken)
            &&& d.m.stopping || !(d.last is Receive || d.last is Put) ==> d.m.waiting is None
            &&& d.last is Flush || d.last is End ==> d.m.fault is None
            &&& d.m.stopping ==> !(d.last is Receive)
            &&& d.last is Receive ==> d.m.fault is None
            &&& d.last is Put ==> d.m.fault is None
        }),
    decreases events.len(),
{
    if events.len() > 0 {
        lemma_desk(file, events.drop_last());
        let before = after_all(file, events.drop_last());
        if let WriterEvent::Command(DownloadCmd::WriteFile { offset, data }) = events.last() {
            law_buffering_is_transparent(before.disk, before.m.waiting, offset as int, data@);
            let d = after_all(file, events);
            assert(d.taken.drop_last() =~= before.taken);
        }
    }
}

/// A writer that ends without a fault has put every write that it took on the disk.
pub proof fn law_a_clean_end_means_all_written(file: Map<int, u8>, events: Seq<WriterEvent>)
    requires
        all_in_turn(file, events),
        after_all(file, events).last == WriterStep::End(Ok(())),
    ensures
        after_all(file, events).disk == all_written(file, after_all(file, events).taken),
{
    lemma_desk(file, events);
}

/// A write changes exactly the bytes that it names, to what it brings.
pub proof fn law_writes_change_their_bytes_only(file: Map<int, u8>, offset: int, data: Seq<u8>, x: int)
    ensures
        ({
            let n = written(file, offset, data);
            &&& offset <= x < offset + data.len() ==> n.contains_key(x) && n[x] == data[x - offset]
            &&& !(offset <= x < offset + data.len()) ==> (n.contains_key(x) <==> file.contains_key(x))
            &&& !(offset <= x < offset + data.len()) && file.contains_key(x) ==> n[x] == file[x]
        }),
{
}

/// A write that continues the waiting one is joined with it as long as the two have no more than
/// 128 KiB together; then nothing reaches the disk yet. Any other write sends the waiting one to the
/// disk, as it is, and waits in its place.
pub proof fn law_small_continuing_writes_are_joined(
    waiting: Option<(int, Seq<u8>)>,
    offset: int,
    data: Seq<u8>,
)
    ensures
        ({
            let (flushed, left) = buffered(waiting, offset, data);
            let joins = waiting matches Some(w) && w.0 + w.1.len() == offset && w.1.len()
                + data.len() <= 131_072;
            &&& waiting matches Some(w) ==> (joins ==> flushed is None && left == Some(
                (w.0, w.1 + data),
            ))
            &&& !joins ==> flushed == waiting && left == Some((offset, data))
        }),
{
}

/// When no more commands come, what waits is put on the disk, whole; then the ledger is saved, then
/// the file is flushed, and then the writer ends.
pub proof fn law_the_writer_winds_up_in_order(m: WriterModel)
    requires
        m.fault is None,
    ensures
        ({
            let (a, first) = on_writer_event(m, WriterEvent::Closed);
            let (b, then) = on_writer_event(a, WriterEvent::Put(Ok(())));
            let (c, next) = on_writer_event(b, WriterEvent::Saved(Ok(())));
            let (d, last) = on_writer_event(c, WriterEvent::Flushed(Ok(())));
            &&& on_writer_event(m, WriterEvent::Command(DownloadCmd::TerminateAll)) == (a, first)
            &&& a.waiting is None && a.stopping
            &&& m.waiting matches Some((offset, data)) ==> first == (WriterStep::Put {
                offset,
                data,
            })
            &&& m.waiting is None ==> first == WriterStep::Save
            &&& then == WriterStep::Save
            &&& next == WriterStep::Flush
            &&& last == WriterStep::End(Ok(()))
        }),
{
}

/// A write that fails is the writer's last: what waits is dropped, the ledger is saved all the same,
/// and the writer ends with that fault, whatever became of the ledger.
pub proof fn law_the_first_fault_ends_the_writing(
    m: WriterModel,
    fault: DownloadError,
    saved: Result<()>,
)
    ensures
        ({
            let (a, first) = on_writer_event(m, WriterEvent::Put(Err(fault)));
            let (b, last) = on_writer_event(a, WriterEvent::Saved(saved));
            &&& a.waiting is None && a.stopping
            &&& first == WriterStep::Save
            &&& last == WriterStep::End(Err(fault))
        }),
{
}

/// Where no write failed, a ledger that could not be saved or a file that could not be flushed is what
/// the writer ends with.
pub proof fn law_late_faults_are_told(m: WriterModel, fault: DownloadError)
    requires
        m.fault is None,
    ensures
        on_writer_event(m, WriterEvent::Saved(Err(fault))).1 == WriterStep::End(Err(fault)),
        on_writer_event(m, WriterEvent::Flushed(Err(fault))).1 == WriterStep::End(Err(fault)),
{
}

/// While commands come, a write that went well is followed by waiting for the next command, and
/// commands for others change nothing.
pub proof fn law_the_writer_goes_on(m: WriterModel, cmd: DownloadCmd)
    requires
        !m.stopping,
    ensures
        on_writer_event(m, WriterEvent::Put(Ok(()))) == (m, WriterStep::Receive),
        !(cmd is WriteFile) && !(cmd is TerminateAll) ==> on_writer_event(
            m,
            WriterEvent::Command(cmd),
        ) == (m, WriterStep::Receive),
{
}

} // verus!
