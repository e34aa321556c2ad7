//! Resuming a download: a ledger of fixed segments, each with the hash of its bytes once they are
//! written. A resumed run trusts only segments whose hash still matches the bytes on disk.

use crate::chunk;
use crate::chunk::span_len;
use crate::path;
use crate::path::{file_name_of, with_extension, with_file_name};
use crate::state;
use crate::text;
use crate::text::{push_number, push_text};
use crate::types::{joined, DownloadError, Result};
use vstd::prelude::*;

verus! {

/// The size of a segment: 64 KiB.
pub const DEFAULT_SEGMENT_SIZE: u64 = 65536;

/// The version of the ledger's format.
pub const METADATA_VERSION: u32 = 1;

/// The ledger is saved after this many newly hashed segments.
pub const FLUSH_SEGMENTS: usize = 16;

/// The ledger is saved after this many nanoseconds: 1 s.
pub const FLUSH_INTERVAL: u64 = 1_000_000_000;

/// Where the hash starts.
pub const FNV_OFFSET_BASIS: u64 = 0xcbf29ce484222325;

/// What the hash is multiplied with.
pub const FNV_PRIME: u64 = 0x100000001b3;

/// One step of the hash: the byte is mixed in, then the whole is multiplied.
pub open spec fn hash_step(hash: u64, byte: u8) -> u64 {
    (hash ^ (byte as u64)).wrapping_mul(FNV_PRIME)
}

/// The FNV-1a hash of the bytes.
pub open spec fn fnv(bytes: Seq<u8>) -> u64
    decreases bytes.len(),
{
    if bytes.len() == 0 {
        FNV_OFFSET_BASIS
    } else {
        hash_step(fnv(bytes.drop_last()), bytes.last())
    }
}

/// Hashes bytes.
pub fn hash_bytes(bytes: &[u8]) -> (r: u64)
    ensures
        r == fnv(bytes@),
{
    let mut hash: u64 = FNV_OFFSET_BASIS;
    let mut i: usize = 0;
    while i < bytes.len()
        invariant
            i <= bytes@.len(),
            hash == fnv(bytes@.take(i as int)),
        decreases bytes.len() - i,
    {
        assert(bytes@.take(i + 1).drop_last() =~= bytes@.take(i as int));
        hash = (hash ^ (bytes[i] as u64)).wrapping_mul(FNV_PRIME);
        i = i + 1;
    }
    assert(bytes@.take(i as int) =~= bytes@);
    hash
}

/// A segment `start..=end` of the file, with the hash of its bytes once they are written.
#[derive(Debug, Clone, Copy, PartialEq, Eq, Structural)]
pub struct SegmentRecord {
    pub start: u64,
    pub end: u64,
    pub hash: Option<u64>,
}

impl SegmentRecord {
    /// The number of bytes.
    pub fn len(&self) -> (r: u64)
        ensures
            r == chunk::span(self.start, self.end),
    {
        span_len(self.start, self.end)
    }
}

/// The ledger.
#[derive(Debug)]
pub struct ResumeMetadata {
    pub version: u32,
    pub file_size: u64,
    pub segment_size: u64,
    pub segments: Vec<SegmentRecord>,
}

/// The segment size in use: at least 1.
pub open spec fn effective_size(segment_size: u64) -> int {
    if segment_size >= 1 {
        segment_size as int
    } else {
        1
    }
}

/// The `i`-th segment of a file.
pub open spec fn segment_at(file_size: u64, segment_size: u64, i: int) -> SegmentRecord {
    let size = effective_size(segment_size);
    SegmentRecord {
        start: (i * size) as u64,
        end: if (i + 1) * size <= file_size {
            ((i + 1) * size - 1) as u64
        } else {
            (file_size - 1) as u64
        },
        hash: None,
    }
}

/// The number of segments of a file.
pub open spec fn segment_count(file_size: u64, segment_size: u64) -> int {
    let size = effective_size(segment_size);
    (file_size + size - 1) / size
}

/// The segments of a file, none of them hashed.
pub open spec fn blank_segments(file_size: u64, segment_size: u64) -> Seq<SegmentRecord> {
    Seq::new(
        segment_count(file_size, segment_size) as nat,
        |i: int| segment_at(file_size, segment_size, i),
    )
}

/// The segments lie one behind the other, from the first byte of the file to the last.
pub open spec fn tiles(s: Seq<SegmentRecord>, file_size: u64) -> bool {
    &&& forall|i: int| 0 <= i < s.len() ==> (#[trigger] s[i]).start <= s[i].end < file_size
    &&& forall|i: int, j: int| 0 <= i && j == i + 1 && j < s.len() ==> #[trigger] s[j].start == (
        #[trigger] s[i]).end + 1
    &&& if s.len() == 0 {
        file_size == 0
    } else {
        s[0].start == 0 && s.last().end + 1 == file_size
    }
}

/// The ranges of the segments that are hashed, or of those that are not.
pub open spec fn ranges_where(s: Seq<SegmentRecord>, hashed: bool) -> Seq<(u64, u64)>
    decreases s.len(),
{
    if s.len() == 0 {
        Seq::empty()
    } else {
        let front = ranges_where(s.drop_last(), hashed);
        if (s.last().hash is Some) == hashed {
            front.push((s.last().start, s.last().end))
        } else {
            front
        }
    }
}

/// A range joins the one before it: it starts within it or right behind it.
pub open spec fn touches(before: (u64, u64), next: (u64, u64)) -> bool {
    next.0 <= state::capped(before.1 + 1)
}

/// Ranges in order, with those joined that touch.
pub open spec fn contiguous(s: Seq<(u64, u64)>) -> Seq<(u64, u64)>
    decreases s.len(),
{
    if s.len() == 0 {
        s
    } else {
        let front = contiguous(s.drop_last());
        let r = s.last();
        if front.len() > 0 && touches(front.last(), r) {
            front.drop_last().push(
                (
                    front.last().0,
                    if front.last().1 >= r.1 {
                        front.last().1
                    } else {
                        r.1
                    },
                ),
            )
        } else {
            front.push(r)
        }
    }
}

/// The bytes of the hashed segments.
pub open spec fn hashed_bytes(s: Seq<SegmentRecord>) -> int
    decreases s.len(),
{
    if s.len() == 0 {
        0
    } else {
        hashed_bytes(s.drop_last()) + if s.last().hash is Some {
            chunk::span(s.last().start, s.last().end)
        } else {
            0
        }
    }
}

/// Adds a range to ranges in order, joining it with the last one if they touch.
fn push_contiguous(out: &mut Vec<(u64, u64)>, r: (u64, u64))
    ensures
        forall|s: Seq<(u64, u64)>|
            #![trigger contiguous(s.push(r))]
            contiguous(s) == old(out)@ ==> contiguous(s.push(r)) == final(out)@,
{
    let n: usize = out.len();
    let ghost front = out@;
    if n > 0 && r.0 <= out[n - 1].1.saturating_add(1) {
        let last: (u64, u64) = out[n - 1];
        let end: u64 = if last.1 >= r.1 {
            last.1
        } else {
            r.1
        };
        out.set(n - 1, (last.0, end));
        assert(out@ =~= front.drop_last().push((last.0, end)));
    } else {
        out.push(r);
    }
    assert forall|s: Seq<(u64, u64)>|
        #![trigger contiguous(s.push(r))]
        contiguous(s) == front implies contiguous(s.push(r)) == out@ by {
        assert(s.push(r).drop_last() =~= s);
    }
}

impl ResumeMetadata {
    /// The ledger of a file of which nothing is written.
    pub fn new(file_size: u64, segment_size: u64) -> (r: Self)
        ensures
            r.version == METADATA_VERSION,
            r.file_size == file_size,
            r.segment_size == effective_size(segment_size),
            r.segments@ == blank_segments(file_size, segment_size),
            tiles(r.segments@, file_size),
    {
        let size: u64 = if segment_size >= 1 {
            segment_size
        } else {
            1
        };
        let mut segments: Vec<SegmentRecord> = Vec::new();
        let mut start: u64 = 0;
        let ghost count = segment_count(file_size, segment_size);
        proof {
            assert(segments@.len() * size == 0) by (nonlinear_arith)
                requires
                    segments@.len() == 0,
            ;
            if file_size == 0 {
                assert((size - 1) / size as int == 0) by (nonlinear_arith)
                    requires
                        size >= 1,
                ;
            }
        }
        while start < file_size
            invariant
                size == effective_size(segment_size),
                size >= 1,
                count == segment_count(file_size, segment_size),
                start < file_size ==> start == segments@.len() * size,
                start >= file_size ==> start == file_size && segments@.len() == count,
                forall|i: int|
                    0 <= i < segments@.len() ==> #[trigger] segments@[i] == segment_at(
                        file_size,
                        segment_size,
                        i,
                    ),
                file_size == 0 ==> count == 0,
            decreases file_size - start,
        {
            let ghost k = segments@.len() as int;
            let rest: u64 = file_size - start;
            let end: u64 = if rest <= size {
                file_size - 1
            } else {
                start + (size - 1)
            };
            proof {
                lemma_segment(file_size as int, size as int, k);
            }
            segments.push(SegmentRecord { start, end, hash: None });
            start = end + 1;
        }
        proof {
            lemma_blank_tiles(file_size, segment_size);
            assert(segments@ =~= blank_segments(file_size, segment_size));
        }
        ResumeMetadata { version: METADATA_VERSION, file_size, segment_size: size, segments }
    }
}

/// Arithmetic of one segment: the `k`-th segment of `size` bytes starts at `k * size`, and it is the
/// last one exactly if the file ends within it.
proof fn lemma_segment(file_size: int, size: int, k: int)
    requires
        size >= 1,
        k >= 0,
        k * size < file_size,
    ensures
        (k + 1) * size == k * size + size,
        k * size + size >= file_size ==> (file_size + size - 1) / size == k + 1,
        k < (file_size + size - 1) / size,
{
    assert((k + 1) * size == k * size + size) by (nonlinear_arith);
    let q = (file_size + size - 1) / size;
    assert(q * size <= file_size + size - 1 < q * size + size) by (nonlinear_arith)
        requires
            size >= 1,
            q == (file_size + size - 1) / size,
    ;
    assert(k < q) by (nonlinear_arith)
        requires
            size >= 1,
            k * size < file_size,
            file_size + size - 1 < q * size + size,
    ;
    if k * size + size >= file_size {
        assert(q <= k + 1) by (nonlinear_arith)
            requires
                size >= 1,
                q * size <= file_size + size - 1,
                k * size + size >= file_size,
        ;
    }
}

/// Segments that lie before the file's end.
pub proof fn lemma_before_end(file_size: int, size: int, k: int)
    requires
        size >= 1,
        0 <= k < (file_size + size - 1) / size,
    ensures
        k * size < file_size,
        (k + 1) * size == k * size + size,
        k + 1 < (file_size + size - 1) / size ==> (k + 1) * size < file_size,
{
    let q = (file_size + size - 1) / size;
    assert(q * size <= file_size + size - 1) by (nonlinear_arith)
        requires
            size >= 1,
            q == (file_size + size - 1) / size,
    ;
    assert(k * size < file_size) by (nonlinear_arith)
        requires
            size >= 1,
            k + 1 <= q,
            q * size <= file_size + size - 1,
    ;
    assert((k + 1) * size == k * size + size) by (nonlinear_arith);
    if k + 1 < q {
        assert((k + 1) * size < file_size) by (nonlinear_arith)
            requires
                size >= 1,
                k + 2 <= q,
                q * size <= file_size + size - 1,
        ;
    }
}

/// Blank segments tile the file.
pub proof fn lemma_blank_tiles(file_size: u64, segment_size: u64)
    ensures
        tiles(blank_segments(file_size, segment_size), file_size),
{
    let size = effective_size(segment_size);
    let s = blank_segments(file_size, segment_size);
    let q = segment_count(file_size, segment_size);
    assert forall|i: int| 0 <= i < s.len() implies (#[trigger] s[i]).start <= s[i].end
        < file_size by {
        lemma_before_end(file_size as int, size, i);
        assert(i * size >= 0) by (nonlinear_arith)
            requires
                i >= 0,
                size >= 1,
        ;
    }
    assert forall|i: int, j: int| 0 <= i && j == i + 1 && j < s.len() implies #[trigger] s[j].start
        == (#[trigger] s[i]).end + 1 by {
        lemma_before_end(file_size as int, size, i);
        assert(i * size >= 0) by (nonlinear_arith)
            requires
                i >= 0,
                size >= 1,
        ;
    }
    assert(q >= 0) by (nonlinear_arith)
        requires
            size >= 1,
            file_size >= 0,
            q == (file_size + size - 1) / size,
    ;
    if file_size > 0 {
        lemma_segment(file_size as int, size, 0);
        let k = q - 1;
        lemma_before_end(file_size as int, size, k);
        assert(q * size + size > file_size + size - 1) by (nonlinear_arith)
            requires
                size >= 1,
                q == (file_size + size - 1) / size,
        ;
    } else {
        assert(q == 0) by (nonlinear_arith)
            requires
                size >= 1,
                file_size == 0,
                q == (file_size + size - 1) / size,
        ;
    }
}

/// The segments as rows of plain values.
pub open spec fn rows(s: Seq<SegmentRecord>) -> Seq<(u64, u64, Option<u64>)> {
    Seq::new(s.len(), |i: int| (s[i].start, s[i].end, s[i].hash))
}

/// What is wrong with a ledger for a file of the given size, if anything.
pub open spec fn shape_fault(
    version: u32,
    ledger_size: u64,
    segment_size: u64,
    file_size: u64,
) -> Option<Seq<char>> {
    if version != METADATA_VERSION {
        Some("unsupported resume metadata version "@ + text::digits(version as nat))
    } else if ledger_size != file_size {
        Some(
            "resume metadata file size "@ + text::digits(ledger_size as nat)
                + " does not match current file size "@ + text::digits(file_size as nat),
        )
    } else if segment_size == 0 {
        Some("resume metadata segment size must not be zero"@)
    } else {
        None
    }
}

/// A segment after a look at the file: the hash is dropped if the file ends before the segment does
/// or if the bytes do not have that hash.
pub open spec fn rechecked(seg: SegmentRecord, file_len: u64, bytes: Seq<u8>) -> SegmentRecord {
    if seg.hash is Some && (file_len <= seg.end || Some(fnv(bytes)) != seg.hash) {
        SegmentRecord { hash: None, ..seg }
    } else {
        seg
    }
}

impl ResumeMetadata {
    /// Sets the hash of a segment; an index beyond the last segment is ignored.
    pub fn set_segment_hash(&mut self, segment_index: usize, hash: u64)
        ensures
            final(self).version == old(self).version,
            final(self).file_size == old(self).file_size,
            final(self).segment_size == old(self).segment_size,
            final(self).segments@ == (if segment_index < old(self).segments@.len() {
                old(self).segments@.update(
                    segment_index as int,
                    SegmentRecord { hash: Some(hash), ..old(self).segments@[segment_index as int] },
                )
            } else {
                old(self).segments@
            }),
    {
        if segment_index < self.segments.len() {
            let mut seg: SegmentRecord = self.segments[segment_index];
            seg.hash = Some(hash);
            self.segments.set(segment_index, seg);
        }
    }

    /// The ranges of the segments that are hashed, or of those that are not, joined where they
    /// touch.
    fn collect_ranges(&self, hashed: bool) -> (r: Vec<(u64, u64)>)
        ensures
            r@ == contiguous(ranges_where(self.segments@, hashed)),
    {
        let mut out: Vec<(u64, u64)> = Vec::new();
        let mut i: usize = 0;
        assert(ranges_where(self.segments@.take(0), hashed) =~= Seq::<(u64, u64)>::empty());
        while i < self.segments.len()
            invariant
                i <= self.segments@.len(),
                out@ == contiguous(ranges_where(self.segments@.take(i as int), hashed)),
            decreases self.segments.len() - i,
        {
            let seg: SegmentRecord = self.segments[i];
            assert(self.segments@.take(i + 1).drop_last() =~= self.segments@.take(i as int));
            if seg.hash.is_some() == hashed {
                push_contiguous(&mut out, (seg.start, seg.end));
            }
            i = i + 1;
        }
        assert(self.segments@.take(i as int) =~= self.segments@);
        out
    }

    /// The ranges whose bytes are written and hashed.
    pub fn verified_ranges(&self) -> (r: Vec<(u64, u64)>)
        ensures
            r@ == contiguous(ranges_where(self.segments@, true)),
    {
        self.collect_ranges(true)
    }

    /// The ranges that are still to be downloaded.
    pub fn remaining_ranges(&self) -> (r: Vec<(u64, u64)>)
        ensures
            r@ == contiguous(ranges_where(self.segments@, false)),
    {
        self.collect_ranges(false)
    }

    /// The bytes of the hashed segments, if their number fits.
    pub fn checked_completed_bytes(&self) -> (r: Option<u64>)
        ensures
            r == (if hashed_bytes(self.segments@) <= u64::MAX {
                Some(hashed_bytes(self.segments@) as u64)
            } else {
                None
            }),
    {
        let mut sum: u64 = 0;
        let mut i: usize = 0;
        while i < self.segments.len()
            invariant
                i <= self.segments@.len(),
                sum == hashed_bytes(self.segments@.take(i as int)),
            decreases self.segments.len() - i,
        {
            proof {
                assert(self.segments@.take(i + 1).drop_last() =~= self.segments@.take(i as int));
                lemma_hashed_grows(self.segments@, i + 1);
            }
            if self.segments[i].hash.is_some() {
                let n: u64 = self.segments[i].len();
                if n > u64::MAX - sum {
                    return None;
                }
                sum = sum + n;
            }
            i = i + 1;
        }
        assert(self.segments@.take(i as int) =~= self.segments@);
        Some(sum)
    }

    /// The bytes of the hashed segments.
    pub fn completed_bytes(&self) -> (r: u64)
        requires
            hashed_bytes(self.segments@) <= u64::MAX,
        ensures
            r == hashed_bytes(self.segments@),
    {
        proof {
            lemma_hashed_grows(self.segments@, 0);
        }
        match self.checked_completed_bytes() {
            Some(n) => n,
            None => 0,
        }
    }

    /// Checks that the ledger can be used for a file of the given size.
    pub fn validate_shape(&self, file_size: u64) -> (r: Result<()>)
        ensures
            match r {
                Ok(()) => shape_fault(
                    self.version,
                    self.file_size,
                    self.segment_size,
                    file_size,
                ) is None,
                Err(DownloadError::ResumeMetadata(t)) => shape_fault(
                    self.version,
                    self.file_size,
                    self.segment_size,
                    file_size,
                ) == Some(t@),
                Err(_) => false,
            },
    {
        let mut t: String = String::new();
        let ghost fault = shape_fault(self.version, self.file_size, self.segment_size, file_size);
        if self.version != METADATA_VERSION {
            push_text(&mut t, "unsupported resume metadata version ");
            push_number(&mut t, self.version as u64);
            assert(t@ =~= fault->0);
            return Err(DownloadError::ResumeMetadata(t));
        }
        if self.file_size != file_size {
            push_text(&mut t, "resume metadata file size ");
            push_number(&mut t, self.file_size);
            push_text(&mut t, " does not match current file size ");
            push_number(&mut t, file_size);
            assert(t@ =~= fault->0);
            return Err(DownloadError::ResumeMetadata(t));
        }
        if self.segment_size == 0 {
            push_text(&mut t, "resume metadata segment size must not be zero");
            assert(t@ =~= fault->0);
            return Err(DownloadError::ResumeMetadata(t));
        }
        Ok(())
    }

    /// What has to be read to check a segment against a file of `file_len` bytes: its first byte and
    /// its length. Nothing if it is not hashed or if the file is too short.
    pub fn segment_to_read(&self, index: usize, file_len: u64) -> (r: Option<(u64, u64)>)
        requires
            index < self.segments@.len(),
        ensures
            r == ({
                let seg = self.segments@[index as int];
                if seg.hash is Some && seg.end < file_len {
                    Some((seg.start, chunk::span(seg.start, seg.end) as u64))
                } else {
                    None
                }
            }),
    {
        let seg: SegmentRecord = self.segments[index];
        if seg.hash.is_some() && seg.end < file_len {
            Some((seg.start, seg.len()))
        } else {
            None
        }
    }

    /// Checks a segment against the bytes that the file holds in its place.
    pub fn verify_segment(&mut self, index: usize, file_len: u64, bytes: &[u8])
        requires
            index < old(self).segments@.len(),
        ensures
            final(self).version == old(self).version,
            final(self).file_size == old(self).file_size,
            final(self).segment_size == old(self).segment_size,
            final(self).segments@ == old(self).segments@.update(
                index as int,
                rechecked(old(self).segments@[index as int], file_len, bytes@),
            ),
    {
        let seg: SegmentRecord = self.segments[index];
        let mut kept: SegmentRecord = seg;
        if let Some(expected) = seg.hash {
            if file_len <= seg.end || hash_bytes(bytes) != expected {
                kept.hash = None;
            }
        }
        self.segments.set(index, kept);
    }
}

/// More segments hold no fewer hashed bytes.
pub proof fn lemma_hashed_grows(s: Seq<SegmentRecord>, n: int)
    requires
        0 <= n <= s.len(),
    ensures
        0 <= hashed_bytes(s.take(n)) <= hashed_bytes(s),
    decreases s.len(),
{
    if n < s.len() {
        lemma_hashed_grows(s.drop_last(), n);
        assert(s.drop_last().take(n) =~= s.take(n));
    } else {
        assert(s.take(n) =~= s);
        if s.len() > 0 {
            lemma_hashed_grows(s.drop_last(), n - 1);
        }
    }
}

/// The decoding errors of `bitcode`, carried as they are.
#[verifier::external_type_specification]
#[verifier::external_body]
pub struct ExBitcodeError(bitcode::Error);

/// The bytes into which `bitcode::encode` turns the ledger's version, file size, segment size and
/// rows.
pub uninterp spec fn ledger_bytes(version: u32, file_size: u64, segment_size: u64, segments: Seq<(u64, u64, Option<u64>)>) -> Seq<u8>;

/// What `bitcode::decode` makes of bytes: a ledger's version, file size, segment size and rows, or
/// nothing.
pub uninterp spec fn ledger_of(bytes: Seq<u8>) -> Option<(u32, u64, u64, Seq<(u64, u64, Option<u64>)>)>;

/// Calls `bitcode::encode` on the four parts of a ledger. Claimed: the bytes depend on those parts
/// alone, and decoding them gives the same parts back.
#[verifier::external_body]
fn encode_parts(
    version: u32,
    file_size: u64,
    segment_size: u64,
    segments: &Vec<(u64, u64, Option<u64>)>,
) -> (r: Vec<u8>)
    ensures
        r@ == ledger_bytes(version, file_size, segment_size, segments@),
        ledger_of(r@) == Some((version, file_size, segment_size, segments@)),
{
    bitcode::encode(&(version, file_size, segment_size, segments.clone()))
}

/// Calls `bitcode::decode` for the four parts of a ledger. Claimed: the outcome depends on the bytes
/// alone.
#[verifier::external_body]
fn decode_parts(bytes: &[u8]) -> (r: std::result::Result<
    (u32, u64, u64, Vec<(u64, u64, Option<u64>)>),
    bitcode::Error,
>)
    ensures
        match r {
            Ok(v) => ledger_of(bytes@) == Some((v.0, v.1, v.2, v.3@)),
            Err(_) => ledger_of(bytes@) is None,
        },
{
    bitcode::decode::<(u32, u64, u64, Vec<(u64, u64, Option<u64>)>)>(bytes)
}

/// Calls the `Display` of `bitcode::Error`. Nothing is claimed of the text: it depends on how that
/// crate was built.
#[verifier::external_body]
fn decode_error_text(error: &bitcode::Error) -> (r: String) {
    error.to_string()
}

impl ResumeMetadata {
    /// The ledger with the given parts.
    pub fn from_parts(
        version: u32,
        file_size: u64,
        segment_size: u64,
        parts: &Vec<(u64, u64, Option<u64>)>,
    ) -> (r: Self)
        ensures
            r.version == version,
            r.file_size == file_size,
            r.segment_size == segment_size,
            rows(r.segments@) == parts@,
    {
        let mut segments: Vec<SegmentRecord> = Vec::new();
        let mut i: usize = 0;
        while i < parts.len()
            invariant
                i <= parts@.len(),
                rows(segments@) =~= parts@.take(i as int),
            decreases parts.len() - i,
        {
            let (start, end, hash) = parts[i];
            let ghost before = segments@;
            segments.push(SegmentRecord { start, end, hash });
            assert(rows(segments@) =~= rows(before).push(parts@[i as int]));
            assert(parts@.take(i + 1) =~= parts@.take(i as int).push(parts@[i as int]));
            i = i + 1;
        }
        assert(parts@.take(i as int) =~= parts@);
        ResumeMetadata { version, file_size, segment_size, segments }
    }

    /// The bytes of the ledger's file. Reading them gives the same ledger back.
    pub fn to_bytes(&self) -> (r: Vec<u8>)
        ensures
            r@ == ledger_bytes(
                self.version,
                self.file_size,
                self.segment_size,
                rows(self.segments@),
            ),
            ledger_of(r@) == Some(
                (self.version, self.file_size, self.segment_size, rows(self.segments@)),
            ),
    {
        let mut parts: Vec<(u64, u64, Option<u64>)> = Vec::new();
        let mut i: usize = 0;
        while i < self.segments.len()
            invariant
                i <= self.segments@.len(),
                parts@ =~= rows(self.segments@.take(i as int)),
            decreases self.segments.len() - i,
        {
            let seg: SegmentRecord = self.segments[i];
            parts.push((seg.start, seg.end, seg.hash));
            assert(rows(self.segments@.take(i + 1)) =~= rows(self.segments@.take(i as int)).push(
                (seg.start, seg.end, seg.hash),
            ));
            i = i + 1;
        }
        assert(self.segments@.take(i as int) =~= self.segments@);
        encode_parts(self.version, self.file_size, self.segment_size, &parts)
    }

    /// Reads the bytes of a ledger's file. The text of the error is the decoder's.
    pub fn from_bytes(bytes: &[u8]) -> (r: Result<Self>)
        ensures
            match r {
                Ok(m) => ledger_of(bytes@) == Some(
                    (m.version, m.file_size, m.segment_size, rows(m.segments@)),
                ),
                Err(DownloadError::ResumeMetadata(_)) => ledger_of(bytes@) is None,
                Err(_) => false,
            },
    {
        match decode_parts(bytes) {
            Ok((version, file_size, segment_size, parts)) => Ok(
                Self::from_parts(version, file_size, segment_size, &parts),
            ),
            Err(e) => Err(DownloadError::ResumeMetadata(decode_error_text(&e))),
        }
    }
}

/// Two ledgers that the same bytes stand for have the same segments.
pub proof fn law_rows_determine_the_segments(a: Seq<SegmentRecord>, b: Seq<SegmentRecord>)
    requires
        rows(a) == rows(b),
    ensures
        a == b,
{
    assert(a.len() == rows(a).len());
    assert(b.len() == rows(b).len());
    assert forall|i: int| 0 <= i < a.len() implies a[i] == b[i] by {
        assert(rows(a)[i] == rows(b)[i]);
    }
    assert(a =~= b);
}

/// The whole file as one range; none for an empty file.
pub open spec fn whole_file(file_size: u64) -> Seq<(u64, u64)> {
    if file_size == 0 {
        Seq::empty()
    } else {
        seq![(0u64, (file_size - 1) as u64)]
    }
}

/// The whole file as one range; none for an empty file.
pub fn full_ranges(file_size: u64) -> (r: Vec<(u64, u64)>)
    ensures
        r@ == whole_file(file_size),
{
    let mut out: Vec<(u64, u64)> = Vec::new();
    if file_size > 0 {
        out.push((0, file_size - 1));
    }
    assert(out@ =~= whole_file(file_size));
    out
}

/// Where the ledger of an output file lies: beside it, under its name with `.download.bitcode`
/// behind.
pub open spec fn ledger_path(output_path: Seq<char>) -> Seq<char> {
    path::renamed(
        output_path,
        (match path::file_name(output_path) {
            Some(n) => n,
            None => "download"@,
        }) + ".download.bitcode"@,
    )
}

/// The path of the ledger of an output file.
pub fn metadata_path_for(output_path: &str) -> (r: String)
    ensures
        r@ == ledger_path(output_path@),
{
    let name: String = match file_name_of(output_path) {
        Some(n) => n,
        None => "download".to_owned(),
    };
    with_file_name(output_path, joined(name.as_str(), ".download.bitcode").as_str())
}

/// The path under which a ledger is written before it is moved into place.
pub fn temp_path_for(metadata_path: &str) -> (r: String)
    ensures
        r@ == path::with_new_extension(metadata_path@, "download.bitcode.tmp"@),
{
    with_extension(metadata_path, "download.bitcode.tmp")
}

/// What is found beside an output file.
#[derive(Debug)]
pub enum FoundLedger {
    /// No ledger.
    Nothing,
    /// A ledger, but not the file that it describes.
    WithoutFile,
    /// A ledger, checked against the file.
    Checked(ResumeMetadata),
}

/// How a download starts: what is left to do, and whether the output file is emptied first.
#[derive(Debug)]
pub struct ResumePlan {
    pub metadata_path: String,
    pub metadata: Option<ResumeMetadata>,
    pub truncate_output: bool,
    pub remaining_ranges: Vec<(u64, u64)>,
    pub completed_bytes: u64,
}

/// What is planned for a download of a file, from whether it may be resumed and from what was found of
/// it.
pub open spec fn well_planned(
    r: Result<ResumePlan>,
    output_path: Seq<char>,
    file_size: u64,
    enabled: bool,
    found: FoundLedger,
) -> bool {
    &&& r matches Ok(plan) ==> plan.metadata_path@ == ledger_path(output_path)
    &&& !enabled ==> (r matches Ok(plan) && plan.from_scratch(file_size) && plan.metadata is None)
    &&& enabled && found is Nothing ==> (r matches Ok(plan) && plan.from_scratch(file_size) && (
    plan.metadata matches Some(m) && m.version == METADATA_VERSION && m.file_size == file_size
        && m.segment_size == DEFAULT_SEGMENT_SIZE && m.segments@ == blank_segments(
        file_size,
        DEFAULT_SEGMENT_SIZE,
    )))
    &&& enabled && found is WithoutFile ==> (r matches Err(DownloadError::ResumeTargetMissing(p))
        && p@ == output_path)
    &&& enabled ==> (found matches FoundLedger::Checked(m) ==> match shape_fault(
        m.version,
        m.file_size,
        m.segment_size,
        file_size,
    ) {
        Some(t) => r matches Err(DownloadError::ResumeMetadata(e)) && e@ == t,
        None => r matches Ok(plan) && !plan.truncate_output && plan.metadata == Some(m)
            && plan.remaining_ranges@ == contiguous(ranges_where(m.segments@, false))
            && plan.completed_bytes == hashed_bytes(m.segments@),
    })
}

/// What a failed attempt to save the ledger means for a download that starts anew, or that does not.
pub open spec fn save_outcome(anew: bool, saved: Result<()>) -> Result<()> {
    if anew {
        Ok(())
    } else {
        saved
    }
}

/// A download is planned from the start where it may not be resumed and where nothing was found: the
/// file is emptied, and every byte of it is to be downloaded. A ledger is kept exactly where it may be
/// resumed.
pub proof fn law_downloads_without_a_ledger_start_anew(
    r: Result<ResumePlan>,
    output_path: Seq<char>,
    file_size: u64,
    enabled: bool,
    found: FoundLedger,
    x: u64,
)
    requires
        well_planned(r, output_path, file_size, enabled, found),
        !enabled || found is Nothing,
    ensures
        r matches Ok(plan) && {
            &&& plan.truncate_output
            &&& plan.completed_bytes == 0
            &&& within(plan.remaining_ranges@, x) <==> x < file_size
            &&& plan.remaining_ranges@.len() <= 1
            &&& plan.metadata_path@ == ledger_path(output_path)
            &&& plan.metadata is Some <==> enabled
            &&& plan.metadata matches Some(m) ==> m.version == 1
            &&& plan.metadata matches Some(m) ==> m.file_size == file_size
            &&& plan.metadata matches Some(m) ==> m.segment_size == 65_536
            &&& plan.metadata matches Some(m) ==> m.segments@ == blank_segments(file_size, 65_536)
        },
{
    let s = whole_file(file_size);
    if file_size > 0 {
        assert(s.drop_last() =~= Seq::empty());
        assert(!within(Seq::empty(), x));
        assert(s.last() == (0u64, (file_size - 1) as u64));
    }
}

/// A ledger without its file is refused, and so is one that does not fit the file: a download never
/// starts over what it finds. A ledger that fits is kept, the file is not emptied, and exactly the bytes
/// that it does not vouch for are to be downloaded.
pub proof fn law_found_ledgers_are_followed_or_refused(
    r: Result<ResumePlan>,
    output_path: Seq<char>,
    file_size: u64,
    found: FoundLedger,
    x: u64,
)
    requires
        well_planned(r, output_path, file_size, true, found),
        !(found is Nothing),
        found matches FoundLedger::Checked(m) ==> tiles(m.segments@, m.file_size),
    ensures
        found is WithoutFile ==> (r matches Err(DownloadError::ResumeTargetMissing(p)) && p@
            == output_path),
        found matches FoundLedger::Checked(m) ==> {
            let fits = m.version == 1 && m.file_size == file_size && m.segment_size > 0;
            &&& !fits ==> (r matches Err(DownloadError::ResumeMetadata(_)))
            &&& fits ==> (r matches Ok(plan) && plan.metadata_path@ == ledger_path(output_path))
            &&& fits ==> (r matches Ok(plan) && !plan.truncate_output && plan.metadata == Some(m)
                && plan.completed_bytes + byte_sum(plan.remaining_ranges@) == file_size && (within(
                plan.remaining_ranges@,
                x,
            ) <==> in_segment_where(m.segments@, false, x)))
        },
{
    if let FoundLedger::Checked(m) = found {
        law_ledgers_must_fit_the_file(m.version, m.file_size, m.segment_size, file_size);
        law_ranges_follow_the_segments(m.segments@, m.file_size, false, x);
        law_verified_and_remaining_make_up_the_file(m.segments@, m.file_size);
    }
}

/// A ledger that cannot be saved ends a download that is resumed, with that fault, and no download that
/// starts anew.
pub proof fn law_resumed_downloads_need_their_ledger(fault: DownloadError)
    ensures
        save_outcome(true, Err(fault)) is Ok,
        save_outcome(false, Err(fault)) == Err::<(), _>(fault),
        save_outcome(true, Ok(())) is Ok,
        save_outcome(false, Ok(())) is Ok,
{
}

impl ResumePlan {
    /// The plan starts from nothing.
    pub open spec fn from_scratch(self, file_size: u64) -> bool {
        &&& self.truncate_output
        &&& self.remaining_ranges@ == whole_file(file_size)
        &&& self.completed_bytes == 0
    }

    /// Plans a download. Without resuming, the whole file is downloaded and no ledger is kept. With
    /// resuming, a new ledger is started where none was found; a found ledger must describe the file,
    /// and then only what it does not vouch for is downloaded.
    pub fn prepare(
        output_path: &str,
        file_size: u64,
        enabled: bool,
        found: FoundLedger,
    ) -> (r: Result<Self>)
        requires
            enabled && found is Checked ==> hashed_bytes(found->0.segments@) <= u64::MAX,
        ensures
            well_planned(r, output_path@, file_size, enabled, found),
    {
        let metadata_path: String = metadata_path_for(output_path);
        if !enabled {
            return Ok(
                ResumePlan {
                    metadata_path,
                    metadata: None,
                    truncate_output: true,
                    remaining_ranges: full_ranges(file_size),
                    completed_bytes: 0,
                },
            );
        }
        match found {
            FoundLedger::Nothing => Ok(
                ResumePlan {
                    metadata_path,
                    metadata: Some(ResumeMetadata::new(file_size, DEFAULT_SEGMENT_SIZE)),
                    truncate_output: true,
                    remaining_ranges: full_ranges(file_size),
                    completed_bytes: 0,
                },
            ),
            FoundLedger::WithoutFile => Err(
                DownloadError::ResumeTargetMissing(output_path.to_owned()),
            ),
            FoundLedger::Checked(m) => {
                if let Err(e) = m.validate_shape(file_size) {
                    return Err(e);
                }
                let remaining_ranges: Vec<(u64, u64)> = m.remaining_ranges();
                let completed_bytes: u64 = m.completed_bytes();
                Ok(
                    ResumePlan {
                        metadata_path,
                        metadata: Some(m),
                        truncate_output: false,
                        remaining_ranges,
                        completed_bytes,
                    },
                )
            },
        }
    }

    /// What a failed attempt to save the plan's ledger means: nothing for a download that starts anew,
    /// a failure for one that is resumed.
    pub fn after_save(&self, saved: Result<()>) -> (r: Result<()>)
        ensures
            r == save_outcome(self.truncate_output, saved),
    {
        if self.truncate_output {
            Ok(())
        } else {
            saved
        }
    }

    /// The recorder that keeps the plan's ledger up to date, if it has one.
    pub fn into_recorder(self, now: u64) -> (r: Option<ResumeRecorder>)
        ensures
            match self.metadata {
                Some(m) => r matches Some(rec) && rec.metadata == m && rec.metadata_path
                    == self.metadata_path && rec.fresh(now),
                None => r is None,
            },
    {
        match self.metadata {
            Some(m) => Some(ResumeRecorder::new(self.metadata_path, m, now)),
            None => None,
        }
    }
}

/// `r` put among ranges, behind everything that starts no later.
pub open spec fn slotted(s: Seq<(u64, u64)>, r: (u64, u64)) -> Seq<(u64, u64)>
    decreases s.len(),
{
    if s.len() == 0 || s.last().0 <= r.0 {
        s.push(r)
    } else {
        slotted(s.drop_last(), r).push(s.last())
    }
}

/// Ranges in the order of their starts; ranges with equal starts keep their order.
pub open spec fn ordered(s: Seq<(u64, u64)>) -> Seq<(u64, u64)>
    decreases s.len(),
{
    if s.len() == 0 {
        s
    } else {
        slotted(ordered(s.drop_last()), s.last())
    }
}

/// Ranges with one more, in order and joined where they touch.
pub open spec fn with_range(s: Seq<(u64, u64)>, start: u64, end: u64) -> Seq<(u64, u64)> {
    contiguous(ordered(s.push((start, end))))
}

/// One of the ranges covers `start..=end`.
pub open spec fn covers(s: Seq<(u64, u64)>, start: u64, end: u64) -> bool {
    exists|i: int| 0 <= i < s.len() && (#[trigger] s[i]).0 <= start && s[i].1 >= end
}

/// `slotted` is an insertion at the place behind the last range that starts no later.
proof fn lemma_slotted(s: Seq<(u64, u64)>, r: (u64, u64), p: int)
    requires
        0 <= p <= s.len(),
        p > 0 ==> s[p - 1].0 <= r.0,
        forall|i: int| p <= i < s.len() ==> (#[trigger] s[i]).0 > r.0,
    ensures
        slotted(s, r) == s.insert(p, r),
    decreases s.len(),
{
    if p == s.len() {
        assert(s.insert(p, r) =~= s.push(r));
    } else {
        assert(s.last() == s[s.len() - 1]);
        assert forall|i: int| p <= i < s.len() - 1 implies (#[trigger] s.drop_last()[i]).0 > r.0 by {
            assert(s.drop_last()[i] == s[i]);
        }
        lemma_slotted(s.drop_last(), r, p);
        assert(s.insert(p, r) =~= s.drop_last().insert(p, r).push(s.last()));
    }
}

/// Adds a range to a set of ranges.
pub fn add_covered_range(ranges: &mut Vec<(u64, u64)>, start: u64, end: u64)
    ensures
        final(ranges)@ == with_range(old(ranges)@, start, end),
{
    ranges.push((start, end));
    let ghost all = ranges@;
    let mut sorted: Vec<(u64, u64)> = Vec::new();
    let mut i: usize = 0;
    assert(ordered(all.take(0)) =~= Seq::<(u64, u64)>::empty());
    while i < ranges.len()
        invariant
            i <= ranges@.len(),
            ranges@ == all,
            sorted@ == ordered(all.take(i as int)),
        decreases ranges.len() - i,
    {
        let r: (u64, u64) = ranges[i];
        let mut p: usize = sorted.len();
        while p > 0 && sorted[p - 1].0 > r.0
            invariant
                p <= sorted@.len(),
                forall|k: int| p <= k < sorted@.len() ==> (#[trigger] sorted@[k]).0 > r.0,
            decreases p,
        {
            p = p - 1;
        }
        proof {
            lemma_slotted(sorted@, r, p as int);
            assert(all.take(i + 1).drop_last() =~= all.take(i as int));
        }
        sorted.insert(p, r);
        i = i + 1;
    }
    assert(all.take(i as int) =~= all);
    let mut merged: Vec<(u64, u64)> = Vec::new();
    let mut j: usize = 0;
    assert(contiguous(sorted@.take(0)) =~= Seq::<(u64, u64)>::empty());
    while j < sorted.len()
        invariant
            j <= sorted@.len(),
            merged@ == contiguous(sorted@.take(j as int)),
        decreases sorted.len() - j,
    {
        assert(sorted@.take(j + 1) =~= sorted@.take(j as int).push(sorted@[j as int]));
        push_contiguous(&mut merged, sorted[j]);
        j = j + 1;
    }
    assert(sorted@.take(j as int) =~= sorted@);
    *ranges = merged;
}

/// Whether one of the ranges covers `start..=end`.
pub fn covers_segment(ranges: &Vec<(u64, u64)>, start: u64, end: u64) -> (r: bool)
    ensures
        r == covers(ranges@, start, end),
{
    let mut i: usize = 0;
    while i < ranges.len()
        invariant
            i <= ranges@.len(),
            forall|k: int|
                0 <= k < i ==> !((#[trigger] ranges@[k]).0 <= start && ranges@[k].1 >= end),
        decreases ranges.len() - i,
    {
        if ranges[i].0 <= start && ranges[i].1 >= end {
            assert(ranges@[i as int].0 <= start);
            return true;
        }
        i = i + 1;
    }
    false
}

/// Keeps a ledger up to date while bytes are written.
#[derive(Debug)]
pub struct ResumeRecorder {
    pub metadata_path: String,
    pub metadata: ResumeMetadata,
    /// The bytes written so far, per segment.
    pub covered_ranges: Vec<Vec<(u64, u64)>>,
    /// Segments hashed since the ledger was saved.
    pub pending_segments: usize,
    /// When the ledger was saved, in nanoseconds.
    pub last_save: u64,
}

/// The last byte of a write.
pub open spec fn write_end(offset: u64, len: u64) -> u64 {
    if state::capped(offset + len) >= 1 {
        (state::capped(offset + len) - 1) as u64
    } else {
        0
    }
}

/// The later of two places.
pub open spec fn later_of(a: u64, b: u64) -> u64 {
    if a >= b {
        a
    } else {
        b
    }
}

/// The earlier of two places.
pub open spec fn earlier_of(a: u64, b: u64) -> u64 {
    if a <= b {
        a
    } else {
        b
    }
}

/// Between two moments of a recorder a write was noted: its bytes are covered, and `ready` are the
/// segments that it made complete, in order.
pub open spec fn write_noted(
    before: ResumeRecorder,
    after: ResumeRecorder,
    offset: u64,
    len: u64,
    ready: Seq<usize>,
) -> bool {
    &&& after.wf()
    &&& after.metadata == before.metadata
    &&& forall|i: int|
        0 <= i < before.covered_ranges@.len() ==> {
            let now_covered = #[trigger] after.covered_ranges@[i];
            now_covered@ == before.covered_after(i, offset, len)
        }
    &&& forall|k: int|
        0 <= k < ready.len() ==> before.completes(#[trigger] ready[k] as int, offset, len)
    &&& forall|k: int, l: int| 0 <= k < l < ready.len() ==> ready[k] < ready[l]
    &&& forall|i: int| #[trigger]
        before.completes(i, offset, len) ==> ready.contains(i as usize)
}

/// Between two moments of a recorder the segment `index` got the hash of `bytes`.
pub open spec fn segment_hashed(
    before: ResumeRecorder,
    after: ResumeRecorder,
    index: usize,
    bytes: Seq<u8>,
) -> bool {
    &&& after.metadata.segments@ == before.metadata.segments@.update(
        index as int,
        SegmentRecord { hash: Some(fnv(bytes)), ..before.metadata.segments@[index as int] },
    )
    &&& after.metadata.version == before.metadata.version
    &&& after.metadata.file_size == before.metadata.file_size
    &&& after.metadata.segment_size == before.metadata.segment_size
    &&& after.covered_ranges == before.covered_ranges
}

impl ResumeRecorder {
    /// There is a set of ranges for each segment.
    pub open spec fn wf(self) -> bool {
        self.covered_ranges@.len() == self.metadata.segments@.len()
    }

    /// Exactly the hashed segments are covered, nothing waits to be saved.
    pub open spec fn fresh(self, now: u64) -> bool {
        &&& self.wf()
        &&& forall|i: int|
            0 <= i < self.covered_ranges@.len() ==> (#[trigger] self.covered_ranges@[i])@ == (
            if self.metadata.segments@[i].hash is Some {
                seq![(self.metadata.segments@[i].start, self.metadata.segments@[i].end)]
            } else {
                Seq::empty()
            })
        &&& self.pending_segments == 0
        &&& self.last_save == now
    }

    /// The write from `offset` on concerns the segment `i`.
    pub open spec fn concerned(self, i: int, offset: u64, len: u64) -> bool {
        let size = effective_size(self.metadata.segment_size);
        &&& len > 0
        &&& self.metadata.file_size > 0
        &&& 0 <= i < self.metadata.segments@.len()
        &&& offset as int / size <= i <= write_end(offset, len) as int / size
        &&& self.metadata.segments@[i].hash is None
    }

    /// What is covered of the segment `i` after a write.
    pub open spec fn covered_after(self, i: int, offset: u64, len: u64) -> Seq<(u64, u64)> {
        let seg = self.metadata.segments@[i];
        if self.concerned(i, offset, len) {
            with_range(
                self.covered_ranges@[i]@,
                later_of(offset, seg.start),
                earlier_of(write_end(offset, len), seg.end),
            )
        } else {
            self.covered_ranges@[i]@
        }
    }

    /// The write makes the segment `i` complete.
    pub open spec fn completes(self, i: int, offset: u64, len: u64) -> bool {
        &&& self.concerned(i, offset, len)
        &&& covers(
            self.covered_after(i, offset, len),
            self.metadata.segments@[i].start,
            self.metadata.segments@[i].end,
        )
    }

    /// A recorder for a ledger: what is hashed is written.
    pub fn new(metadata_path: String, metadata: ResumeMetadata, now: u64) -> (r: Self)
        ensures
            r.metadata == metadata,
            r.metadata_path == metadata_path,
            r.fresh(now),
    {
        let mut covered_ranges: Vec<Vec<(u64, u64)>> = Vec::new();
        let mut i: usize = 0;
        while i < metadata.segments.len()
            invariant
                i <= metadata.segments@.len(),
                covered_ranges@.len() == i,
                forall|k: int|
                    0 <= k < i ==> (#[trigger] covered_ranges@[k])@ == (
                    if metadata.segments@[k].hash is Some {
                        seq![(metadata.segments@[k].start, metadata.segments@[k].end)]
                    } else {
                        Seq::empty()
                    }),
            decreases metadata.segments.len() - i,
        {
            let seg: SegmentRecord = metadata.segments[i];
            let mut one: Vec<(u64, u64)> = Vec::new();
            if seg.hash.is_some() {
                one.push((seg.start, seg.end));
                assert(one@ =~= seq![(seg.start, seg.end)]);
            }
            covered_ranges.push(one);
            i = i + 1;
        }
        ResumeRecorder { metadata_path, metadata, covered_ranges, pending_segments: 0, last_save: now }
    }

    /// The first and the last segment that a range may concern.
    fn segment_indexes_for_range(&self, start: u64, end: u64) -> (r: (u64, u64))
        ensures
            r.0 == start as int / effective_size(self.metadata.segment_size),
            r.1 == end as int / effective_size(self.metadata.segment_size),
    {
        let size: u64 = if self.metadata.segment_size >= 1 {
            self.metadata.segment_size
        } else {
            1
        };
        (start / size, end / size)
    }

    /// Notes that `len` bytes from `offset` on were written. Gives the segments that are complete
    /// now, in order: they are to be read and hashed.
    pub fn record_write(&mut self, offset: u64, len: u64) -> (r: Vec<usize>)
        requires
            old(self).wf(),
        ensures
            final(self).wf(),
            write_noted(*old(self), *final(self), offset, len, r@),
            final(self).metadata_path == old(self).metadata_path,
            final(self).pending_segments == old(self).pending_segments,
            final(self).last_save == old(self).last_save,
    {
        let mut ready: Vec<usize> = Vec::new();
        if len == 0 || self.metadata.file_size == 0 {
            return ready;
        }
        let last_byte: u64 = offset.saturating_add(len).saturating_sub(1);
        let (first, last) = self.segment_indexes_for_range(offset, last_byte);
        let count: usize = self.metadata.segments.len();
        let ghost before = *self;
        let mut i: usize = if first < count as u64 {
            first as usize
        } else {
            count
        };
        while i < count && i as u64 <= last
            invariant
                i <= count,
                i == count || first <= i,
                count == before.metadata.segments@.len(),
                before.wf(),
                self.wf(),
                len > 0,
                before.metadata.file_size > 0,
                last_byte == write_end(offset, len),
                first == offset as int / effective_size(before.metadata.segment_size),
                last == last_byte as int / effective_size(before.metadata.segment_size),
                self.metadata == before.metadata,
                self.metadata_path == before.metadata_path,
                self.pending_segments == before.pending_segments,
                self.last_save == before.last_save,
                forall|k: int|
                    0 <= k < i ==> (#[trigger] self.covered_ranges@[k])@ == before.covered_after(
                        k,
                        offset,
                        len,
                    ),
                forall|k: int|
                    i <= k < count ==> #[trigger] self.covered_ranges@[k]
                        == before.covered_ranges@[k],
                forall|k: int|
                    0 <= k < ready@.len() ==> ready@[k] < i && before.completes(
                        #[trigger] ready@[k] as int,
                        offset,
                        len,
                    ),
                forall|k: int, l: int| 0 <= k < l < ready@.len() ==> ready@[k] < ready@[l],
                forall|k: int|
                    0 <= k < i && #[trigger] before.completes(k, offset, len) ==> ready@.contains(
                        k as usize,
                    ),
            decreases count - i,
        {
            let seg: SegmentRecord = self.metadata.segments[i];
            let ghost ready_before = ready@;
            if seg.hash.is_none() {
                let from: u64 = if offset >= seg.start {
                    offset
                } else {
                    seg.start
                };
                let to: u64 = if last_byte <= seg.end {
                    last_byte
                } else {
                    seg.end
                };
                add_covered_range(&mut self.covered_ranges[i], from, to);
                if covers_segment(&self.covered_ranges[i], seg.start, seg.end) {
                    ready.push(i);
                }
            }
            assert forall|k: int|
                0 <= k < i + 1 && #[trigger] before.completes(
                    k,
                    offset,
                    len,
                ) implies ready@.contains(k as usize) by {
                if k < i {
                    assert(ready_before.contains(k as usize));
                    let w = choose|w: int| 0 <= w < ready_before.len() && ready_before[w] == k as usize;
                    assert(ready@[w] == k as usize);
                } else {
                    assert(ready@[ready@.len() - 1] == i);
                }
            }
            i = i + 1;
        }
        assert forall|k: int| #[trigger] before.completes(k, offset, len) implies ready@.contains(
            k as usize,
        ) by {
            assert(0 <= k < count);
        }
        ready
    }

    /// Sets the hash of a segment whose bytes were read back.
    pub fn complete_segment(&mut self, index: usize, bytes: &[u8])
        requires
            index < old(self).metadata.segments@.len(),
        ensures
            segment_hashed(*old(self), *final(self), index, bytes@),
            final(self).metadata_path == old(self).metadata_path,
            final(self).pending_segments == old(self).pending_segments,
            final(self).last_save == old(self).last_save,
    {
        let hash: u64 = hash_bytes(bytes);
        self.metadata.set_segment_hash(index, hash);
    }

    /// Counts newly hashed segments. Whether the ledger is to be saved now: not without a new one,
    /// else if enough wait or enough time has passed.
    pub fn note_completed(&mut self, newly_completed: usize, now: u64) -> (r: bool)
        ensures
            final(self).pending_segments == (if old(self).pending_segments + newly_completed
                <= usize::MAX {
                (old(self).pending_segments + newly_completed) as usize
            } else {
                usize::MAX
            }),
            r == save_due(
                newly_completed as int,
                final(self).pending_segments as int,
                now - old(self).last_save,
            ),
            final(self).metadata == old(self).metadata,
            final(self).metadata_path == old(self).metadata_path,
            final(self).covered_ranges == old(self).covered_ranges,
            final(self).last_save == old(self).last_save,
    {
        self.pending_segments = self.pending_segments.saturating_add(newly_completed);
        newly_completed > 0 && (self.pending_segments >= FLUSH_SEGMENTS || now.saturating_sub(
            self.last_save,
        ) >= FLUSH_INTERVAL)
    }

    /// Whether hashed segments wait to be saved.
    pub fn needs_flush(&self) -> (r: bool)
        ensures
            r == (self.pending_segments > 0),
    {
        self.pending_segments > 0
    }

    /// The ledger was saved.
    pub fn mark_saved(&mut self, now: u64)
        ensures
            final(self).pending_segments == 0,
            final(self).last_save == now,
            final(self).metadata == old(self).metadata,
            final(self).metadata_path == old(self).metadata_path,
            final(self).covered_ranges == old(self).covered_ranges,
    {
        self.pending_segments = 0;
        self.last_save = now;
    }
}

/// The byte `x` lies in one of the ranges.
pub open spec fn within(s: Seq<(u64, u64)>, x: u64) -> bool
    decreases s.len(),
{
    s.len() > 0 && (within(s.drop_last(), x) || s.last().0 <= x <= s.last().1)
}

/// No range is empty.
pub open spec fn all_nonempty(s: Seq<(u64, u64)>) -> bool {
    forall|i: int| 0 <= i < s.len() ==> (#[trigger] s[i]).0 <= s[i].1
}

/// The ranges are in the order of their starts.
pub open spec fn in_order(s: Seq<(u64, u64)>) -> bool {
    forall|i: int, j: int| 0 <= i <= j < s.len() ==> (#[trigger] s[i]).0 <= (#[trigger] s[j]).0
}

/// The ranges are not empty, in order, and no two share a byte.
pub open spec fn apart(s: Seq<(u64, u64)>) -> bool {
    &&& all_nonempty(s)
    &&& forall|i: int, j: int| 0 <= i < j < s.len() ==> (#[trigger] s[i]).1 < (#[trigger] s[j]).0
}

/// The ranges are in order with at least one byte between any two.
pub open spec fn separated(s: Seq<(u64, u64)>) -> bool {
    &&& all_nonempty(s)
    &&& forall|i: int, j: int| 0 <= i < j < s.len() ==> (#[trigger] s[i]).1 + 1 < (#[trigger] s[j]).0
}

/// The bytes of ranges, added up.
pub open spec fn byte_sum(s: Seq<(u64, u64)>) -> int
    decreases s.len(),
{
    if s.len() == 0 {
        0
    } else {
        byte_sum(s.drop_last()) + (s.last().1 - s.last().0 + 1)
    }
}

/// Joining ordered ranges keeps exactly the bytes that they cover.
proof fn lemma_contiguous_within(s: Seq<(u64, u64)>, x: u64)
    requires
        all_nonempty(s),
        in_order(s),
    ensures
        within(contiguous(s), x) == within(s, x),
        s.len() > 0 ==> contiguous(s).len() > 0 && contiguous(s).last().0 <= s.last().0,
    decreases s.len(),
{
    if s.len() > 0 {
        let t = s.drop_last();
        assert(all_nonempty(t)) by {
            assert forall|i: int| 0 <= i < t.len() implies (#[trigger] t[i]).0 <= t[i].1 by {
                assert(s[i].0 <= s[i].1);
            }
        }
        assert(in_order(t)) by {
            assert forall|i: int, j: int| 0 <= i <= j < t.len() implies (#[trigger] t[i]).0 <= (
            #[trigger] t[j]).0 by {
                assert(s[i].0 <= s[j].0);
            }
        }
        lemma_contiguous_within(t, x);
        let front = contiguous(t);
        let r = s.last();
        assert(s[s.len() - 1].0 <= s[s.len() - 1].1);
        if t.len() > 0 {
            assert(s[t.len() - 1].0 <= s[s.len() - 1].0);
        }
        if front.len() > 0 && touches(front.last(), r) {
            let whole = (
                front.last().0,
                if front.last().1 >= r.1 {
                    front.last().1
                } else {
                    r.1
                },
            );
            assert(t.len() > 0);
            assert(front.drop_last().push(whole).drop_last() =~= front.drop_last());
        } else {
            assert(front.push(r).drop_last() =~= front);
        }
    }
}

/// Slotting a range in keeps order and adds exactly its bytes.
proof fn lemma_slotted_within(s: Seq<(u64, u64)>, r: (u64, u64), x: u64)
    requires
        in_order(s),
    ensures
        within(slotted(s, r), x) == (within(s, x) || r.0 <= x <= r.1),
        in_order(slotted(s, r)),
        all_nonempty(s) && r.0 <= r.1 ==> all_nonempty(slotted(s, r)),
        slotted(s, r).len() == s.len() + 1,
        slotted(s, r).last().0 == (if s.len() > 0 && s.last().0 > r.0 {
            s.last().0
        } else {
            r.0
        }),
    decreases s.len(),
{
    if s.len() == 0 || s.last().0 <= r.0 {
        assert(s.push(r).drop_last() =~= s);
        assert forall|i: int, j: int| 0 <= i <= j < s.len() + 1 implies (#[trigger] s.push(r)[i]).0
            <= (#[trigger] s.push(r)[j]).0 by {
            if j == s.len() && i < s.len() {
                assert(s[i].0 <= s[s.len() - 1].0);
            } else if j < s.len() {
                assert(s[i].0 <= s[j].0);
            }
        }
        if all_nonempty(s) && r.0 <= r.1 {
            assert forall|i: int| 0 <= i < s.len() + 1 implies (#[trigger] s.push(r)[i]).0 <= s.push(
                r,
            )[i].1 by {
                if i < s.len() {
                    assert(s[i].0 <= s[i].1);
                }
            }
        }
    } else {
        let t = s.drop_last();
        assert(in_order(t)) by {
            assert forall|i: int, j: int| 0 <= i <= j < t.len() implies (#[trigger] t[i]).0 <= (
            #[trigger] t[j]).0 by {
                assert(s[i].0 <= s[j].0);
            }
        }
        lemma_slotted_within(t, r, x);
        let rest = slotted(t, r);
        let full = rest.push(s.last());
        assert(full.drop_last() =~= rest);
        if t.len() > 0 {
            assert(s[t.len() - 1].0 <= s[s.len() - 1].0);
        }
        assert forall|i: int, j: int| 0 <= i <= j < full.len() implies (#[trigger] full[i]).0 <= (
        #[trigger] full[j]).0 by {
            if j < rest.len() {
                assert(rest[i].0 <= rest[j].0);
            } else if i < rest.len() {
                assert(rest[i].0 <= rest[rest.len() - 1].0);
            }
        }
        if all_nonempty(s) && r.0 <= r.1 {
            assert(all_nonempty(t)) by {
                assert forall|i: int| 0 <= i < t.len() implies (#[trigger] t[i]).0 <= t[i].1 by {
                    assert(s[i].0 <= s[i].1);
                }
            }
            assert forall|i: int| 0 <= i < full.len() implies (#[trigger] full[i]).0 <= full[i].1 by {
                if i < rest.len() {
                    assert(rest[i].0 <= rest[i].1);
                } else {
                    assert(s[s.len() - 1].0 <= s[s.len() - 1].1);
                }
            }
        }
    }
}

/// Putting ranges in order keeps their bytes.
pub proof fn lemma_ordered_within(s: Seq<(u64, u64)>, x: u64)
    ensures
        within(ordered(s), x) == within(s, x),
        in_order(ordered(s)),
        all_nonempty(s) ==> all_nonempty(ordered(s)),
    decreases s.len(),
{
    if s.len() > 0 {
        let t = s.drop_last();
        lemma_ordered_within(t, x);
        lemma_slotted_within(ordered(t), s.last(), x);
        if all_nonempty(s) {
            assert(all_nonempty(t)) by {
                assert forall|i: int| 0 <= i < t.len() implies (#[trigger] t[i]).0 <= t[i].1 by {
                    assert(s[i].0 <= s[i].1);
                }
            }
            assert(s[s.len() - 1].0 <= s[s.len() - 1].1);
        }
    }
}

/// The ledger is to be saved: a segment was completed just now, and enough of them wait or enough time
/// has passed.
pub open spec fn save_due(newly: int, waiting: int, since: int) -> bool {
    newly > 0 && (waiting >= FLUSH_SEGMENTS || since >= FLUSH_INTERVAL)
}

/// The ledger is saved at the latest with the sixteenth segment that waits, and with the first one that
/// is completed a second or more after the last time; it is not saved for nothing.
pub proof fn law_the_ledger_is_saved_in_time(newly: int, waiting: int, since: int)
    ensures
        newly > 0 && waiting >= 16 ==> save_due(newly, waiting, since),
        newly > 0 && since >= 1_000_000_000 ==> save_due(newly, waiting, since),
        newly <= 0 ==> !save_due(newly, waiting, since),
        waiting < 16 && since < 1_000_000_000 ==> !save_due(newly, waiting, since),
{
}

/// Noting a write adds exactly the bytes written.
pub proof fn law_covered_bytes_are_the_written_bytes(
    s: Seq<(u64, u64)>,
    start: u64,
    end: u64,
    x: u64,
)
    requires
        all_nonempty(s),
        start <= end,
    ensures
        within(with_range(s, start, end), x) == (within(s, x) || start <= x <= end),
{
    let t = s.push((start, end));
    assert(all_nonempty(t)) by {
        assert forall|i: int| 0 <= i < t.len() implies (#[trigger] t[i]).0 <= t[i].1 by {
            if i < s.len() {
                assert(s[i].0 <= s[i].1);
            }
        }
    }
    lemma_ordered_within(t, x);
    lemma_contiguous_within(ordered(t), x);
    assert(t.drop_last() =~= s);
}

/// A range among others is covered by them.
pub proof fn lemma_within(s: Seq<(u64, u64)>, i: int, x: u64)
    requires
        0 <= i < s.len(),
        s[i].0 <= x <= s[i].1,
    ensures
        within(s, x),
    decreases s.len(),
{
    if i < s.len() - 1 {
        lemma_within(s.drop_last(), i, x);
    }
}

/// A segment is called complete only when every one of its bytes was written.
pub proof fn law_complete_segments_are_written(
    rec: ResumeRecorder,
    i: int,
    offset: u64,
    len: u64,
    x: u64,
)
    requires
        rec.completes(i, offset, len),
        rec.metadata.segments@[i].start <= x <= rec.metadata.segments@[i].end,
    ensures
        within(rec.covered_after(i, offset, len), x),
{
    let s = rec.covered_after(i, offset, len);
    let seg = rec.metadata.segments@[i];
    let k = choose|k: int|
        0 <= k < s.len() && (#[trigger] s[k]).0 <= seg.start && s[k].1 >= seg.end;
    lemma_within(s, k, x);
}

/// What the two kinds of segments among the first `n` look like.
proof fn lemma_where(s: Seq<SegmentRecord>, file_size: u64, n: int, hashed: bool)
    requires
        tiles(s, file_size),
        0 <= n <= s.len(),
    ensures
        apart(ranges_where(s.take(n), hashed)),
        forall|k: int|
            0 <= k < ranges_where(s.take(n), hashed).len() ==> (#[trigger] ranges_where(
                s.take(n),
                hashed,
            )[k]).1 < file_size && (n < s.len() ==> ranges_where(s.take(n), hashed)[k].1
                < s[n].start),
    decreases n,
{
    if n > 0 {
        lemma_where(s, file_size, n - 1, hashed);
        assert(s.take(n).drop_last() =~= s.take(n - 1));
        let before = ranges_where(s.take(n - 1), hashed);
        let now = ranges_where(s.take(n), hashed);
        assert(s[n - 1].start <= s[n - 1].end);
        if n < s.len() {
            assert(s[n].start == s[n - 1].end + 1);
        }
        assert forall|k: int| 0 <= k < now.len() implies (#[trigger] now[k]).0 <= now[k].1 && now[k].1
            < file_size && (n < s.len() ==> now[k].1 < s[n].start) by {
            if k < before.len() {
                assert(before[k].0 <= before[k].1);
                assert(before[k].1 < s[n - 1].start);
            }
        }
        assert forall|a: int, b: int| 0 <= a < b < now.len() implies (#[trigger] now[a]).1 < (
        #[trigger] now[b]).0 by {
            if b < before.len() {
                assert(before[a].1 < before[b].0);
            } else {
                assert(before[a].1 < s[n - 1].start);
            }
        }
    }
}

/// Joining ranges that share no byte keeps the number of bytes and leaves gaps between them.
proof fn lemma_contiguous_apart(s: Seq<(u64, u64)>)
    requires
        apart(s),
    ensures
        byte_sum(contiguous(s)) == byte_sum(s),
        separated(contiguous(s)),
        s.len() > 0 ==> contiguous(s).len() > 0 && contiguous(s).last().1 == s.last().1,
    decreases s.len(),
{
    if s.len() > 0 {
        let t = s.drop_last();
        assert(apart(t)) by {
            assert forall|i: int| 0 <= i < t.len() implies (#[trigger] t[i]).0 <= t[i].1 by {
                assert(s[i].0 <= s[i].1);
            }
            assert forall|i: int, j: int| 0 <= i < j < t.len() implies (#[trigger] t[i]).1 < (
            #[trigger] t[j]).0 by {
                assert(s[i].1 < s[j].0);
            }
        }
        lemma_contiguous_apart(t);
        let front = contiguous(t);
        let r = s.last();
        assert(s[s.len() - 1].0 <= s[s.len() - 1].1);
        if t.len() > 0 {
            assert(s[t.len() - 1].1 < s[s.len() - 1].0);
        }
        if front.len() > 0 && touches(front.last(), r) {
            assert(t.len() > 0);
            let whole = (front.last().0, r.1);
            let now = front.drop_last().push(whole);
            assert(contiguous(s) =~= now);
            assert(now.drop_last() =~= front.drop_last());
            assert(front[front.len() - 1].0 <= front[front.len() - 1].1);
            assert forall|i: int| 0 <= i < now.len() implies (#[trigger] now[i]).0 <= now[i].1 by {
                if i < front.len() - 1 {
                    assert(front[i].0 <= front[i].1);
                }
            }
            assert forall|i: int, j: int| 0 <= i < j < now.len() implies (#[trigger] now[i]).1 + 1
                < (#[trigger] now[j]).0 by {
                assert(front[i].1 + 1 < front[j].0);
            }
        } else {
            let now = front.push(r);
            assert(now.drop_last() =~= front);
            assert forall|i: int| 0 <= i < now.len() implies (#[trigger] now[i]).0 <= now[i].1 by {
                if i < front.len() {
                    assert(front[i].0 <= front[i].1);
                }
            }
            assert forall|i: int, j: int| 0 <= i < j < now.len() implies (#[trigger] now[i]).1 + 1
                < (#[trigger] now[j]).0 by {
                if j < front.len() {
                    assert(front[i].1 + 1 < front[j].0);
                } else if i < front.len() - 1 {
                    assert(front[i].1 + 1 < front[front.len() - 1].0);
                    assert(front[front.len() - 1].0 <= front[front.len() - 1].1);
                }
            }
        }
    }
}

/// The two kinds of segments among the first `n` make up everything before the next one.
proof fn lemma_where_sum(s: Seq<SegmentRecord>, file_size: u64, n: int)
    requires
        tiles(s, file_size),
        0 <= n <= s.len(),
    ensures
        byte_sum(ranges_where(s.take(n), true)) == hashed_bytes(s.take(n)),
        byte_sum(ranges_where(s.take(n), true)) + byte_sum(ranges_where(s.take(n), false)) == (
        if n < s.len() {
            s[n].start as int
        } else {
            file_size as int
        }),
    decreases n,
{
    if n > 0 {
        lemma_where_sum(s, file_size, n - 1);
        assert(s.take(n).drop_last() =~= s.take(n - 1));
        assert(s[n - 1].start <= s[n - 1].end < file_size);
        if n < s.len() {
            assert(s[n].start == s[n - 1].end + 1);
        }
        let seg = s[n - 1];
        let hashed = seg.hash is Some;
        let before = ranges_where(s.take(n - 1), hashed);
        assert(before.push((seg.start, seg.end)).drop_last() =~= before);
    }
}

/// What is verified and what remains are the file: their bytes add up to its size, no range is empty,
/// and ranges of one kind never touch each other.
pub proof fn law_verified_and_remaining_make_up_the_file(s: Seq<SegmentRecord>, file_size: u64)
    requires
        tiles(s, file_size),
    ensures
        byte_sum(contiguous(ranges_where(s, true))) == hashed_bytes(s),
        hashed_bytes(s) + byte_sum(contiguous(ranges_where(s, false))) == file_size,
        separated(contiguous(ranges_where(s, true))),
        separated(contiguous(ranges_where(s, false))),
{
    let n = s.len() as int;
    assert(s.take(n) =~= s);
    lemma_where(s, file_size, n, true);
    lemma_where(s, file_size, n, false);
    lemma_where_sum(s, file_size, n);
    lemma_contiguous_apart(ranges_where(s, true));
    lemma_contiguous_apart(ranges_where(s, false));
}

/// The byte `x` lies in a segment that is hashed, or in one that is not.
pub open spec fn in_segment_where(s: Seq<SegmentRecord>, hashed: bool, x: u64) -> bool
    decreases s.len(),
{
    s.len() > 0 && (in_segment_where(s.drop_last(), hashed, x) || (s.last().hash is Some) == hashed
        && s.last().start <= x <= s.last().end)
}

proof fn lemma_where_within(s: Seq<SegmentRecord>, hashed: bool, x: u64)
    ensures
        within(ranges_where(s, hashed), x) == in_segment_where(s, hashed, x),
    decreases s.len(),
{
    if s.len() > 0 {
        lemma_where_within(s.drop_last(), hashed, x);
        let front = ranges_where(s.drop_last(), hashed);
        assert(front.push((s.last().start, s.last().end)).drop_last() =~= front);
    }
}

/// A byte remains to be downloaded exactly if its segment has no hash, and is verified exactly if its
/// segment has one.
pub proof fn law_ranges_follow_the_segments(
    s: Seq<SegmentRecord>,
    file_size: u64,
    hashed: bool,
    x: u64,
)
    requires
        tiles(s, file_size),
    ensures
        within(contiguous(ranges_where(s, hashed)), x) == in_segment_where(s, hashed, x),
{
    assert(s.take(s.len() as int) =~= s);
    lemma_where(s, file_size, s.len() as int, hashed);
    let r = ranges_where(s, hashed);
    assert(in_order(r)) by {
        assert forall|i: int, j: int| 0 <= i <= j < r.len() implies (#[trigger] r[i]).0 <= (
        #[trigger] r[j]).0 by {
            if i < j {
                assert(r[i].0 <= r[i].1);
                assert(r[i].1 < r[j].0);
            }
        }
    }
    lemma_contiguous_within(r, x);
    lemma_where_within(s, hashed, x);
}

/// A segment keeps its hash only if the file holds its bytes and they have that hash.
pub proof fn law_only_matching_segments_are_trusted(
    seg: SegmentRecord,
    file_len: u64,
    bytes: Seq<u8>,
)
    ensures
        rechecked(seg, file_len, bytes).hash is Some <==> seg.hash is Some && seg.end < file_len
            && seg.hash == Some(fnv(bytes)),
        rechecked(seg, file_len, bytes).start == seg.start,
        rechecked(seg, file_len, bytes).end == seg.end,
{
}

/// A ledger fits a file exactly if it is of the known version, was made for a file of that size, and
/// has segments.
pub proof fn law_ledgers_must_fit_the_file(
    version: u32,
    ledger_size: u64,
    segment_size: u64,
    file_size: u64,
)
    ensures
        shape_fault(version, ledger_size, segment_size, file_size) is None <==> version == 1
            && ledger_size == file_size && segment_size > 0,
{
}

/// The segments of a new ledger are of the segment size, each behind the one before, but for the last
/// one, which ends with the file; there are just enough of them, and none is vouched for.
pub proof fn law_segments_cut_the_file_evenly(file_size: u64, segment_size: u64)
    requires
        segment_size > 0,
    ensures
        ({
            let s = blank_segments(file_size, segment_size);
            &&& s.len() * segment_size >= file_size
            &&& s.len() > 0 ==> (s.len() - 1) * segment_size < file_size
            &&& forall|i: int|
                0 <= i < s.len() ==> (#[trigger] s[i]).start == i * segment_size && s[i].hash is None
            &&& forall|i: int|
                0 <= i < s.len() - 1 ==> (#[trigger] s[i]).end - s[i].start + 1 == segment_size
            &&& s.len() > 0 ==> s.last().end + 1 == file_size
        }),
{
    let s = blank_segments(file_size, segment_size);
    let size = segment_size as int;
    let n = segment_count(file_size, segment_size);
    assert(n * size >= file_size && (n - 1) * size < file_size && n >= 0) by (nonlinear_arith)
        requires
            size >= 1,
            file_size >= 0,
            n == (file_size + size - 1) / size,
    ;
    assert forall|i: int| 0 <= i < s.len() implies (#[trigger] s[i]).start == i * segment_size
        && s[i].hash is None by {
        assert(0 <= i * size <= (n - 1) * size) by (nonlinear_arith)
            requires
                0 <= i <= n - 1,
                size >= 1,
        ;
    }
    assert forall|i: int| 0 <= i < s.len() - 1 implies (#[trigger] s[i]).end - s[i].start + 1
        == segment_size by {
        assert((i + 1) * size <= (n - 1) * size && (i + 1) * size == i * size + size)
            by (nonlinear_arith)
            requires
                0 <= i < n - 1,
                size >= 1,
        ;
    }
    if n > 0 {
        assert(((n - 1) + 1) * size == n * size);
        if n * size <= file_size {
            assert(n * size == file_size);
        }
    }
}

/// The ledger of a file lies beside it, under its name with `.download.bitcode` behind.
pub proof fn law_the_ledger_lies_beside_its_file(dir: Seq<char>, name: Seq<char>)
    requires
        path::plain_name(name),
        dir.len() > 0,
        dir.last() != '/',
        path::stripped(dir) == dir,
    ensures
        ledger_path(dir.push('/') + name) == dir.push('/') + name + ".download.bitcode"@,
        ledger_path(name) == name + ".download.bitcode"@,
{
    path::law_names_stand_behind_the_last_separator(dir, name);
    path::law_renaming_keeps_the_directory(dir, name, name + ".download.bitcode"@);
    assert(dir.push('/') + (name + ".download.bitcode"@) =~= dir.push('/') + name
        + ".download.bitcode"@);
}

/// A segment is concerned by a write exactly if it has no hash yet and the write touches one of its
/// bytes.
pub proof fn law_writes_concern_what_they_touch(rec: ResumeRecorder, i: int, offset: u64, len: u64)
    requires
        0 <= i < rec.metadata.segments@.len(),
        rec.metadata.segment_size > 0,
        len > 0,
        offset + len <= rec.metadata.file_size,
        rec.metadata.segments@[i].start == i * rec.metadata.segment_size,
        rec.metadata.segments@[i].end + 1 == (i + 1) * rec.metadata.segment_size || (
        rec.metadata.segments@[i].end + 1 == rec.metadata.file_size
            && rec.metadata.segments@[i].end + 1 <= (i + 1) * rec.metadata.segment_size),
    ensures
        rec.concerned(i, offset, len) <==> rec.metadata.segments@[i].hash is None && offset
            <= rec.metadata.segments@[i].end && rec.metadata.segments@[i].start < offset + len,
{
    let size = rec.metadata.segment_size as int;
    let seg = rec.metadata.segments@[i];
    let a = offset as int / size;
    let last = offset + len - 1;
    let b = last / size;
    assert(write_end(offset, len) == last);
    assert(a * size <= offset < (a + 1) * size) by (nonlinear_arith)
        requires
            a == offset as int / size,
            size > 0,
    ;
    assert(b * size <= last < (b + 1) * size) by (nonlinear_arith)
        requires
            b == last / size,
            size > 0,
    ;
    if a <= i && i <= b {
        assert(offset < (i + 1) * size && i * size <= last) by (nonlinear_arith)
            requires
                a <= i <= b,
                size > 0,
                offset < (a + 1) * size,
                b * size <= last,
        ;
    }
    if offset <= seg.end && seg.start <= last {
        assert(a <= i) by (nonlinear_arith)
            requires
                a * size <= offset,
                offset < (i + 1) * size,
                size > 0,
        ;
        assert(i <= b) by (nonlinear_arith)
            requires
                i * size <= last,
                last < (b + 1) * size,
                size > 0,
        ;
    }
}

/// A new recorder has everything on record that its ledger vouches for, and nothing else; nothing waits
/// to be saved, and the time until the next save runs from now.
pub proof fn law_new_recorders_know_what_is_vouched_for(rec: ResumeRecorder, now: u64, i: int, x: u64)
    requires
        rec.fresh(now),
        0 <= i < rec.metadata.segments@.len(),
    ensures
        ({
            let seg = rec.metadata.segments@[i];
            within(rec.covered_ranges@[i]@, x) <==> seg.hash is Some && seg.start <= x <= seg.end
        }),
        rec.pending_segments == 0,
        rec.last_save == now,
        rec.covered_ranges@.len() == rec.metadata.segments@.len(),
{
    let c = rec.covered_ranges@[i];
    let seg = rec.metadata.segments@[i];
    assert(!within(Seq::empty(), x));
    if seg.hash is Some {
        assert(c@.drop_last() =~= Seq::empty());
        assert(c@.last() == (seg.start, seg.end));
    }
}

} // verus!
