//! Probing a server: what its headers say of a file's size and of range support.

use crate::text;
use crate::text::{
    chars_of, equals_ignoring_case, find_first, find_last, parse_number, trim_bounds,
};
use crate::types::{DownloadError, Result};
use vstd::prelude::*;

verus! {

/// The part of a `Content-Range` value behind `bytes `: a range or `*`, a slash, and a total or `*`.
pub open spec fn content_range_rest(rest: Seq<char>) -> Option<(u64, u64, u64)> {
    let slash = text::last_index(rest, '/');
    if slash < 0 {
        None
    } else {
        let range = text::trimmed(rest.take(slash));
        let total = text::trimmed(rest.skip(slash + 1));
        if range == seq!['*'] {
            match text::parsed_number(total) {
                Some(n) => Some((0, 0, n)),
                None => None,
            }
        } else {
            let dash = text::first_index(range, '-');
            let known = if total == seq!['*'] {
                Some(0u64)
            } else {
                text::parsed_number(total)
            };
            if dash < 0 {
                None
            } else {
                match (
                    text::parsed_number(text::trimmed(range.take(dash))),
                    text::parsed_number(text::trimmed(range.skip(dash + 1))),
                    known,
                ) {
                    (Some(first), Some(last), Some(n)) => if first <= last {
                        Some((first, last, n))
                    } else {
                        None
                    },
                    _ => None,
                }
            }
        }
    }
}

/// A `Content-Range` value as first byte, last byte and total size. An unknown total (`*`) reads as
/// 0, and an unsatisfied range (`*`) as the byte 0.
pub open spec fn content_range(header: Seq<char>) -> Option<(u64, u64, u64)> {
    let h = text::trimmed(header);
    if h.len() < 6 || !text::same_ignoring_case(h.take(6), "bytes "@) {
        None
    } else {
        content_range_rest(text::trimmed(h.skip(6)))
    }
}

/// Whether `v[lo..hi]` is a lone star.
fn is_star(v: &Vec<char>, lo: usize, hi: usize) -> (r: bool)
    requires
        lo <= hi <= v@.len(),
    ensures
        r == (v@.subrange(lo as int, hi as int) == seq!['*']),
{
    if hi - lo == 1 && v[lo] == '*' {
        assert(v@.subrange(lo as int, hi as int) =~= seq!['*']);
        true
    } else {
        assert(v@.subrange(lo as int, hi as int).len() == hi - lo);
        assert(hi - lo == 1 ==> v@.subrange(lo as int, hi as int)[0] == v@[lo as int]);
        false
    }
}

/// Parses a `Content-Range` value: `bytes <first>-<last>/<total>`, `bytes <first>-<last>/*` or
/// `bytes */<total>`.
pub fn parse_content_range(header: &str) -> (r: Option<(u64, u64, u64)>)
    ensures
        r == content_range(header@),
{
    let v: Vec<char> = chars_of(header);
    assert(v@.subrange(0, v@.len() as int) =~= header@);
    let (a, b) = trim_bounds(&v, 0, v.len());
    let ghost h = text::trimmed(header@);
    proof {
        reveal_strlit("bytes ");
    }
    if b - a < 6 {
        return None;
    }
    assert(h.take(6) =~= v@.subrange(a as int, a + 6));
    if !equals_ignoring_case(&v, a, a + 6, "bytes ") {
        return None;
    }
    assert(h.skip(6) =~= v@.subrange(a + 6, b as int));
    let (c, d) = trim_bounds(&v, a + 6, b);
    let ghost rest = text::trimmed(h.skip(6));
    assert(rest == v@.subrange(c as int, d as int));
    let slash = match find_last(&v, c, d, '/') {
        Some(i) => i,
        None => {
            return None;
        },
    };
    assert(rest.take(slash - c) =~= v@.subrange(c as int, slash as int));
    assert(rest.skip(slash - c + 1) =~= v@.subrange(slash + 1, d as int));
    let (ra, rb) = trim_bounds(&v, c, slash);
    let (ta, tb) = trim_bounds(&v, slash + 1, d);
    let ghost range = v@.subrange(ra as int, rb as int);
    if is_star(&v, ra, rb) {
        return match parse_number(&v, ta, tb) {
            Some(n) => Some((0, 0, n)),
            None => None,
        };
    }
    let total: u64 = if is_star(&v, ta, tb) {
        0
    } else {
        match parse_number(&v, ta, tb) {
            Some(n) => n,
            None => {
                return None;
            },
        }
    };
    let dash = match find_first(&v, ra, rb, '-') {
        Some(i) => i,
        None => {
            return None;
        },
    };
    assert(range.take(dash - ra) =~= v@.subrange(ra as int, dash as int));
    assert(range.skip(dash - ra + 1) =~= v@.subrange(dash + 1, rb as int));
    let (fa, fb) = trim_bounds(&v, ra, dash);
    let (la, lb) = trim_bounds(&v, dash + 1, rb);
    let first: u64 = match parse_number(&v, fa, fb) {
        Some(n) => n,
        None => {
            return None;
        },
    };
    let last: u64 = match parse_number(&v, la, lb) {
        Some(n) => n,
        None => {
            return None;
        },
    };
    if first > last {
        return None;
    }
    Some((first, last, total))
}

/// The total behind the last slash of a `Content-Range` value; `None` for `*` or no number.
pub open spec fn range_total(header: Seq<char>) -> Option<u64> {
    let slash = text::last_index(header, '/');
    if slash < 0 {
        None
    } else {
        text::parsed_number(text::trimmed(header.skip(slash + 1)))
    }
}

/// Reads the total behind the last slash of a `Content-Range` value.
pub fn parse_range_total(header: &str) -> (r: Option<u64>)
    ensures
        r == range_total(header@),
{
    let v: Vec<char> = chars_of(header);
    assert(v@.subrange(0, v@.len() as int) =~= header@);
    let slash = match find_last(&v, 0, v.len(), '/') {
        Some(i) => i,
        None => {
            return None;
        },
    };
    assert(header@.skip(slash + 1) =~= v@.subrange(slash + 1, v@.len() as int));
    let (a, b) = trim_bounds(&v, slash + 1, v.len());
    parse_number(&v, a, b)
}

/// Reads a whole header value as an unsigned number.
pub fn parse_length(header: &str) -> (r: Option<u64>)
    ensures
        r == text::parsed_number(header@),
{
    let v: Vec<char> = chars_of(header);
    assert(v@.subrange(0, v@.len() as int) =~= header@);
    parse_number(&v, 0, v.len())
}

/// A successful reply to a `HEAD` request: the header values that are readable text.
#[derive(Debug, Clone, PartialEq, Eq)]
pub struct HeadReply {
    pub content_length: Option<String>,
    pub accept_ranges: Option<String>,
}

/// A reply to a request for the first byte only (`bytes=0-0`).
#[derive(Debug, Clone, PartialEq, Eq)]
pub struct RangeReply {
    pub status: u16,
    pub content_range: Option<String>,
    pub content_length: Option<String>,
    /// The first byte of the reply's body, if the body has one.
    pub body_first: Option<u8>,
}

/// The number in an optional header value.
pub open spec fn number_in(header: Option<String>) -> Option<u64> {
    match header {
        Some(t) => text::parsed_number(t@),
        None => None,
    }
}

/// The total in an optional `Content-Range` value.
pub open spec fn total_in(header: Option<String>) -> Option<u64> {
    match header {
        Some(t) => range_total(t@),
        None => None,
    }
}

/// The total that a refused range tells, 0 where it tells none.
pub open spec fn unsatisfied_total(header: Option<String>) -> u64 {
    match header {
        Some(t) => match content_range(t@) {
            Some((_, _, total)) => total,
            None => 0,
        },
        None => 0,
    }
}

/// Whether an optional `Accept-Ranges` value offers byte ranges.
pub open spec fn offers_bytes(header: Option<String>) -> bool {
    header matches Some(t) && text::same_ignoring_case(t@, "bytes"@)
}

/// The file size that a `HEAD` reply tells.
pub open spec fn head_size(head: Option<HeadReply>) -> Option<u64> {
    match head {
        Some(h) => number_in(h.content_length),
        None => None,
    }
}

/// What a `HEAD` reply alone tells: the size and whether byte ranges are offered.
pub open spec fn head_info(head: Option<HeadReply>) -> Option<(u64, bool)> {
    match head_size(head) {
        Some(n) => Some((n, offers_bytes(head->0.accept_ranges))),
        None => None,
    }
}

/// The size that a partial reply stands for: the total of its `Content-Range`, else the size from
/// `HEAD`, else its own `Content-Length`.
pub open spec fn partial_size(head: Option<HeadReply>, r: RangeReply) -> Option<u64> {
    if total_in(r.content_range) is Some {
        total_in(r.content_range)
    } else if head_size(head) is Some {
        head_size(head)
    } else {
        number_in(r.content_length)
    }
}

/// A partial reply that tells the total is believed if it brought a byte, and that byte is the first
/// byte of the plain file wherever the plain file could be asked for it.
pub open spec fn believable(body_first: Option<u8>, plain_first: Option<u8>) -> bool {
    body_first is Some && (plain_first is Some ==> plain_first == body_first)
}

/// Size and range support of a file, from the replies to the probes; `None` where the size stays
/// unknown.
pub open spec fn file_info(
    head: Option<HeadReply>,
    range: Option<RangeReply>,
    plain_first: Option<u8>,
) -> Option<(u64, bool)> {
    match range {
        None => head_info(head),
        Some(r) => if !(200 <= r.status < 300) {
            if r.status == 416 && unsatisfied_total(r.content_range) != 0 {
                Some((unsatisfied_total(r.content_range), true))
            } else {
                head_info(head)
            }
        } else if r.status == 206 && partial_size(head, r) is Some {
            if total_in(r.content_range) is None || believable(r.body_first, plain_first) {
                Some((partial_size(head, r)->0, true))
            } else {
                None
            }
        } else if total_in(r.content_range) is Some {
            Some((total_in(r.content_range)->0, true))
        } else if head_size(head) is Some {
            head_info(head)
        } else {
            match number_in(r.content_length) {
                Some(n) => Some((n, false)),
                None => None,
            }
        },
    }
}

/// Reads the number in an optional header value.
pub(crate) fn read_number(header: &Option<String>) -> (r: Option<u64>)
    ensures
        r == number_in(*header),
{
    match header {
        Some(t) => parse_length(t.as_str()),
        None => None,
    }
}

/// Reads the total in an optional `Content-Range` value.
pub(crate) fn read_total(header: &Option<String>) -> (r: Option<u64>)
    ensures
        r == total_in(*header),
{
    match header {
        Some(t) => parse_range_total(t.as_str()),
        None => None,
    }
}

/// Whether an optional `Accept-Ranges` value is `bytes`, in whatever case.
pub(crate) fn read_offer(header: &Option<String>) -> (r: bool)
    ensures
        r == offers_bytes(*header),
{
    match header {
        Some(t) => {
            let v: Vec<char> = chars_of(t.as_str());
            assert(v@.subrange(0, v@.len() as int) =~= t@);
            equals_ignoring_case(&v, 0, v.len(), "bytes")
        },
        None => false,
    }
}

/// What a `HEAD` reply alone tells.
fn read_head(head: &Option<HeadReply>) -> (r: Option<(u64, bool)>)
    ensures
        r == head_info(*head),
{
    match head {
        Some(h) => match read_number(&h.content_length) {
            Some(n) => Some((n, read_offer(&h.accept_ranges))),
            None => None,
        },
        None => None,
    }
}

/// The size that a partial reply stands for.
fn read_partial(head: &Option<HeadReply>, r: &RangeReply) -> (n: Option<u64>)
    ensures
        n == partial_size(*head, *r),
{
    match read_total(&r.content_range) {
        Some(n) => Some(n),
        None => match read_head(head) {
            Some((n, _)) => Some(n),
            None => read_number(&r.content_length),
        },
    }
}

/// Whether the plain file must be asked for its first byte before the probes can be judged.
pub fn needs_cross_check(range: &Option<RangeReply>) -> (r: bool)
    ensures
        r == (*range matches Some(p) && p.status == 206 && p.body_first is Some && total_in(
            p.content_range,
        ) is Some),
        !r ==> forall|head: Option<HeadReply>, a: Option<u8>, b: Option<u8>|
            #[trigger] file_info(head, *range, a) == #[trigger] file_info(head, *range, b),
{
    match range {
        Some(p) => p.status == 206 && p.body_first.is_some() && read_total(
            &p.content_range,
        ).is_some(),
        None => false,
    }
}

/// Judges the replies to the probes: the file's size and whether the server serves byte ranges.
pub fn get_file_info(
    head: &Option<HeadReply>,
    range: &Option<RangeReply>,
    plain_first: Option<u8>,
) -> (r: Result<(u64, bool)>)
    ensures
        r == (match file_info(*head, *range, plain_first) {
            Some(v) => Ok::<(u64, bool), DownloadError>(v),
            None => Err(DownloadError::MissingContentLength),
        }),
{
    let from_head = read_head(head);
    let p = match range {
        Some(p) => p,
        None => {
            return from_head.ok_or(DownloadError::MissingContentLength);
        },
    };
    if p.status < 200 || p.status >= 300 {
        if p.status == 416 {
            if let Some(t) = &p.content_range {
                if let Some((_, _, total)) = parse_content_range(t.as_str()) {
                    if total != 0 {
                        return Ok((total, true));
                    }
                }
            }
        }
        return from_head.ok_or(DownloadError::MissingContentLength);
    }
    if p.status == 206 {
        if let Some(n) = read_partial(head, p) {
            if read_total(&p.content_range).is_none() {
                return Ok((n, true));
            }
            return match (p.body_first, plain_first) {
                (Some(b), Some(w)) => if b == w {
                    Ok((n, true))
                } else {
                    Err(DownloadError::MissingContentLength)
                },
                (Some(_), None) => Ok((n, true)),
                (None, _) => Err(DownloadError::MissingContentLength),
            };
        }
    }
    if let Some(n) = read_total(&p.content_range) {
        return Ok((n, true));
    }
    if from_head.is_some() {
        return from_head.ok_or(DownloadError::MissingContentLength);
    }
    match read_number(&p.content_length) {
        Some(n) => Ok((n, false)),
        None => Err(DownloadError::MissingContentLength),
    }
}

/// A server that answers the one-byte probe with a total and an empty partial body is never trusted
/// with ranges.
pub proof fn law_empty_partial_body_is_distrusted(
    head: Option<HeadReply>,
    r: RangeReply,
    plain_first: Option<u8>,
)
    requires
        r.status == 206,
        total_in(r.content_range) is Some,
        r.body_first is None,
    ensures
        file_info(head, Some(r), plain_first) is None,
{
}

/// A server that tells a total, and whose partial body disagrees with the plain file, is never trusted
/// with ranges.
pub proof fn law_incoherent_partial_body_is_distrusted(
    head: Option<HeadReply>,
    r: RangeReply,
    plain: u8,
)
    requires
        r.status == 206,
        total_in(r.content_range) is Some,
        r.body_first != Some(plain),
    ensures
        file_info(head, Some(r), Some(plain)) is None,
{
}

/// The usual notation of a satisfied range.
pub open spec fn range_notation(first: u64, last: u64, total: Seq<char>) -> Seq<char> {
    "bytes "@ + (text::digits(first as nat).push('-') + text::digits(last as nat)).push('/') + total
}

/// What stands behind `bytes ` is read from there, if it starts and ends without white space.
proof fn lemma_prefix(rest: Seq<char>)
    requires
        rest.len() > 0,
        !text::is_space(rest[0]),
        !text::is_space(rest.last()),
    ensures
        content_range("bytes "@ + rest) == content_range_rest(rest),
{
    reveal_strlit("bytes ");
    let h = "bytes "@ + rest;
    text::lemma_trim_nothing(h);
    text::lemma_trim_nothing(rest);
    assert(h.take(6) =~= "bytes "@);
    assert(h.skip(6) =~= rest);
}

/// `bytes <first>-<last>/<total>` reads as its three numbers.
pub proof fn law_content_range_round_trip(first: u64, last: u64, total: u64)
    requires
        first <= last,
    ensures
        content_range(range_notation(first, last, text::digits(total as nat))) == Some(
            (first, last, total),
        ),
{
    let a = text::digits(first as nat);
    let b = text::digits(last as nat);
    let t = text::digits(total as nat);
    text::lemma_digits(total as nat);
    text::law_number_round_trip(total);
    text::lemma_trim_nothing(t);
    lemma_range_rest(first, last, t);
    let rest = (a.push('-') + b).push('/') + t;
    text::lemma_digits(first as nat);
    assert(rest[0] == a[0]);
    lemma_prefix(rest);
    assert(range_notation(first, last, t) =~= "bytes "@ + rest);
    assert(t[0] != '*');
}

/// `bytes <first>-<last>/*` reads as its two numbers and 0.
pub proof fn law_content_range_unknown_total(first: u64, last: u64)
    requires
        first <= last,
    ensures
        content_range(range_notation(first, last, seq!['*'])) == Some((first, last, 0u64)),
{
    let a = text::digits(first as nat);
    let b = text::digits(last as nat);
    let t = seq!['*'];
    text::lemma_trim_nothing(t);
    lemma_range_rest(first, last, t);
    let rest = (a.push('-') + b).push('/') + t;
    text::lemma_digits(first as nat);
    assert(rest[0] == a[0]);
    lemma_prefix(rest);
    assert(range_notation(first, last, t) =~= "bytes "@ + rest);
}

/// `bytes */<total>` reads as the total alone.
pub proof fn law_content_range_unsatisfied(total: u64)
    ensures
        content_range("bytes "@ + (seq!['*'].push('/') + text::digits(total as nat))) == Some(
            (0u64, 0u64, total),
        ),
{
    let t = text::digits(total as nat);
    let rest = seq!['*'].push('/') + t;
    text::lemma_digits(total as nat);
    text::law_number_round_trip(total);
    text::lemma_trim_nothing(t);
    lemma_prefix(rest);
    text::lemma_last_index_at(seq!['*'], '/', t);
    text::lemma_trim_nothing(seq!['*']);
    assert(rest.take(1) =~= seq!['*']);
    assert(rest.skip(2) =~= t);
}

/// How the part behind `bytes ` falls into its three numbers.
proof fn lemma_range_rest(first: u64, last: u64, t: Seq<char>)
    requires
        first <= last,
        t == seq!['*'] || text::parsed_number(t) is Some && t.len() > 0 && t[0] != '*',
        text::trimmed(t) == t,
        forall|i: int| 0 <= i < t.len() ==> t[i] != '/',
    ensures
        content_range_rest(
            (text::digits(first as nat).push('-') + text::digits(last as nat)).push('/') + t,
        ) == Some(
            (
                first,
                last,
                if t == seq!['*'] {
                    0u64
                } else {
                    text::parsed_number(t)->0
                },
            ),
        ),
{
    let a = text::digits(first as nat);
    let b = text::digits(last as nat);
    let range = a.push('-') + b;
    let rest = range.push('/') + t;
    text::lemma_digits(first as nat);
    text::lemma_digits(last as nat);
    text::law_number_round_trip(first);
    text::law_number_round_trip(last);
    text::lemma_last_index_at(range, '/', t);
    text::lemma_first_index_at(a, '-', b);
    text::lemma_trim_nothing(range);
    text::lemma_trim_nothing(a);
    text::lemma_trim_nothing(b);
    assert(rest.take(range.len() as int) =~= range);
    assert(rest.skip(range.len() as int + 1) =~= t);
    assert(range.take(a.len() as int) =~= a);
    assert(range.skip(a.len() as int + 1) =~= b);
    assert(range[0] == a[0] && text::is_digit(a[0]));
}

/// The total behind a range is read from its usual notation; an unknown total is none.
pub proof fn law_range_total_round_trip(first: u64, last: u64, total: u64)
    ensures
        range_total(range_notation(first, last, text::digits(total as nat))) == Some(total),
        range_total(range_notation(first, last, seq!['*'])) is None,
{
    let front = "bytes "@ + (text::digits(first as nat).push('-') + text::digits(last as nat));
    let t = text::digits(total as nat);
    text::lemma_digits(total as nat);
    text::law_number_round_trip(total);
    text::lemma_trim_nothing(t);
    assert(forall|i: int| 0 <= i < t.len() ==> text::is_digit(#[trigger] t[i]));
    text::lemma_last_index_at(front, '/', t);
    assert(range_notation(first, last, t) =~= front.push('/') + t);
    assert((front.push('/') + t).skip(front.len() as int + 1) =~= t);
    let star = seq!['*'];
    text::lemma_trim_nothing(star);
    text::lemma_last_index_at(front, '/', star);
    assert(range_notation(first, last, star) =~= front.push('/') + star);
    assert((front.push('/') + star).skip(front.len() as int + 1) =~= star);
    assert(!text::is_digit(star[0]));
}

/// A `Content-Range` value that reads as two bytes and a total is made of the unit `bytes` in any
/// case, a range or a star, a slash, and a total or a star. A range is two numbers with a dash between
/// them, the first no larger than the second; a star reads as the byte 0 for a range, and as 0 for a
/// total.
pub proof fn law_content_ranges_have_their_form(header: Seq<char>, first: u64, last: u64, total: u64)
    requires
        content_range(header) == Some((first, last, total)),
    ensures
        ({
            let h = text::trimmed(header);
            let rest = text::trimmed(h.skip(6));
            &&& first <= last
            &&& h.len() >= 6 && text::same_ignoring_case(h.take(6), "bytes "@)
            &&& exists|range: Seq<char>, whole: Seq<char>|
                {
                    &&& rest == #[trigger] (range.push('/') + whole)
                    &&& forall|i: int| 0 <= i < whole.len() ==> #[trigger] whole[i] != '/'
                    &&& text::parsed_number(text::trimmed(whole)) == Some(total) || (text::trimmed(
                        whole,
                    ) == seq!['*'] && total == 0)
                    &&& (text::trimmed(range) == seq!['*'] && first == 0 && last == 0) || exists|
                        a: Seq<char>,
                        b: Seq<char>,
                    |
                        text::trimmed(range) == #[trigger] (a.push('-') + b) && text::parsed_number(
                            text::trimmed(a),
                        ) == Some(first) && text::parsed_number(text::trimmed(b)) == Some(last)
                }
        }),
{
    let rest = text::trimmed(text::trimmed(header).skip(6));
    text::law_the_last_place_is_the_last(rest, '/');
    let slash = text::last_index(rest, '/');
    let range = rest.take(slash);
    let whole = rest.skip(slash + 1);
    assert(rest =~= range.push('/') + whole);
    assert forall|i: int| 0 <= i < whole.len() implies #[trigger] whole[i] != '/' by {
        assert(rest[i + slash + 1] == whole[i]);
    }
    let r = text::trimmed(range);
    if r != seq!['*'] {
        text::law_the_first_place_is_the_first(r, '-');
        let dash = text::first_index(r, '-');
        assert(r =~= r.take(dash).push('-') + r.skip(dash + 1));
    }
}

/// A value that does not begin with the unit `bytes` and a space, in any case, is no `Content-Range`.
pub proof fn law_other_units_are_not_read(header: Seq<char>)
    requires
        text::trimmed(header).len() < 6 || !text::same_ignoring_case(
            text::trimmed(header).take(6),
            "bytes "@,
        ),
    ensures
        content_range(header) is None,
{
}

/// Byte ranges are said to be supported only on evidence: the probe was answered with a partial reply,
/// with a refusal that tells the size, or with a range that tells the size; or the `HEAD` reply offers
/// ranges of bytes.
pub proof fn law_range_support_needs_evidence(
    head: Option<HeadReply>,
    range: Option<RangeReply>,
    plain_first: Option<u8>,
    n: u64,
)
    requires
        file_info(head, range, plain_first) == Some((n, true)),
    ensures
        ({
            ||| range matches Some(r) && r.status == 206
            ||| range matches Some(r) && r.status == 416 && r.content_range is Some && (
            content_range(r.content_range->0@) matches Some((_, _, t)) && t == n && t != 0)
            ||| range matches Some(r) && 200 <= r.status < 300 && r.content_range is Some
                && range_total(r.content_range->0@) == Some(n)
            ||| head matches Some(h) && h.accept_ranges is Some && text::same_ignoring_case(
                h.accept_ranges->0@,
                "bytes"@,
            ) && h.content_length is Some && text::parsed_number(h.content_length->0@) == Some(n)
        }),
{
}

/// Where the probe succeeded without a partial reply and without a total, or was refused without one,
/// or was not answered, the `HEAD` reply decides: its size is the size, and ranges are supported
/// exactly if it offers them.
pub proof fn law_the_head_reply_decides_without_a_range(
    h: HeadReply,
    range: Option<RangeReply>,
    plain_first: Option<u8>,
    size: String,
    n: u64,
)
    requires
        h.content_length == Some(size),
        text::parsed_number(size@) == Some(n),
        range matches Some(r) ==> r.status != 206 && (r.content_range matches Some(t) ==> (
        if 200 <= r.status < 300 {
            range_total(t@) is None
        } else if r.status == 416 {
            content_range(t@) is None
        } else {
            true
        })),
    ensures
        file_info(Some(h), range, plain_first) == Some(
            (
                n,
                h.accept_ranges is Some && text::same_ignoring_case(
                    h.accept_ranges->0@,
                    "bytes"@,
                ),
            ),
        ),
{
}

/// A partial reply with a total tells size and support, wherever it brought the file's first byte or
/// that byte could not be compared; where it brought none, or another one, the size stays unknown. A
/// partial reply without a total shows support, and the size comes from the `HEAD` reply, or else from
/// its own length.
pub proof fn law_partial_replies_show_support(
    head: Option<HeadReply>,
    r: RangeReply,
    plain_first: Option<u8>,
)
    requires
        r.status == 206,
    ensures
        ({
            let info = file_info(head, Some(r), plain_first);
            let total = match r.content_range {
                Some(t) => range_total(t@),
                None => None,
            };
            let from_head = match head {
                Some(h) => match h.content_length {
                    Some(t) => text::parsed_number(t@),
                    None => None,
                },
                None => None,
            };
            let own = match r.content_length {
                Some(t) => text::parsed_number(t@),
                None => None,
            };
            &&& total matches Some(n) ==> (if r.body_first is None || (plain_first is Some
                && plain_first != r.body_first) {
                info is None
            } else {
                info == Some((n, true))
            })
            &&& total is None && from_head is Some ==> info == Some((from_head->0, true))
            &&& total is None && from_head is None && own is Some ==> info == Some((own->0, true))
            &&& total is None && from_head is None && own is None ==> info is None
        }),
{
}

/// A refusal with status 416 that tells a size shows that ranges are understood. A successful reply
/// that tells a total does too, though it is no partial one. Without any size in the replies there is
/// none.
pub proof fn law_other_replies_that_tell_the_size(
    head: Option<HeadReply>,
    r: RangeReply,
    plain_first: Option<u8>,
)
    requires
        r.status != 206,
    ensures
        ({
            let info = file_info(head, Some(r), plain_first);
            let good = 200 <= r.status < 300;
            let head_tells = head is Some && head->0.content_length is Some && text::parsed_number(
                head->0.content_length->0@,
            ) is Some;
            &&& r.status == 416 && r.content_range is Some && (content_range(
                r.content_range->0@,
            ) matches Some((_, _, t)) && t != 0) ==> info == Some(
                (
                    match content_range(r.content_range->0@) {
                        Some((_, _, t)) => t,
                        None => 0,
                    },
                    true,
                ),
            )
            &&& good && r.content_range is Some && range_total(r.content_range->0@) is Some
                ==> info == Some((range_total(r.content_range->0@)->0, true))
            &&& good && (r.content_range is None || range_total(r.content_range->0@) is None)
                && !head_tells ==> info == (match r.content_length {
                Some(t) => match text::parsed_number(t@) {
                    Some(n) => Some((n, false)),
                    None => None,
                },
                None => None,
            })
            &&& !good && r.status != 416 && !head_tells ==> info is None
        }),
{
}

/// The unit of a `Content-Range` value may be written in any case, and white space before it does not
/// count.
pub proof fn law_units_are_read_in_any_case(unit: Seq<char>, rest: Seq<char>)
    requires
        text::same_ignoring_case(unit, "bytes "@),
        rest.len() > 0,
        !text::is_space(rest[0]),
        !text::is_space(rest.last()),
    ensures
        content_range(unit + rest) == content_range("bytes "@ + rest),
        content_range(seq![' '] + (unit + rest)) == content_range(unit + rest),
{
    reveal_strlit("bytes ");
    lemma_prefix(rest);
    let h = unit + rest;
    assert(text::ascii_lower(unit[0]) == text::ascii_lower("bytes "@[0]));
    assert(h[0] == unit[0]);
    assert(!text::is_space(h[0]));
    text::lemma_trim_nothing(h);
    text::lemma_trim_nothing(rest);
    assert(h.take(6) =~= unit);
    assert(h.skip(6) =~= rest);
    let wide = seq![' '] + h;
    assert(wide.skip(1) =~= h);
    assert(text::is_space(wide[0]));
    reveal_with_fuel(text::trim_front, 2);
    assert(text::trim_front(wide) == text::trim_front(h));
}

} // verus!
