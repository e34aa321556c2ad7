//! Text helpers: decimal numbers, trimming, searching and joining, on sequences of characters.

use vstd::prelude::*;
use vstd::string::*;

verus! {

/// `String::push` appends one character to the end of the string.
pub assume_specification[ String::push ](s: &mut String, c: char)
    ensures
        final(s)@ == old(s)@.push(c),
;

/// The decimal digit for `d`, for `d` below ten.
pub open spec fn digit_char(d: nat) -> char {
    ((48 + d) as u8) as char
}

/// The usual decimal notation of `n`, without leading zeros.
pub open spec fn digits(n: nat) -> Seq<char>
    decreases n,
{
    if n < 10 {
        seq![digit_char(n)]
    } else {
        digits(n / 10).push(digit_char(n % 10))
    }
}

/// Appends the decimal notation of `n`.
pub fn push_number(s: &mut String, n: u64)
    ensures
        final(s)@ == old(s)@ + digits(n as nat),
    decreases n,
{
    if n >= 10 {
        push_number(s, n / 10);
    }
    let d: u8 = (n % 10) as u8;
    let c: char = (48u8 + d) as char;
    s.push(c);
    assert(s@ =~= old(s)@ + digits(n as nat));
}

/// Appends `tail`.
pub fn push_text(s: &mut String, tail: &str)
    ensures
        final(s)@ == old(s)@ + tail@,
{
    s.append(tail);
}

/// The characters of `s`, in order.
pub fn chars_of(s: &str) -> (r: Vec<char>)
    ensures
        r@ == s@,
{
    let mut out: Vec<char> = Vec::new();
    for c in it: s.chars()
        invariant
            it.seq() == s@,
            out@ == s@.take(it.index()),
    {
        out.push(c);
        assert(s@.take(it.index() + 1) =~= s@.take(it.index()).push(c));
    }
    assert(s@.take(s@.len() as int) =~= s@);
    out
}

/// The characters that count as white space: the `White_Space` property of Unicode.
pub open spec fn is_space(c: char) -> bool {
    let n = c as u32;
    9 <= n <= 13 || n == 0x20 || n == 0x85 || n == 0xA0 || n == 0x1680 || 0x2000 <= n <= 0x200A || n
        == 0x2028 || n == 0x2029 || n == 0x202F || n == 0x205F || n == 0x3000
}

/// Whether `c` is white space.
pub fn space(c: char) -> (r: bool)
    ensures
        r == is_space(c),
{
    let n: u32 = c as u32;
    (9 <= n && n <= 13) || n == 0x20 || n == 0x85 || n == 0xA0 || n == 0x1680 || (0x2000 <= n && n
        <= 0x200A) || n == 0x2028 || n == 0x2029 || n == 0x202F || n == 0x205F || n == 0x3000
}

/// `s` without the white space at its front.
pub open spec fn trim_front(s: Seq<char>) -> Seq<char>
    decreases s.len(),
{
    if s.len() > 0 && is_space(s[0]) {
        trim_front(s.skip(1))
    } else {
        s
    }
}

/// `s` without the white space at its back.
pub open spec fn trim_back(s: Seq<char>) -> Seq<char>
    decreases s.len(),
{
    if s.len() > 0 && is_space(s.last()) {
        trim_back(s.drop_last())
    } else {
        s
    }
}

/// `s` without the white space at its two ends.
pub open spec fn trimmed(s: Seq<char>) -> Seq<char> {
    trim_back(trim_front(s))
}

/// The bounds of what is left of `v[lo..hi]` after trimming.
pub fn trim_bounds(v: &Vec<char>, lo: usize, hi: usize) -> (r: (usize, usize))
    requires
        lo <= hi <= v@.len(),
    ensures
        lo <= r.0 <= r.1 <= hi,
        v@.subrange(r.0 as int, r.1 as int) == trimmed(v@.subrange(lo as int, hi as int)),
{
    let ghost whole = v@.subrange(lo as int, hi as int);
    let mut a: usize = lo;
    while a < hi && space(v[a])
        invariant
            lo <= a <= hi <= v@.len(),
            trim_front(v@.subrange(a as int, hi as int)) == trim_front(whole),
        decreases hi - a,
    {
        assert(v@.subrange(a as int, hi as int).skip(1) =~= v@.subrange(a + 1, hi as int));
        a = a + 1;
    }
    let ghost front = v@.subrange(a as int, hi as int);
    assert(front == trim_front(whole));
    let mut b: usize = hi;
    while b > a && space(v[b - 1])
        invariant
            lo <= a <= b <= hi <= v@.len(),
            trim_back(v@.subrange(a as int, b as int)) == trim_back(front),
        decreases b,
    {
        assert(v@.subrange(a as int, b as int).drop_last() =~= v@.subrange(a as int, b - 1));
        b = b - 1;
    }
    (a, b)
}

/// Whether `c` is one of the ten ASCII digits.
pub open spec fn is_digit(c: char) -> bool {
    '0' <= c && c <= '9'
}

/// The value of a run of digits, most significant first.
pub open spec fn number_value(s: Seq<char>) -> nat
    decreases s.len(),
{
    if s.len() == 0 {
        0
    } else {
        number_value(s.drop_last()) * 10 + ((s.last() as u32 - 48) as nat)
    }
}

/// What is left of a number after an optional leading plus sign.
pub open spec fn unsigned_part(s: Seq<char>) -> Seq<char> {
    if s.len() > 0 && s[0] == '+' {
        s.skip(1)
    } else {
        s
    }
}

/// An unsigned decimal number: an optional plus sign, then at least one digit and nothing else, with
/// a value of at most `u64::MAX`.
pub open spec fn parsed_number(s: Seq<char>) -> Option<u64> {
    let body = unsigned_part(s);
    if body.len() > 0 && (forall|i: int| 0 <= i < body.len() ==> is_digit(#[trigger] body[i]))
        && number_value(body) <= u64::MAX {
        Some(number_value(body) as u64)
    } else {
        None
    }
}

/// A longer run of digits has no smaller value.
proof fn lemma_value_grows(s: Seq<char>, n: int)
    requires
        0 <= n <= s.len(),
        forall|i: int| 0 <= i < s.len() ==> is_digit(#[trigger] s[i]),
    ensures
        number_value(s.take(n)) <= number_value(s),
    decreases s.len() - n,
{
    if n < s.len() {
        lemma_value_grows(s, n + 1);
        assert(s.take(n + 1).drop_last() =~= s.take(n));
    } else {
        assert(s.take(n) =~= s);
    }
}

/// Reads `v[lo..hi]` as an unsigned decimal number.
pub fn parse_number(v: &Vec<char>, lo: usize, hi: usize) -> (r: Option<u64>)
    requires
        lo <= hi <= v@.len(),
    ensures
        r == parsed_number(v@.subrange(lo as int, hi as int)),
{
    let ghost whole = v@.subrange(lo as int, hi as int);
    let ghost body = unsigned_part(whole);
    let mut a: usize = lo;
    if lo < hi && v[lo] == '+' {
        a = lo + 1;
        assert(whole.skip(1) =~= v@.subrange(a as int, hi as int));
    }
    assert(body =~= v@.subrange(a as int, hi as int));
    if a >= hi {
        return None;
    }
    let mut value: u64 = 0;
    let mut i: usize = a;
    while i < hi
        invariant
            lo <= a <= i <= hi <= v@.len(),
            a < hi,
            whole == v@.subrange(lo as int, hi as int),
            body == unsigned_part(whole),
            body == v@.subrange(a as int, hi as int),
            value == number_value(body.take(i - a)),
            forall|k: int| 0 <= k < i - a ==> is_digit(#[trigger] body[k]),
        decreases hi - i,
    {
        let c: char = v[i];
        assert(c == body[i - a]);
        if c < '0' || c > '9' {
            return None;
        }
        let d: u64 = (c as u32 - 48) as u64;
        assert(body.take(i - a + 1).drop_last() =~= body.take(i - a));
        if value > (u64::MAX - d) / 10 {
            proof {
                if forall|k: int| 0 <= k < body.len() ==> is_digit(#[trigger] body[k]) {
                    lemma_value_grows(body, i - a + 1);
                }
            }
            return None;
        }
        value = value * 10 + d;
        i = i + 1;
    }
    assert(body.take(hi - a) =~= body);
    Some(value)
}

/// The place of the last `c` in `s`, or -1.
pub open spec fn last_index(s: Seq<char>, c: char) -> int
    decreases s.len(),
{
    if s.len() == 0 {
        -1
    } else if s.last() == c {
        s.len() - 1
    } else {
        last_index(s.drop_last(), c)
    }
}

/// The place of the first `c` in `s`, or -1.
pub open spec fn first_index(s: Seq<char>, c: char) -> int
    decreases s.len(),
{
    if s.len() == 0 {
        -1
    } else if first_index(s.drop_last(), c) >= 0 {
        first_index(s.drop_last(), c)
    } else if s.last() == c {
        s.len() - 1
    } else {
        -1
    }
}

/// The index in `v` of the last `c` of `v[lo..hi]`.
pub fn find_last(v: &Vec<char>, lo: usize, hi: usize, c: char) -> (r: Option<usize>)
    requires
        lo <= hi <= v@.len(),
    ensures
        r matches Some(i) ==> lo <= i < hi && i - lo == last_index(
            v@.subrange(lo as int, hi as int),
            c,
        ),
        r is None ==> last_index(v@.subrange(lo as int, hi as int), c) < 0,
{
    let ghost whole = v@.subrange(lo as int, hi as int);
    let mut i: usize = hi;
    while i > lo
        invariant
            lo <= i <= hi <= v@.len(),
            whole == v@.subrange(lo as int, hi as int),
            last_index(whole, c) == last_index(v@.subrange(lo as int, i as int), c),
        decreases i,
    {
        if v[i - 1] == c {
            return Some(i - 1);
        }
        assert(v@.subrange(lo as int, i as int).drop_last() =~= v@.subrange(lo as int, i - 1));
        i = i - 1;
    }
    None
}

/// The index in `v` of the first `c` of `v[lo..hi]`.
pub fn find_first(v: &Vec<char>, lo: usize, hi: usize, c: char) -> (r: Option<usize>)
    requires
        lo <= hi <= v@.len(),
    ensures
        r matches Some(i) ==> lo <= i < hi && i - lo == first_index(
            v@.subrange(lo as int, hi as int),
            c,
        ),
        r is None ==> first_index(v@.subrange(lo as int, hi as int), c) < 0,
{
    let ghost whole = v@.subrange(lo as int, hi as int);
    let mut i: usize = lo;
    while i < hi
        invariant
            lo <= i <= hi <= v@.len(),
            whole == v@.subrange(lo as int, hi as int),
            first_index(whole.take(i - lo), c) < 0,
        decreases hi - i,
    {
        assert(whole.take(i - lo + 1).drop_last() =~= whole.take(i - lo));
        if v[i] == c {
            proof {
                lemma_first_index_stable(whole, i - lo + 1, c);
            }
            return Some(i);
        }
        i = i + 1;
    }
    assert(whole.take(hi - lo) =~= whole);
    None
}

/// A first occurrence within a prefix is the first occurrence in the whole.
proof fn lemma_first_index_stable(s: Seq<char>, n: int, c: char)
    requires
        0 <= n <= s.len(),
        first_index(s.take(n), c) >= 0,
    ensures
        first_index(s, c) == first_index(s.take(n), c),
    decreases s.len() - n,
{
    if n < s.len() {
        assert(s.take(n + 1).drop_last() =~= s.take(n));
        lemma_first_index_stable(s, n + 1, c);
    } else {
        assert(s.take(n) =~= s);
    }
}

/// `c` with an ASCII capital replaced by its small letter.
pub open spec fn ascii_lower(c: char) -> char {
    if 'A' <= c && c <= 'Z' {
        ((c as u32 + 32) as u8) as char
    } else {
        c
    }
}

/// The ASCII small letter of `c`.
pub fn lower(c: char) -> (r: char)
    ensures
        r == ascii_lower(c),
{
    if 'A' <= c && c <= 'Z' {
        ((c as u8) + 32u8) as char
    } else {
        c
    }
}

/// Two texts are equal but for the case of ASCII letters.
pub open spec fn same_ignoring_case(a: Seq<char>, b: Seq<char>) -> bool {
    a.len() == b.len() && forall|i: int|
        0 <= i < a.len() ==> ascii_lower(#[trigger] a[i]) == ascii_lower(b[i])
}

/// Whether `v[lo..hi]` equals `word` but for the case of ASCII letters.
pub fn equals_ignoring_case(v: &Vec<char>, lo: usize, hi: usize, word: &str) -> (r: bool)
    requires
        lo <= hi <= v@.len(),
    ensures
        r == same_ignoring_case(v@.subrange(lo as int, hi as int), word@),
{
    let ghost whole = v@.subrange(lo as int, hi as int);
    let w: Vec<char> = chars_of(word);
    if w.len() != hi - lo {
        return false;
    }
    let mut i: usize = 0;
    while i < w.len()
        invariant
            lo <= hi <= v@.len(),
            w@ == word@,
            w@.len() == hi - lo,
            i <= w@.len(),
            whole == v@.subrange(lo as int, hi as int),
            forall|k: int| 0 <= k < i ==> ascii_lower(#[trigger] whole[k]) == ascii_lower(w@[k]),
        decreases w.len() - i,
    {
        if lower(v[lo + i]) != lower(w[i]) {
            assert(ascii_lower(whole[i as int]) != ascii_lower(w@[i as int]));
            return false;
        }
        i = i + 1;
    }
    true
}

/// `needle` stands in `s` somewhere.
pub open spec fn has_part(s: Seq<char>, needle: Seq<char>) -> bool {
    exists|i: int|
        0 <= i && i + needle.len() <= s.len() && #[trigger] s.subrange(i, i + needle.len())
            == needle
}

/// Whether `needle` stands in `s` somewhere.
pub fn contains_text(s: &str, needle: &str) -> (r: bool)
    ensures
        r == has_part(s@, needle@),
{
    let v: Vec<char> = chars_of(s);
    let w: Vec<char> = chars_of(needle);
    if w.len() > v.len() {
        return false;
    }
    let mut i: usize = 0;
    while i <= v.len() - w.len()
        invariant
            v@ == s@,
            w@ == needle@,
            w@.len() <= v@.len(),
            i <= v@.len() - w@.len() + 1,
            forall|k: int|
                0 <= k < i ==> #[trigger] v@.subrange(k, k + w@.len()) != w@,
        decreases v.len() - w.len() + 1 - i,
    {
        let mut j: usize = 0;
        while j < w.len() && v[i + j] == w[j]
            invariant
                w@.len() <= v@.len(),
                i + w.len() <= v.len(),
                j <= w.len(),
                forall|k: int| 0 <= k < j ==> v@[i + k] == #[trigger] w@[k],
            decreases w.len() - j,
        {
            j = j + 1;
        }
        if j == w.len() {
            assert(v@.subrange(i as int, i + w@.len()) =~= w@);
            return true;
        }
        assert(v@.subrange(i as int, i + w@.len())[j as int] != w@[j as int]);
        i = i + 1;
    }
    assert forall|k: int|
        0 <= k && k + needle@.len() <= s@.len() implies #[trigger] s@.subrange(k, k + needle@.len())
        != needle@ by {
        assert(v@.subrange(k, k + w@.len()) != w@);
    }
    false
}

/// Decimal notation is made of digits only and has the number as its value.
pub proof fn lemma_digits(n: nat)
    ensures
        digits(n).len() > 0,
        forall|i: int| 0 <= i < digits(n).len() ==> is_digit(#[trigger] digits(n)[i]),
        number_value(digits(n)) == n,
    decreases n,
{
    let d = n % 10;
    assert(digit_char(d) as u32 == 48 + d);
    assert(digits(n).last() == digit_char(d));
    if n < 10 {
        assert(digits(n).drop_last() =~= Seq::<char>::empty());
        assert(number_value(Seq::<char>::empty()) == 0);
    } else {
        lemma_digits(n / 10);
        assert(digits(n).drop_last() =~= digits(n / 10));
    }
}

/// Reading back the decimal notation of a number gives the number.
pub proof fn law_number_round_trip(n: u64)
    ensures
        parsed_number(digits(n as nat)) == Some(n),
{
    lemma_digits(n as nat);
    assert(is_digit(digits(n as nat)[0]));
}

/// Different numbers have different decimal notations.
pub proof fn law_digits_injective(a: nat, b: nat)
    requires
        digits(a) == digits(b),
    ensures
        a == b,
{
    lemma_digits(a);
    lemma_digits(b);
}

/// A text with no white space at its ends is its own trimmed form.
pub proof fn lemma_trim_nothing(s: Seq<char>)
    requires
        s.len() > 0,
        !is_space(s[0]),
        !is_space(s.last()),
    ensures
        trimmed(s) == s,
{
}

/// The last `c` of a text is the one behind which none follows.
pub proof fn lemma_last_index_at(head: Seq<char>, c: char, tail: Seq<char>)
    requires
        forall|i: int| 0 <= i < tail.len() ==> tail[i] != c,
    ensures
        last_index(head.push(c) + tail, c) == head.len(),
    decreases tail.len(),
{
    let s = head.push(c) + tail;
    if tail.len() == 0 {
        assert(s =~= head.push(c));
    } else {
        assert(s.drop_last() =~= head.push(c) + tail.drop_last());
        lemma_last_index_at(head, c, tail.drop_last());
    }
}

/// The first `c` of a text is the one before which none stands.
pub proof fn lemma_first_index_at(head: Seq<char>, c: char, tail: Seq<char>)
    requires
        forall|i: int| 0 <= i < head.len() ==> head[i] != c,
    ensures
        first_index(head.push(c) + tail, c) == head.len(),
{
    let s = head.push(c) + tail;
    lemma_no_first(head, c);
    assert(s.take(head.len() as int + 1) =~= head.push(c));
    assert(head.push(c).drop_last() =~= head);
    lemma_first_index_stable(s, head.len() as int + 1, c);
}

/// A text without `c` has no first `c`.
proof fn lemma_no_first(s: Seq<char>, c: char)
    requires
        forall|i: int| 0 <= i < s.len() ==> s[i] != c,
    ensures
        first_index(s, c) < 0,
    decreases s.len(),
{
    if s.len() > 0 {
        lemma_no_first(s.drop_last(), c);
    }
}

/// Whether two texts are equal.
pub fn same_text(a: &str, b: &str) -> (r: bool)
    ensures
        r == (a@ == b@),
{
    let v: Vec<char> = chars_of(a);
    let w: Vec<char> = chars_of(b);
    if v.len() != w.len() {
        return false;
    }
    let mut i: usize = 0;
    while i < v.len()
        invariant
            v@ == a@,
            w@ == b@,
            v@.len() == w@.len(),
            i <= v@.len(),
            forall|k: int| 0 <= k < i ==> v@[k] == w@[k],
        decreases v.len() - i,
    {
        if v[i] != w[i] {
            return false;
        }
        i = i + 1;
    }
    assert(a@ =~= b@);
    true
}

/// A text contains another one exactly if it is that other one with something before and something
/// behind it.
pub proof fn law_parts_stand_between_two_ends(s: Seq<char>, needle: Seq<char>)
    ensures
        has_part(s, needle) <==> exists|a: Seq<char>, b: Seq<char>|
            s == #[trigger] (a + needle + b),
{
    if has_part(s, needle) {
        let i = choose|i: int|
            0 <= i && i + needle.len() <= s.len() && #[trigger] s.subrange(i, i + needle.len())
                == needle;
        assert(s =~= s.take(i) + needle + s.skip(i + needle.len()));
    }
    if exists|a: Seq<char>, b: Seq<char>| s == #[trigger] (a + needle + b) {
        let (a, b) = choose|a: Seq<char>, b: Seq<char>| s == #[trigger] (a + needle + b);
        let at = a.len() as int;
        assert(s.subrange(at, at + needle.len()) =~= needle);
    }
}

/// Digits with a value end with its decimal notation, and only zeros stand before that.
proof fn lemma_digits_of_value(b: Seq<char>)
    requires
        b.len() > 0,
        forall|i: int| 0 <= i < b.len() ==> is_digit(#[trigger] b[i]),
    ensures
        digits(number_value(b)).len() <= b.len(),
        b.skip(b.len() - digits(number_value(b)).len()) == digits(number_value(b)),
        forall|i: int|
            0 <= i < b.len() - digits(number_value(b)).len() ==> #[trigger] b[i] == '0',
    decreases b.len(),
{
    let front = b.drop_last();
    let d = (b.last() as u32 - 48) as nat;
    assert(is_digit(b[b.len() - 1]));
    assert(d < 10 && digit_char(d) == b.last());
    if front.len() == 0 {
        assert(number_value(front) == 0);
        assert(b.skip(0) =~= digits(d));
    } else {
        assert forall|i: int| 0 <= i < front.len() implies is_digit(#[trigger] front[i]) by {
            assert(front[i] == b[i]);
        }
        lemma_digits_of_value(front);
        let v = number_value(front);
        let k = front.len() - digits(v).len();
        assert forall|i: int| 0 <= i < k implies #[trigger] b[i] == '0' by {
            assert(front[i] == '0');
        }
        if v == 0 {
            assert(digits(0) =~= seq!['0']) by {
                assert(digit_char(0) == '0');
            }
            assert(front.skip(k)[0] == '0');
            assert(front[k] == '0');
            assert(digits(d) =~= seq![b.last()]);
            assert(b.skip(b.len() - 1) =~= digits(d));
        } else {
            assert(number_value(b) == v * 10 + d);
            assert((v * 10 + d) / 10 == v && (v * 10 + d) % 10 == d);
            assert(digits(number_value(b)) =~= digits(v).push(b.last()));
            assert(b.skip(k) =~= front.skip(k).push(b.last()));
        }
    }
}

/// Only a number reads as one: behind an optional plus sign stand zeros and then its usual decimal
/// notation, and nothing else.
pub proof fn law_only_numbers_are_read(s: Seq<char>, n: u64)
    requires
        parsed_number(s) == Some(n),
    ensures
        ({
            let b = if s.len() > 0 && s[0] == '+' {
                s.skip(1)
            } else {
                s
            };
            let d = digits(n as nat);
            &&& 0 < d.len() <= b.len()
            &&& b.skip(b.len() - d.len()) == d
            &&& forall|i: int| 0 <= i < b.len() - d.len() ==> #[trigger] b[i] == '0'
        }),
{
    lemma_digits_of_value(unsigned_part(s));
    lemma_digits(n as nat);
}

proof fn lemma_trim_front(s: Seq<char>)
    ensures
        trim_front(s).len() <= s.len(),
        s.skip(s.len() - trim_front(s).len()) == trim_front(s),
        trim_front(s).len() > 0 ==> !is_space(trim_front(s)[0]),
        forall|i: int| 0 <= i < s.len() - trim_front(s).len() ==> is_space(#[trigger] s[i]),
    decreases s.len(),
{
    if s.len() > 0 && is_space(s[0]) {
        lemma_trim_front(s.skip(1));
        let t = trim_front(s);
        assert(s.skip(s.len() - t.len()) =~= s.skip(1).skip(s.len() - 1 - t.len()));
        assert forall|i: int| 0 <= i < s.len() - t.len() implies is_space(#[trigger] s[i]) by {
            if i > 0 {
                assert(s.skip(1)[i - 1] == s[i]);
            }
        }
    } else {
        assert(s.skip(0) =~= s);
    }
}

proof fn lemma_trim_back(s: Seq<char>)
    ensures
        trim_back(s).len() <= s.len(),
        s.take(trim_back(s).len() as int) == trim_back(s),
        trim_back(s).len() > 0 ==> !is_space(trim_back(s).last()),
        forall|i: int| trim_back(s).len() <= i < s.len() ==> is_space(#[trigger] s[i]),
    decreases s.len(),
{
    if s.len() > 0 && is_space(s.last()) {
        lemma_trim_back(s.drop_last());
        let t = trim_back(s);
        assert(s.take(t.len() as int) =~= s.drop_last().take(t.len() as int));
        assert forall|i: int| t.len() <= i < s.len() implies is_space(#[trigger] s[i]) by {
            if i < s.len() - 1 {
                assert(s.drop_last()[i] == s[i]);
            }
        }
    } else {
        assert(s.take(s.len() as int) =~= s);
    }
}

/// Trimming takes away white space at the two ends, all of it, and nothing else.
pub proof fn law_trimming_takes_white_space_only(s: Seq<char>)
    ensures
        exists|a: int, b: int|
            {
                &&& 0 <= a <= b <= s.len()
                &&& #[trigger] s.subrange(a, b) == trimmed(s)
                &&& forall|i: int| 0 <= i < a || b <= i < s.len() ==> is_space(#[trigger] s[i])
            },
        trimmed(s).len() > 0 ==> !is_space(trimmed(s)[0]) && !is_space(trimmed(s).last()),
{
    lemma_trim_front(s);
    let f = trim_front(s);
    lemma_trim_back(f);
    let t = trim_back(f);
    let a = s.len() - f.len();
    let b = a + t.len();
    assert(s.subrange(a, b) =~= f.take(t.len() as int));
    assert forall|i: int| 0 <= i < a || b <= i < s.len() implies is_space(#[trigger] s[i]) by {
        if i >= b {
            assert(f[i - a] == s[i]);
        }
    }
}

/// The last place of a character is one where it stands, and it stands nowhere behind.
pub proof fn law_the_last_place_is_the_last(s: Seq<char>, c: char)
    ensures
        -1 <= last_index(s, c) < s.len(),
        last_index(s, c) >= 0 ==> s[last_index(s, c)] == c,
        forall|i: int| last_index(s, c) < i < s.len() ==> #[trigger] s[i] != c,
    decreases s.len(),
{
    if s.len() > 0 && s.last() != c {
        law_the_last_place_is_the_last(s.drop_last(), c);
        assert forall|i: int| last_index(s, c) < i < s.len() implies #[trigger] s[i] != c by {
            if i < s.len() - 1 {
                assert(s.drop_last()[i] == s[i]);
            }
        }
    }
}

/// The first place of a character is one where it stands, and it stands nowhere before.
pub proof fn law_the_first_place_is_the_first(s: Seq<char>, c: char)
    ensures
        -1 <= first_index(s, c) < s.len(),
        first_index(s, c) >= 0 ==> s[first_index(s, c)] == c,
        forall|i: int|
            0 <= i < s.len() && (first_index(s, c) < 0 || i < first_index(s, c)) ==> #[trigger] s[i]
                != c,
    decreases s.len(),
{
    if s.len() > 0 {
        law_the_first_place_is_the_first(s.drop_last(), c);
        assert forall|i: int|
            0 <= i < s.len() && (first_index(s, c) < 0 || i < first_index(
                s,
                c,
            )) implies #[trigger] s[i] != c by {
            if i < s.len() - 1 {
                assert(s.drop_last()[i] == s[i]);
            }
        }
    }
}

/// Texts that are equal but for case differ, if at all, in letters between `A` and `Z` that stand for
/// those between `a` and `z`.
pub proof fn law_only_case_is_ignored(a: Seq<char>, b: Seq<char>)
    ensures
        same_ignoring_case(a, b) <==> a.len() == b.len() && forall|i: int|
            0 <= i < a.len() ==> {
                ||| #[trigger] a[i] == b[i]
                ||| 'A' <= a[i] <= 'Z' && b[i] as u32 == a[i] as u32 + 32
                ||| 'A' <= b[i] <= 'Z' && a[i] as u32 == b[i] as u32 + 32
            },
{
    assert forall|i: int| 0 <= i < a.len() implies (ascii_lower(#[trigger] a[i]) == ascii_lower(
        b[i],
    ) <==> {
        ||| a[i] == b[i]
        ||| 'A' <= a[i] <= 'Z' && b[i] as u32 == a[i] as u32 + 32
        ||| 'A' <= b[i] <= 'Z' && a[i] as u32 == b[i] as u32 + 32
    }) by {
        lemma_lower(a[i], b[i]);
    }
}

proof fn lemma_lower(x: char, y: char)
    ensures
        ascii_lower(x) == ascii_lower(y) <==> {
            ||| x == y
            ||| 'A' <= x <= 'Z' && y as u32 == x as u32 + 32
            ||| 'A' <= y <= 'Z' && x as u32 == y as u32 + 32
        },
{
}

/// White space is what separates words: the blank, the tab and the ends of lines. No letter, digit or
/// sign of ASCII is.
pub proof fn law_signs_are_no_white_space(c: char)
    ensures
        c == ' ' || 9 <= c as u32 <= 13 ==> is_space(c),
        0x21 <= c as u32 <= 0x7e ==> !is_space(c),
        (c as u32) < 9 || 13 < (c as u32) < 0x20 ==> !is_space(c),
        c as u32 == 0x85 || c as u32 == 0xa0 || c as u32 == 0x3000 ==> is_space(c),
        0x2000 <= c as u32 <= 0x200a || c as u32 == 0x2028 || c as u32 == 0x2029 ==> is_space(c),
        0xa1 <= (c as u32) < 0x1680 || (c as u32) > 0x3000 ==> !is_space(c),
{
}

} // verus!
