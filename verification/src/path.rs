//! Paths as text, with `/` between components: parents, file names and new names beside a file.

use crate::text;
use crate::text::{chars_of, push_number, push_text};
use vstd::prelude::*;

verus! {

/// A text in lower case, as `str::to_lowercase` gives it.
pub uninterp spec fn lowered(t: Seq<char>) -> Seq<char>;

/// Calls `str::to_lowercase`. Claimed: the result depends on the text alone.
#[verifier::external_body]
fn lower_case(t: &str) -> (r: String)
    ensures
        r@ == lowered(t@),
{
    t.to_lowercase()
}

/// By which text a path is compared: itself, or in lower case where the file system does not tell upper
/// from lower case.
pub open spec fn key_of(fold_case: bool, p: Seq<char>) -> Seq<char> {
    if fold_case {
        lowered(p)
    } else {
        p
    }
}

/// The text by which a path is compared.
pub fn path_key(path: &str, fold_case: bool) -> (r: String)
    ensures
        r@ == key_of(fold_case, path@),
{
    if fold_case {
        lower_case(path)
    } else {
        path.to_owned()
    }
}

/// A path without the separators and `.` components at its end. The root `/` and a leading `.` stay.
pub open spec fn stripped(p: Seq<char>) -> Seq<char>
    decreases p.len(),
{
    if p.len() > 1 && p.last() == '/' {
        stripped(p.drop_last())
    } else if p.len() > 1 && p.last() == '.' && p[p.len() - 2] == '/' {
        stripped(p.drop_last())
    } else {
        p
    }
}

/// Where the last component of a path without a trailing separator starts.
pub open spec fn name_start(p: Seq<char>) -> int {
    text::last_index(p, '/') + 1
}

/// The last component of a path, unless it is `.`, `..` or the root.
pub open spec fn file_name(p: Seq<char>) -> Option<Seq<char>> {
    let q = stripped(p);
    let n = q.skip(name_start(q));
    if n.len() == 0 || n == seq!['.'] || n == seq!['.', '.'] {
        None
    } else {
        Some(n)
    }
}

/// The path without its last component; `None` for the root and the empty path.
pub open spec fn parent(p: Seq<char>) -> Option<Seq<char>> {
    let q = stripped(p);
    if q.len() == 0 || q == seq!['/'] {
        None
    } else if name_start(q) == 0 {
        Some(Seq::empty())
    } else {
        Some(stripped(q.take(name_start(q))))
    }
}

/// The path of `name` within the directory `dir`.
pub open spec fn beneath(dir: Seq<char>, name: Seq<char>) -> Seq<char> {
    if dir.len() == 0 || dir.last() == '/' {
        dir + name
    } else {
        dir.push('/') + name
    }
}

/// The path with its file name replaced; where it has none, `name` is put beneath it.
pub open spec fn renamed(p: Seq<char>, name: Seq<char>) -> Seq<char> {
    if file_name(p) is Some {
        beneath(parent(p)->0, name)
    } else {
        beneath(p, name)
    }
}

/// Where the extension of a file name starts: the place of its last dot, or the name's length if it
/// has none but at its front.
pub open spec fn stem_len(name: Seq<char>) -> int {
    if text::last_index(name, '.') <= 0 {
        name.len() as int
    } else {
        text::last_index(name, '.')
    }
}

/// The path with its extension replaced by `ext`; unchanged where it has no file name.
pub open spec fn with_new_extension(p: Seq<char>, ext: Seq<char>) -> Seq<char> {
    let q = stripped(p);
    match file_name(p) {
        Some(n) => q.take(name_start(q) + stem_len(n)).push('.') + ext,
        None => p,
    }
}

/// A file name with `(n)` put before its extension.
pub open spec fn numbered(name: Seq<char>, n: u64) -> Seq<char> {
    let k = stem_len(name);
    let mark = "("@ + text::digits(n as nat) + ")"@;
    if k + 1 >= name.len() {
        name.take(k) + mark
    } else {
        name.take(k) + mark + name.skip(k)
    }
}

/// The path of a numbered sibling: its file name, or `file` where it has none, with `(n)` put before
/// the extension, in the same directory.
pub open spec fn numbered_sibling(p: Seq<char>, n: u64) -> Seq<char> {
    let name = match file_name(p) {
        Some(f) => f,
        None => "file"@,
    };
    match parent(p) {
        Some(d) => beneath(d, numbered(name, n)),
        None => numbered(name, n),
    }
}

/// `stripped` takes characters from the end only.
pub proof fn lemma_stripped(p: Seq<char>)
    ensures
        stripped(p).len() <= p.len(),
        stripped(p) == p.take(stripped(p).len() as int),
    decreases p.len(),
{
    if p.len() > 1 && (p.last() == '/' || p.last() == '.' && p[p.len() - 2] == '/') {
        lemma_stripped(p.drop_last());
        let k = stripped(p.drop_last()).len() as int;
        assert(p.drop_last().take(k) =~= p.take(k));
    } else {
        assert(p.take(p.len() as int) =~= p);
    }
}

/// `last_index` stays within the text.
pub proof fn lemma_last_index_range(s: Seq<char>, c: char)
    ensures
        -1 <= text::last_index(s, c) < s.len(),
    decreases s.len(),
{
    if s.len() > 0 {
        lemma_last_index_range(s.drop_last(), c);
    }
}

/// The length of `v[..hi]` after stripping.
fn strip_len(v: &Vec<char>, hi: usize) -> (r: usize)
    requires
        hi <= v@.len(),
    ensures
        r <= hi,
        v@.take(r as int) == stripped(v@.take(hi as int)),
{
    let mut n: usize = hi;
    let ghost whole = v@.take(hi as int);
    while n > 1 && (v[n - 1] == '/' || (v[n - 1] == '.' && v[n - 2] == '/'))
        invariant
            n <= hi <= v@.len(),
            stripped(v@.take(n as int)) == stripped(whole),
        decreases n,
    {
        assert(v@.take(n as int).drop_last() =~= v@.take(n - 1));
        n = n - 1;
    }
    n
}

/// Where the last component of `v[..hi]` starts.
fn find_name(v: &Vec<char>, hi: usize) -> (r: usize)
    requires
        hi <= v@.len(),
    ensures
        r <= hi,
        r == name_start(v@.take(hi as int)),
{
    assert(v@.subrange(0, hi as int) =~= v@.take(hi as int));
    match text::find_last(v, 0, hi, '/') {
        Some(i) => i + 1,
        None => {
            proof {
                lemma_last_index_range(v@.take(hi as int), '/');
            }
            0
        },
    }
}

/// The text of `v[lo..hi]`.
fn text_between(v: &Vec<char>, lo: usize, hi: usize) -> (r: String)
    requires
        lo <= hi <= v@.len(),
    ensures
        r@ == v@.subrange(lo as int, hi as int),
{
    let mut out: String = String::new();
    let mut i: usize = lo;
    while i < hi
        invariant
            lo <= i <= hi <= v@.len(),
            out@ == v@.subrange(lo as int, i as int),
        decreases hi - i,
    {
        out.push(v[i]);
        assert(v@.subrange(lo as int, i + 1) =~= v@.subrange(lo as int, i as int).push(v@[i as int]));
        i = i + 1;
    }
    out
}

/// The bounds of the file name in the path `v`.
fn name_bounds(v: &Vec<char>) -> (r: Option<(usize, usize)>)
    ensures
        match r {
            Some((lo, hi)) => {
                &&& lo <= hi <= v@.len()
                &&& v@.take(hi as int) == stripped(v@)
                &&& lo == name_start(stripped(v@))
                &&& file_name(v@) == Some(v@.subrange(lo as int, hi as int))
            },
            None => file_name(v@) is None,
        },
{
    assert(v@.take(v@.len() as int) =~= v@);
    let hi: usize = strip_len(v, v.len());
    let lo: usize = find_name(v, hi);
    let ghost q = stripped(v@);
    let ghost n = q.skip(lo as int);
    assert(n =~= v@.subrange(lo as int, hi as int));
    if lo == hi {
        return None;
    }
    if hi - lo == 1 && v[lo] == '.' {
        assert(n =~= seq!['.']);
        return None;
    }
    if hi - lo == 2 && v[lo] == '.' && v[lo + 1] == '.' {
        assert(n =~= seq!['.', '.']);
        return None;
    }
    proof {
        if n == seq!['.'] {
            assert(n[0] == v@[lo as int]);
        }
        if n == seq!['.', '.'] {
            assert(n[0] == v@[lo as int] && n[1] == v@[lo + 1]);
        }
    }
    Some((lo, hi))
}

/// The length of the parent of the path `v`.
fn parent_len(v: &Vec<char>) -> (r: Option<usize>)
    ensures
        match r {
            Some(k) => k <= v@.len() && parent(v@) == Some(v@.take(k as int)),
            None => parent(v@) is None,
        },
{
    assert(v@.take(v@.len() as int) =~= v@);
    let hi: usize = strip_len(v, v.len());
    let ghost q = stripped(v@);
    if hi == 0 {
        return None;
    }
    if hi == 1 && v[0] == '/' {
        assert(q =~= seq!['/']);
        return None;
    }
    assert(q != seq!['/']) by {
        if q == seq!['/'] {
            assert(q[0] == v@[0]);
        }
    }
    let lo: usize = find_name(v, hi);
    if lo == 0 {
        assert(v@.take(0) =~= Seq::<char>::empty());
        return Some(0);
    }
    assert(q.take(lo as int) =~= v@.take(lo as int));
    Some(strip_len(v, lo))
}

/// Appends `name` beneath the directory that `out` holds.
fn push_beneath(out: &mut String, dir: &Vec<char>, k: usize, name: &str)
    requires
        k <= dir@.len(),
        old(out)@ == dir@.take(k as int),
    ensures
        final(out)@ == beneath(dir@.take(k as int), name@),
{
    if k > 0 && dir[k - 1] != '/' {
        out.push('/');
    }
    push_text(out, name);
    assert(k > 0 ==> dir@.take(k as int).last() == dir@[k - 1]);
}

/// Puts `name` in place of the path's file name.
pub fn with_file_name(path: &str, name: &str) -> (r: String)
    ensures
        r@ == renamed(path@, name@),
{
    let v: Vec<char> = chars_of(path);
    let whole: usize = v.len();
    assert(v@.take(v@.len() as int) =~= v@);
    let k: usize = match name_bounds(&v) {
        Some(_) => match parent_len(&v) {
            Some(k) => k,
            None => {
                proof {
                    reveal_with_fuel(text::last_index, 2);
                    assert(stripped(v@) == seq!['/'] || stripped(v@).len() == 0);
                    assert(seq!['/'].last() == '/');
                    assert(stripped(v@).skip(name_start(stripped(v@))).len() == 0);
                }
                0
            },
        },
        None => whole,
    };
    let mut out: String = text_between(&v, 0, k);
    assert(v@.subrange(0, k as int) =~= v@.take(k as int));
    push_beneath(&mut out, &v, k, name);
    out
}

/// The file name of a path.
pub fn file_name_of(path: &str) -> (r: Option<String>)
    ensures
        match r {
            Some(n) => file_name(path@) == Some(n@),
            None => file_name(path@) is None,
        },
{
    let v: Vec<char> = chars_of(path);
    match name_bounds(&v) {
        Some((lo, hi)) => Some(text_between(&v, lo, hi)),
        None => None,
    }
}

/// Puts `ext` in place of the extension of the path's file name.
pub fn with_extension(path: &str, ext: &str) -> (r: String)
    ensures
        r@ == with_new_extension(path@, ext@),
{
    let v: Vec<char> = chars_of(path);
    match name_bounds(&v) {
        Some((lo, hi)) => {
            let ghost q = stripped(v@);
            let ghost n = v@.subrange(lo as int, hi as int);
            let end: usize = match text::find_last(&v, lo, hi, '.') {
                Some(i) => if i == lo {
                    hi
                } else {
                    i
                },
                None => hi,
            };
            assert(end - lo == stem_len(n));
            let mut out: String = text_between(&v, 0, end);
            assert(v@.subrange(0, end as int) =~= q.take(end as int));
            out.push('.');
            push_text(&mut out, ext);
            out
        },
        None => path.to_owned(),
    }
}

/// Puts `(n)` before the extension of a file name.
pub fn numbered_name(name: &str, n: u64) -> (r: String)
    ensures
        r@ == numbered(name@, n),
{
    let v: Vec<char> = chars_of(name);
    assert(v@.subrange(0, v@.len() as int) =~= name@);
    let k: usize = match text::find_last(&v, 0, v.len(), '.') {
        Some(i) => if i == 0 {
            v.len()
        } else {
            i
        },
        None => v.len(),
    };
    assert(k == stem_len(name@));
    let mut out: String = text_between(&v, 0, k);
    push_text(&mut out, "(");
    push_number(&mut out, n);
    push_text(&mut out, ")");
    if v.len() - k > 1 {
        let tail: String = text_between(&v, k, v.len());
        push_text(&mut out, tail.as_str());
        assert(v@.subrange(k as int, v@.len() as int) =~= name@.skip(k as int));
    }
    assert(v@.subrange(0, k as int) =~= name@.take(k as int));
    assert(out@ =~= numbered(name@, n));
    out
}

/// The path of the numbered sibling of `path`.
pub fn with_suffix(path: &str, n: u64) -> (r: String)
    ensures
        r@ == numbered_sibling(path@, n),
{
    let v: Vec<char> = chars_of(path);
    let name: String = match file_name_of(path) {
        Some(f) => f,
        None => "file".to_owned(),
    };
    let new_name: String = numbered_name(name.as_str(), n);
    match parent_len(&v) {
        Some(k) => {
            let mut out: String = text_between(&v, 0, k);
            assert(v@.subrange(0, k as int) =~= v@.take(k as int));
            push_beneath(&mut out, &v, k, new_name.as_str());
            out
        },
        None => new_name,
    }
}

/// Siblings with different numbers have different paths, so that trying one number after another
/// never tries the same path twice.
pub proof fn law_numbered_siblings_differ(p: Seq<char>, n: u64, m: u64)
    requires
        numbered_sibling(p, n) == numbered_sibling(p, m),
    ensures
        n == m,
{
    let name = match file_name(p) {
        Some(f) => f,
        None => "file"@,
    };
    let a = numbered(name, n);
    let b = numbered(name, m);
    match parent(p) {
        Some(d) => {
            let k = beneath(d, a).len() - a.len();
            assert(beneath(d, a).skip(k) =~= a);
            assert(beneath(d, b).skip(k) =~= b);
        },
        None => {},
    }
    assert(a == b);
    let k = stem_len(name);
    lemma_last_index_range(name, '.');
    reveal_strlit("(");
    reveal_strlit(")");
    let x = text::digits(n as nat);
    let y = text::digits(m as nat);
    assert(a.len() - x.len() == b.len() - y.len());
    assert(a.subrange(k + 1, k + 1 + x.len()) =~= x);
    assert(b.subrange(k + 1, k + 1 + y.len()) =~= y);
    text::law_digits_injective(n as nat, m as nat);
}

/// A name of a file, as it can stand behind a directory: not empty, without a separator, and neither
/// `.` nor `..`.
pub open spec fn plain_name(name: Seq<char>) -> bool {
    &&& name.len() > 0
    &&& name != seq!['.']
    &&& name != seq!['.', '.']
    &&& forall|i: int| 0 <= i < name.len() ==> #[trigger] name[i] != '/'
}

/// The last component of a path is its file name, and what stands before it is its directory.
pub proof fn law_names_stand_behind_the_last_separator(dir: Seq<char>, name: Seq<char>)
    requires
        plain_name(name),
    ensures
        file_name(dir.push('/') + name) == Some(name),
        parent(dir.push('/') + name) == Some(stripped(dir.push('/'))),
        file_name(name) == Some(name),
        parent(name) == Some(Seq::<char>::empty()),
{
    let p = dir.push('/') + name;
    lemma_own_strip(dir, name);
    text::lemma_last_index_at(dir, '/', name);
    assert(p.skip(dir.len() as int + 1) =~= name);
    assert(p.take(dir.len() as int + 1) =~= dir.push('/'));
    assert(p != seq!['/']) by {
        if p == seq!['/'] {
            assert(p.len() == 1);
        }
    }
    text::law_the_last_place_is_the_last(name, '/');
    assert(name.skip(0) =~= name);
    assert(name != seq!['/']) by {
        assert(name[0] != '/');
    }
}

proof fn lemma_own_strip(dir: Seq<char>, name: Seq<char>)
    requires
        plain_name(name),
    ensures
        stripped(dir.push('/') + name) == dir.push('/') + name,
        stripped(name) == name,
{
    let p = dir.push('/') + name;
    let n = name.len() as int;
    assert(name[n - 1] != '/');
    assert(p.last() == name[n - 1]);
    if name[n - 1] == '.' {
        if n == 1 {
            assert(name =~= seq!['.']);
        } else {
            assert(name[n - 2] != '/');
            assert(p[p.len() - 2] == name[n - 2]);
        }
    } else if p.len() > 1 {
    }
}

/// A numbered name has its number before its extension: `name.ext` becomes `name(n).ext`. A name
/// without an extension has it at its end, and a leading dot begins no extension.
pub proof fn law_numbers_stand_before_the_extension(stem: Seq<char>, ext: Seq<char>, n: u64)
    requires
        stem.len() > 0,
        forall|i: int| 0 <= i < ext.len() ==> #[trigger] ext[i] != '.',
    ensures
        ext.len() > 0 ==> numbered(stem.push('.') + ext, n) == stem + "("@ + text::digits(n as nat)
            + ")."@ + ext,
        (forall|i: int| 0 < i < stem.len() ==> #[trigger] stem[i] != '.') ==> numbered(stem, n)
            == stem + "("@ + text::digits(n as nat) + ")"@,
{
    reveal_strlit("(");
    reveal_strlit(")");
    reveal_strlit(").");
    let mark = "("@ + text::digits(n as nat) + ")"@;
    if ext.len() > 0 {
        let name = stem.push('.') + ext;
        text::lemma_last_index_at(stem, '.', ext);
        assert(name.take(stem.len() as int) =~= stem);
        assert(numbered(name, n) =~= stem + mark + name.skip(stem.len() as int));
        assert(numbered(name, n) =~= stem + "("@ + text::digits(n as nat) + ")."@ + ext);
    }
    if forall|i: int| 0 < i < stem.len() ==> #[trigger] stem[i] != '.' {
        text::law_the_last_place_is_the_last(stem, '.');
        assert(text::last_index(stem, '.') <= 0);
        assert(stem.take(stem.len() as int) =~= stem);
        assert(numbered(stem, n) =~= stem + "("@ + text::digits(n as nat) + ")"@);
    }
}

/// A numbered sibling stands in the same directory, under the numbered name.
pub proof fn law_siblings_share_their_directory(dir: Seq<char>, name: Seq<char>, n: u64)
    requires
        plain_name(name),
        dir.len() > 0,
        dir.last() != '/',
        stripped(dir) == dir,
    ensures
        numbered_sibling(dir.push('/') + name, n) == dir.push('/') + numbered(name, n),
        numbered_sibling(name, n) == numbered(name, n),
{
    law_names_stand_behind_the_last_separator(dir, name);
    assert(dir.push('/').drop_last() =~= dir);
    assert(stripped(dir.push('/')) == dir);
    assert(numbered_sibling(name, n) =~= numbered(name, n));
}

/// A path with another file name stands in the same directory.
pub proof fn law_renaming_keeps_the_directory(dir: Seq<char>, name: Seq<char>, new: Seq<char>)
    requires
        plain_name(name),
        dir.len() > 0,
        dir.last() != '/',
        stripped(dir) == dir,
    ensures
        renamed(dir.push('/') + name, new) == dir.push('/') + new,
        renamed(name, new) == new,
{
    law_names_stand_behind_the_last_separator(dir, name);
    assert(dir.push('/').drop_last() =~= dir);
    assert(stripped(dir.push('/')) == dir);
    assert(renamed(name, new) =~= new);
}

/// A new extension takes the place of the old one, behind the same directory and stem; where there was
/// none, it is put behind the name.
pub proof fn law_extensions_are_replaced(
    dir: Seq<char>,
    stem: Seq<char>,
    old_ext: Seq<char>,
    ext: Seq<char>,
)
    requires
        plain_name(stem),
        forall|i: int| 0 <= i < old_ext.len() ==> #[trigger] old_ext[i] != '.' && old_ext[i] != '/',
        stem.len() > 1 || stem[0] != '.',
    ensures
        with_new_extension(dir.push('/') + (stem.push('.') + old_ext), ext) == dir.push('/')
            + stem.push('.') + ext,
{
    let name = stem.push('.') + old_ext;
    let p = dir.push('/') + name;
    assert forall|i: int| 0 <= i < name.len() implies #[trigger] name[i] != '/' by {
        if i < stem.len() {
            assert(name[i] == stem[i]);
        } else if i > stem.len() {
            assert(name[i] == old_ext[i - stem.len() - 1]);
        }
    }
    assert(name.len() >= 2);
    if name == seq!['.', '.'] {
        assert(name[0] == stem[0]);
        assert(stem.len() == 1);
        assert(false);
    }
    assert(plain_name(name));
    law_names_stand_behind_the_last_separator(dir, name);
    lemma_own_strip(dir, name);
    text::lemma_last_index_at(dir, '/', name);
    text::lemma_last_index_at(stem, '.', old_ext);
    assert(p.take(dir.len() as int + 1 + stem.len()) =~= dir.push('/') + stem);
    assert(with_new_extension(p, ext) =~= dir.push('/') + stem.push('.') + ext);
}

/// Separators and `.` components at the end of a path do not count.
pub proof fn law_trailing_separators_do_not_count(p: Seq<char>)
    requires
        p.len() > 0,
    ensures
        stripped(p.push('/')) == stripped(p),
        stripped(p.push('/').push('.')) == stripped(p),
        file_name(p.push('/')) == file_name(p),
        parent(p.push('/')) == parent(p),
{
    let a = p.push('/');
    let b = a.push('.');
    assert(a.drop_last() =~= p);
    assert(b.drop_last() =~= a);
    assert(b[b.len() - 2] == '/');
    assert(stripped(a) == stripped(p));
    assert(stripped(b) == stripped(a));
}

/// A name that ends with a dot has no extension: its number takes the place of the dot.
pub proof fn law_a_dot_at_the_end_begins_no_extension(stem: Seq<char>, n: u64)
    requires
        stem.len() > 0,
    ensures
        numbered(stem.push('.'), n) == stem + "("@ + text::digits(n as nat) + ")"@,
{
    let name = stem.push('.');
    let none = Seq::<char>::empty();
    text::lemma_last_index_at(stem, '.', none);
    assert(name + none =~= name);
    assert(name.take(stem.len() as int) =~= stem);
    assert(numbered(name, n) =~= stem + "("@ + text::digits(n as nat) + ")"@);
}

} // verus!
