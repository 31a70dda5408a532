//! Character classes and small operations on character sequences.
//!
//! Strings are reasoned about through their view, a `Seq<char>`. The
//! executable helpers work on a `Vec<char>` copy of a string, so that a
//! position is a character index everywhere.

use vstd::prelude::*;
use vstd::string::*;
use vstd::utf8::{encode_utf8, valid_utf8};

verus! {

/// Whether `c` has the Unicode `White_Space` property.
pub uninterp spec fn unicode_white_space(c: char) -> bool;

/// Whether `c` is in the Unicode general category `Cc` (control codes).
pub uninterp spec fn unicode_control(c: char) -> bool;

/// `char::is_whitespace` is taken at its word: it reports the `White_Space`
/// property of `c`, whatever the Unicode tables of the standard library hold.
pub assume_specification[ char::is_whitespace ](c: char) -> (r: bool)
    ensures
        r == unicode_white_space(c),
;

/// `char::is_control` is taken at its word: it reports whether `c` is a
/// control code, whatever the Unicode tables of the standard library hold.
pub assume_specification[ char::is_control ](c: char) -> (r: bool)
    ensures
        r == unicode_control(c),
;

/// ASCII letters and digits.
pub open spec fn ascii_alphanumeric(c: char) -> bool {
    ('0' <= c && c <= '9') || ('A' <= c && c <= 'Z') || ('a' <= c && c <= 'z')
}

/// Printable ASCII other than the space: `!` to `~`.
pub open spec fn ascii_graphic(c: char) -> bool {
    '!' <= c && c <= '~'
}

pub fn is_ascii_alphanumeric(c: char) -> (r: bool)
    ensures
        r == ascii_alphanumeric(c),
{
    ('0' <= c && c <= '9') || ('A' <= c && c <= 'Z') || ('a' <= c && c <= 'z')
}

pub fn is_ascii_graphic(c: char) -> (r: bool)
    ensures
        r == ascii_graphic(c),
{
    '!' <= c && c <= '~'
}

/// The position of the first `c` in `s`, or `s.len()` where `s` holds none.
pub open spec fn first_index<T>(s: Seq<T>, c: T) -> int
    decreases s.len(),
{
    if s.len() == 0 {
        0
    } else if s[0] == c {
        0
    } else {
        1 + first_index(s.skip(1), c)
    }
}

/// The pieces of `s` between the occurrences of `sep`. There is always at
/// least one piece; pieces may be empty.
pub open spec fn split(s: Seq<char>, sep: char) -> Seq<Seq<char>>
    decreases s.len(),
{
    let i = first_index(s, sep);
    if 0 <= i < s.len() {
        seq![s.take(i)] + split(s.skip(i + 1), sep)
    } else {
        seq![s]
    }
}

/// The pieces, with `sep` between each two neighbours.
pub open spec fn join(pieces: Seq<Seq<char>>, sep: char) -> Seq<char>
    decreases pieces.len(),
{
    if pieces.len() == 0 {
        Seq::empty()
    } else if pieces.len() == 1 {
        pieces[0]
    } else {
        join(pieces.drop_last(), sep) + seq![sep] + pieces.last()
    }
}

/// `first_index` is within bounds, points at a `c` unless it is the length,
/// and nothing before it is a `c`.
pub proof fn lemma_first_index<T>(s: Seq<T>, c: T)
    ensures
        0 <= first_index(s, c) <= s.len(),
        first_index(s, c) < s.len() ==> s[first_index(s, c)] == c,
        forall|j: int| 0 <= j < first_index(s, c) ==> s[j] != c,
        first_index(s, c) < s.len() <==> s.contains(c),
    decreases s.len(),
{
    if s.len() == 0 {
    } else if s[0] == c {
        assert(s.contains(c));
    } else {
        let t = s.skip(1);
        lemma_first_index(t, c);
        let k = first_index(t, c);
        assert forall|j: int| 0 <= j < 1 + k implies s[j] != c by {
            if j > 0 {
                assert(t[j - 1] == s[j]);
            }
        }
        if k < t.len() {
            assert(t[k] == s[k + 1]);
            assert(s.contains(c));
        } else {
            if s.contains(c) {
                let j = choose|j: int| 0 <= j < s.len() && s[j] == c;
                assert(t[j - 1] == s[j]);
            }
        }
    }
}

/// A position that holds `c` and has no `c` before it is the first index.
pub proof fn lemma_first_index_is<T>(s: Seq<T>, c: T, i: int)
    requires
        0 <= i <= s.len(),
        i < s.len() ==> s[i] == c,
        forall|j: int| 0 <= j < i ==> s[j] != c,
    ensures
        first_index(s, c) == i,
{
    lemma_first_index(s, c);
    let k = first_index(s, c);
    if k < i {
        assert(s[k] == c);
    }
}

/// The prefix of `s` up to and including position `eq` holds a slash exactly
/// when the first slash of `s` stands at or before `eq`.
pub proof fn lemma_slash_before(s: Seq<char>, eq: int)
    requires
        0 <= eq < s.len(),
    ensures
        s.take(eq + 1).contains('/') <==> first_index(s, '/') <= eq,
{
    lemma_first_index(s, '/');
    let k = first_index(s, '/');
    let t = s.take(eq + 1);
    if k <= eq {
        assert(t[k] == '/');
    }
    if t.contains('/') {
        let j = choose|j: int| 0 <= j < t.len() && t[j] == '/';
        assert(s[j] == '/');
    }
}

/// `needle` stands in `haystack` at position `i`.
pub open spec fn occurs_at<T>(needle: Seq<T>, haystack: Seq<T>, i: int) -> bool {
    0 <= i <= haystack.len() && needle.is_prefix_of(haystack.skip(i))
}

/// `needle` stands somewhere in `haystack`.
pub open spec fn occurs<T>(needle: Seq<T>, haystack: Seq<T>) -> bool {
    exists|i: int| occurs_at(needle, haystack, i)
}

/// `core::str::from_utf8` checks that `bytes` are valid UTF-8 and, where
/// they are, hands them back as a string slice: the slice is made of just
/// these bytes.
#[verifier::external_body]
pub(crate) fn utf8_text(bytes: &[u8]) -> (r: Option<&str>)
    ensures
        r is Some <==> valid_utf8(bytes@),
        r matches Some(s) ==> encode_utf8(s@) == bytes@,
{
    core::str::from_utf8(bytes).ok()
}

/// The UTF-8 encoding of two texts in a row is the two encodings in a row.
pub proof fn lemma_encode_concat(a: Seq<char>, b: Seq<char>)
    ensures
        encode_utf8(a + b) == encode_utf8(a) + encode_utf8(b),
    decreases a.len(),
{
    if a.len() == 0 {
        assert(a + b =~= b);
        assert(encode_utf8(a) + encode_utf8(b) =~= encode_utf8(b));
    } else {
        lemma_encode_concat(a.drop_first(), b);
        assert((a + b).drop_first() =~= a.drop_first() + b);
        assert((a + b)[0] == a[0]);
        assert(encode_utf8(a + b) =~= encode_utf8(a) + encode_utf8(b));
    }
}

/// Copies the characters of `s` out.
pub(crate) fn to_chars(s: &str) -> (v: Vec<char>)
    ensures
        v@ == s@,
{
    let mut v: Vec<char> = Vec::new();
    for c in it: s.chars()
        invariant
            v@ == it.seq().take(it.index() as int),
            it.seq() == s@,
    {
        v.push(c);
    }
    v
}

/// The first position at or after `from` that holds `c`, or the length.
pub(crate) fn find_char(v: &Vec<char>, from: usize, c: char) -> (i: usize)
    requires
        from <= v.len(),
    ensures
        from <= i <= v.len(),
        i == from + first_index(v@.skip(from as int), c),
{
    let mut i: usize = from;
    while i < v.len() && v[i] != c
        invariant
            from <= i <= v.len(),
            forall|j: int| from <= j < i ==> v@[j] != c,
        decreases v.len() - i,
    {
        i += 1;
    }
    proof {
        let t = v@.skip(from as int);
        assert forall|j: int| 0 <= j < i - from implies t[j] != c by {
            assert(t[j] == v@[from + j]);
        }
        lemma_first_index_is(t, c, i - from);
    }
    i
}

/// The first position at or after `from` that holds the byte `b`, or the
/// length.
pub(crate) fn find_byte(v: &[u8], from: usize, b: u8) -> (i: usize)
    requires
        from <= v.len(),
    ensures
        from <= i <= v.len(),
        i == from + first_index(v@.skip(from as int), b),
{
    let mut i: usize = from;
    while i < v.len() && v[i] != b
        invariant
            from <= i <= v.len(),
            forall|j: int| from <= j < i ==> v@[j] != b,
        decreases v.len() - i,
    {
        i += 1;
    }
    proof {
        let t = v@.skip(from as int);
        assert forall|j: int| 0 <= j < i - from implies t[j] != b by {
            assert(t[j] == v@[from + j]);
        }
        lemma_first_index_is(t, b, i - from);
    }
    i
}

/// Whether the bytes `pat` stand in `v` at position `at`.
pub(crate) fn bytes_match_at(v: &[u8], at: usize, pat: &[u8]) -> (r: bool)
    requires
        at <= v.len(),
    ensures
        r == pat@.is_prefix_of(v@.skip(at as int)),
{
    if pat.len() > v.len() - at {
        return false;
    }
    let mut k: usize = 0;
    while k < pat.len()
        invariant
            at <= v.len(),
            pat.len() <= v.len() - at,
            k <= pat.len(),
            forall|j: int| 0 <= j < k ==> pat@[j] == v@[at + j],
        decreases pat.len() - k,
    {
        if pat[k] != v[at + k] {
            proof {
                let t = v@.skip(at as int);
                assert(t.subrange(0, pat@.len() as int)[k as int] == v@[at + k]);
            }
            return false;
        }
        k += 1;
    }
    proof {
        let t = v@.skip(at as int);
        assert(pat@ =~= t.subrange(0, pat@.len() as int));
    }
    true
}

/// Whether `pat` stands somewhere in `v`.
pub(crate) fn contains_text(v: &Vec<char>, pat: &Vec<char>) -> (r: bool)
    ensures
        r == occurs(pat@, v@),
{
    let mut i: usize = 0;
    while i < v.len()
        invariant
            i <= v.len(),
            forall|j: int| 0 <= j < i ==> !occurs_at(pat@, v@, j),
        decreases v.len() - i,
    {
        if matches_at(v, i, pat) {
            assert(occurs_at(pat@, v@, i as int));
            return true;
        }
        i += 1;
    }
    if matches_at(v, i, pat) {
        assert(occurs_at(pat@, v@, i as int));
        return true;
    }
    assert forall|j: int| !occurs_at(pat@, v@, j) by {}
    false
}

/// Whether `pat` stands in `v` at position `at`.
pub(crate) fn matches_at(v: &Vec<char>, at: usize, pat: &Vec<char>) -> (r: bool)
    requires
        at <= v.len(),
    ensures
        r == pat@.is_prefix_of(v@.skip(at as int)),
{
    if pat.len() > v.len() - at {
        return false;
    }
    let mut k: usize = 0;
    while k < pat.len()
        invariant
            at <= v.len(),
            pat.len() <= v.len() - at,
            k <= pat.len(),
            forall|j: int| 0 <= j < k ==> pat@[j] == v@[at + j],
        decreases pat.len() - k,
    {
        if pat[k] != v[at + k] {
            proof {
                let t = v@.skip(at as int);
                assert(t.subrange(0, pat@.len() as int)[k as int] == v@[at + k]);
            }
            return false;
        }
        k += 1;
    }
    proof {
        let t = v@.skip(at as int);
        assert(pat@ =~= t.subrange(0, pat@.len() as int));
    }
    true
}

} // verus!
