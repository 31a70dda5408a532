//! The heuristics that decide, from the text alone, whether a string is
//! likely to name a file, and where a path's extension begins.
//!
//! The rules are those of a POSIX-like host: `/` separates components and a
//! backslash is an ordinary, suspicious character.

use crate::text::{
    ascii_alphanumeric, ascii_graphic, find_char, first_index, is_ascii_alphanumeric,
    is_ascii_graphic, lemma_first_index, split, to_chars, unicode_control, unicode_white_space,
};
use vstd::prelude::*;
use vstd::string::*;
use vstd::utf8::encode_utf8;

verus! {

/// The longest string, in bytes, that is still taken for a path.
pub const MAX_PATH_BYTES: usize = 4096;

/// The longest extension, in characters, that marks a bare file name.
pub const MAX_EXTENSION_CHARS: usize = 16;

/// Characters that never begin a file-name extension.
pub open spec fn never_extension(c: char) -> bool {
    ||| unicode_white_space(c)
    ||| unicode_control(c)
    ||| c == '*'
    ||| c == '"'
    ||| c == '\''
    ||| c == '`'
    ||| c == ':'
    ||| c == ';'
    ||| c == '\\'
    ||| c == '('
    ||| c == ')'
    ||| c == '{'
    ||| c == '}'
    ||| c == '['
    ||| c == ']'
    ||| c == '|'
    ||| c == '>'
    ||| c == '<'
    ||| c == '\u{feff}'
    ||| c == '\u{fff9}'
    ||| c == '\u{fffa}'
    ||| c == '\u{fffb}'
    ||| c == '\u{fffc}'
    ||| c == '\u{fffd}'
}

/// Shell metacharacters that make a string unlikely to be a file name.
pub open spec fn suspicious_shell_metacharacter(c: char) -> bool {
    ||| c == '&'
    ||| c == '<'
    ||| c == '>'
    ||| c == '\\'
    ||| c == '|'
    ||| c == '?'
    ||| c == '*'
    ||| c == '['
    ||| c == ']'
    ||| c == '"'
    ||| c == '\''
    ||| c == ';'
}

/// Where the basename of `s` begins: behind its last `/`, or at 0.
pub open spec fn basename_start(s: Seq<char>) -> int
    decreases s.len(),
{
    if s.len() == 0 {
        0
    } else if s.last() == '/' {
        s.len() as int
    } else {
        basename_start(s.drop_last())
    }
}

/// What follows the last `/` of `s`; all of `s` where it has none.
pub open spec fn basename(s: Seq<char>) -> Seq<char> {
    s.skip(basename_start(s))
}

/// Whether the extension of the basename `b` can begin at position `i`: a
/// dot that is not the first character, and that is followed neither by
/// another dot nor by a character that never begins an extension.
pub open spec fn extension_dot(b: Seq<char>, i: int) -> bool {
    &&& 1 <= i < b.len()
    &&& b[i] == '.'
    &&& (i + 1 < b.len() ==> b[i + 1] != '.' && !never_extension(b[i + 1]))
}

/// The first position at or after `from` where the extension of `b` can
/// begin, or `b.len()`.
pub open spec fn extension_dot_from(b: Seq<char>, from: int) -> int
    decreases b.len() - from,
{
    if from >= b.len() {
        b.len() as int
    } else if extension_dot(b, from) {
        from
    } else {
        extension_dot_from(b, from + 1)
    }
}

/// The position in `s` at which its extension begins; `s.len()` where it has
/// none.
pub open spec fn extension_start(s: Seq<char>) -> int {
    basename_start(s) + extension_dot_from(basename(s), 1)
}

/// `s` without its extension.
pub open spec fn stem(s: Seq<char>) -> Seq<char> {
    s.take(extension_start(s))
}

/// The extension of `s`: empty, or beginning with a dot.
pub open spec fn extension(s: Seq<char>) -> Seq<char> {
    s.skip(extension_start(s))
}

/// A first character that rules a string out as a path.
pub open spec fn bad_first_char(c: char) -> bool {
    ||| c == '-'
    ||| unicode_white_space(c)
    ||| c == '~'
    ||| c == '!'
    ||| c == '%'
    ||| suspicious_shell_metacharacter(c)
}

/// What a piece between two slashes must look like: empty, `.`, `..`, or
/// text that begins with no white space and ends with neither white space
/// nor a dot.
pub open spec fn component_ok(p: Seq<char>) -> bool {
    ||| p.len() == 0
    ||| p =~= seq!['.']
    ||| p =~= seq!['.', '.']
    ||| (!unicode_white_space(p[0]) && !unicode_white_space(p.last()) && p.last() != '.')
}

/// Every piece of `s` between slashes is acceptable.
pub open spec fn components_ok(s: Seq<char>) -> bool {
    forall|k: int| 0 <= k < split(s, '/').len() ==> component_ok(#[trigger] split(s, '/')[k])
}

/// `s` holds a control character.
pub open spec fn has_control(s: Seq<char>) -> bool {
    exists|i: int| 0 <= i < s.len() && unicode_control(#[trigger] s[i])
}

/// The dot at `d` is not the first character of `name` and is followed, up
/// to the end, by between 1 and 16 ASCII letters and digits.
pub open spec fn plain_extension_at(name: Seq<char>, d: int) -> bool {
    &&& 1 <= d < name.len()
    &&& name[d] == '.'
    &&& 1 <= name.len() - 1 - d <= MAX_EXTENSION_CHARS
    &&& forall|j: int| d < j < name.len() ==> ascii_alphanumeric(#[trigger] name[j])
}

/// The file name ends in a conventional-looking extension.
pub open spec fn conventional_extension(name: Seq<char>) -> bool {
    exists|d: int| plain_extension_at(name, d)
}

/// A Unix dot file: a dot followed only by printable ASCII that is no
/// suspicious shell metacharacter.
pub open spec fn dotfile(s: Seq<char>) -> bool {
    &&& s.len() > 0
    &&& s[0] == '.'
    &&& forall|j: int|
        1 <= j < s.len() ==> ascii_graphic(#[trigger] s[j]) && !suspicious_shell_metacharacter(s[j])
}

/// Everything that rules a string out as a path, but for its length.
pub open spec fn gatekeepers(s: Seq<char>) -> bool {
    &&& s.len() > 0
    &&& !bad_first_char(s[0])
    &&& components_ok(s)
    &&& !has_control(s)
}

/// At least one sign that a string is meant as a path.
pub open spec fn positive_signal(s: Seq<char>) -> bool {
    ||| s.contains('/')
    ||| conventional_extension(basename(s))
    ||| dotfile(s)
}

/// Whether `s` is likely to name a file: it is at most 4096 bytes long,
/// passes every gatekeeper and shows at least one positive signal.
pub open spec fn likely_path(s: Seq<char>) -> bool {
    &&& encode_utf8(s).len() <= MAX_PATH_BYTES
    &&& gatekeepers(s)
    &&& positive_signal(s)
}

/// The basename of a string without a slash is the string.
pub proof fn lemma_basename_no_slash(s: Seq<char>)
    requires
        !s.contains('/'),
    ensures
        basename_start(s) == 0,
        basename(s) == s,
    decreases s.len(),
{
    if s.len() > 0 {
        assert(s[s.len() - 1] != '/');
        let t = s.drop_last();
        assert forall|j: int| 0 <= j < t.len() implies t[j] != '/' by {
            assert(t[j] == s[j]);
        }
        lemma_basename_no_slash(t);
    }
    assert(s.skip(0) =~= s);
}

/// The basename begins within the string, right behind a slash or at 0, and
/// holds no slash.
pub proof fn lemma_basename_start(s: Seq<char>)
    ensures
        0 <= basename_start(s) <= s.len(),
        basename_start(s) > 0 ==> s[basename_start(s) - 1] == '/',
        forall|j: int| basename_start(s) <= j < s.len() ==> s[j] != '/',
    decreases s.len(),
{
    if s.len() > 0 && s.last() != '/' {
        let t = s.drop_last();
        lemma_basename_start(t);
        assert forall|j: int| basename_start(s) <= j < s.len() implies s[j] != '/' by {
            if j < t.len() {
                assert(t[j] == s[j]);
            }
        }
        if basename_start(s) > 0 {
            assert(t[basename_start(s) - 1] == s[basename_start(s) - 1]);
        }
    }
}

/// The extension begins within the basename; where there is one, it begins
/// with a dot that is not the first character of the basename, and no
/// earlier dot of the basename qualifies.
pub proof fn lemma_extension_dot_from(b: Seq<char>, from: int)
    requires
        0 <= from,
    ensures
        from <= b.len() ==> from <= extension_dot_from(b, from) <= b.len(),
        extension_dot_from(b, from) < b.len() ==> extension_dot(b, extension_dot_from(b, from)),
        forall|j: int| from <= j < extension_dot_from(b, from) ==> !extension_dot(b, j),
    decreases b.len() - from,
{
    if from < b.len() && !extension_dot(b, from) {
        lemma_extension_dot_from(b, from + 1);
    }
}

/// The stem and the extension of `s` make up `s`, and the extension holds
/// no slash.
pub proof fn lemma_stem_extension(s: Seq<char>)
    ensures
        0 <= extension_start(s) <= s.len(),
        stem(s) + extension(s) == s,
        !extension(s).contains('/'),
        extension(s).len() > 0 ==> extension(s)[0] == '.',
{
    lemma_basename_start(s);
    let b = basename(s);
    lemma_extension_dot_from(b, 1);
    let k = extension_start(s);
    if b.len() == 0 {
        assert(extension_dot_from(b, 1) == 0);
    }
    assert(stem(s) + extension(s) =~= s);
    let e = extension(s);
    if e.contains('/') {
        let j = choose|j: int| 0 <= j < e.len() && e[j] == '/';
        assert(e[j] == s[k + j]);
    }
    if e.len() > 0 {
        assert(e[0] == s[k]);
        assert(b[k - basename_start(s)] == s[k]);
    }
}

/// The slash-separated pieces of `s` are acceptable exactly when the first
/// piece is and, where a slash follows it, the pieces behind that slash are.
pub proof fn lemma_components_step(s: Seq<char>)
    ensures
        ({
            let i = first_index(s, '/');
            if 0 <= i < s.len() {
                components_ok(s) == (component_ok(s.take(i)) && components_ok(s.skip(i + 1)))
            } else {
                components_ok(s) == component_ok(s)
            }
        }),
{
    let i = first_index(s, '/');
    let all = split(s, '/');
    if 0 <= i < s.len() {
        let rest = split(s.skip(i + 1), '/');
        assert(all == seq![s.take(i)] + rest);
        if components_ok(s) {
            assert(all[0] == s.take(i));
            assert forall|k: int| 0 <= k < rest.len() implies component_ok(#[trigger] rest[k]) by {
                assert(all[k + 1] == rest[k]);
            }
        }
        if component_ok(s.take(i)) && components_ok(s.skip(i + 1)) {
            assert forall|k: int| 0 <= k < all.len() implies component_ok(#[trigger] all[k]) by {
                if k > 0 {
                    assert(all[k] == rest[k - 1]);
                }
            }
        }
    } else {
        assert(all == seq![s]);
        assert(all[0] == s);
    }
}

pub fn is_never_extension(c: char) -> (r: bool)
    ensures
        r == never_extension(c),
{
    c.is_whitespace() || c.is_control() || c == '*' || c == '"' || c == '\'' || c == '`' || c
        == ':' || c == ';' || c == '\\' || c == '(' || c == ')' || c == '{' || c == '}' || c == '['
        || c == ']' || c == '|' || c == '>' || c == '<' || c == '\u{feff}' || c == '\u{fff9}' || c
        == '\u{fffa}' || c == '\u{fffb}' || c == '\u{fffc}' || c == '\u{fffd}'
}

pub fn is_suspicious_shell_metacharacter(c: char) -> (r: bool)
    ensures
        r == suspicious_shell_metacharacter(c),
{
    c == '&' || c == '<' || c == '>' || c == '\\' || c == '|' || c == '?' || c == '*' || c == '['
        || c == ']' || c == '"' || c == '\'' || c == ';'
}

/// The position at which the extension of `v` begins.
pub(crate) fn extension_index(v: &Vec<char>) -> (k: usize)
    ensures
        k == extension_start(v@),
        k <= v.len(),
{
    let n = v.len();
    let mut start: usize = n;
    assert(v@.take(n as int) =~= v@);
    while start > 0 && v[start - 1] != '/'
        invariant
            start <= n,
            n == v.len(),
            basename_start(v@) == basename_start(v@.take(start as int)),
        decreases start,
    {
        proof {
            let t = v@.take(start as int);
            assert(t.last() == v@[start - 1]);
            assert(t.drop_last() =~= v@.take(start - 1));
        }
        start -= 1;
    }
    proof {
        let t = v@.take(start as int);
        if start > 0 {
            assert(t.last() == v@[start - 1]);
        }
        lemma_basename_start(v@);
    }
    let ghost b = basename(v@);
    if n - start < 2 {
        proof {
            lemma_extension_dot_from(b, 1);
            if b.len() == 0 {
                assert(extension_dot_from(b, 1) == 0);
            } else {
                reveal_with_fuel(extension_dot_from, 2);
            }
        }
        return n;
    }
    let mut j: usize = start + 1;
    while j < n
        invariant
            start + 1 <= j <= n,
            n == v.len(),
            start == basename_start(v@),
            b == v@.skip(start as int),
            extension_dot_from(b, 1) == extension_dot_from(b, j - start),
        decreases n - j,
    {
        proof {
            assert(b[j - start] == v@[j as int]);
            if j + 1 < n {
                assert(b[j + 1 - start] == v@[j + 1]);
            }
        }
        if v[j] == '.' && (j + 1 == n || (v[j + 1] != '.' && !is_never_extension(v[j + 1]))) {
            return j;
        }
        j += 1;
    }
    n
}

/// Whether the piece of `v` from `start` up to `end` is an acceptable path
/// component.
fn piece_acceptable(v: &Vec<char>, start: usize, end: usize) -> (r: bool)
    requires
        start <= end <= v.len(),
    ensures
        r == component_ok(v@.subrange(start as int, end as int)),
{
    let ghost p = v@.subrange(start as int, end as int);
    let len = end - start;
    if len == 0 {
        return true;
    }
    proof {
        assert(p[0] == v@[start as int]);
        assert(p.last() == v@[end - 1]);
    }
    if len == 1 && v[start] == '.' {
        assert(p =~= seq!['.']);
        return true;
    }
    if len == 2 && v[start] == '.' && v[start + 1] == '.' {
        proof {
            assert(p[1] == v@[start + 1]);
            assert(p =~= seq!['.', '.']);
        }
        return true;
    }
    proof {
        if p =~= seq!['.'] {
            assert(seq!['.'][0] == '.');
        }
        if p =~= seq!['.', '.'] {
            assert(seq!['.', '.'][0] == '.');
            assert(seq!['.', '.'][1] == '.');
            assert(p[1] == v@[start + 1]);
        }
    }
    !v[start].is_whitespace() && !v[end - 1].is_whitespace() && v[end - 1] != '.'
}

/// Whether every slash-separated piece of `v` is an acceptable component.
fn components_acceptable(v: &Vec<char>) -> (r: bool)
    ensures
        r == components_ok(v@),
{
    let n = v.len();
    let mut start: usize = 0;
    assert(v@.skip(0) =~= v@);
    loop
        invariant
            start <= n,
            n == v.len(),
            components_ok(v@) == components_ok(v@.skip(start as int)),
        decreases n - start,
    {
        let end = find_char(v, start, '/');
        proof {
            let t = v@.skip(start as int);
            lemma_components_step(t);
            assert(t.take(end - start) =~= v@.subrange(start as int, end as int));
            if end == n {
                assert(t =~= v@.subrange(start as int, end as int));
            } else {
                assert(t.skip(end - start + 1) =~= v@.skip(end + 1));
            }
        }
        if !piece_acceptable(v, start, end) {
            return false;
        }
        if end == n {
            return true;
        }
        start = end + 1;
    }
}

/// Whether `v` holds a control character.
fn holds_control(v: &Vec<char>) -> (r: bool)
    ensures
        r == has_control(v@),
{
    let mut i: usize = 0;
    while i < v.len()
        invariant
            i <= v.len(),
            forall|j: int| 0 <= j < i ==> !unicode_control(#[trigger] v@[j]),
        decreases v.len() - i,
    {
        if v[i].is_control() {
            return true;
        }
        i += 1;
    }
    false
}

/// Whether the file name `v` ends in a dot, not at its start, followed by
/// 1 to 16 ASCII letters and digits.
fn has_conventional_extension(v: &Vec<char>) -> (r: bool)
    ensures
        r == conventional_extension(v@),
{
    let n = v.len();
    let mut j: usize = n;
    while j > 0 && n - j <= MAX_EXTENSION_CHARS && is_ascii_alphanumeric(v[j - 1])
        invariant
            j <= n,
            n == v.len(),
            n - j <= MAX_EXTENSION_CHARS + 1,
            forall|k: int| j <= k < n ==> ascii_alphanumeric(#[trigger] v@[k]),
        decreases j,
    {
        j -= 1;
    }
    let r = j >= 2 && n - j >= 1 && n - j <= MAX_EXTENSION_CHARS && v[j - 1] == '.';
    proof {
        if r {
            assert(plain_extension_at(v@, j - 1));
        } else if conventional_extension(v@) {
            let d = choose|d: int| plain_extension_at(v@, d);
            if d >= j {
                assert(ascii_alphanumeric(v@[d]));
            } else if d < j - 1 {
                assert(ascii_alphanumeric(v@[j - 1]));
            }
        }
    }
    r
}

/// Whether `v` is a dot followed only by printable ASCII that is no
/// suspicious shell metacharacter.
fn is_dotfile(v: &Vec<char>) -> (r: bool)
    ensures
        r == dotfile(v@),
{
    if v.len() == 0 || v[0] != '.' {
        return false;
    }
    let mut i: usize = 1;
    while i < v.len()
        invariant
            1 <= i <= v.len(),
            forall|j: int|
                1 <= j < i ==> ascii_graphic(#[trigger] v@[j]) && !suspicious_shell_metacharacter(
                    v@[j],
                ),
        decreases v.len() - i,
    {
        if !is_ascii_graphic(v[i]) || is_suspicious_shell_metacharacter(v[i]) {
            return false;
        }
        i += 1;
    }
    true
}

/// The gatekeepers and the positive signals, on the characters of a string.
fn has_path_shape(v: &Vec<char>) -> (r: bool)
    ensures
        r == (gatekeepers(v@) && positive_signal(v@)),
{
    if v.len() == 0 {
        return false;
    }
    let c = v[0];
    if c == '-' || c.is_whitespace() || c == '~' || c == '!' || c == '%'
        || is_suspicious_shell_metacharacter(c) {
        return false;
    }
    if !components_acceptable(v) {
        return false;
    }
    if holds_control(v) {
        return false;
    }
    let slash = find_char(v, 0, '/');
    proof {
        assert(v@.skip(0) =~= v@);
        lemma_first_index(v@, '/');
    }
    if slash < v.len() {
        return true;
    }
    proof {
        lemma_basename_no_slash(v@);
    }
    has_conventional_extension(v) || is_dotfile(v)
}

/// Applies some simple heuristics to determine whether `arg` is likely to
/// refer to a filesystem path.
///
/// Roughly: a string that starts with `-` is a flag; one that contains a `/`
/// is a path; so is one that ends with a conventional-looking file-name
/// extension, or looks like a dot file; anything else is not.
pub fn is_likely_path(arg: &str) -> (r: bool)
    ensures
        r == likely_path(arg@),
{
    if arg.as_bytes().len() > MAX_PATH_BYTES {
        return false;
    }
    let v = to_chars(arg);
    has_path_shape(&v)
}

/// If `s` is a path that ends in a basename extension, splits it into the
/// path without the extension, and the extension.
pub fn split_extension(s: &str) -> (r: (&str, &str))
    ensures
        r.0@ == stem(s@),
        r.1@ == extension(s@),
{
    let v = to_chars(s);
    let k = extension_index(&v);
    (s.substring_char(0, k), s.substring_char(k, v.len()))
}

} // verus!
