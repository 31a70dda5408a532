//! Opaque tokens: the fixed prefix `wasi-preopen.` followed by a random
//! version-4 UUID in its canonical text, such as
//! `wasi-preopen.67e55044-10b1-426f-9247-bb680e5fe0c8`.

use crate::text::to_chars;
use vstd::prelude::*;
use vstd::string::*;

verus! {

/// What every token begins with.
pub const TOKEN_PREFIX: &'static str = "wasi-preopen.";

/// The number of characters of a UUID in canonical text.
pub const UUID_CHARS: usize = 36;

/// The number of characters of a token.
pub const TOKEN_CHARS: usize = 49;

/// A digit, or a letter from `a` to `f`.
pub open spec fn lower_hex(c: char) -> bool {
    ('0' <= c && c <= '9') || ('a' <= c && c <= 'f')
}

/// The positions of the four hyphens in the canonical text of a UUID.
pub open spec fn hyphen_position(i: int) -> bool {
    i == 8 || i == 13 || i == 18 || i == 23
}

/// The position of the digit that holds the version of a UUID.
pub const VERSION_POSITION: usize = 14;

/// The position of the digit that holds the variant of a UUID.
pub const VARIANT_POSITION: usize = 19;

/// The digits that the variant of the UUIDs in use begins with.
pub open spec fn variant_digit(c: char) -> bool {
    c == '8' || c == '9' || c == 'a' || c == 'b'
}

/// The canonical text of a version-4 UUID: 36 characters, hyphens after the
/// 8th, 12th, 16th and 20th digit, lower-case hexadecimal digits elsewhere;
/// the 13th digit is the version, 4, and the 17th is one of `8`, `9`, `a` and
/// `b`, for the variant.
pub open spec fn uuid_text(s: Seq<char>) -> bool {
    &&& s.len() == UUID_CHARS
    &&& forall|i: int|
        0 <= i < s.len() ==> if hyphen_position(i) {
            s[i] == '-'
        } else {
            lower_hex(#[trigger] s[i])
        }
    &&& s[VERSION_POSITION as int] == '4'
    &&& variant_digit(s[VARIANT_POSITION as int])
}

/// The prefix followed by the canonical text of a UUID.
pub open spec fn is_token(t: Seq<char>) -> bool {
    &&& TOKEN_PREFIX@.is_prefix_of(t)
    &&& uuid_text(t.skip(TOKEN_PREFIX@.len() as int))
}

/// A character that can occur in a token.
pub open spec fn token_char(c: char) -> bool {
    ||| lower_hex(c)
    ||| c == '-'
    ||| c == 'w'
    ||| c == 's'
    ||| c == 'i'
    ||| c == 'p'
    ||| c == 'r'
    ||| c == 'o'
    ||| c == 'n'
    ||| c == '.'
}

/// A token is 49 characters long, begins with `wa`, and holds nothing but
/// lower-case letters, digits, hyphens and one dot: so no `/`, `:`, `=`, `%`,
/// white space or line break, and nothing outside ASCII.
pub proof fn lemma_token_shape(t: Seq<char>)
    requires
        is_token(t),
    ensures
        t.len() == TOKEN_CHARS,
        t[0] == 'w',
        t[1] == 'a',
        forall|i: int| 0 <= i < t.len() ==> token_char(#[trigger] t[i]),
{
    reveal_strlit("wasi-preopen.");
    let p = TOKEN_PREFIX@;
    let u = t.skip(p.len() as int);
    assert(p =~= t.subrange(0, p.len() as int));
    assert forall|i: int| 0 <= i < t.len() implies token_char(#[trigger] t[i]) by {
        if i < p.len() {
            assert(t[i] == t.subrange(0, p.len() as int)[i]);
            assert(t[i] == p[i]);
        } else {
            assert(t[i] == u[i - p.len()]);
            if !hyphen_position(i - p.len()) {
                assert(lower_hex(u[i - p.len()]));
            }
        }
    }
    assert(t[0] == t.subrange(0, p.len() as int)[0]);
    assert(t[1] == t.subrange(0, p.len() as int)[1]);
}

/// Draws a random version-4 UUID with `uuid::Uuid::new_v4` and writes it out
/// through its `Display`. `new_v4` sets the version to 4 and the two highest
/// bits of the variant to `10`, and leaves the other bits to chance;
/// `Display` gives the hyphenated lower-case form. Only that form is claimed:
/// nothing is claimed of which UUID comes out, and two calls may well return
/// the same text. The call panics where the operating system cannot supply
/// random bytes.
#[verifier::external_body]
fn fresh_uuid() -> (s: String)
    ensures
        uuid_text(s@),
{
    uuid::Uuid::new_v4().to_string()
}

/// A fresh token.
pub fn fresh_token() -> (t: String)
    ensures
        is_token(t@),
{
    let mut t = TOKEN_PREFIX.to_owned();
    let u = fresh_uuid();
    t.append(u.as_str());
    proof {
        let p = TOKEN_PREFIX@;
        assert(t@.subrange(0, p.len() as int) =~= p);
        assert(t@.skip(p.len() as int) =~= u@);
    }
    t
}

/// A fresh UUID in canonical text, without the prefix.
pub fn fresh_bare_token() -> (t: String)
    ensures
        uuid_text(t@),
{
    fresh_uuid()
}

/// Whether `v`, from `from` on, is the canonical text of a version-4 UUID.
pub(crate) fn is_uuid_text(v: &Vec<char>, from: usize) -> (r: bool)
    requires
        from <= v.len(),
    ensures
        r == uuid_text(v@.skip(from as int)),
{
    if v.len() - from != UUID_CHARS {
        return false;
    }
    let ghost u = v@.skip(from as int);
    let mut i: usize = 0;
    while i < UUID_CHARS
        invariant
            i <= UUID_CHARS,
            from + UUID_CHARS == v.len(),
            u == v@.skip(from as int),
            forall|j: int|
                0 <= j < i ==> if hyphen_position(j) {
                    u[j] == '-'
                } else {
                    lower_hex(#[trigger] u[j])
                },
        decreases UUID_CHARS - i,
    {
        let c = v[from + i];
        assert(u[i as int] == c);
        let ok = if i == 8 || i == 13 || i == 18 || i == 23 {
            c == '-'
        } else {
            ('0' <= c && c <= '9') || ('a' <= c && c <= 'f')
        };
        if !ok {
            return false;
        }
        i += 1;
    }
    let version = v[from + VERSION_POSITION];
    let variant = v[from + VARIANT_POSITION];
    assert(u[VERSION_POSITION as int] == version);
    assert(u[VARIANT_POSITION as int] == variant);
    version == '4' && (variant == '8' || variant == '9' || variant == 'a' || variant == 'b')
}

/// Whether `s` has the form of a token.
pub fn has_token_form(s: &str) -> (r: bool)
    ensures
        r == is_token(s@),
{
    let v = to_chars(s);
    let p = to_chars(TOKEN_PREFIX);
    proof {
        reveal_strlit("wasi-preopen.");
    }
    if !crate::text::matches_at(&v, 0, &p) {
        assert(v@.skip(0) =~= v@);
        return false;
    }
    assert(v@.skip(0) =~= v@);
    is_uuid_text(&v, p.len())
}

} // verus!
