//! The output side: bytes that a program writes are gathered into lines, and
//! in each finished line every token of the capability table is replaced by
//! the host path that it stands for.
//!
//! A `Writer` does no output itself. `write` hands back the bytes that are
//! ready for the sink; what follows the last line break stays in the line
//! buffer until the line is finished.

use crate::log::{log, log_line, Level};
use crate::preopener::Preopener;
use crate::table::{bindings_of, tokens_ok, Binding, Preopen, Table};
use crate::text::{
    bytes_match_at, find_byte, first_index, lemma_encode_concat, occurs, occurs_at,
};
use crate::token::{is_token, TOKEN_PREFIX};
use vstd::prelude::*;
use vstd::slice::slice_subrange;
use vstd::string::*;
use vstd::utf8::encode_utf8;

verus! {

/// The byte that ends a line.
pub const LINE_BREAK: u8 = 10;

/// Which stream of the host a writer is for.
#[derive(Debug, Clone, Copy, PartialEq, Eq, Structural)]
pub enum Stream {
    Stdout,
    Stderr,
}

/// The bytes of a binding's token.
pub open spec fn token_bytes(b: Binding) -> Seq<u8> {
    encode_utf8(b.token)
}

/// The token of the binding stands at the start of `text`.
pub open spec fn stands_at(b: Binding, text: Seq<u8>) -> bool {
    token_bytes(b).len() > 0 && token_bytes(b).is_prefix_of(text)
}

/// The index of the first binding at or after `from` whose token stands at
/// the start of `text`, or the length of the table.
pub open spec fn first_standing(table: Seq<Binding>, text: Seq<u8>, from: int) -> int
    decreases table.len() - from,
{
    if from >= table.len() {
        table.len() as int
    } else if from >= 0 && stands_at(table[from], text) {
        from
    } else {
        first_standing(table, text, from + 1)
    }
}

/// `text` with the tokens replaced. The text is read from left to right.
/// Where a token stands, the host path of the first binding with such a
/// token goes out in its place, and reading goes on behind the token; any
/// other byte goes out as it is. What was put in is not read again.
pub open spec fn substitute(table: Seq<Binding>, text: Seq<u8>) -> Seq<u8>
    decreases text.len(),
{
    if text.len() == 0 {
        Seq::empty()
    } else {
        let i = first_standing(table, text, 0);
        if 0 <= i < table.len() && 0 < token_bytes(table[i]).len() <= text.len() {
            table[i].original + substitute(table, text.skip(token_bytes(table[i]).len() as int))
        } else {
            seq![text[0]] + substitute(table, text.skip(1))
        }
    }
}

/// What writing `data` comes to, with `pending` in the line buffer: the
/// bytes that go to the sink, and the new content of the line buffer. Each
/// line that `data` finishes goes out with its tokens replaced; the first of
/// them begins with what was pending.
pub open spec fn feed(table: Seq<Binding>, pending: Seq<u8>, data: Seq<u8>) -> (Seq<u8>, Seq<u8>)
    decreases data.len(),
{
    let nl = first_index(data, LINE_BREAK);
    if 0 <= nl < data.len() {
        let rest = feed(table, Seq::empty(), data.skip(nl + 1));
        (substitute(table, pending + data.take(nl + 1)) + rest.0, rest.1)
    } else {
        (Seq::empty(), pending + data)
    }
}

/// `first_standing` is the least index at or after `from` of a binding
/// whose token stands at the start of the text.
pub proof fn lemma_first_standing(table: Seq<Binding>, text: Seq<u8>, from: int)
    requires
        0 <= from <= table.len(),
    ensures
        from <= first_standing(table, text, from) <= table.len(),
        first_standing(table, text, from) < table.len() ==> stands_at(
            table[first_standing(table, text, from)],
            text,
        ),
        forall|j: int|
            from <= j < first_standing(table, text, from) ==> !stands_at(#[trigger] table[j], text),
    decreases table.len() - from,
{
    if from < table.len() && !stands_at(table[from], text) {
        lemma_first_standing(table, text, from + 1);
    }
}

/// The bytes of a token begin with the bytes of the token prefix.
pub proof fn lemma_token_bytes_prefix(token: Seq<char>)
    requires
        is_token(token),
    ensures
        encode_utf8(TOKEN_PREFIX@).is_prefix_of(encode_utf8(token)),
{
    let p = TOKEN_PREFIX@;
    let u = token.skip(p.len() as int);
    assert(token =~= p + u);
    lemma_encode_concat(p, u);
    assert(encode_utf8(p) =~= (encode_utf8(p) + encode_utf8(u)).subrange(
        0,
        encode_utf8(p).len() as int,
    ));
}

/// Text in which the token prefix stands nowhere holds no token, and comes
/// out of the substitution as it went in.
pub proof fn lemma_substitute_without_prefix(table: Seq<Binding>, text: Seq<u8>)
    requires
        tokens_ok(table),
        !occurs(encode_utf8(TOKEN_PREFIX@), text),
    ensures
        substitute(table, text) == text,
    decreases text.len(),
{
    let p = encode_utf8(TOKEN_PREFIX@);
    if text.len() > 0 {
        lemma_first_standing(table, text, 0);
        let i = first_standing(table, text, 0);
        if i < table.len() {
            lemma_token_bytes_prefix(table[i].token);
            let t = token_bytes(table[i]);
            assert(p =~= t.subrange(0, p.len() as int));
            assert(t =~= text.subrange(0, t.len() as int));
            assert(p =~= text.subrange(0, p.len() as int));
            assert(text.skip(0) =~= text);
            assert(occurs_at(p, text, 0));
        }
        let rest = text.skip(1);
        if occurs(p, rest) {
            let j = choose|j: int| occurs_at(p, rest, j);
            assert(rest.skip(j) =~= text.skip(j + 1));
            assert(occurs_at(p, text, j + 1));
        }
        lemma_substitute_without_prefix(table, rest);
        assert(seq![text[0]] + rest =~= text);
    }
}

/// Finds the first place at which `needle` stands in `haystack`, and the
/// place where it ends there.
pub fn is_subsequence(needle: &[u8], haystack: &[u8]) -> (r: Option<(usize, usize)>)
    ensures
        match r {
            Some((start, end)) => {
                &&& occurs_at(needle@, haystack@, start as int)
                &&& end == start + needle@.len()
                &&& forall|j: int| 0 <= j < start ==> !occurs_at(needle@, haystack@, j)
            },
            None => !occurs(needle@, haystack@),
        },
{
    if needle.len() > haystack.len() {
        assert forall|j: int| !occurs_at(needle@, haystack@, j) by {}
        return None;
    }
    let last = haystack.len() - needle.len();
    let mut i: usize = 0;
    while i <= last
        invariant
            i <= last + 1,
            last == haystack.len() - needle.len(),
            forall|j: int| 0 <= j < i ==> !occurs_at(needle@, haystack@, j),
        decreases last + 1 - i,
    {
        if bytes_match_at(haystack, i, needle) {
            return Some((i, i + needle.len()));
        }
        i += 1;
    }
    assert forall|j: int| !occurs_at(needle@, haystack@, j) by {}
    None
}

/// The index of the first binding whose token stands in `line` at `pos`.
fn token_at(table: &[Preopen], line: &[u8], pos: usize) -> (r: Option<usize>)
    requires
        pos <= line.len(),
    ensures
        match r {
            Some(i) => i < table.len() && i == first_standing(
                bindings_of(table@),
                line@.skip(pos as int),
                0,
            ),
            None => first_standing(bindings_of(table@), line@.skip(pos as int), 0) == table.len(),
        },
{
    let ghost bindings = bindings_of(table@);
    let ghost text = line@.skip(pos as int);
    let mut i: usize = 0;
    while i < table.len()
        invariant
            i <= table.len(),
            pos <= line.len(),
            bindings == bindings_of(table@),
            text == line@.skip(pos as int),
            first_standing(bindings, text, 0) == first_standing(bindings, text, i as int),
        decreases table.len() - i,
    {
        let token = table[i].token.as_str().as_bytes();
        assert(bindings[i as int] == table@[i as int]@);
        if token.len() > 0 && bytes_match_at(line, pos, token) {
            return Some(i);
        }
        i += 1;
    }
    None
}

/// Replaces the tokens in `line`.
fn replace_tokens(table: &[Preopen], line: &[u8]) -> (out: Vec<u8>)
    ensures
        out@ == substitute(bindings_of(table@), line@),
{
    let ghost bindings = bindings_of(table@);
    let mut out: Vec<u8> = Vec::new();
    let mut pos: usize = 0;
    assert(line@.skip(0) =~= line@);
    while pos < line.len()
        invariant
            pos <= line.len(),
            bindings == bindings_of(table@),
            substitute(bindings, line@) == out@ + substitute(bindings, line@.skip(pos as int)),
        decreases line.len() - pos,
    {
        let ghost text = line@.skip(pos as int);
        let ghost done = out@;
        match token_at(table, line, pos) {
            Some(i) => {
                let token = table[i].token.as_str().as_bytes();
                proof {
                    lemma_first_standing(bindings, text, 0);
                    assert(bindings[i as int] == table@[i as int]@);
                    assert(text.skip(token@.len() as int) =~= line@.skip(pos + token@.len()));
                }
                out.extend_from_slice(table[i].original.as_slice());
                assert(out@ =~= done + table@[i as int].original@);
                pos += token.len();
            },
            None => {
                proof {
                    assert(text[0] == line@[pos as int]);
                    assert(text.skip(1) =~= line@.skip(pos + 1));
                }
                out.push(line[pos]);
                assert(out@ =~= done + seq![line@[pos as int]]);
                pos += 1;
            },
        }
        proof {
            assert(substitute(bindings, line@) =~= out@ + substitute(
                bindings,
                line@.skip(pos as int),
            ));
        }
    }
    assert(out@ + Seq::<u8>::empty() =~= out@);
    out
}

/// An output stream that is linked to a `Preopener` and translates internal
/// paths back into their external presentation.
pub struct Writer<'a> {
    table: &'a Table,
    stream: Stream,
    buf: Vec<u8>,
}

impl<'a> Writer<'a> {
    /// The capability table that the writer reads.
    pub closed spec fn table(&self) -> Seq<Binding> {
        self.table@
    }

    /// The bytes written that no line break has followed yet.
    pub closed spec fn pending(&self) -> Seq<u8> {
        self.buf@
    }

    /// The stream of the host that the writer is for.
    pub closed spec fn target(&self) -> Stream {
        self.stream
    }

    /// A writer for `stream` with an empty line buffer.
    pub fn new(table: &'a Table, stream: Stream) -> (w: Self)
        ensures
            w.table() == table@,
            w.target() == stream,
            w.pending() == Seq::<u8>::empty(),
    {
        Writer { table, stream, buf: Vec::new() }
    }

    /// The stream of the host that the writer is for.
    pub fn stream(&self) -> (s: Stream)
        ensures
            s == self.target(),
    {
        self.stream
    }

    /// Replaces the tokens in the line buffer by the host paths that they
    /// stand for. Where the tokens of the table carry the token prefix, a
    /// buffer without the prefix is left alone.
    pub fn replace_guest_paths(&mut self)
        ensures
            final(self).table() == old(self).table(),
            final(self).target() == old(self).target(),
            final(self).pending() == substitute(old(self).table(), old(self).pending()),
    {
        let entries = self.table.as_slice();
        if self.table.is_prefixed() && is_subsequence(
            TOKEN_PREFIX.as_bytes(),
            self.buf.as_slice(),
        ).is_none() {
            proof {
                lemma_substitute_without_prefix(self.table@, self.buf@);
            }
            return ;
        }
        self.buf = replace_tokens(entries, self.buf.as_slice());
    }

    /// Takes in `data` up to and including its first line break, and tells
    /// how many bytes that were and whether a line is finished. The finished
    /// line stands in the line buffer with its tokens replaced, whatever was
    /// pending in front; it is there for the sink, and `clear` makes room for
    /// the next line. Without a line break all of `data` is taken and stays
    /// pending.
    pub fn take_line(&mut self, data: &[u8]) -> (r: (usize, bool))
        ensures
            final(self).table() == old(self).table(),
            final(self).target() == old(self).target(),
            ({
                let nl = first_index(data@, LINE_BREAK);
                if 0 <= nl < data@.len() {
                    &&& r == (((nl + 1) as usize), true)
                    &&& final(self).pending() == substitute(
                        old(self).table(),
                        old(self).pending() + data@.take(nl + 1),
                    )
                } else {
                    &&& r == ((data@.len() as usize), false)
                    &&& final(self).pending() == old(self).pending() + data@
                }
            }),
    {
        let ghost held = self.pending();
        assert(data@.skip(0) =~= data@);
        let nl = find_byte(data, 0, LINE_BREAK);
        if nl == data.len() {
            self.buf.extend_from_slice(data);
            assert(self.pending() =~= held + data@);
            return (data.len(), false);
        }
        self.buf.extend_from_slice(slice_subrange(data, 0, nl + 1));
        assert(self.pending() =~= held + data@.take(nl + 1));
        self.replace_guest_paths();
        (nl + 1, true)
    }

    /// The content of the line buffer.
    pub fn line(&self) -> (l: &[u8])
        ensures
            l@ == self.pending(),
    {
        self.buf.as_slice()
    }

    /// Empties the line buffer.
    pub fn clear(&mut self)
        ensures
            final(self).table() == old(self).table(),
            final(self).target() == old(self).target(),
            final(self).pending() == Seq::<u8>::empty(),
    {
        self.buf.clear();
    }

    /// Takes `data` in. Every line that it finishes is handed back with its
    /// tokens replaced, for the sink; the rest stays in the line buffer.
    /// All of `data` is always taken: the count that is returned is its
    /// length.
    pub fn write(&mut self, data: &[u8]) -> (r: (usize, Vec<u8>))
        ensures
            final(self).table() == old(self).table(),
            final(self).target() == old(self).target(),
            r.0 == data@.len(),
            (r.1@, final(self).pending()) == feed(old(self).table(), old(self).pending(), data@),
    {
        let ghost table = self.table();
        let ghost start = self.pending();
        let mut emitted: Vec<u8> = Vec::new();
        let mut pos: usize = 0;
        assert(data@.skip(0) =~= data@);
        assert(emitted@ + feed(table, start, data@).0 =~= feed(table, start, data@).0);
        loop
            invariant
                pos <= data.len(),
                self.table() == table,
                table == old(self).table(),
                start == old(self).pending(),
                self.target() == old(self).target(),
                feed(table, start, data@) == (
                    emitted@ + feed(table, self.pending(), data@.skip(pos as int)).0,
                    feed(table, self.pending(), data@.skip(pos as int)).1,
                ),
            decreases data.len() - pos,
        {
            let ghost rest = data@.skip(pos as int);
            let ghost sent = emitted@;
            let work = slice_subrange(data, pos, data.len());
            assert(work@ =~= rest);
            let (taken, ready) = self.take_line(work);
            if !ready {
                proof {
                    assert(sent + Seq::<u8>::empty() =~= sent);
                }
                return (data.len(), emitted);
            }
            let ghost line = self.pending();
            emitted.extend_from_slice(self.line());
            self.clear();
            proof {
                assert(rest.skip(taken as int) =~= data@.skip(pos + taken));
                assert(emitted@ =~= sent + line);
                let tail = feed(table, Seq::empty(), data@.skip(pos + taken));
                assert(emitted@ + tail.0 =~= sent + (line + tail.0));
            }
            pos += taken;
        }
    }
}

impl Preopener {
    /// Returns a writer for the standard output, which translates any
    /// internal filenames written to it into external filenames.
    pub fn stdout(&self) -> (w: Writer<'_>)
        ensures
            w.table() == self@,
            w.target() == Stream::Stdout,
            w.pending() == Seq::<u8>::empty(),
    {
        Writer::new(self.table(), Stream::Stdout)
    }

    /// Returns a writer for the standard error, which translates any
    /// internal filenames written to it into external filenames.
    pub fn stderr(&self) -> (w: Writer<'_>)
        ensures
            w.table() == self@,
            w.target() == Stream::Stderr,
            w.pending() == Seq::<u8>::empty(),
    {
        Writer::new(self.table(), Stream::Stderr)
    }

    /// Writes a log message through a fresh writer for the standard error,
    /// and returns what that writer sends to its sink: the log line, with any
    /// internal filenames translated into external filenames.
    pub fn log(&self, level: Level, context: &str, message: &str) -> (sent: Vec<u8>)
        ensures
            sent@ == feed(self@, Seq::empty(), log_line(level, context@, message@)).0,
    {
        let mut line: Vec<u8> = Vec::new();
        log(&mut line, level, context, message);
        assert(line@ =~= log_line(level, context@, message@));
        let mut writer = self.stderr();
        let (_, sent) = writer.write(line.as_slice());
        sent
    }
}

} // verus!
