//! The older front end. It knows no magic levels and no access modes: every
//! binding permits everything, the escape character is `?`, and tokens are
//! bare UUIDs. To tell a path from other text it also looks at the host: a
//! name with a known media type counts as a path only if it exists.
//!
//! Looking at the host is not done here. The decision is a function of the
//! text and of the answers to the lookups made so far; `legacy_probe` names
//! the next path to look up, until the decision is settled.

use crate::rewrite::{
    bound, bound_all, byte_strings, lemma_bound_all_extends, lemma_first_reject_is,
    lemma_run_step, list_targets, names_of, output, outputs, raw_target, run, target_of, texts,
    values_of, Error, ErrorKind, Rewrite,
};
use crate::table::{
    bare_tokens_ok, bindings_of, lemma_bind_one, resolve, resolved, Access, Binding, OpenError,
    Preopen, Request, Table,
};
use crate::text::{
    contains_text, find_char, first_index, lemma_first_index, lemma_slash_before, occurs, split,
    to_chars, utf8_text,
};
use crate::writer::{Stream, Writer};
use vstd::prelude::*;
use vstd::string::*;
use vstd::utf8::{decode_utf8, encode_utf8, encode_utf8_decode_utf8, valid_utf8};

verus! {

/// The character that introduces an escape of the older front end.
pub const ESCAPE: char = '?';

/// What marks a URL.
pub const URL_MARK: &'static str = "://";

/// What a lookup of a path on the host came to.
#[derive(Debug, Clone, Copy, PartialEq, Eq, Structural)]
pub enum Stat {
    /// There is something at the path.
    Found,
    /// There is nothing at the path.
    NotFound,
    /// The lookup failed for another reason.
    Failed,
}

/// Whether a lookup lets its path count as present: it does unless it found
/// that there is nothing.
pub open spec fn present(stat: Stat) -> bool {
    !(stat is NotFound)
}

/// Whether `mime_guess` knows no media type for the extension of `path`.
pub uninterp spec fn unknown_media_type(path: Seq<char>) -> bool;

/// `mime_guess::from_path` looks the extension of `path` up in its table of
/// media types, without any access to the disk, and `MimeGuess::is_empty`
/// tells whether that found nothing. The answer depends on the text alone.
#[verifier::external_body]
fn media_type_unknown(path: &str) -> (r: bool)
    ensures
        r == unknown_media_type(path@),
{
    mime_guess::from_path(path).is_empty()
}

/// What is known about one text: the path to look up where the answer is
/// missing, and whether the text counts as a path. A text with a slash is a
/// path; one with a known media type is a path if the lookup with number `a`
/// found it present, and a missing answer counts as not found; any other
/// text is no path.
pub open spec fn look(p: Seq<char>, answers: Seq<Stat>, a: int) -> (Option<Seq<char>>, bool) {
    if p.contains('/') {
        (None, true)
    } else if unknown_media_type(p) {
        (None, false)
    } else if 0 <= a < answers.len() {
        (None, present(answers[a]))
    } else {
        (Some(p), false)
    }
}

/// How many answers `look` reads for `p`.
pub open spec fn looked(p: Seq<char>) -> int {
    if !p.contains('/') && !unknown_media_type(p) {
        1
    } else {
        0
    }
}

/// What is known about the pieces from `k` on, read in order, the lookups
/// numbered from `a`: the path to look up where an answer is missing, and
/// whether every piece counts as a path. Reading stops at the first piece
/// that does not.
pub open spec fn walk(pieces: Seq<Seq<char>>, k: int, answers: Seq<Stat>, a: int) -> (
    Option<Seq<char>>,
    bool,
)
    decreases pieces.len() - k,
{
    if k < 0 || k >= pieces.len() {
        (None, true)
    } else {
        let here = look(pieces[k], answers, a);
        if here.1 {
            walk(pieces, k + 1, answers, a + looked(pieces[k]))
        } else {
            here
        }
    }
}

/// The path whose presence tells a path with colons from a list: `arg` up
/// to the first slash that follows its first colon.
pub open spec fn colon_probe(arg: Seq<char>) -> Seq<char> {
    let colon = first_index(arg, ':');
    arg.take(colon + first_index(arg.skip(colon), '/'))
}

/// The decision to bind `arg` as one path.
pub open spec fn whole(arg: Seq<char>) -> Rewrite {
    Rewrite::Bind { lead: Seq::empty(), targets: seq![target_of(arg)], access: Access::Any }
}

/// The decision about `arg` as a whole, by whether it counts as a path.
pub open spec fn path_or_text(arg: Seq<char>, likely: bool) -> Rewrite {
    if likely {
        whole(arg)
    } else {
        Rewrite::Verbatim(arg)
    }
}

/// What the older front end knows about an argument after some lookups.
pub struct Legacy {
    /// The path to look up next; `None` once the decision is settled.
    pub ask: Option<Seq<char>>,
    /// The decision, with every missing answer counted as not found.
    pub decision: Rewrite,
}

/// What the older front end makes of `arg`, given the answers to the
/// lookups made so far, in the order in which they were asked for.
///
/// An argument that begins with `?` is an escape: `?=` passes the rest on,
/// anything else is refused. An argument with a colon is passed on if it
/// holds `://`; it is one path if the lookup of its `colon_probe` finds
/// something; else it is a list of paths if every piece is a path, and is
/// passed on if not. In an argument without a colon, what follows the first
/// `=` is bound if no slash stands before the `=` and it is a path; else the
/// argument is bound if it is a path, and passed on if not.
pub open spec fn legacy(arg: Seq<char>, answers: Seq<Stat>) -> Legacy {
    if arg.len() > 0 && arg[0] == ESCAPE {
        Legacy {
            ask: None,
            decision: if arg.len() > 1 && arg[1] == '=' {
                Rewrite::Verbatim(arg.skip(2))
            } else {
                Rewrite::Reject(ErrorKind::ReservedQuestionMark)
            },
        }
    } else if arg.contains(':') {
        if occurs(URL_MARK@, arg) {
            Legacy { ask: None, decision: Rewrite::Verbatim(arg) }
        } else if answers.len() > 0 && present(answers[0]) {
            Legacy { ask: None, decision: whole(arg) }
        } else {
            let w = walk(split(arg, ':'), 0, answers, 1);
            Legacy {
                ask: if answers.len() == 0 {
                    Some(colon_probe(arg))
                } else {
                    w.0
                },
                decision: if w.1 {
                    Rewrite::Bind {
                        lead: Seq::empty(),
                        targets: list_targets(arg),
                        access: Access::Any,
                    }
                } else {
                    Rewrite::Verbatim(arg)
                },
            }
        }
    } else {
        let eq = first_index(arg, '=');
        let suffix = arg.skip(eq + 1);
        if arg.contains('=') && !arg.take(eq + 1).contains('/') {
            let first = look(suffix, answers, 0);
            if first.1 {
                Legacy {
                    ask: None,
                    decision: Rewrite::Bind {
                        lead: arg.take(eq + 1),
                        targets: seq![target_of(suffix)],
                        access: Access::Any,
                    },
                }
            } else {
                let second = look(arg, answers, looked(suffix));
                Legacy {
                    ask: if first.0 is Some {
                        first.0
                    } else {
                        second.0
                    },
                    decision: path_or_text(arg, second.1),
                }
            }
        } else {
            let only = look(arg, answers, 0);
            Legacy { ask: only.0, decision: path_or_text(arg, only.1) }
        }
    }
}

/// What the older front end decides about a host string: one that is valid
/// Unicode is treated as its text is; any other is bound as a whole.
pub open spec fn legacy_os(arg: Seq<u8>, answers: Seq<Stat>) -> Legacy {
    if valid_utf8(arg) {
        legacy(decode_utf8(arg), answers)
    } else {
        Legacy {
            ask: None,
            decision: Rewrite::Bind {
                lead: Seq::empty(),
                targets: seq![raw_target(arg)],
                access: Access::Any,
            },
        }
    }
}

/// The decision about a variable in host strings: a name that is not valid
/// Unicode is refused.
pub open spec fn legacy_var_os(name: Seq<u8>, value: Seq<u8>, answers: Seq<Stat>) -> Rewrite {
    if valid_utf8(name) {
        legacy_os(value, answers).decision
    } else {
        Rewrite::Reject(ErrorKind::IllFormedName)
    }
}

/// The answers for the item with number `i`: none where the list is too
/// short.
pub open spec fn answers_for(answers: Seq<Vec<Stat>>, i: int) -> Seq<Stat> {
    if 0 <= i < answers.len() {
        answers[i]@
    } else {
        Seq::empty()
    }
}

/// The decisions about a list of arguments.
pub open spec fn legacy_args(args: Seq<Seq<char>>, answers: Seq<Vec<Stat>>) -> Seq<Rewrite> {
    Seq::new(args.len(), |i: int| legacy(args[i], answers_for(answers, i)).decision)
}

/// The decisions about a list of host strings.
pub open spec fn legacy_args_os(args: Seq<Seq<u8>>, answers: Seq<Vec<Stat>>) -> Seq<Rewrite> {
    Seq::new(args.len(), |i: int| legacy_os(args[i], answers_for(answers, i)).decision)
}

/// The decisions about a list of variables in host strings.
pub open spec fn legacy_vars_os(vars: Seq<(Vec<u8>, Vec<u8>)>, answers: Seq<Vec<Stat>>) -> Seq<
    Rewrite,
> {
    Seq::new(
        vars.len(),
        |i: int| legacy_var_os(vars[i].0@, vars[i].1@, answers_for(answers, i)),
    )
}

/// The text of a string that may be missing.
pub open spec fn text_of(s: Option<String>) -> Option<Seq<char>> {
    match s {
        Some(s) => Some(s@),
        None => None,
    }
}

/// The form of a decision, over positions in the argument.
enum Shape {
    /// Pass on what begins at this position.
    Verbatim(usize),
    /// Refuse.
    Reject,
    /// Bind the argument as one path.
    Whole,
    /// Bind each colon-separated piece.
    List,
    /// Bind what begins at this position, behind what stands before it.
    Suffix(usize),
}

/// The decision that a shape stands for.
spec fn shape_rewrite(arg: Seq<char>, shape: Shape) -> Rewrite {
    match shape {
        Shape::Verbatim(k) => Rewrite::Verbatim(arg.skip(k as int)),
        Shape::Reject => Rewrite::Reject(ErrorKind::ReservedQuestionMark),
        Shape::Whole => whole(arg),
        Shape::List => Rewrite::Bind {
            lead: Seq::empty(),
            targets: list_targets(arg),
            access: Access::Any,
        },
        Shape::Suffix(k) => Rewrite::Bind {
            lead: arg.take(k as int),
            targets: seq![target_of(arg.skip(k as int))],
            access: Access::Any,
        },
    }
}

/// The positions of a shape lie within the argument.
spec fn shape_fits(arg: Seq<char>, shape: Shape) -> bool {
    match shape {
        Shape::Verbatim(k) => k <= arg.len(),
        Shape::Suffix(k) => k <= arg.len(),
        _ => true,
    }
}

/// Whether a lookup lets its path count as present. A path whose lookup
/// fails for another reason than that nothing is there counts as present.
pub fn is_more_likely_path_than_list(stat: Stat) -> (r: bool)
    ensures
        r == present(stat),
{
    !matches!(stat, Stat::NotFound)
}

/// Whether `p` counts as a path for the older front end, and the path to
/// look up where that takes an answer that is missing.
fn is_likely_path(p: &str, v: &Vec<char>, answers: &[Stat], a: usize) -> (r: (
    Option<String>,
    bool,
))
    requires
        v@ == p@,
    ensures
        (text_of(r.0), r.1) == look(p@, answers@, a as int),
{
    let slash = find_char(v, 0, '/');
    proof {
        assert(v@.skip(0) =~= v@);
        lemma_first_index(v@, '/');
    }
    if slash < v.len() {
        return (None, true);
    }
    if media_type_unknown(p) {
        return (None, false);
    }
    if a < answers.len() {
        return (None, is_more_likely_path_than_list(answers[a]));
    }
    (Some(p.to_owned()), false)
}

/// Reads the colon-separated pieces of `arg` in order.
fn walk_pieces(arg: &str, v: &Vec<char>, answers: &[Stat]) -> (r: (Option<String>, bool))
    requires
        v@ == arg@,
    ensures
        (text_of(r.0), r.1) == walk(split(arg@, ':'), 0, answers@, 1),
{
    let n = v.len();
    let ghost pieces = split(arg@, ':');
    let mut start: usize = 0;
    let mut a: usize = 1;
    let ghost mut k: int = 0;
    assert(v@.skip(0) =~= v@);
    assert(pieces.take(0) + pieces =~= pieces);
    loop
        invariant
            start <= n,
            n == v.len(),
            v@ == arg@,
            pieces == split(arg@, ':'),
            0 <= k < pieces.len(),
            pieces == pieces.take(k) + split(v@.skip(start as int), ':'),
            a == 1 || a <= answers.len(),
            walk(pieces, 0, answers@, 1) == walk(pieces, k, answers@, a as int),
        decreases n - start,
    {
        let end = find_char(v, start, ':');
        let piece = arg.substring_char(start, end);
        proof {
            let t = v@.skip(start as int);
            let rest = split(t, ':');
            assert(t.take(end - start) =~= v@.subrange(start as int, end as int));
            if end == n {
                assert(t =~= v@.subrange(start as int, end as int));
                assert(rest == seq![t]);
            } else {
                assert(t.skip(end - start + 1) =~= v@.skip(end + 1));
                assert(rest == seq![t.take(end - start)] + split(t.skip(end - start + 1), ':'));
            }
            assert(rest[0] == piece@);
            assert(pieces.len() == k + rest.len());
            assert(pieces[k] == rest[0]);
            if end != n {
                assert(pieces.take(k + 1) =~= pieces.take(k).push(piece@));
                assert(pieces =~= pieces.take(k + 1) + split(v@.skip(end + 1), ':'));
            }
        }
        let chars = to_chars(piece);
        let here = is_likely_path(piece, &chars, answers, a);
        if !here.1 {
            return here;
        }
        if end == n {
            proof {
                assert(walk(pieces, k + 1, answers@, a + looked(pieces[k])) == (
                    None::<Seq<char>>,
                    true,
                ));
            }
            return (None, true);
        }
        proof {
            lemma_first_index(piece@, '/');
        }
        let slash = find_char(&chars, 0, '/');
        assert(chars@.skip(0) =~= chars@);
        if slash == chars.len() && a < answers.len() {
            a += 1;
        }
        start = end + 1;
        proof {
            k = k + 1;
        }
    }
}

/// What the older front end makes of `arg`: the path to look up next, and
/// the form of the decision.
fn settle(arg: &str, v: &Vec<char>, answers: &[Stat]) -> (r: (Option<String>, Shape))
    requires
        v@ == arg@,
    ensures
        text_of(r.0) == legacy(arg@, answers@).ask,
        shape_rewrite(arg@, r.1) == legacy(arg@, answers@).decision,
        shape_fits(arg@, r.1),
{
    let n = v.len();
    assert(v@.skip(0) =~= v@);
    if n > 0 && v[0] == ESCAPE {
        if n > 1 && v[1] == '=' {
            return (None, Shape::Verbatim(2));
        }
        return (None, Shape::Reject);
    }
    let colon = find_char(v, 0, ':');
    proof {
        lemma_first_index(v@, ':');
    }
    if colon < n {
        let mark = to_chars(URL_MARK);
        if contains_text(v, &mark) {
            assert(arg@.skip(0) =~= arg@);
            return (None, Shape::Verbatim(0));
        }
        if answers.len() > 0 && is_more_likely_path_than_list(answers[0]) {
            return (None, Shape::Whole);
        }
        let w = walk_pieces(arg, v, answers);
        let ask = if answers.len() == 0 {
            let slash = find_char(v, colon, '/');
            let probe = arg.substring_char(0, slash);
            assert(probe@ =~= colon_probe(arg@));
            Some(probe.to_owned())
        } else {
            w.0
        };
        if w.1 {
            return (ask, Shape::List);
        }
        assert(arg@.skip(0) =~= arg@);
        return (ask, Shape::Verbatim(0));
    }
    let eq = find_char(v, 0, '=');
    proof {
        lemma_first_index(v@, '=');
    }
    let mut first_ask: Option<String> = None;
    let mut a: usize = 0;
    if eq < n {
        let slash = find_char(v, 0, '/');
        proof {
            lemma_slash_before(v@, eq as int);
        }
        if slash > eq {
            let suffix = arg.substring_char(eq + 1, n);
            assert(suffix@ =~= arg@.skip(eq + 1));
            let chars = to_chars(suffix);
            let first = is_likely_path(suffix, &chars, answers, 0);
            if first.1 {
                return (None, Shape::Suffix(eq + 1));
            }
            first_ask = first.0;
            let inner_slash = find_char(&chars, 0, '/');
            proof {
                assert(chars@.skip(0) =~= chars@);
                lemma_first_index(chars@, '/');
            }
            if inner_slash == chars.len() && !media_type_unknown(suffix) {
                a = 1;
            }
        }
    }
    let second = is_likely_path(arg, v, answers, a);
    let ask = if first_ask.is_some() {
        first_ask
    } else {
        second.0
    };
    if second.1 {
        (ask, Shape::Whole)
    } else {
        assert(arg@.skip(0) =~= arg@);
        (ask, Shape::Verbatim(0))
    }
}

/// The next path to look up on the host before the older front end can
/// decide about `arg`, given the answers to the lookups made so far; `None`
/// once it can decide.
pub fn legacy_probe(arg: &str, answers: &[Stat]) -> (ask: Option<String>)
    ensures
        text_of(ask) == legacy(arg@, answers@).ask,
{
    let v = to_chars(arg);
    settle(arg, &v, answers).0
}

/// The next path to look up on the host before the older front end can
/// decide about the host string `arg`. A string that is not valid Unicode
/// takes no lookup.
pub fn legacy_probe_os(arg: &[u8], answers: &[Stat]) -> (ask: Option<String>)
    ensures
        text_of(ask) == legacy_os(arg@, answers@).ask,
{
    match utf8_text(arg) {
        Some(s) => {
            proof {
                encode_utf8_decode_utf8(s@);
            }
            legacy_probe(s, answers)
        },
        None => None,
    }
}

/// An "environment" which separates external paths from internal paths.
pub struct Env {
    table: Table,
}

impl View for Env {
    type V = Seq<Binding>;

    /// The bindings, in insertion order.
    closed spec fn view(&self) -> Seq<Binding> {
        self.table@
    }
}

impl Env {
    /// The invariant of the environment: its tokens are bare UUIDs.
    #[verifier::type_invariant]
    pub closed spec fn wf(&self) -> bool {
        &&& self.table.wf()
        &&& !self.table.prefixed()
    }

    /// What the invariant says, over the view.
    pub proof fn lemma_wf(&self)
        requires
            self.wf(),
        ensures
            bare_tokens_ok(self@),
    {
        self.table.lemma_wf();
    }

    /// Constructs a new empty instance of `Env`.
    pub fn new() -> (r: Self)
        ensures
            r@ == Seq::<Binding>::empty(),
            r.wf(),
    {
        Env { table: Table::new(false) }
    }

    /// The capability table.
    pub fn table(&self) -> (t: &Table)
        ensures
            t@ == self@,
            !t.prefixed(),
    {
        proof {
            use_type_invariant(self);
        }
        &self.table
    }

    /// The bindings, in insertion order.
    pub fn preopens(&self) -> (s: &[Preopen])
        ensures
            bindings_of(s@) == self@,
            bare_tokens_ok(self@),
    {
        proof {
            use_type_invariant(self);
        }
        self.table.as_slice()
    }

    /// Takes the table out, so that it can grow while the invariant holds
    /// of `self`; an empty table stands in for it.
    fn take_table(&mut self) -> (t: Table)
        ensures
            final(self)@ == Seq::<Binding>::empty(),
            t@ == old(self)@,
            !t.prefixed(),
    {
        proof {
            use_type_invariant(&*self);
        }
        let mut t = Table::new(false);
        core::mem::swap(&mut self.table, &mut t);
        t
    }

    /// Puts a table back that was taken out.
    fn put_table(&mut self, t: Table)
        requires
            !t.prefixed(),
        ensures
            final(self)@ == t@,
    {
        let mut t = t;
        proof {
            use_type_invariant(&t);
        }
        core::mem::swap(&mut self.table, &mut t);
    }

    /// Replaces any paths in `arg` with fresh tokens, and records the
    /// bindings. `answers` holds what the lookups came to that
    /// `legacy_probe` asked for; an answer that is missing counts as not
    /// found.
    pub fn process(&mut self, arg: String, answers: &[Stat]) -> (res: Result<String, Error>)
        ensures
            final(self).wf(),
            bound(legacy(arg@, answers@).decision, old(self)@, final(self)@),
            match res {
                Ok(s) => !(legacy(arg@, answers@).decision is Reject) && s@ == output(
                    legacy(arg@, answers@).decision,
                    old(self)@.len() as int,
                    final(self)@,
                ),
                Err(e) => legacy(arg@, answers@).decision == Rewrite::Reject(e.kind),
            },
    {
        proof {
            use_type_invariant(&*self);
        }
        let v = to_chars(arg.as_str());
        let n = v.len();
        let shape = settle(arg.as_str(), &v, answers).1;
        let ghost before = self@;
        match shape {
            Shape::Verbatim(k) => {
                let text = arg.as_str().substring_char(k, n);
                assert(text@ =~= arg@.skip(k as int));
                Ok(text.to_owned())
            },
            Shape::Reject => Err(Error { kind: ErrorKind::ReservedQuestionMark }),
            Shape::Whole => {
                let mut table = self.take_table();
                let out = table.replace_with_uuid(arg.as_str(), Access::Any);
                self.put_table(table);
                proof {
                    use_type_invariant(&*self);
                    lemma_bind_one(Seq::empty(), target_of(arg@), Access::Any, before, self@);
                    assert(Seq::<char>::empty() + out@ =~= out@);
                }
                Ok(out)
            },
            Shape::List => {
                let mut table = self.take_table();
                let out = table.replace_list(arg.as_str(), &v, Access::Any);
                self.put_table(table);
                proof {
                    use_type_invariant(&*self);
                }
                Ok(out)
            },
            Shape::Suffix(k) => {
                let lead = arg.as_str().substring_char(0, k);
                let suffix = arg.as_str().substring_char(k, n);
                assert(lead@ =~= arg@.take(k as int));
                assert(suffix@ =~= arg@.skip(k as int));
                let mut out = lead.to_owned();
                let mut table = self.take_table();
                let text = table.replace_with_uuid(suffix, Access::Any);
                self.put_table(table);
                out.append(text.as_str());
                proof {
                    use_type_invariant(&*self);
                    lemma_bind_one(lead@, target_of(suffix@), Access::Any, before, self@);
                }
                Ok(out)
            },
        }
    }

    /// Replaces any paths in the host string `arg` with fresh tokens, and
    /// records the bindings. A string that is not valid Unicode is taken for
    /// a path as a whole.
    pub fn process_os(&mut self, arg: &[u8], answers: &[Stat]) -> (res: Result<String, Error>)
        ensures
            final(self).wf(),
            bound(legacy_os(arg@, answers@).decision, old(self)@, final(self)@),
            match res {
                Ok(s) => !(legacy_os(arg@, answers@).decision is Reject) && s@ == output(
                    legacy_os(arg@, answers@).decision,
                    old(self)@.len() as int,
                    final(self)@,
                ),
                Err(e) => legacy_os(arg@, answers@).decision == Rewrite::Reject(e.kind),
            },
    {
        proof {
            use_type_invariant(&*self);
        }
        match utf8_text(arg) {
            Some(s) => {
                proof {
                    encode_utf8_decode_utf8(s@);
                }
                self.process(s.to_owned(), answers)
            },
            None => {
                let ghost before = self@;
                let mut table = self.take_table();
                let out = table.replace_os_with_uuid(arg, Access::Any);
                self.put_table(table);
                proof {
                    use_type_invariant(&*self);
                    lemma_bind_one(Seq::empty(), raw_target(arg@), Access::Any, before, self@);
                    assert(Seq::<char>::empty() + (out@ + Seq::<char>::empty()) =~= out@);
                }
                Ok(out)
            },
        }
    }

    /// The host path of the file to open, given an internal filename.
    pub fn open(&self, path: &str) -> (res: Result<Vec<u8>, OpenError>)
        ensures
            resolved(res) == resolve(self@, Request::Read, path@),
    {
        self.table.resolve(path, Request::Read)
    }

    /// Returns a writer for the standard output, which translates any
    /// internal filenames written to it into external filenames.
    pub fn stdout(&self) -> (w: Writer<'_>)
        ensures
            w.table() == self@,
            w.target() == Stream::Stdout,
            w.pending() == Seq::<u8>::empty(),
    {
        Writer::new(self.table(), Stream::Stdout)
    }

    /// Returns a writer for the standard error, which translates any
    /// internal filenames written to it into external filenames.
    pub fn stderr(&self) -> (w: Writer<'_>)
        ensures
            w.table() == self@,
            w.target() == Stream::Stderr,
            w.pending() == Seq::<u8>::empty(),
    {
        Writer::new(self.table(), Stream::Stderr)
    }

    /// Adds the given command-line arguments to the environment, and returns
    /// the translated list of arguments. `answers` holds, for each argument
    /// in turn, what the lookups came to that `legacy_probe` asked for.
    #[verifier::spinoff_prover]
    pub fn process_args(
        &mut self,
        args: Vec<String>,
        answers: &Vec<Vec<Stat>>,
    ) -> (res: Result<Vec<String>, Error>)
        ensures
            final(self).wf(),
            run(
                legacy_args(texts(args@), answers@),
                old(self)@,
                final(self)@,
                match res {
                    Ok(out) => Ok(texts(out@)),
                    Err(e) => Err(e.kind),
                },
            ),
    {
        let ghost rws = legacy_args(texts(args@), answers@);
        let ghost before = self@;
        let none: Vec<Stat> = Vec::new();
        let mut done: Vec<String> = Vec::new();
        let mut i: usize = 0;
        proof {
            use_type_invariant(&*self);
            assert(texts(done@) =~= Seq::<Seq<char>>::empty());
        }
        while i < args.len()
            invariant
                i <= args.len(),
                self.wf(),
                before == old(self)@,
                none@ == Seq::<Stat>::empty(),
                rws == legacy_args(texts(args@), answers@),
                forall|j: int| 0 <= j < i ==> !(#[trigger] rws[j] is Reject),
                bound_all(rws.take(i as int), before, self@),
                texts(done@) == outputs(rws.take(i as int), before.len() as int, self@),
            decreases args.len() - i,
        {
            let ghost mid = self@;
            let ghost shown = texts(done@);
            let known: &[Stat] = if i < answers.len() {
                answers[i].as_slice()
            } else {
                none.as_slice()
            };
            assert(known@ == answers_for(answers@, i as int));
            match self.process(args[i].clone(), known) {
                Ok(s) => {
                    done.push(s);
                    proof {
                        lemma_run_step(rws, i as int, before, mid, self@);
                        lemma_bound_all_extends(rws.take(i as int), before, mid);
                        assert(texts(done@) =~= shown.push(s@));
                    }
                },
                Err(e) => {
                    proof {
                        lemma_first_reject_is(rws, i as int);
                    }
                    return Err(e);
                },
            }
            i += 1;
        }
        proof {
            lemma_first_reject_is(rws, i as int);
            assert(rws.take(i as int) =~= rws);
        }
        Ok(done)
    }

    /// Adds the given command-line arguments, as host strings, to the
    /// environment, and returns the translated list of arguments.
    #[verifier::spinoff_prover]
    pub fn process_args_os(
        &mut self,
        args: Vec<Vec<u8>>,
        answers: &Vec<Vec<Stat>>,
    ) -> (res: Result<Vec<String>, Error>)
        ensures
            final(self).wf(),
            run(
                legacy_args_os(byte_strings(args@), answers@),
                old(self)@,
                final(self)@,
                match res {
                    Ok(out) => Ok(texts(out@)),
                    Err(e) => Err(e.kind),
                },
            ),
    {
        let ghost rws = legacy_args_os(byte_strings(args@), answers@);
        let ghost before = self@;
        let none: Vec<Stat> = Vec::new();
        let mut done: Vec<String> = Vec::new();
        let mut i: usize = 0;
        proof {
            use_type_invariant(&*self);
            assert(texts(done@) =~= Seq::<Seq<char>>::empty());
        }
        while i < args.len()
            invariant
                i <= args.len(),
                self.wf(),
                before == old(self)@,
                none@ == Seq::<Stat>::empty(),
                rws == legacy_args_os(byte_strings(args@), answers@),
                forall|j: int| 0 <= j < i ==> !(#[trigger] rws[j] is Reject),
                bound_all(rws.take(i as int), before, self@),
                texts(done@) == outputs(rws.take(i as int), before.len() as int, self@),
            decreases args.len() - i,
        {
            let ghost mid = self@;
            let ghost shown = texts(done@);
            let known: &[Stat] = if i < answers.len() {
                answers[i].as_slice()
            } else {
                none.as_slice()
            };
            assert(known@ == answers_for(answers@, i as int));
            match self.process_os(args[i].as_slice(), known) {
                Ok(s) => {
                    done.push(s);
                    proof {
                        lemma_run_step(rws, i as int, before, mid, self@);
                        lemma_bound_all_extends(rws.take(i as int), before, mid);
                        assert(texts(done@) =~= shown.push(s@));
                    }
                },
                Err(e) => {
                    proof {
                        lemma_first_reject_is(rws, i as int);
                    }
                    return Err(e);
                },
            }
            i += 1;
        }
        proof {
            lemma_first_reject_is(rws, i as int);
            assert(rws.take(i as int) =~= rws);
        }
        Ok(done)
    }

    /// Adds the given environment variables to the environment, and returns
    /// the translated list of environment variables. The names stay as they
    /// are.
    #[verifier::spinoff_prover]
    pub fn process_vars(
        &mut self,
        envs: Vec<(String, String)>,
        answers: &Vec<Vec<Stat>>,
    ) -> (res: Result<Vec<(String, String)>, Error>)
        ensures
            final(self).wf(),
            run(
                legacy_args(values_of(envs@), answers@),
                old(self)@,
                final(self)@,
                match res {
                    Ok(out) => Ok(values_of(out@)),
                    Err(e) => Err(e.kind),
                },
            ),
            res matches Ok(out) ==> names_of(out@) == names_of(envs@),
    {
        let ghost rws = legacy_args(values_of(envs@), answers@);
        let ghost before = self@;
        let none: Vec<Stat> = Vec::new();
        let mut done: Vec<(String, String)> = Vec::new();
        let mut i: usize = 0;
        proof {
            use_type_invariant(&*self);
            assert(values_of(done@) =~= Seq::<Seq<char>>::empty());
            assert(names_of(done@) =~= names_of(envs@).take(0));
        }
        while i < envs.len()
            invariant
                i <= envs.len(),
                self.wf(),
                before == old(self)@,
                none@ == Seq::<Stat>::empty(),
                rws == legacy_args(values_of(envs@), answers@),
                forall|j: int| 0 <= j < i ==> !(#[trigger] rws[j] is Reject),
                bound_all(rws.take(i as int), before, self@),
                values_of(done@) == outputs(rws.take(i as int), before.len() as int, self@),
                names_of(done@) == names_of(envs@).take(i as int),
            decreases envs.len() - i,
        {
            let ghost mid = self@;
            let ghost shown = values_of(done@);
            let known: &[Stat] = if i < answers.len() {
                answers[i].as_slice()
            } else {
                none.as_slice()
            };
            assert(known@ == answers_for(answers@, i as int));
            let ghost seen = names_of(done@);
            let key = envs[i].0.clone();
            match self.process(envs[i].1.clone(), known) {
                Ok(s) => {
                    done.push((key, s));
                    proof {
                        lemma_run_step(rws, i as int, before, mid, self@);
                        lemma_bound_all_extends(rws.take(i as int), before, mid);
                        assert(values_of(done@) =~= shown.push(s@));
                        assert(names_of(done@) =~= seen.push(key@));
                        assert(names_of(envs@).take(i + 1) =~= names_of(envs@).take(i as int).push(
                            key@,
                        ));
                    }
                },
                Err(e) => {
                    proof {
                        lemma_first_reject_is(rws, i as int);
                    }
                    return Err(e);
                },
            }
            i += 1;
        }
        proof {
            lemma_first_reject_is(rws, i as int);
            assert(rws.take(i as int) =~= rws);
        }
        Ok(done)
    }

    /// Adds the given environment variables, as host strings, to the
    /// environment, and returns the translated list of environment
    /// variables. A name that is not valid Unicode fails the whole operation;
    /// the names that are come back as text.
    #[verifier::spinoff_prover]
    pub fn process_vars_os(
        &mut self,
        envs: Vec<(Vec<u8>, Vec<u8>)>,
        answers: &Vec<Vec<Stat>>,
    ) -> (res: Result<Vec<(String, String)>, Error>)
        ensures
            final(self).wf(),
            run(
                legacy_vars_os(envs@, answers@),
                old(self)@,
                final(self)@,
                match res {
                    Ok(out) => Ok(values_of(out@)),
                    Err(e) => Err(e.kind),
                },
            ),
            res matches Ok(out) ==> {
                &&& out@.len() == envs@.len()
                &&& forall|j: int|
                    0 <= j < out@.len() ==> encode_utf8((#[trigger] out@[j]).0@) == envs@[j].0@
            },
    {
        let ghost rws = legacy_vars_os(envs@, answers@);
        let ghost before = self@;
        let none: Vec<Stat> = Vec::new();
        let mut done: Vec<(String, String)> = Vec::new();
        let mut i: usize = 0;
        proof {
            use_type_invariant(&*self);
            assert(values_of(done@) =~= Seq::<Seq<char>>::empty());
        }
        while i < envs.len()
            invariant
                i <= envs.len(),
                self.wf(),
                before == old(self)@,
                none@ == Seq::<Stat>::empty(),
                rws == legacy_vars_os(envs@, answers@),
                forall|j: int| 0 <= j < i ==> !(#[trigger] rws[j] is Reject),
                bound_all(rws.take(i as int), before, self@),
                values_of(done@) == outputs(rws.take(i as int), before.len() as int, self@),
                done@.len() == i,
                forall|j: int| 0 <= j < i ==> encode_utf8((#[trigger] done@[j]).0@) == envs@[j].0@,
            decreases envs.len() - i,
        {
            let ghost mid = self@;
            let ghost shown = values_of(done@);
            let known: &[Stat] = if i < answers.len() {
                answers[i].as_slice()
            } else {
                none.as_slice()
            };
            assert(known@ == answers_for(answers@, i as int));
            let key = match utf8_text(envs[i].0.as_slice()) {
                Some(key) => key.to_owned(),
                None => {
                    proof {
                        lemma_first_reject_is(rws, i as int);
                    }
                    return Err(Error { kind: ErrorKind::IllFormedName });
                },
            };
            match self.process_os(envs[i].1.as_slice(), known) {
                Ok(s) => {
                    done.push((key, s));
                    proof {
                        lemma_run_step(rws, i as int, before, mid, self@);
                        lemma_bound_all_extends(rws.take(i as int), before, mid);
                        assert(values_of(done@) =~= shown.push(s@));
                    }
                },
                Err(e) => {
                    proof {
                        lemma_first_reject_is(rws, i as int);
                    }
                    return Err(e);
                },
            }
            i += 1;
        }
        proof {
            lemma_first_reject_is(rws, i as int);
            assert(rws.take(i as int) =~= rws);
        }
        Ok(done)
    }
}

} // verus!
