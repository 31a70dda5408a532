//! What the input side does with one argument: the decision, as a
//! mathematical function of the magic level and the text, and how a decision
//! changes the capability table and what string it yields.

use crate::classifier::{extension, likely_path, stem};
use crate::table::{Access, Binding};
use crate::text::{first_index, join, split};
use vstd::prelude::*;
use vstd::utf8::{encode_utf8, valid_utf8, decode_utf8};

verus! {

/// The level of path inference that should be performed.
///
/// The automatic levels recognise a variety of path strings, which is
/// convenient on a command line, but they guess: a path may go unrecognised,
/// or a string may be taken for a path and access granted to something
/// unintended. The explicit `%` directives are exact at every level but
/// `NoMagic`.
#[derive(Debug, Copy, Clone, PartialEq, Eq, PartialOrd, Ord, Structural)]
pub enum MagicLevel {
    /// No magic. No preopens are produced and no strings are translated.
    NoMagic,
    /// Interpret `%`-prefixed special arguments, but do nothing else.
    Escapes,
    /// Interpret `%`-prefixed special arguments, and also infer read-only
    /// access for path-like strings.
    Readonly,
    /// Interpret `%`-prefixed special arguments, and auto-infer full access
    /// for path-like strings.
    Auto,
}

/// Why an argument or a variable was refused.
#[derive(Debug, Copy, Clone, PartialEq, Eq, Structural)]
pub enum ErrorKind {
    /// The argument begins with `%` and is none of the directives.
    ReservedPrefix,
    /// The argument begins with `?`, the escape of the older front end, and
    /// `=` does not follow.
    ReservedQuestionMark,
    /// The name of an environment variable is not valid Unicode.
    IllFormedName,
    /// The string is not valid Unicode, and the magic level does not allow
    /// such a string to be taken for a path.
    IllFormedString,
}

/// The error of the input side.
#[derive(Debug, Copy, Clone, PartialEq, Eq, Structural)]
pub struct Error {
    pub kind: ErrorKind,
}

/// The text that goes with each kind of error.
pub open spec fn error_text(kind: ErrorKind) -> Seq<char> {
    match kind {
        ErrorKind::ReservedPrefix =>
            "Arguments beginning with '%' have special meanings. Prepend \"%verbatim:\" to pass a verbatim argument through."@,
        ErrorKind::ReservedQuestionMark =>
            "Arguments beginning with '?' have special meanings. Prepend \"?=\" to pass a verbatim argument through."@,
        ErrorKind::IllFormedName => "An environment variable name contains ill-formed Unicode"@,
        ErrorKind::IllFormedString => "ill-formed strings require a greater magic level"@,
    }
}

impl Error {
    /// The message of the error.
    pub fn message(&self) -> (s: String)
        ensures
            s@ == error_text(self.kind),
    {
        match self.kind {
            ErrorKind::ReservedPrefix =>
                "Arguments beginning with '%' have special meanings. Prepend \"%verbatim:\" to pass a verbatim argument through.".to_owned(),
            ErrorKind::ReservedQuestionMark =>
                "Arguments beginning with '?' have special meanings. Prepend \"?=\" to pass a verbatim argument through.".to_owned(),
            ErrorKind::IllFormedName =>
                "An environment variable name contains ill-formed Unicode".to_owned(),
            ErrorKind::IllFormedString =>
                "ill-formed strings require a greater magic level".to_owned(),
        }
    }
}

/// The directive that passes its argument through.
pub const VERBATIM: &'static str = "verbatim:";

/// The directive that grants reading a file.
pub const READ: &'static str = "read:";

/// The directive that grants writing, creating and truncating a file.
pub const WRITE: &'static str = "write:";

/// The directive that grants appending to a file.
pub const APPEND: &'static str = "append:";

/// The directive that grants reading a directory.
pub const DIR: &'static str = "dir:";

/// The directive that grants all operations on a directory.
pub const MUTABLE_DIR: &'static str = "mutable-dir:";

/// One path to bind: what the table is to hold as the original path, and what
/// stays visible behind the token.
pub struct Target {
    pub original: Seq<u8>,
    pub suffix: Seq<char>,
}

/// What is decided about one argument.
pub enum Rewrite {
    /// The text goes out as given here, and nothing is bound.
    Verbatim(Seq<char>),
    /// The argument is refused.
    Reject(ErrorKind),
    /// A token is bound to each target, in order, with `access`. What goes
    /// out is `lead`, then for each target its token and its suffix, with a
    /// colon between each two.
    Bind { lead: Seq<char>, targets: Seq<Target>, access: Access },
}

/// The target for a path in Unicode: the stem is bound, and the extension
/// stays visible.
pub open spec fn target_of(path: Seq<char>) -> Target {
    Target { original: encode_utf8(stem(path)), suffix: extension(path) }
}

/// The target for a host string that is not valid Unicode: all of it is
/// bound.
pub open spec fn raw_target(bytes: Seq<u8>) -> Target {
    Target { original: bytes, suffix: Seq::empty() }
}

/// The targets of the colon-separated pieces of `arg`.
pub open spec fn list_targets(arg: Seq<char>) -> Seq<Target> {
    split(arg, ':').map_values(|p: Seq<char>| target_of(p))
}

/// Every colon-separated piece of `arg` is likely to be a path.
pub open spec fn all_likely(arg: Seq<char>) -> bool {
    forall|k: int| 0 <= k < split(arg, ':').len() ==> likely_path(#[trigger] split(arg, ':')[k])
}

/// The access that an inferred path gets at `level`.
pub open spec fn inferred_access(level: MagicLevel) -> Access {
    if level is Auto {
        Access::Any
    } else {
        Access::Read
    }
}

/// What a `%` directive decides; `rest` is what follows the `%`.
pub open spec fn directive(rest: Seq<char>) -> Rewrite {
    if VERBATIM@.is_prefix_of(rest) {
        Rewrite::Verbatim(rest.skip(VERBATIM@.len() as int))
    } else if READ@.is_prefix_of(rest) {
        Rewrite::Bind {
            lead: Seq::empty(),
            targets: seq![target_of(rest.skip(READ@.len() as int))],
            access: Access::Read,
        }
    } else if WRITE@.is_prefix_of(rest) {
        Rewrite::Bind {
            lead: Seq::empty(),
            targets: seq![target_of(rest.skip(WRITE@.len() as int))],
            access: Access::Write,
        }
    } else if APPEND@.is_prefix_of(rest) {
        Rewrite::Bind {
            lead: Seq::empty(),
            targets: seq![target_of(rest.skip(APPEND@.len() as int))],
            access: Access::Append,
        }
    } else if DIR@.is_prefix_of(rest) {
        Rewrite::Bind {
            lead: Seq::empty(),
            targets: seq![target_of(rest.skip(DIR@.len() as int))],
            access: Access::ReadonlyDir,
        }
    } else if MUTABLE_DIR@.is_prefix_of(rest) {
        Rewrite::Bind {
            lead: Seq::empty(),
            targets: seq![target_of(rest.skip(MUTABLE_DIR@.len() as int))],
            access: Access::MutableDir,
        }
    } else {
        Rewrite::Reject(ErrorKind::ReservedPrefix)
    }
}

/// What the heuristics decide about an argument that is no directive.
pub open spec fn infer(arg: Seq<char>, access: Access) -> Rewrite {
    let eq = first_index(arg, '=');
    if arg.contains(':') {
        if all_likely(arg) {
            Rewrite::Bind { lead: Seq::empty(), targets: list_targets(arg), access }
        } else {
            Rewrite::Verbatim(arg)
        }
    } else if arg.contains('=') && !arg.take(eq + 1).contains('/') && likely_path(
        arg.skip(eq + 1),
    ) {
        Rewrite::Bind { lead: arg.take(eq + 1), targets: seq![target_of(arg.skip(eq + 1))], access }
    } else if likely_path(arg) {
        Rewrite::Bind { lead: Seq::empty(), targets: seq![target_of(arg)], access }
    } else {
        Rewrite::Verbatim(arg)
    }
}

/// What is decided about the argument `arg` at `level`.
pub open spec fn classify(level: MagicLevel, arg: Seq<char>) -> Rewrite {
    if level is NoMagic {
        Rewrite::Verbatim(arg)
    } else if arg.len() > 0 && arg[0] == '%' {
        directive(arg.skip(1))
    } else if level is Escapes {
        Rewrite::Verbatim(arg)
    } else {
        infer(arg, inferred_access(level))
    }
}

/// What is decided about a host string that may not be valid Unicode. One
/// that is valid is treated as its text is; one that is not is taken for a
/// bare path where the level infers paths, and refused elsewhere.
pub open spec fn classify_os(level: MagicLevel, bytes: Seq<u8>) -> Rewrite {
    if valid_utf8(bytes) {
        classify(level, decode_utf8(bytes))
    } else if level is Auto || level is Readonly {
        Rewrite::Bind {
            lead: Seq::empty(),
            targets: seq![raw_target(bytes)],
            access: inferred_access(level),
        }
    } else {
        Rewrite::Reject(ErrorKind::IllFormedString)
    }
}

/// How many bindings a decision adds.
pub open spec fn grants(rw: Rewrite) -> nat {
    match rw {
        Rewrite::Bind { targets, .. } => targets.len(),
        _ => 0,
    }
}

/// `after` is `before` with one binding more for each target of the
/// decision, in order, each with the target's original path and the
/// decision's access. Where nothing is bound, the table stays as it is.
pub open spec fn bound(rw: Rewrite, before: Seq<Binding>, after: Seq<Binding>) -> bool {
    match rw {
        Rewrite::Bind { lead, targets, access } => {
            &&& after.len() == before.len() + targets.len()
            &&& after.take(before.len() as int) == before
            &&& forall|i: int|
                0 <= i < targets.len() ==> {
                    &&& (#[trigger] after[before.len() + i]).original == targets[i].original
                    &&& after[before.len() + i].access == access
                }
        },
        _ => after == before,
    }
}

/// What each target shows: the token that the table holds for it, then its
/// suffix.
pub open spec fn shown(targets: Seq<Target>, at: int, table: Seq<Binding>) -> Seq<Seq<char>> {
    Seq::new(targets.len(), |i: int| table[at + i].token + targets[i].suffix)
}

/// The string that a decision yields; the tokens are read from `table`,
/// where the decision's bindings begin at position `at`.
pub open spec fn output(rw: Rewrite, at: int, table: Seq<Binding>) -> Seq<char> {
    match rw {
        Rewrite::Verbatim(text) => text,
        Rewrite::Reject(_) => Seq::empty(),
        Rewrite::Bind { lead, targets, access } => lead + join(shown(targets, at, table), ':'),
    }
}

/// The index of the first refused decision, or the length.
pub open spec fn first_reject(rws: Seq<Rewrite>) -> int
    decreases rws.len(),
{
    if rws.len() == 0 {
        0
    } else if rws[0] is Reject {
        0
    } else {
        1 + first_reject(rws.skip(1))
    }
}

/// How many bindings the decisions add together.
pub open spec fn grants_all(rws: Seq<Rewrite>) -> nat
    decreases rws.len(),
{
    if rws.len() == 0 {
        0
    } else {
        grants_all(rws.drop_last()) + grants(rws.last())
    }
}

/// `after` is `before` with the bindings of each decision in turn.
pub open spec fn bound_all(rws: Seq<Rewrite>, before: Seq<Binding>, after: Seq<Binding>) -> bool
    decreases rws.len(),
{
    if rws.len() == 0 {
        after == before
    } else {
        let mid = after.take(after.len() - grants(rws.last()));
        &&& after.len() >= before.len() + grants(rws.last())
        &&& bound_all(rws.drop_last(), before, mid)
        &&& bound(rws.last(), mid, after)
    }
}

/// The strings that the decisions yield, in order; the bindings of the first
/// decision begin at position `at` of `table`.
pub open spec fn outputs(rws: Seq<Rewrite>, at: int, table: Seq<Binding>) -> Seq<Seq<char>>
    decreases rws.len(),
{
    if rws.len() == 0 {
        Seq::empty()
    } else {
        outputs(rws.drop_last(), at, table).push(
            output(rws.last(), at + grants_all(rws.drop_last()), table),
        )
    }
}

/// The decisions about a list of arguments.
pub open spec fn decide_args(level: MagicLevel, args: Seq<Seq<char>>) -> Seq<Rewrite> {
    args.map_values(|a: Seq<char>| classify(level, a))
}

/// The decisions about a list of host strings.
pub open spec fn decide_args_os(level: MagicLevel, args: Seq<Seq<u8>>) -> Seq<Rewrite> {
    args.map_values(|a: Seq<u8>| classify_os(level, a))
}

/// The decision about an environment variable in host strings: a name that
/// is not valid Unicode is refused; the value is treated as an argument is.
pub open spec fn classify_var_os(level: MagicLevel, name: Seq<u8>, value: Seq<u8>) -> Rewrite {
    if valid_utf8(name) {
        classify_os(level, value)
    } else {
        Rewrite::Reject(ErrorKind::IllFormedName)
    }
}

/// The texts of a list of strings.
pub open spec fn texts(v: Seq<String>) -> Seq<Seq<char>> {
    v.map_values(|s: String| s@)
}

/// The byte sequences of a list of host strings.
pub open spec fn byte_strings(v: Seq<Vec<u8>>) -> Seq<Seq<u8>> {
    v.map_values(|s: Vec<u8>| s@)
}

/// The names of a list of variables.
pub open spec fn names_of(v: Seq<(String, String)>) -> Seq<Seq<char>> {
    v.map_values(|kv: (String, String)| kv.0@)
}

/// The values of a list of variables.
pub open spec fn values_of(v: Seq<(String, String)>) -> Seq<Seq<char>> {
    v.map_values(|kv: (String, String)| kv.1@)
}

/// The decisions about a list of variables in host strings.
pub open spec fn decide_vars_os(level: MagicLevel, v: Seq<(Vec<u8>, Vec<u8>)>) -> Seq<Rewrite> {
    v.map_values(|kv: (Vec<u8>, Vec<u8>)| classify_var_os(level, kv.0@, kv.1@))
}

/// What processing a list comes to. The decisions are carried out in order
/// up to the first one that is refused. With none refused, the result holds
/// the output of each; else it is the error of the refused one, and the
/// bindings of the decisions before it stay in the table.
pub open spec fn run(
    rws: Seq<Rewrite>,
    before: Seq<Binding>,
    after: Seq<Binding>,
    res: Result<Seq<Seq<char>>, ErrorKind>,
) -> bool {
    let k = first_reject(rws);
    &&& bound_all(rws.take(k), before, after)
    &&& match res {
        Ok(outs) => k == rws.len() && outs == outputs(rws, before.len() as int, after),
        Err(kind) => 0 <= k < rws.len() && rws[k] == Rewrite::Reject(kind),
    }
}

/// `first_reject` is within bounds, points at a refused decision unless it
/// is the length, and nothing before it is refused.
pub proof fn lemma_first_reject(rws: Seq<Rewrite>)
    ensures
        0 <= first_reject(rws) <= rws.len(),
        first_reject(rws) < rws.len() ==> rws[first_reject(rws)] is Reject,
        forall|j: int| 0 <= j < first_reject(rws) ==> !(#[trigger] rws[j] is Reject),
    decreases rws.len(),
{
    if rws.len() > 0 && !(rws[0] is Reject) {
        let t = rws.skip(1);
        lemma_first_reject(t);
        assert forall|j: int| 0 <= j < first_reject(rws) implies !(#[trigger] rws[j] is Reject) by {
            if j > 0 {
                assert(t[j - 1] == rws[j]);
            }
        }
        if first_reject(t) < t.len() {
            assert(t[first_reject(t)] == rws[first_reject(t) + 1]);
        }
    }
}

/// A position with nothing refused before it, and that is the length or
/// holds a refused decision, is the first refused one.
pub proof fn lemma_first_reject_is(rws: Seq<Rewrite>, k: int)
    requires
        0 <= k <= rws.len(),
        k < rws.len() ==> rws[k] is Reject,
        forall|j: int| 0 <= j < k ==> !(#[trigger] rws[j] is Reject),
    ensures
        first_reject(rws) == k,
{
    lemma_first_reject(rws);
}

/// A decision that was carried out adds as many bindings as it grants, and
/// leaves the earlier ones as they were.
pub proof fn lemma_bound_extends(rw: Rewrite, before: Seq<Binding>, after: Seq<Binding>)
    requires
        bound(rw, before, after),
    ensures
        after.len() == before.len() + grants(rw),
        after.take(before.len() as int) == before,
{
    assert(after.take(after.len() as int) =~= after);
}

/// Decisions that were carried out add as many bindings as they grant
/// together, and leave the earlier ones as they were.
pub proof fn lemma_bound_all_extends(rws: Seq<Rewrite>, before: Seq<Binding>, after: Seq<Binding>)
    requires
        bound_all(rws, before, after),
    ensures
        after.len() == before.len() + grants_all(rws),
        after.take(before.len() as int) == before,
    decreases rws.len(),
{
    if rws.len() == 0 {
        assert(after.take(after.len() as int) =~= after);
    } else {
        let mid = after.take(after.len() - grants(rws.last()));
        lemma_bound_all_extends(rws.drop_last(), before, mid);
        lemma_bound_extends(rws.last(), mid, after);
        assert(after.take(before.len() as int) =~= mid.take(before.len() as int));
    }
}

/// The output of a decision reads the table only where its own bindings
/// stand.
pub proof fn lemma_output_reads(rw: Rewrite, at: int, t1: Seq<Binding>, t2: Seq<Binding>)
    requires
        0 <= at,
        at + grants(rw) <= t1.len(),
        at + grants(rw) <= t2.len(),
        forall|i: int| at <= i < at + grants(rw) ==> t1[i] == t2[i],
    ensures
        output(rw, at, t1) == output(rw, at, t2),
{
    match rw {
        Rewrite::Bind { lead, targets, access } => {
            assert(shown(targets, at, t1) =~= shown(targets, at, t2));
        },
        _ => {},
    }
}

/// The outputs of decisions that were carried out stay the same when the
/// table grows.
pub proof fn lemma_outputs_stable(
    rws: Seq<Rewrite>,
    before: Seq<Binding>,
    mid: Seq<Binding>,
    after: Seq<Binding>,
)
    requires
        bound_all(rws, before, mid),
        mid.len() <= after.len(),
        after.take(mid.len() as int) == mid,
    ensures
        outputs(rws, before.len() as int, after) == outputs(rws, before.len() as int, mid),
    decreases rws.len(),
{
    if rws.len() > 0 {
        let at = before.len() as int;
        let inner = mid.take(mid.len() - grants(rws.last()));
        lemma_bound_all_extends(rws.drop_last(), before, inner);
        lemma_bound_extends(rws.last(), inner, mid);
        assert(after.take(inner.len() as int) =~= inner) by {
            assert(after.take(inner.len() as int) =~= after.take(mid.len() as int).take(
                inner.len() as int,
            ));
        }
        lemma_outputs_stable(rws.drop_last(), before, inner, after);
        lemma_outputs_stable(rws.drop_last(), before, inner, mid);
        let here = at + grants_all(rws.drop_last());
        assert forall|i: int| here <= i < here + grants(rws.last()) implies after[i] == mid[i] by {
            assert(after.take(mid.len() as int)[i] == after[i]);
        }
        lemma_output_reads(rws.last(), here, after, mid);
    }
}

/// Carrying out one more decision: the bindings and the outputs of the
/// longer list.
pub proof fn lemma_run_step(
    rws: Seq<Rewrite>,
    i: int,
    before: Seq<Binding>,
    mid: Seq<Binding>,
    after: Seq<Binding>,
)
    requires
        0 <= i < rws.len(),
        bound_all(rws.take(i), before, mid),
        bound(rws[i], mid, after),
    ensures
        bound_all(rws.take(i + 1), before, after),
        outputs(rws.take(i + 1), before.len() as int, after) == outputs(
            rws.take(i),
            before.len() as int,
            mid,
        ).push(output(rws[i], mid.len() as int, after)),
{
    let longer = rws.take(i + 1);
    assert(longer.drop_last() =~= rws.take(i));
    assert(longer.last() == rws[i]);
    lemma_bound_extends(rws[i], mid, after);
    lemma_bound_all_extends(rws.take(i), before, mid);
    assert(after.take(after.len() - grants(rws[i])) == mid);
    lemma_outputs_stable(rws.take(i), before, mid, after);
}

} // verus!
