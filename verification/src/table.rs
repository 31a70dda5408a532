//! The capability table: bindings of a token to a host path and an access
//! mode, and the rules by which an internal path is turned back into a host
//! path.
//!
//! A host path is a sequence of bytes in the host's own encoding; it need not
//! be valid Unicode.

use crate::classifier::{extension, split_extension, stem};
use crate::rewrite::{bound, list_targets, output, shown, target_of, Rewrite, Target};
use crate::text::{find_char, join, matches_at, split, to_chars};
use crate::token::{
    fresh_bare_token, fresh_token, has_token_form, is_token, is_uuid_text, uuid_text,
};
use vstd::prelude::*;
use vstd::slice::slice_to_vec;
use vstd::string::*;
use vstd::utf8::encode_utf8;

verus! {

/// What kinds of access a binding permits.
#[derive(Clone, Copy, Debug, PartialEq, Eq, Structural)]
pub enum Access {
    /// Read-only operations on a file.
    Read,
    /// Writing, creating, and truncating a file.
    Write,
    /// Appending to a file.
    Append,
    /// Read-only operations on a directory.
    ReadonlyDir,
    /// All operations on a directory.
    MutableDir,
    /// Any access.
    Any,
}

/// What an open asks for.
#[derive(Clone, Copy, Debug, PartialEq, Eq, Structural)]
pub enum Request {
    /// Open a file for reading.
    Read,
    /// Create or truncate a file and open it for writing.
    Write,
    /// Open a file for appending.
    Append,
    /// Open a directory for reading.
    ReadonlyDir,
    /// Open a directory for reading and writing.
    MutableDir,
}

/// The mathematical content of one entry of the table.
pub struct Binding {
    /// The opaque text that stands for the path.
    pub token: Seq<char>,
    /// The host path, in the host's encoding.
    pub original: Seq<u8>,
    /// The access that the binding permits.
    pub access: Access,
}

/// A record of a name which has been replaced.
#[derive(Clone, Debug, PartialEq, Eq)]
pub struct Preopen {
    /// The replacement string.
    pub token: String,
    /// The original host path.
    pub original: Vec<u8>,
    /// How the file may be accessed.
    pub access: Access,
}

impl View for Preopen {
    type V = Binding;

    open spec fn view(&self) -> Binding {
        Binding { token: self.token@, original: self.original@, access: self.access }
    }
}

/// Why an internal path could not be resolved.
#[derive(Clone, Debug, PartialEq, Eq)]
pub enum OpenError {
    /// A binding has the token, but none that has it permits the request.
    /// Holds the path and the access of the first binding with the token
    /// that permits less than everything.
    AccessDenied { original: Vec<u8>, permitted: Access },
    /// The path begins with no token of the table.
    NotAPreopen,
}

/// The mathematical content of an `OpenError`.
pub enum Denial {
    AccessDenied { original: Seq<u8>, permitted: Access },
    NotAPreopen,
}

impl View for OpenError {
    type V = Denial;

    open spec fn view(&self) -> Denial {
        match self {
            OpenError::AccessDenied { original, permitted } => Denial::AccessDenied {
                original: original@,
                permitted: *permitted,
            },
            OpenError::NotAPreopen => Denial::NotAPreopen,
        }
    }
}

/// Whether a binding with access `stored` permits `request`.
pub open spec fn permits(stored: Access, request: Request) -> bool {
    match request {
        Request::Read => stored is Read || stored is Any,
        Request::Write => stored is Write || stored is Any,
        Request::Append => stored is Append || stored is Any,
        Request::ReadonlyDir => stored is ReadonlyDir || stored is MutableDir || stored is Any,
        Request::MutableDir => stored is MutableDir || stored is Any,
    }
}

/// The views of the entries of a table.
pub open spec fn bindings_of(table: Seq<Preopen>) -> Seq<Binding> {
    table.map_values(|p: Preopen| p@)
}

/// Every token of the table has the form of a token.
pub open spec fn tokens_ok(table: Seq<Binding>) -> bool {
    forall|i: int| 0 <= i < table.len() ==> is_token(#[trigger] table[i].token)
}

/// Every token of the table is the bare text of a UUID.
pub open spec fn bare_tokens_ok(table: Seq<Binding>) -> bool {
    forall|i: int| 0 <= i < table.len() ==> uuid_text(#[trigger] table[i].token)
}

/// The form of a token: with the prefix, or the bare text of a UUID.
pub open spec fn token_form(prefixed: bool, token: Seq<char>) -> bool {
    if prefixed {
        is_token(token)
    } else {
        uuid_text(token)
    }
}

/// Every token of the table has the form that goes with `prefixed`.
pub open spec fn tokens_formed(prefixed: bool, table: Seq<Binding>) -> bool {
    if prefixed {
        tokens_ok(table)
    } else {
        bare_tokens_ok(table)
    }
}

/// No two entries of the table share a token.
pub open spec fn tokens_distinct(table: Seq<Binding>) -> bool {
    forall|i: int, j: int|
        0 <= i < j < table.len() ==> #[trigger] table[i].token != #[trigger] table[j].token
}

/// The binding's token is a prefix of `path`.
pub open spec fn names(b: Binding, path: Seq<char>) -> bool {
    b.token.is_prefix_of(path)
}

/// The binding's token is a prefix of `path`, and the binding permits
/// `request`.
pub open spec fn serves(b: Binding, request: Request, path: Seq<char>) -> bool {
    permits(b.access, request) && names(b, path)
}

/// The index of the first entry at or after `from` that serves the request,
/// or the length of the table.
pub open spec fn first_serving(
    table: Seq<Binding>,
    request: Request,
    path: Seq<char>,
    from: int,
) -> int
    decreases table.len() - from,
{
    if from >= table.len() {
        table.len() as int
    } else if from >= 0 && serves(table[from], request, path) {
        from
    } else {
        first_serving(table, request, path, from + 1)
    }
}

/// The binding's token is a prefix of `path`, and the binding does not
/// permit everything: it can be what stands in the way of a request.
pub open spec fn limits(b: Binding, path: Seq<char>) -> bool {
    !(b.access is Any) && names(b, path)
}

/// The index of the first entry at or after `from` that limits the access
/// to `path`, or the length of the table.
pub open spec fn first_limiting(table: Seq<Binding>, path: Seq<char>, from: int) -> int
    decreases table.len() - from,
{
    if from >= table.len() {
        table.len() as int
    } else if from >= 0 && limits(table[from], path) {
        from
    } else {
        first_limiting(table, path, from + 1)
    }
}

/// The index of the first entry at or after `from` whose token is `token`,
/// or the length of the table.
pub open spec fn first_with_token(table: Seq<Binding>, token: Seq<char>, from: int) -> int
    decreases table.len() - from,
{
    if from >= table.len() {
        table.len() as int
    } else if from >= 0 && table[from].token == token {
        from
    } else {
        first_with_token(table, token, from + 1)
    }
}

/// The index of the first entry at or after `from` whose token is `token`
/// and that permits `request`, or the length of the table.
pub open spec fn first_granting(
    table: Seq<Binding>,
    token: Seq<char>,
    request: Request,
    from: int,
) -> int
    decreases table.len() - from,
{
    if from >= table.len() {
        table.len() as int
    } else if from >= 0 && table[from].token == token && permits(table[from].access, request) {
        from
    } else {
        first_granting(table, token, request, from + 1)
    }
}

/// The host path that a binding gives for `path`: its original path, then
/// what follows the token in `path`.
pub open spec fn host_path(b: Binding, path: Seq<char>) -> Seq<u8> {
    b.original + encode_utf8(path.skip(b.token.len() as int))
}

/// Why `path` is refused, where no entry serves it. The first entry that has
/// the token and permits less than everything tells which access it does
/// permit; an entry that permits everything is passed over, since it is
/// never what a request fails on. With no such entry the path is no preopen.
pub open spec fn denial(table: Seq<Binding>, path: Seq<char>) -> Denial {
    let i = first_limiting(table, path, 0);
    if 0 <= i < table.len() {
        Denial::AccessDenied { original: table[i].original, permitted: table[i].access }
    } else {
        Denial::NotAPreopen
    }
}

/// What an open of `path` with `request` comes to: the host path to hand to
/// the host, from the first entry in insertion order that serves the
/// request, or the reason why there is none.
pub open spec fn resolve(table: Seq<Binding>, request: Request, path: Seq<char>) -> Result<
    Seq<u8>,
    Denial,
> {
    let i = first_serving(table, request, path, 0);
    if 0 <= i < table.len() {
        Ok(host_path(table[i], path))
    } else {
        Err(denial(table, path))
    }
}

/// `first_serving` is the least index at or after `from` of a serving entry.
pub proof fn lemma_first_serving(table: Seq<Binding>, request: Request, path: Seq<char>, from: int)
    requires
        0 <= from <= table.len(),
    ensures
        from <= first_serving(table, request, path, from) <= table.len(),
        first_serving(table, request, path, from) < table.len() ==> serves(
            table[first_serving(table, request, path, from)],
            request,
            path,
        ),
        forall|j: int|
            from <= j < first_serving(table, request, path, from) ==> !serves(
                #[trigger] table[j],
                request,
                path,
            ),
    decreases table.len() - from,
{
    if from < table.len() && !serves(table[from], request, path) {
        lemma_first_serving(table, request, path, from + 1);
    }
}

/// `first_with_token` is the least index at or after `from` of an entry with
/// the token.
pub proof fn lemma_first_with_token(table: Seq<Binding>, token: Seq<char>, from: int)
    requires
        0 <= from <= table.len(),
    ensures
        from <= first_with_token(table, token, from) <= table.len(),
        first_with_token(table, token, from) < table.len() ==> table[first_with_token(
            table,
            token,
            from,
        )].token == token,
        forall|j: int|
            from <= j < first_with_token(table, token, from) ==> (#[trigger] table[j]).token
                != token,
    decreases table.len() - from,
{
    if from < table.len() && table[from].token != token {
        lemma_first_with_token(table, token, from + 1);
    }
}

/// `first_granting` is the least index at or after `from` of an entry with
/// the token that permits the request.
pub proof fn lemma_first_granting(
    table: Seq<Binding>,
    token: Seq<char>,
    request: Request,
    from: int,
)
    requires
        0 <= from <= table.len(),
    ensures
        from <= first_granting(table, token, request, from) <= table.len(),
        first_granting(table, token, request, from) < table.len() ==> {
            let b = table[first_granting(table, token, request, from)];
            b.token == token && permits(b.access, request)
        },
        forall|j: int|
            from <= j < first_granting(table, token, request, from) ==> !((
            #[trigger] table[j]).token == token && permits(table[j].access, request)),
    decreases table.len() - from,
{
    if from < table.len() && !(table[from].token == token && permits(
        table[from].access,
        request,
    )) {
        lemma_first_granting(table, token, request, from + 1);
    }
}

/// `first_limiting` is the least index at or after `from` of an entry that
/// limits the access to the path.
pub proof fn lemma_first_limiting(table: Seq<Binding>, path: Seq<char>, from: int)
    requires
        0 <= from <= table.len(),
    ensures
        from <= first_limiting(table, path, from) <= table.len(),
        first_limiting(table, path, from) < table.len() ==> limits(
            table[first_limiting(table, path, from)],
            path,
        ),
        forall|j: int|
            from <= j < first_limiting(table, path, from) ==> !limits(#[trigger] table[j], path),
    decreases table.len() - from,
{
    if from < table.len() && !limits(table[from], path) {
        lemma_first_limiting(table, path, from + 1);
    }
}

/// The mathematical content of the result of an open.
pub open spec fn resolved(res: Result<Vec<u8>, OpenError>) -> Result<Seq<u8>, Denial> {
    match res {
        Ok(path) => Ok(path@),
        Err(e) => Err(e@),
    }
}

/// The name of an access mode, as it is shown to a user.
pub open spec fn access_name(access: Access) -> Seq<char> {
    match access {
        Access::Read => "read"@,
        Access::Write => "write"@,
        Access::Append => "append"@,
        Access::ReadonlyDir => "readonly directory"@,
        Access::MutableDir => "read/write directory"@,
        Access::Any => "any"@,
    }
}

impl Access {
    /// The name of the access mode, as it is shown to a user. A refusal
    /// never names `Any`.
    pub fn name(&self) -> (s: &'static str)
        ensures
            s@ == access_name(*self),
    {
        match self {
            Access::Read => "read",
            Access::Write => "write",
            Access::Append => "append",
            Access::ReadonlyDir => "readonly directory",
            Access::MutableDir => "read/write directory",
            Access::Any => "any",
        }
    }

    /// Whether a binding with this access permits `request`.
    pub fn permits(&self, request: Request) -> (r: bool)
        ensures
            r == permits(*self, request),
    {
        match request {
            Request::Read => matches!(self, Access::Read | Access::Any),
            Request::Write => matches!(self, Access::Write | Access::Any),
            Request::Append => matches!(self, Access::Append | Access::Any),
            Request::ReadonlyDir => matches!(
                self,
                Access::ReadonlyDir | Access::MutableDir | Access::Any
            ),
            Request::MutableDir => matches!(self, Access::MutableDir | Access::Any),
        }
    }
}

/// A capability table: bindings in insertion order. Entries are only ever
/// added, and each new entry gets a freshly drawn token.
pub struct Table {
    preopens: Vec<Preopen>,
    prefixed: bool,
}

impl View for Table {
    type V = Seq<Binding>;

    /// The bindings, in insertion order.
    closed spec fn view(&self) -> Seq<Binding> {
        bindings_of(self.preopens@)
    }
}

/// Binding one target: what `bound` and `output` come to.
pub(crate) proof fn lemma_bind_one(
    lead: Seq<char>,
    target: Target,
    access: Access,
    before: Seq<Binding>,
    after: Seq<Binding>,
)
    requires
        after.len() == before.len() + 1,
        after.take(before.len() as int) == before,
        after.last().original == target.original,
        after.last().access == access,
    ensures
        bound(Rewrite::Bind { lead, targets: seq![target], access }, before, after),
        output(Rewrite::Bind { lead, targets: seq![target], access }, before.len() as int, after)
            == lead + (after.last().token + target.suffix),
{
    let targets = seq![target];
    let pieces = shown(targets, before.len() as int, after);
    assert(pieces.len() == 1);
    assert(pieces[0] == after[before.len() as int + 0].token + targets[0].suffix);
    assert(join(pieces, ':') == pieces[0]);
}

impl Table {
    /// Whether the tokens of the table carry the token prefix.
    pub closed spec fn prefixed(&self) -> bool {
        self.prefixed
    }

    /// The invariant of the table: every token has the table's form.
    #[verifier::type_invariant]
    pub closed spec fn wf(&self) -> bool {
        tokens_formed(self.prefixed, bindings_of(self.preopens@))
    }

    /// What the invariant says, over the view.
    pub proof fn lemma_wf(&self)
        requires
            self.wf(),
        ensures
            tokens_formed(self.prefixed(), self@),
    {
    }

    /// An empty table.
    pub fn new(prefixed: bool) -> (r: Self)
        ensures
            r.prefixed() == prefixed,
            r@ == Seq::<Binding>::empty(),
            r.wf(),
    {
        let r = Table { preopens: Vec::new(), prefixed };
        assert(bindings_of(r.preopens@) =~= Seq::<Binding>::empty());
        r
    }

    /// Whether the tokens of the table carry the token prefix.
    pub fn is_prefixed(&self) -> (r: bool)
        ensures
            r == self.prefixed(),
    {
        self.prefixed
    }

    /// The bindings, in insertion order.
    pub fn as_slice(&self) -> (s: &[Preopen])
        ensures
            bindings_of(s@) == self@,
            tokens_formed(self.prefixed(), self@),
    {
        proof {
            use_type_invariant(self);
        }
        self.preopens.as_slice()
    }

    /// Appends a binding of `token` to `original`.
    fn bind(&mut self, token: String, original: Vec<u8>, access: Access)
        requires
            token_form(old(self).prefixed(), token@),
        ensures
            final(self).prefixed() == old(self).prefixed(),
            final(self)@ == old(self)@.push(
                Binding { token: token@, original: original@, access },
            ),
    {
        proof {
            use_type_invariant(&*self);
        }
        let ghost before = bindings_of(self.preopens@);
        let ghost b = Binding { token: token@, original: original@, access };
        // The entries are taken out while the new one is added, so that the
        // invariant holds of `self` at every step.
        let mut entries: Vec<Preopen> = Vec::new();
        core::mem::swap(&mut self.preopens, &mut entries);
        entries.push(Preopen { token, original, access });
        proof {
            assert(bindings_of(entries@) =~= before.push(b));
        }
        core::mem::swap(&mut self.preopens, &mut entries);
    }

    /// Binds `token` to the stem of `path` and returns the token followed by
    /// the extension of `path`.
    fn bind_path(&mut self, token: String, path: &str, access: Access) -> (out: String)
        requires
            token_form(old(self).prefixed(), token@),
        ensures
            final(self).prefixed() == old(self).prefixed(),
            final(self)@ == old(self)@.push(
                Binding { token: token@, original: target_of(path@).original, access },
            ),
            out@ == token@ + target_of(path@).suffix,
    {
        let (base, ext) = split_extension(path);
        let original = slice_to_vec(base.as_bytes());
        let mut out = token.clone();
        out.append(ext);
        self.bind(token, original, access);
        out
    }

    /// Draws a token of the table's form.
    fn fresh(&self) -> (token: String)
        ensures
            token_form(self.prefixed(), token@),
    {
        if self.prefixed {
            fresh_token()
        } else {
            fresh_bare_token()
        }
    }

    /// Binds `token`, which stands in for a freshly drawn one, to the stem of
    /// `path` with `access`, and returns the token followed by the extension
    /// of `path`. Nothing is bound, and `None` returned, where `token` has
    /// not the form of the table's tokens.
    pub fn grant(&mut self, token: &str, path: &str, access: Access) -> (out: Option<String>)
        ensures
            final(self).prefixed() == old(self).prefixed(),
            out is Some <==> token_form(old(self).prefixed(), token@),
            match out {
                Some(s) => {
                    &&& final(self)@ == old(self)@.push(
                        Binding { token: token@, original: encode_utf8(stem(path@)), access },
                    )
                    &&& s@ == token@ + extension(path@)
                },
                None => final(self)@ == old(self)@,
            },
    {
        let formed = if self.prefixed {
            has_token_form(token)
        } else {
            let v = to_chars(token);
            assert(v@.skip(0) =~= v@);
            is_uuid_text(&v, 0)
        };
        if !formed {
            return None;
        }
        Some(self.bind_path(token.to_owned(), path, access))
    }

    /// Replaces the path `s` with a fresh token, and records the binding.
    pub(crate) fn replace_with_uuid(&mut self, s: &str, access: Access) -> (out: String)
        ensures
            final(self).prefixed() == old(self).prefixed(),
            final(self)@.len() == old(self)@.len() + 1,
            final(self)@.take(old(self)@.len() as int) == old(self)@,
            final(self)@.last().original == target_of(s@).original,
            final(self)@.last().access == access,
            out@ == final(self)@.last().token + target_of(s@).suffix,
    {
        let token = self.fresh();
        let ghost before = self@;
        let out = self.bind_path(token, s, access);
        proof {
            assert(self@.take(before.len() as int) =~= before);
        }
        out
    }

    /// Replaces a host string that is not valid Unicode with a fresh token,
    /// and records the binding.
    pub(crate) fn replace_os_with_uuid(&mut self, s: &[u8], access: Access) -> (out: String)
        ensures
            final(self).prefixed() == old(self).prefixed(),
            final(self)@.len() == old(self)@.len() + 1,
            final(self)@.take(old(self)@.len() as int) == old(self)@,
            final(self)@.last().original == s@,
            final(self)@.last().access == access,
            out@ == final(self)@.last().token,
    {
        let token = self.fresh();
        let ghost before = self@;
        let out = token.clone();
        self.bind(token, slice_to_vec(s), access);
        proof {
            assert(self@.take(before.len() as int) =~= before);
        }
        out
    }

    /// Replaces each colon-separated piece of `arg` with a fresh token, and
    /// joins the results with colons again.
    pub(crate) fn replace_list(
        &mut self,
        arg: &str,
        v: &Vec<char>,
        access: Access,
    ) -> (out: String)
        requires
            v@ == arg@,
        ensures
            final(self).prefixed() == old(self).prefixed(),
            ({
                let rw = Rewrite::Bind { lead: Seq::empty(), targets: list_targets(arg@), access };
                &&& bound(rw, old(self)@, final(self)@)
                &&& out@ == output(rw, old(self)@.len() as int, final(self)@)
            }),
    {
        let n = v.len();
        let ghost before = self@;
        let ghost at = before.len() as int;
        let ghost pieces = split(arg@, ':');
        let ghost targets = list_targets(arg@);
        let mut out = String::new();
        let mut start: usize = 0;
        let mut first = true;
        let ghost mut k: int = 0;
        assert(v@.skip(0) =~= v@);
        assert(pieces.take(0) + pieces =~= pieces);
        assert(self@.take(at) =~= before);
        assert(shown(targets.take(0), at, self@) =~= Seq::<Seq<char>>::empty());
        loop
            invariant
                start <= n,
                n == v.len(),
                v@ == arg@,
                pieces == split(arg@, ':'),
                targets == list_targets(arg@),
                at == before.len(),
                before == old(self)@,
                self.prefixed() == old(self).prefixed(),
                0 <= k <= pieces.len(),
                first <==> k == 0,
                pieces == pieces.take(k) + split(v@.skip(start as int), ':'),
                self@.len() == at + k,
                self@.take(at) == before,
                forall|i: int|
                    0 <= i < k ==> {
                        &&& (#[trigger] self@[at + i]).original == targets[i].original
                        &&& self@[at + i].access == access
                    },
                out@ == join(shown(targets.take(k), at, self@), ':'),
            decreases n - start,
        {
            let end = find_char(v, start, ':');
            let piece = arg.substring_char(start, end);
            let ghost prev = self@;
            let ghost prev_out = out@;
            proof {
                let t = v@.skip(start as int);
                let rest = split(t, ':');
                assert(t.take(end - start) =~= v@.subrange(start as int, end as int));
                if end == n {
                    assert(t =~= v@.subrange(start as int, end as int));
                    assert(rest == seq![t]);
                } else {
                    assert(t.skip(end - start + 1) =~= v@.skip(end + 1));
                    assert(rest == seq![t.take(end - start)] + split(t.skip(end - start + 1), ':'));
                }
                assert(rest[0] == piece@);
                assert(pieces.len() == k + rest.len());
                assert(pieces[k] == rest[0]);
                assert(targets[k] == target_of(piece@));
                assert(pieces.take(k + 1) =~= pieces.take(k).push(piece@));
                if end != n {
                    assert(pieces =~= pieces.take(k + 1) + split(v@.skip(end + 1), ':'));
                }
            }
            let text = self.replace_with_uuid(piece, access);
            if !first {
                out.append(":");
            }
            out.append(text.as_str());
            first = false;
            proof {
                reveal_strlit(":");
                assert(":"@ =~= seq![':']);
                assert(self@[at + k] == self@.last());
                assert forall|i: int| 0 <= i < k + 1 implies {
                    &&& (#[trigger] self@[at + i]).original == targets[i].original
                    &&& self@[at + i].access == access
                } by {
                    if i < k {
                        assert(self@[at + i] == self@.take(prev.len() as int)[at + i]);
                        assert(prev[at + i].original == targets[i].original);
                    }
                }
                assert(self@.take(at) =~= before) by {
                    assert(self@.take(at) =~= self@.take(prev.len() as int).take(at));
                }
                let old_shown = shown(targets.take(k), at, prev);
                let new_shown = shown(targets.take(k + 1), at, self@);
                assert(new_shown.drop_last() =~= old_shown) by {
                    assert forall|i: int| 0 <= i < k implies new_shown.drop_last()[i]
                        == old_shown[i] by {
                        assert(self@[at + i] == self@.take(prev.len() as int)[at + i]);
                    }
                }
                assert(new_shown.last() == text@);
                if k == 0 {
                    assert(prev_out =~= Seq::<char>::empty());
                    assert(out@ =~= text@);
                } else {
                    assert(out@ =~= prev_out + seq![':'] + text@);
                }
                k = k + 1;
            }
            if end == n {
                proof {
                    assert(k == pieces.len());
                    assert(targets.take(k) =~= targets);
                    assert(Seq::<char>::empty() + out@ =~= out@);
                }
                return out;
            }
            start = end + 1;
        }
    }

    /// The reason to give for `path` where no binding serves it: the first
    /// binding that has the token and permits less than everything, if there
    /// is one, tells which access it permits; else the path is no preopen.
    pub fn preopen_search_failed(&self, path: &str) -> (e: OpenError)
        ensures
            e@ == denial(self@, path@),
    {
        let v = to_chars(path);
        self.search_failed(&v)
    }

    /// `preopen_search_failed`, on the characters of the path.
    fn search_failed(&self, v: &Vec<char>) -> (e: OpenError)
        ensures
            e@ == denial(self@, v@),
    {
        let mut i: usize = 0;
        while i < self.preopens.len()
            invariant
                i <= self.preopens.len(),
                first_limiting(self@, v@, 0) == first_limiting(self@, v@, i as int),
            decreases self.preopens.len() - i,
        {
            let preopen = &self.preopens[i];
            proof {
                assert(v@.skip(0) =~= v@);
                assert(self@[i as int] == preopen@);
            }
            if matches!(preopen.access, Access::Any) {
                i += 1;
                continue ;
            }
            let token = to_chars(preopen.token.as_str());
            if matches_at(v, 0, &token) {
                let original = preopen.original.clone();
                assert(original@ =~= preopen.original@);
                return OpenError::AccessDenied { original, permitted: preopen.access };
            }
            i += 1;
        }
        OpenError::NotAPreopen
    }

    /// The host path for the internal path `path`, from the first binding
    /// that has a token at the start of `path` and permits `request`.
    pub fn resolve(&self, path: &str, request: Request) -> (res: Result<Vec<u8>, OpenError>)
        ensures
            resolved(res) == resolve(self@, request, path@),
    {
        let v = to_chars(path);
        let mut i: usize = 0;
        while i < self.preopens.len()
            invariant
                i <= self.preopens.len(),
                v@ == path@,
                first_serving(self@, request, path@, 0) == first_serving(
                    self@,
                    request,
                    path@,
                    i as int,
                ),
            decreases self.preopens.len() - i,
        {
            let preopen = &self.preopens[i];
            proof {
                assert(v@.skip(0) =~= v@);
                assert(self@[i as int] == preopen@);
            }
            if preopen.access.permits(request) {
                let token = to_chars(preopen.token.as_str());
                if matches_at(&v, 0, &token) {
                    let rest = path.substring_char(token.len(), v.len());
                    assert(rest@ =~= path@.skip(token@.len() as int));
                    let mut host = preopen.original.clone();
                    assert(host@ =~= preopen.original@);
                    host.extend_from_slice(rest.as_bytes());
                    assert(host@ =~= preopen.original@ + encode_utf8(rest@));
                    return Ok(host);
                }
            }
            i += 1;
        }
        Err(self.search_failed(&v))
    }
}

} // verus!
