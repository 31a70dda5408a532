//! The mediator: a magic level and a capability table. The input side
//! replaces paths in arguments and environment variables by fresh tokens and
//! records the bindings; the dispatcher turns a string that begins with a
//! token back into the host path to open.

use crate::classifier::{extension, is_likely_path, likely_path, stem};
use crate::rewrite::{
    all_likely, bound, bound_all, byte_strings, classify, classify_os, decide_args,
    decide_args_os, decide_vars_os, directive, infer, lemma_bound_all_extends,
    lemma_first_reject_is, lemma_run_step, list_targets, names_of, output, outputs, raw_target,
    run, target_of, texts, values_of, Error, ErrorKind, MagicLevel, Rewrite, APPEND, DIR,
    MUTABLE_DIR, READ, VERBATIM, WRITE,
};
use crate::table::{
    bindings_of, denial, lemma_bind_one, resolve, resolved, tokens_ok, Access, Binding,
    OpenError, Preopen, Request, Table,
};
use crate::text::{
    find_char, first_index, lemma_first_index, lemma_slash_before, matches_at, split, to_chars,
    utf8_text,
};
use crate::token::is_token;
use vstd::prelude::*;
use vstd::string::*;
use vstd::utf8::{encode_utf8, encode_utf8_decode_utf8, valid_utf8};

verus! {

/// What holds of the table of every mediator: each token has the form of a
/// token, and without magic the table is empty.
pub open spec fn well_formed(level: MagicLevel, table: Seq<Binding>) -> bool {
    &&& tokens_ok(table)
    &&& level is NoMagic ==> table.len() == 0
}

/// A set of preopens which isolates external paths from internal paths.
pub struct Preopener {
    magic_level: MagicLevel,
    table: Table,
}

impl View for Preopener {
    type V = Seq<Binding>;

    /// The bindings, in insertion order.
    closed spec fn view(&self) -> Seq<Binding> {
        self.table@
    }
}

/// Every colon-separated piece of `s` is likely to be a path exactly when
/// the first piece is and, where a colon follows it, the pieces behind that
/// colon are.
proof fn lemma_all_likely_step(s: Seq<char>)
    ensures
        ({
            let i = first_index(s, ':');
            if 0 <= i < s.len() {
                all_likely(s) == (likely_path(s.take(i)) && all_likely(s.skip(i + 1)))
            } else {
                all_likely(s) == likely_path(s)
            }
        }),
{
    let i = first_index(s, ':');
    let all = split(s, ':');
    if 0 <= i < s.len() {
        let rest = split(s.skip(i + 1), ':');
        assert(all == seq![s.take(i)] + rest);
        if all_likely(s) {
            assert(all[0] == s.take(i));
            assert forall|k: int| 0 <= k < rest.len() implies likely_path(#[trigger] rest[k]) by {
                assert(all[k + 1] == rest[k]);
            }
        }
        if likely_path(s.take(i)) && all_likely(s.skip(i + 1)) {
            assert forall|k: int| 0 <= k < all.len() implies likely_path(#[trigger] all[k]) by {
                if k > 0 {
                    assert(all[k] == rest[k - 1]);
                }
            }
        }
    } else {
        assert(all == seq![s]);
        assert(all[0] == s);
    }
}

/// Whether every colon-separated piece of `arg` is likely to be a path.
fn all_pieces_likely(arg: &str, v: &Vec<char>) -> (r: bool)
    requires
        v@ == arg@,
    ensures
        r == all_likely(arg@),
{
    let n = v.len();
    let mut start: usize = 0;
    assert(v@.skip(0) =~= v@);
    loop
        invariant
            start <= n,
            n == v.len(),
            v@ == arg@,
            all_likely(arg@) == all_likely(v@.skip(start as int)),
        decreases n - start,
    {
        let end = find_char(v, start, ':');
        let piece = arg.substring_char(start, end);
        proof {
            let t = v@.skip(start as int);
            lemma_all_likely_step(t);
            assert(t.take(end - start) =~= v@.subrange(start as int, end as int));
            if end == n {
                assert(t =~= v@.subrange(start as int, end as int));
            } else {
                assert(t.skip(end - start + 1) =~= v@.skip(end + 1));
            }
        }
        if !is_likely_path(piece) {
            return false;
        }
        if end == n {
            return true;
        }
        start = end + 1;
    }
}

/// The index of the first variable whose name is not valid Unicode: the one
/// on which `process_vars_os` fails because of a name.
pub fn ill_formed_name(envs: &Vec<(Vec<u8>, Vec<u8>)>) -> (r: Option<usize>)
    ensures
        match r {
            Some(i) => {
                &&& i < envs@.len()
                &&& !valid_utf8(envs@[i as int].0@)
                &&& forall|j: int| 0 <= j < i ==> valid_utf8(#[trigger] envs@[j].0@)
            },
            None => forall|j: int| 0 <= j < envs@.len() ==> valid_utf8(#[trigger] envs@[j].0@),
        },
{
    let mut i: usize = 0;
    while i < envs.len()
        invariant
            i <= envs.len(),
            forall|j: int| 0 <= j < i ==> valid_utf8(#[trigger] envs@[j].0@),
        decreases envs.len() - i,
    {
        if utf8_text(envs[i].0.as_slice()).is_none() {
            return Some(i);
        }
        i += 1;
    }
    None
}

/// Where the payload begins, if the directive `name` stands right behind the
/// first character of `v`.
fn payload_after(v: &Vec<char>, name: &str) -> (r: Option<usize>)
    requires
        v.len() >= 1,
    ensures
        match r {
            Some(k) => name@.is_prefix_of(v@.skip(1)) && k == 1 + name@.len() && k <= v.len(),
            None => !name@.is_prefix_of(v@.skip(1)),
        },
{
    let p = to_chars(name);
    if matches_at(v, 1, &p) {
        Some(1 + p.len())
    } else {
        None
    }
}

impl Preopener {
    /// The magic level that the mediator was made with.
    pub closed spec fn level(&self) -> MagicLevel {
        self.magic_level
    }

    /// The invariant of the mediator.
    #[verifier::type_invariant]
    pub closed spec fn wf(&self) -> bool {
        &&& self.table.wf()
        &&& self.table.prefixed()
        &&& self.magic_level is NoMagic ==> self.table@.len() == 0
    }

    /// What the invariant says, over the level and the view.
    pub proof fn lemma_wf(&self)
        requires
            self.wf(),
        ensures
            well_formed(self.level(), self@),
    {
        self.table.lemma_wf();
    }

    /// Constructs a new empty instance of `Preopener`.
    pub fn new(magic_level: MagicLevel) -> (r: Self)
        ensures
            r.level() == magic_level,
            r@ == Seq::<Binding>::empty(),
            r.wf(),
    {
        Self { magic_level, table: Table::new(true) }
    }

    /// The magic level.
    pub fn magic_level(&self) -> (l: MagicLevel)
        ensures
            l == self.level(),
    {
        self.magic_level
    }

    /// The capability table.
    pub fn table(&self) -> (t: &Table)
        ensures
            t@ == self@,
            t.prefixed(),
            well_formed(self.level(), self@),
    {
        proof {
            use_type_invariant(self);
            self.table.lemma_wf();
        }
        &self.table
    }

    /// The bindings, in insertion order.
    pub fn as_slice(&self) -> (s: &[Preopen])
        ensures
            bindings_of(s@) == self@,
            well_formed(self.level(), self@),
    {
        proof {
            use_type_invariant(self);
        }
        self.table.as_slice()
    }

    /// Takes the table out, so that it can grow while the invariant holds
    /// of `self`; an empty table stands in for it.
    fn take_table(&mut self) -> (t: Table)
        ensures
            final(self).level() == old(self).level(),
            final(self)@ == Seq::<Binding>::empty(),
            t@ == old(self)@,
            t.prefixed(),
    {
        proof {
            use_type_invariant(&*self);
        }
        let mut t = Table::new(true);
        core::mem::swap(&mut self.table, &mut t);
        t
    }

    /// Puts a table back that was taken out.
    fn put_table(&mut self, t: Table)
        requires
            t.prefixed(),
            old(self).level() is NoMagic ==> t@.len() == 0,
        ensures
            final(self).level() == old(self).level(),
            final(self)@ == t@,
    {
        let mut t = t;
        proof {
            use_type_invariant(&t);
        }
        core::mem::swap(&mut self.table, &mut t);
    }

    /// Binds `token`, which stands in for a freshly drawn one, to the stem of
    /// `path` with `access`, and returns the token followed by the extension
    /// of `path`. Nothing is bound, and `None` returned, where `token` has
    /// not the form of a token or the mediator's level is `NoMagic`.
    pub fn grant(&mut self, token: &str, path: &str, access: Access) -> (out: Option<String>)
        ensures
            final(self).level() == old(self).level(),
            final(self).wf(),
            out is Some <==> is_token(token@) && !(old(self).level() is NoMagic),
            match out {
                Some(s) => {
                    &&& final(self)@ == old(self)@.push(
                        Binding { token: token@, original: encode_utf8(stem(path@)), access },
                    )
                    &&& s@ == token@ + extension(path@)
                },
                None => final(self)@ == old(self)@,
            },
    {
        proof {
            use_type_invariant(&*self);
        }
        match self.magic_level {
            MagicLevel::NoMagic => {
                return None;
            },
            _ => {},
        }
        let mut table = self.take_table();
        let out = table.grant(token, path, access);
        self.put_table(table);
        proof {
            use_type_invariant(&*self);
        }
        out
    }

    /// Replaces the path `s` with a fresh token, and records the binding.
    fn replace_with_uuid(&mut self, s: &str, access: Access) -> (out: String)
        requires
            !(old(self).level() is NoMagic),
        ensures
            final(self).level() == old(self).level(),
            final(self)@.len() == old(self)@.len() + 1,
            final(self)@.take(old(self)@.len() as int) == old(self)@,
            final(self)@.last().original == target_of(s@).original,
            final(self)@.last().access == access,
            out@ == final(self)@.last().token + target_of(s@).suffix,
    {
        let mut table = self.take_table();
        let out = table.replace_with_uuid(s, access);
        self.put_table(table);
        out
    }

    /// Replaces a host string that is not valid Unicode with a fresh token,
    /// and records the binding.
    fn replace_os_with_uuid(&mut self, s: &[u8], access: Access) -> (out: String)
        requires
            !(old(self).level() is NoMagic),
        ensures
            final(self).level() == old(self).level(),
            final(self)@.len() == old(self)@.len() + 1,
            final(self)@.take(old(self)@.len() as int) == old(self)@,
            final(self)@.last().original == s@,
            final(self)@.last().access == access,
            out@ == final(self)@.last().token,
    {
        let mut table = self.take_table();
        let out = table.replace_os_with_uuid(s, access);
        self.put_table(table);
        out
    }

    /// Replaces each colon-separated piece of `arg` with a fresh token, and
    /// joins the results with colons again.
    fn replace_list(&mut self, arg: &str, v: &Vec<char>, access: Access) -> (out: String)
        requires
            v@ == arg@,
            !(old(self).level() is NoMagic),
        ensures
            final(self).level() == old(self).level(),
            ({
                let rw = Rewrite::Bind { lead: Seq::empty(), targets: list_targets(arg@), access };
                &&& bound(rw, old(self)@, final(self)@)
                &&& out@ == output(rw, old(self)@.len() as int, final(self)@)
            }),
    {
        let mut table = self.take_table();
        let out = table.replace_list(arg, v, access);
        self.put_table(table);
        out
    }

    /// Grants `access` to the payload of a directive, which begins at
    /// position `k` of `arg`.
    fn grant_payload(&mut self, arg: &str, k: usize, n: usize, access: Access) -> (out: String)
        requires
            !(old(self).level() is NoMagic),
            k <= n,
            n == arg@.len(),
        ensures
            final(self).level() == old(self).level(),
            ({
                let rw = Rewrite::Bind {
                    lead: Seq::empty(),
                    targets: seq![target_of(arg@.skip(k as int))],
                    access,
                };
                &&& bound(rw, old(self)@, final(self)@)
                &&& out@ == output(rw, old(self)@.len() as int, final(self)@)
            }),
    {
        let payload = arg.substring_char(k, n);
        assert(payload@ =~= arg@.skip(k as int));
        let out = self.replace_with_uuid(payload, access);
        proof {
            lemma_bind_one(
                Seq::empty(),
                target_of(arg@.skip(k as int)),
                access,
                old(self)@,
                self@,
            );
            assert(Seq::<char>::empty() + out@ =~= out@);
        }
        out
    }

    /// Carries out the directive of an argument that begins with `%`.
    fn process_directive(&mut self, arg: &str, v: &Vec<char>) -> (res: Result<String, Error>)
        requires
            v@ == arg@,
            v.len() > 0,
            !(old(self).level() is NoMagic),
        ensures
            final(self).level() == old(self).level(),
            bound(directive(arg@.skip(1)), old(self)@, final(self)@),
            match res {
                Ok(s) => !(directive(arg@.skip(1)) is Reject) && s@ == output(
                    directive(arg@.skip(1)),
                    old(self)@.len() as int,
                    final(self)@,
                ),
                Err(e) => directive(arg@.skip(1)) == Rewrite::Reject(e.kind),
            },
    {
        let n = v.len();
        let ghost rest = arg@.skip(1);
        assert forall|k: int| 1 <= k <= n implies rest.skip(k - 1) =~= arg@.skip(k) by {}
        if let Some(k) = payload_after(v, VERBATIM) {
            let text = arg.substring_char(k, n);
            assert(text@ =~= arg@.skip(k as int));
            return Ok(text.to_owned());
        }
        if let Some(k) = payload_after(v, READ) {
            return Ok(self.grant_payload(arg, k, n, Access::Read));
        }
        if let Some(k) = payload_after(v, WRITE) {
            return Ok(self.grant_payload(arg, k, n, Access::Write));
        }
        if let Some(k) = payload_after(v, APPEND) {
            return Ok(self.grant_payload(arg, k, n, Access::Append));
        }
        if let Some(k) = payload_after(v, DIR) {
            return Ok(self.grant_payload(arg, k, n, Access::ReadonlyDir));
        }
        if let Some(k) = payload_after(v, MUTABLE_DIR) {
            return Ok(self.grant_payload(arg, k, n, Access::MutableDir));
        }
        Err(Error { kind: ErrorKind::ReservedPrefix })
    }

    /// Applies the heuristics to an argument that is no directive.
    fn process_inferred(&mut self, arg: String, v: &Vec<char>, access: Access) -> (out: String)
        requires
            v@ == arg@,
            !(old(self).level() is NoMagic),
        ensures
            final(self).level() == old(self).level(),
            bound(infer(arg@, access), old(self)@, final(self)@),
            out@ == output(infer(arg@, access), old(self)@.len() as int, final(self)@),
    {
        let n = v.len();
        assert(v@.skip(0) =~= v@);
        let colon = find_char(v, 0, ':');
        proof {
            lemma_first_index(v@, ':');
        }
        if colon < n {
            if all_pieces_likely(arg.as_str(), v) {
                return self.replace_list(arg.as_str(), v, access);
            }
            return arg;
        }
        let eq = find_char(v, 0, '=');
        proof {
            lemma_first_index(v@, '=');
        }
        if eq < n {
            let slash = find_char(v, 0, '/');
            proof {
                lemma_slash_before(v@, eq as int);
            }
            if slash > eq {
                let suffix = arg.as_str().substring_char(eq + 1, n);
                assert(suffix@ =~= arg@.skip(eq + 1));
                if is_likely_path(suffix) {
                    let lead = arg.as_str().substring_char(0, eq + 1);
                    assert(lead@ =~= arg@.take(eq + 1));
                    let mut out = lead.to_owned();
                    let text = self.replace_with_uuid(suffix, access);
                    out.append(text.as_str());
                    proof {
                        lemma_bind_one(lead@, target_of(suffix@), access, old(self)@, self@);
                    }
                    return out;
                }
            }
        }
        if is_likely_path(arg.as_str()) {
            let out = self.replace_with_uuid(arg.as_str(), access);
            proof {
                lemma_bind_one(Seq::empty(), target_of(arg@), access, old(self)@, self@);
                assert(Seq::<char>::empty() + out@ =~= out@);
            }
            return out;
        }
        arg
    }

    /// Replaces any paths in `arg` with fresh tokens, and records the
    /// bindings.
    ///
    /// The decision is `classify` of the level and the text. An argument that
    /// begins with `%` and is no directive is refused, and the table stays as
    /// it is. Which tokens are drawn is not determined: the result is stated
    /// over the tokens that the table holds afterwards.
    pub fn process(&mut self, arg: String) -> (res: Result<String, Error>)
        ensures
            final(self).level() == old(self).level(),
            final(self).wf(),
            bound(classify(old(self).level(), arg@), old(self)@, final(self)@),
            match res {
                Ok(s) => !(classify(old(self).level(), arg@) is Reject) && s@ == output(
                    classify(old(self).level(), arg@),
                    old(self)@.len() as int,
                    final(self)@,
                ),
                Err(e) => classify(old(self).level(), arg@) == Rewrite::Reject(e.kind),
            },
    {
        proof {
            use_type_invariant(&*self);
        }
        match self.magic_level {
            MagicLevel::NoMagic => {
                return Ok(arg);
            },
            _ => {},
        }
        let v = to_chars(arg.as_str());
        if v.len() > 0 && v[0] == '%' {
            let res = self.process_directive(arg.as_str(), &v);
            proof {
                use_type_invariant(&*self);
            }
            return res;
        }
        match self.magic_level {
            MagicLevel::Escapes => {
                return Ok(arg);
            },
            _ => {},
        }
        let access = match self.magic_level {
            MagicLevel::Auto => Access::Any,
            _ => Access::Read,
        };
        let out = self.process_inferred(arg, &v, access);
        proof {
            use_type_invariant(&*self);
        }
        Ok(out)
    }

    /// Replaces any paths in the host string `arg` with fresh tokens, and
    /// records the bindings.
    ///
    /// A string that is valid Unicode is processed as its text is. One that
    /// is not is taken for a path as a whole where the level infers paths,
    /// and refused at the lower levels.
    pub fn process_os(&mut self, arg: &[u8]) -> (res: Result<String, Error>)
        ensures
            final(self).level() == old(self).level(),
            final(self).wf(),
            bound(classify_os(old(self).level(), arg@), old(self)@, final(self)@),
            match res {
                Ok(s) => !(classify_os(old(self).level(), arg@) is Reject) && s@ == output(
                    classify_os(old(self).level(), arg@),
                    old(self)@.len() as int,
                    final(self)@,
                ),
                Err(e) => classify_os(old(self).level(), arg@) == Rewrite::Reject(e.kind),
            },
    {
        proof {
            use_type_invariant(&*self);
        }
        match utf8_text(arg) {
            Some(s) => {
                proof {
                    encode_utf8_decode_utf8(s@);
                }
                self.process(s.to_owned())
            },
            None => {
                let access = match self.magic_level {
                    MagicLevel::Auto => Access::Any,
                    MagicLevel::Readonly => Access::Read,
                    _ => {
                        return Err(Error { kind: ErrorKind::IllFormedString });
                    },
                };
                let out = self.replace_os_with_uuid(arg, access);
                proof {
                    use_type_invariant(&*self);
                    lemma_bind_one(Seq::empty(), raw_target(arg@), access, old(self)@, self@);
                    assert(Seq::<char>::empty() + (out@ + Seq::<char>::empty()) =~= out@);
                }
                Ok(out)
            },
        }
    }

    /// Adds the given command-line arguments to the table, and returns the
    /// translated list of arguments.
    #[verifier::spinoff_prover]
    pub fn process_args(&mut self, args: Vec<String>) -> (res: Result<Vec<String>, Error>)
        ensures
            final(self).level() == old(self).level(),
            final(self).wf(),
            run(
                decide_args(old(self).level(), texts(args@)),
                old(self)@,
                final(self)@,
                match res {
                    Ok(out) => Ok(texts(out@)),
                    Err(e) => Err(e.kind),
                },
            ),
    {
        let ghost rws = decide_args(self.level(), texts(args@));
        let ghost before = self@;
        let mut new_args: Vec<String> = Vec::new();
        let mut i: usize = 0;
        proof {
            use_type_invariant(&*self);
            assert(texts(new_args@) =~= Seq::<Seq<char>>::empty());
        }
        while i < args.len()
            invariant
                i <= args.len(),
                self.level() == old(self).level(),
                self.wf(),
                before == old(self)@,
                rws == decide_args(self.level(), texts(args@)),
                forall|j: int| 0 <= j < i ==> !(#[trigger] rws[j] is Reject),
                bound_all(rws.take(i as int), before, self@),
                texts(new_args@) == outputs(rws.take(i as int), before.len() as int, self@),
            decreases args.len() - i,
        {
            let ghost mid = self@;
            let ghost done = texts(new_args@);
            match self.process(args[i].clone()) {
                Ok(s) => {
                    new_args.push(s);
                    proof {
                        lemma_run_step(rws, i as int, before, mid, self@);
                        lemma_bound_all_extends(rws.take(i as int), before, mid);
                        assert(texts(new_args@) =~= done.push(s@));
                    }
                },
                Err(e) => {
                    proof {
                        lemma_first_reject_is(rws, i as int);
                    }
                    return Err(e);
                },
            }
            i += 1;
        }
        proof {
            lemma_first_reject_is(rws, i as int);
            assert(rws.take(i as int) =~= rws);
        }
        Ok(new_args)
    }

    /// Adds the given command-line arguments, as host strings, to the table,
    /// and returns the translated list of arguments.
    #[verifier::spinoff_prover]
    pub fn process_args_os(&mut self, args: Vec<Vec<u8>>) -> (res: Result<Vec<String>, Error>)
        ensures
            final(self).level() == old(self).level(),
            final(self).wf(),
            run(
                decide_args_os(old(self).level(), byte_strings(args@)),
                old(self)@,
                final(self)@,
                match res {
                    Ok(out) => Ok(texts(out@)),
                    Err(e) => Err(e.kind),
                },
            ),
    {
        let ghost rws = decide_args_os(self.level(), byte_strings(args@));
        let ghost before = self@;
        let mut new_args: Vec<String> = Vec::new();
        let mut i: usize = 0;
        proof {
            use_type_invariant(&*self);
            assert(texts(new_args@) =~= Seq::<Seq<char>>::empty());
        }
        while i < args.len()
            invariant
                i <= args.len(),
                self.level() == old(self).level(),
                self.wf(),
                before == old(self)@,
                rws == decide_args_os(self.level(), byte_strings(args@)),
                forall|j: int| 0 <= j < i ==> !(#[trigger] rws[j] is Reject),
                bound_all(rws.take(i as int), before, self@),
                texts(new_args@) == outputs(rws.take(i as int), before.len() as int, self@),
            decreases args.len() - i,
        {
            let ghost mid = self@;
            let ghost done = texts(new_args@);
            match self.process_os(args[i].as_slice()) {
                Ok(s) => {
                    new_args.push(s);
                    proof {
                        lemma_run_step(rws, i as int, before, mid, self@);
                        lemma_bound_all_extends(rws.take(i as int), before, mid);
                        assert(texts(new_args@) =~= done.push(s@));
                    }
                },
                Err(e) => {
                    proof {
                        lemma_first_reject_is(rws, i as int);
                    }
                    return Err(e);
                },
            }
            i += 1;
        }
        proof {
            lemma_first_reject_is(rws, i as int);
            assert(rws.take(i as int) =~= rws);
        }
        Ok(new_args)
    }

    /// Adds the given environment variables to the table, and returns the
    /// translated list of environment variables. The names stay as they are.
    #[verifier::spinoff_prover]
    pub fn process_vars(&mut self, envs: Vec<(String, String)>) -> (res: Result<
        Vec<(String, String)>,
        Error,
    >)
        ensures
            final(self).level() == old(self).level(),
            final(self).wf(),
            run(
                decide_args(old(self).level(), values_of(envs@)),
                old(self)@,
                final(self)@,
                match res {
                    Ok(out) => Ok(values_of(out@)),
                    Err(e) => Err(e.kind),
                },
            ),
            res matches Ok(out) ==> names_of(out@) == names_of(envs@),
    {
        let ghost rws = decide_args(self.level(), values_of(envs@));
        let ghost before = self@;
        let mut new_envs: Vec<(String, String)> = Vec::new();
        let mut i: usize = 0;
        proof {
            use_type_invariant(&*self);
            assert(values_of(new_envs@) =~= Seq::<Seq<char>>::empty());
            assert(names_of(new_envs@) =~= names_of(envs@).take(0));
        }
        while i < envs.len()
            invariant
                i <= envs.len(),
                self.level() == old(self).level(),
                self.wf(),
                before == old(self)@,
                rws == decide_args(self.level(), values_of(envs@)),
                forall|j: int| 0 <= j < i ==> !(#[trigger] rws[j] is Reject),
                bound_all(rws.take(i as int), before, self@),
                values_of(new_envs@) == outputs(rws.take(i as int), before.len() as int, self@),
                names_of(new_envs@) == names_of(envs@).take(i as int),
            decreases envs.len() - i,
        {
            let ghost mid = self@;
            let ghost done = values_of(new_envs@);
            let ghost done_names = names_of(new_envs@);
            let key = envs[i].0.clone();
            match self.process(envs[i].1.clone()) {
                Ok(s) => {
                    new_envs.push((key, s));
                    proof {
                        lemma_run_step(rws, i as int, before, mid, self@);
                        lemma_bound_all_extends(rws.take(i as int), before, mid);
                        assert(values_of(new_envs@) =~= done.push(s@));
                        assert(names_of(new_envs@) =~= done_names.push(key@));
                        assert(names_of(envs@).take(i + 1) =~= names_of(envs@).take(i as int).push(
                            key@,
                        ));
                    }
                },
                Err(e) => {
                    proof {
                        lemma_first_reject_is(rws, i as int);
                    }
                    return Err(e);
                },
            }
            i += 1;
        }
        proof {
            lemma_first_reject_is(rws, i as int);
            assert(rws.take(i as int) =~= rws);
            assert(names_of(envs@).take(i as int) =~= names_of(envs@));
        }
        Ok(new_envs)
    }

    /// Adds the given environment variables, as host strings, to the table,
    /// and returns the translated list of environment variables. A name
    /// that is not valid Unicode fails the whole operation; the names that
    /// are come back as text.
    #[verifier::spinoff_prover]
    pub fn process_vars_os(&mut self, envs: Vec<(Vec<u8>, Vec<u8>)>) -> (res: Result<
        Vec<(String, String)>,
        Error,
    >)
        ensures
            final(self).level() == old(self).level(),
            final(self).wf(),
            run(
                decide_vars_os(old(self).level(), envs@),
                old(self)@,
                final(self)@,
                match res {
                    Ok(out) => Ok(values_of(out@)),
                    Err(e) => Err(e.kind),
                },
            ),
            res matches Ok(out) ==> {
                &&& out@.len() == envs@.len()
                &&& forall|j: int|
                    0 <= j < out@.len() ==> encode_utf8((#[trigger] out@[j]).0@) == envs@[j].0@
            },
    {
        let ghost rws = decide_vars_os(self.level(), envs@);
        let ghost before = self@;
        let mut new_envs: Vec<(String, String)> = Vec::new();
        let mut i: usize = 0;
        proof {
            use_type_invariant(&*self);
            assert(values_of(new_envs@) =~= Seq::<Seq<char>>::empty());
        }
        while i < envs.len()
            invariant
                i <= envs.len(),
                self.level() == old(self).level(),
                self.wf(),
                before == old(self)@,
                rws == decide_vars_os(self.level(), envs@),
                forall|j: int| 0 <= j < i ==> !(#[trigger] rws[j] is Reject),
                bound_all(rws.take(i as int), before, self@),
                values_of(new_envs@) == outputs(rws.take(i as int), before.len() as int, self@),
                new_envs@.len() == i,
                forall|j: int|
                    0 <= j < i ==> encode_utf8((#[trigger] new_envs@[j]).0@) == envs@[j].0@,
            decreases envs.len() - i,
        {
            let ghost mid = self@;
            let ghost done = values_of(new_envs@);
            let key = match utf8_text(envs[i].0.as_slice()) {
                Some(key) => key.to_owned(),
                None => {
                    proof {
                        lemma_first_reject_is(rws, i as int);
                    }
                    return Err(Error { kind: ErrorKind::IllFormedName });
                },
            };
            match self.process_os(envs[i].1.as_slice()) {
                Ok(s) => {
                    new_envs.push((key, s));
                    proof {
                        lemma_run_step(rws, i as int, before, mid, self@);
                        lemma_bound_all_extends(rws.take(i as int), before, mid);
                        assert(values_of(new_envs@) =~= done.push(s@));
                    }
                },
                Err(e) => {
                    proof {
                        lemma_first_reject_is(rws, i as int);
                    }
                    return Err(e);
                },
            }
            i += 1;
        }
        proof {
            lemma_first_reject_is(rws, i as int);
            assert(rws.take(i as int) =~= rws);
        }
        Ok(new_envs)
    }

    /// The host path for the internal path `path`, from the first binding
    /// that has a token at the start of `path` and permits `request`.
    pub fn resolve(&self, path: &str, request: Request) -> (res: Result<Vec<u8>, OpenError>)
        ensures
            resolved(res) == resolve(self@, request, path@),
    {
        self.table.resolve(path, request)
    }

    /// The reason to give for `path` where no binding serves it: the first
    /// binding that has the token and permits less than everything, if there
    /// is one, tells which access it permits; else the path is no preopen.
    pub fn preopen_search_failed(&self, path: &str) -> (e: OpenError)
        ensures
            e@ == denial(self@, path@),
    {
        self.table.preopen_search_failed(path)
    }

    /// The host path of the file to open for reading, given an internal
    /// filename.
    pub fn open(&self, path: &str) -> (res: Result<Vec<u8>, OpenError>)
        ensures
            resolved(res) == resolve(self@, Request::Read, path@),
    {
        self.resolve(path, Request::Read)
    }

    /// The host path of the file to create or truncate, given an internal
    /// filename.
    pub fn create(&self, path: &str) -> (res: Result<Vec<u8>, OpenError>)
        ensures
            resolved(res) == resolve(self@, Request::Write, path@),
    {
        self.resolve(path, Request::Write)
    }

    /// The host path of the file to open for appending, given an internal
    /// filename.
    pub fn append(&self, path: &str) -> (res: Result<Vec<u8>, OpenError>)
        ensures
            resolved(res) == resolve(self@, Request::Append, path@),
    {
        self.resolve(path, Request::Append)
    }

    /// The host path of the directory to open with a read-only view, given
    /// an internal filename.
    pub fn open_dir(&self, path: &str) -> (res: Result<Vec<u8>, OpenError>)
        ensures
            resolved(res) == resolve(self@, Request::ReadonlyDir, path@),
    {
        self.resolve(path, Request::ReadonlyDir)
    }

    /// The host path of the directory to open with a full view, given an
    /// internal filename.
    pub fn open_mutable_dir(&self, path: &str) -> (res: Result<Vec<u8>, OpenError>)
        ensures
            resolved(res) == resolve(self@, Request::MutableDir, path@),
    {
        self.resolve(path, Request::MutableDir)
    }
}

} // verus!
