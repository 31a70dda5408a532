//! What holds of the mediator as a whole, proved from the definitions that
//! the contracts of the executable functions are stated over.
//!
//! Tokens are drawn at random, so nothing in the library can promise that no
//! two bindings share a token. The laws about a token say which binding is
//! met in any table, and that it is the expected one where the tokens are
//! distinct.
//!
//! Which characters are white space or control codes is left to the
//! standard library. What the classifier makes of a given text therefore
//! rests on a premise about these classes; `law_tidy_path` names the one
//! that is enough for the common run of paths.

use crate::classifier::{
    components_ok, extension, has_control, lemma_basename_no_slash, lemma_components_step,
    lemma_stem_extension, likely_path, plain_extension_at, stem, MAX_PATH_BYTES,
};
use crate::preopener::well_formed;
use crate::rewrite::{
    bound, bound_all, classify, classify_os, classify_var_os, decide_args, decide_args_os,
    decide_vars_os, first_reject, grants, grants_all, inferred_access, lemma_bound_all_extends,
    lemma_first_reject, lemma_first_reject_is, output, outputs, run, shown, target_of,
    ErrorKind, MagicLevel, Rewrite, Target, APPEND, DIR, MUTABLE_DIR, READ, VERBATIM, WRITE,
};
use crate::table::{
    first_granting, first_limiting, first_serving, first_with_token, lemma_first_granting,
    lemma_first_limiting, lemma_first_serving, lemma_first_with_token, limits, names, permits,
    resolve, serves, tokens_distinct, tokens_ok, Access, Binding, Denial, Request,
};
use crate::text::{
    ascii_graphic, first_index, join, lemma_encode_concat, lemma_first_index,
    lemma_first_index_is, occurs, occurs_at, split, unicode_control, unicode_white_space,
};
use crate::token::{
    hyphen_position, is_token, lemma_token_shape, lower_hex, token_char, TOKEN_CHARS,
    TOKEN_PREFIX,
};
use crate::writer::{
    feed, first_standing, lemma_first_standing, stands_at, substitute, token_bytes, LINE_BREAK,
};
use vstd::prelude::*;
use vstd::utf8::{
    decode_utf8, encode_utf8, encode_utf8_decode_utf8, encode_utf8_valid_utf8, is_ascii_chars,
    is_ascii_chars_encode_utf8, valid_utf8,
};

verus! {

/// Neither the lead nor any suffix of a decision that binds holds a slash.
pub open spec fn slash_free(rw: Rewrite) -> bool {
    rw matches Rewrite::Bind { lead, targets, access } ==> {
        &&& !lead.contains('/')
        &&& forall|i: int| 0 <= i < targets.len() ==> !(#[trigger] targets[i]).suffix.contains('/')
    }
}

/// A character is in two texts in a row exactly when it is in one of them.
proof fn lemma_concat_contains(a: Seq<char>, b: Seq<char>, c: char)
    ensures
        (a + b).contains(c) <==> a.contains(c) || b.contains(c),
{
    let ab = a + b;
    if ab.contains(c) {
        let j = choose|j: int| 0 <= j < ab.len() && ab[j] == c;
        if j < a.len() {
            assert(a[j] == c);
        } else {
            assert(b[j - a.len()] == c);
        }
    }
    if a.contains(c) {
        let j = choose|j: int| 0 <= j < a.len() && a[j] == c;
        assert(ab[j] == c);
    }
    if b.contains(c) {
        let j = choose|j: int| 0 <= j < b.len() && b[j] == c;
        assert(ab[a.len() + j] == c);
    }
}

/// Pieces without `c`, joined by another character, make a text without
/// `c`.
proof fn lemma_join_without(pieces: Seq<Seq<char>>, sep: char, c: char)
    requires
        c != sep,
        forall|i: int| 0 <= i < pieces.len() ==> !(#[trigger] pieces[i]).contains(c),
    ensures
        !join(pieces, sep).contains(c),
    decreases pieces.len(),
{
    if pieces.len() == 0 {
    } else if pieces.len() == 1 {
        assert(!pieces[0].contains(c));
    } else {
        let init = pieces.drop_last();
        assert forall|i: int| 0 <= i < init.len() implies !(#[trigger] init[i]).contains(c) by {
            assert(init[i] == pieces[i]);
        }
        lemma_join_without(init, sep, c);
        lemma_concat_contains(join(init, sep), seq![sep], c);
        lemma_concat_contains(join(init, sep) + seq![sep], pieces.last(), c);
        assert(!pieces[pieces.len() - 1].contains(c));
        if seq![sep].contains(c) {
            let j = choose|j: int| 0 <= j < seq![sep].len() && seq![sep][j] == c;
            assert(seq![sep][j] == sep);
        }
    }
}

/// A token holds no slash.
proof fn lemma_token_without_slash(t: Seq<char>)
    requires
        is_token(t),
    ensures
        !t.contains('/'),
{
    lemma_token_shape(t);
    if t.contains('/') {
        let j = choose|j: int| 0 <= j < t.len() && t[j] == '/';
        assert(token_char(t[j]));
    }
}

/// Whatever is decided about a text, neither the lead nor a suffix holds a
/// slash.
proof fn lemma_classify_slash_free(level: MagicLevel, arg: Seq<char>)
    ensures
        slash_free(classify(level, arg)),
{
    let rw = classify(level, arg);
    match rw {
        Rewrite::Bind { lead, targets, access } => {
            assert(!Seq::<char>::empty().contains('/'));
            assert forall|i: int| 0 <= i < targets.len() implies !(#[trigger] targets[i])
                .suffix.contains('/') by {
                if arg.len() > 0 && arg[0] == '%' {
                    let rest = arg.skip(1);
                    lemma_stem_extension(rest.skip(READ@.len() as int));
                    lemma_stem_extension(rest.skip(WRITE@.len() as int));
                    lemma_stem_extension(rest.skip(APPEND@.len() as int));
                    lemma_stem_extension(rest.skip(DIR@.len() as int));
                    lemma_stem_extension(rest.skip(MUTABLE_DIR@.len() as int));
                } else if arg.contains(':') {
                    lemma_stem_extension(split(arg, ':')[i]);
                } else {
                    lemma_stem_extension(arg);
                    lemma_stem_extension(arg.skip(first_index(arg, '=') + 1));
                }
            }
        },
        _ => {},
    }
}

/// Whatever is decided about a host string, neither the lead nor a suffix
/// holds a slash.
proof fn lemma_classify_os_slash_free(level: MagicLevel, bytes: Seq<u8>)
    ensures
        slash_free(classify_os(level, bytes)),
{
    if valid_utf8(bytes) {
        lemma_classify_slash_free(level, decode_utf8(bytes));
    } else {
        assert(!Seq::<char>::empty().contains('/'));
    }
}

/// The string of a decision that binds, with a lead and suffixes free of
/// slashes, holds no slash.
proof fn lemma_output_without_slash(rw: Rewrite, before: Seq<Binding>, after: Seq<Binding>)
    requires
        rw is Bind,
        slash_free(rw),
        bound(rw, before, after),
        tokens_ok(after),
    ensures
        !output(rw, before.len() as int, after).contains('/'),
{
    match rw {
        Rewrite::Bind { lead, targets, access } => {
            let at = before.len() as int;
            let pieces = shown(targets, at, after);
            assert forall|i: int| 0 <= i < pieces.len() implies !(#[trigger] pieces[i]).contains(
                '/',
            ) by {
                lemma_token_without_slash(after[at + i].token);
                assert(!targets[i].suffix.contains('/'));
                lemma_concat_contains(after[at + i].token, targets[i].suffix, '/');
            }
            lemma_join_without(pieces, ':', '/');
            lemma_concat_contains(lead, join(pieces, ':'), '/');
        },
        _ => {},
    }
}

/// A text without slashes shows no text that holds one.
proof fn lemma_hidden(path: Seq<char>, text: Seq<char>)
    requires
        path.contains('/'),
        !text.contains('/'),
    ensures
        !occurs(path, text),
{
    if occurs(path, text) {
        let i = choose|i: int| occurs_at(path, text, i);
        let j = choose|j: int| 0 <= j < path.len() && path[j] == '/';
        let tail = text.skip(i);
        assert(tail.subrange(0, path.len() as int)[j] == tail[j]);
        assert(text[i + j] == '/');
    }
}

/// Token hiding. Where an argument is rewritten by binding, the translated
/// string holds no slash at all: it is made of a lead without one, tokens,
/// extensions and colons. So no path that holds a slash shows in it, the
/// argument itself included.
pub proof fn law_token_hiding(
    level: MagicLevel,
    arg: Seq<char>,
    before: Seq<Binding>,
    after: Seq<Binding>,
    path: Seq<char>,
)
    requires
        classify(level, arg) is Bind,
        bound(classify(level, arg), before, after),
        tokens_ok(after),
        path.contains('/'),
    ensures
        !output(classify(level, arg), before.len() as int, after).contains('/'),
        !occurs(path, output(classify(level, arg), before.len() as int, after)),
{
    lemma_classify_slash_free(level, arg);
    lemma_output_without_slash(classify(level, arg), before, after);
    lemma_hidden(path, output(classify(level, arg), before.len() as int, after));
}

/// Token hiding for host strings: as `law_token_hiding`, for a string that
/// need not be valid Unicode.
pub proof fn law_token_hiding_os(
    level: MagicLevel,
    arg: Seq<u8>,
    before: Seq<Binding>,
    after: Seq<Binding>,
    path: Seq<char>,
)
    requires
        classify_os(level, arg) is Bind,
        bound(classify_os(level, arg), before, after),
        tokens_ok(after),
        path.contains('/'),
    ensures
        !output(classify_os(level, arg), before.len() as int, after).contains('/'),
        !occurs(path, output(classify_os(level, arg), before.len() as int, after)),
{
    lemma_classify_os_slash_free(level, arg);
    lemma_output_without_slash(classify_os(level, arg), before, after);
    lemma_hidden(path, output(classify_os(level, arg), before.len() as int, after));
}

/// A decision that binds, binds at least one path.
pub proof fn law_binding_binds(level: MagicLevel, arg: Seq<char>)
    ensures
        classify(level, arg) is Bind ==> grants(classify(level, arg)) >= 1,
{
    lemma_first_index(arg, ':');
}

/// A token is not taken for a path: it holds no slash, it is no dot file,
/// and what follows its only dot is too long for an extension. So a token
/// that is processed again is passed on as it is, at every level.
pub proof fn law_token_is_no_path(level: MagicLevel, token: Seq<char>)
    requires
        is_token(token),
    ensures
        !likely_path(token),
        classify(level, token) == Rewrite::Verbatim(token),
{
    reveal_strlit("wasi-preopen.");
    lemma_token_shape(token);
    lemma_token_without_slash(token);
    lemma_basename_no_slash(token);
    let p = TOKEN_PREFIX@;
    let u = token.skip(p.len() as int);
    assert(p =~= token.subrange(0, p.len() as int));
    assert forall|d: int| !plain_extension_at(token, d) by {
        if 0 <= d < token.len() && token[d] == '.' {
            if d < p.len() {
                assert(token[d] == token.subrange(0, p.len() as int)[d]);
                assert(token[d] == p[d]);
            } else {
                assert(token[d] == u[d - p.len()]);
                if !hyphen_position(d - p.len()) {
                    assert(lower_hex(u[d - p.len()]));
                }
            }
        }
    }
    assert(!token.contains(':')) by {
        if token.contains(':') {
            let j = choose|j: int| 0 <= j < token.len() && token[j] == ':';
            assert(token_char(token[j]));
        }
    }
    assert(!token.contains('=')) by {
        if token.contains('=') {
            let j = choose|j: int| 0 <= j < token.len() && token[j] == '=';
            assert(token_char(token[j]));
        }
    }
}

/// The first of some pieces begins their joined text.
proof fn lemma_join_begins(pieces: Seq<Seq<char>>, sep: char)
    requires
        pieces.len() >= 1,
    ensures
        pieces[0].is_prefix_of(join(pieces, sep)),
    decreases pieces.len(),
{
    if pieces.len() > 1 {
        let init = pieces.drop_last();
        lemma_join_begins(init, sep);
        assert(init[0] == pieces[0]);
        let joined = join(pieces, sep);
        assert(pieces[0] =~= joined.subrange(0, pieces[0].len() as int)) by {
            assert(pieces[0] =~= join(init, sep).subrange(0, pieces[0].len() as int));
        }
    } else {
        assert(pieces[0] =~= pieces[0].subrange(0, pieces[0].len() as int));
    }
}

/// A translated string in which anything was replaced shows a token: the
/// token of the first binding that was added stands right behind the lead.
pub proof fn law_translated_shows_token(
    level: MagicLevel,
    arg: Seq<char>,
    before: Seq<Binding>,
    after: Seq<Binding>,
)
    requires
        classify(level, arg) is Bind,
        bound(classify(level, arg), before, after),
    ensures
        after.len() > before.len(),
        occurs(
            after[before.len() as int].token,
            output(classify(level, arg), before.len() as int, after),
        ),
{
    law_binding_binds(level, arg);
    match classify(level, arg) {
        Rewrite::Bind { lead, targets, access } => {
            let at = before.len() as int;
            let pieces = shown(targets, at, after);
            let token = after[at].token;
            let out = lead + join(pieces, ':');
            lemma_join_begins(pieces, ':');
            assert(pieces[0] == after[at + 0].token + targets[0].suffix);
            let tail = out.skip(lead.len() as int);
            assert(tail =~= join(pieces, ':'));
            assert(token =~= tail.subrange(0, token.len() as int)) by {
                assert(pieces[0] =~= tail.subrange(0, pieces[0].len() as int));
                assert(token =~= pieces[0].subrange(0, token.len() as int));
            }
            assert(occurs_at(token, out, lead.len() as int));
        },
        _ => {},
    }
}

/// Bindings are never changed and never removed: whatever a list of
/// decisions adds, the table begins as it was before.
pub proof fn law_append_only(
    rws: Seq<Rewrite>,
    before: Seq<Binding>,
    after: Seq<Binding>,
    res: Result<Seq<Seq<char>>, ErrorKind>,
)
    requires
        run(rws, before, after, res),
    ensures
        before.len() <= after.len(),
        after.take(before.len() as int) == before,
{
    lemma_bound_all_extends(rws.take(first_reject(rws)), before, after);
}

/// Suffix join. An open of a binding's token followed by any text resolves,
/// for every request that the binding permits, to a host path followed by
/// the bytes of that text. The host path is that of the first binding with
/// the token that permits the request: of the binding itself, where no
/// earlier one shares its token, as in every table of distinct tokens.
pub proof fn law_suffix_join(table: Seq<Binding>, i: int, request: Request, suffix: Seq<char>)
    requires
        tokens_ok(table),
        0 <= i < table.len(),
        permits(table[i].access, request),
    ensures
        ({
            let first = first_granting(table, table[i].token, request, 0);
            &&& 0 <= first <= i
            &&& table[first].token == table[i].token
            &&& permits(table[first].access, request)
            &&& tokens_distinct(table) ==> first == i
            &&& resolve(table, request, table[i].token + suffix) == Ok::<Seq<u8>, Denial>(
                table[first].original + encode_utf8(suffix),
            )
        }),
{
    let token = table[i].token;
    let path = token + suffix;
    lemma_token_shape(token);
    assert(token =~= path.subrange(0, token.len() as int));
    assert(serves(table[i], request, path));
    lemma_first_serving(table, request, path, 0);
    lemma_first_granting(table, token, request, 0);
    let j = first_serving(table, request, path, 0);
    let first = first_granting(table, token, request, 0);
    lemma_token_shape(table[j].token);
    assert(table[j].token =~= path.subrange(0, TOKEN_CHARS as int));
    assert(table[j].token == token);
    if first < j {
        assert(serves(table[first], request, path));
    }
    assert(j == first);
    assert(path.skip(token.len() as int) =~= suffix);
}

/// Round trip. An open of exactly a binding's token resolves, for every
/// request that the binding permits, to exactly the host path of the first
/// binding with the token that permits the request: of the binding itself,
/// where no earlier one shares its token, as in every table of distinct
/// tokens.
pub proof fn law_round_trip(table: Seq<Binding>, i: int, request: Request)
    requires
        tokens_ok(table),
        0 <= i < table.len(),
        permits(table[i].access, request),
    ensures
        ({
            let first = first_granting(table, table[i].token, request, 0);
            &&& 0 <= first <= i
            &&& table[first].token == table[i].token
            &&& tokens_distinct(table) ==> first == i
            &&& resolve(table, request, table[i].token) == Ok::<Seq<u8>, Denial>(
                table[first].original,
            )
        }),
{
    let first = first_granting(table, table[i].token, request, 0);
    law_suffix_join(table, i, request, Seq::empty());
    assert(table[i].token + Seq::<char>::empty() =~= table[i].token);
    assert(table[first].original + encode_utf8(Seq::<char>::empty()) =~= table[first].original);
}

/// Round trip of a path. Where a path was bound as a whole and the tokens
/// of the table are distinct, an open of the translated string resolves, for
/// every request that the access permits, to the bytes of the path as it
/// was given: the extension that stayed visible is put back behind the
/// stem.
pub proof fn law_translated_path_opens(
    path: Seq<char>,
    access: Access,
    request: Request,
    before: Seq<Binding>,
    after: Seq<Binding>,
)
    requires
        bound(
            Rewrite::Bind { lead: Seq::empty(), targets: seq![target_of(path)], access },
            before,
            after,
        ),
        tokens_ok(after),
        tokens_distinct(after),
        permits(access, request),
    ensures
        resolve(
            after,
            request,
            output(
                Rewrite::Bind { lead: Seq::empty(), targets: seq![target_of(path)], access },
                before.len() as int,
                after,
            ),
        ) == Ok::<Seq<u8>, Denial>(encode_utf8(path)),
{
    let targets = seq![target_of(path)];
    let rw = Rewrite::Bind { lead: Seq::empty(), targets, access };
    let at = before.len() as int;
    let pieces = shown(targets, at, after);
    assert(pieces.len() == 1);
    assert(pieces[0] == after[at + 0].token + targets[0].suffix);
    assert(output(rw, at, after) =~= after[at].token + extension(path));
    law_suffix_join(after, at, request, extension(path));
    lemma_stem_extension(path);
    lemma_encode_concat(stem(path), extension(path));
}

/// An open succeeds only through a binding whose token begins the path and
/// whose access permits the request. Where it fails, the path is called no
/// preopen exactly when no binding at all has a token that begins it; else
/// the reason names a binding that has such a token, with the access that
/// it permits, which is never `Any` and does not permit the request.
pub proof fn law_open_needs_permission(table: Seq<Binding>, request: Request, path: Seq<char>)
    ensures
        resolve(table, request, path) is Ok <==> exists|i: int|
            0 <= i < table.len() && serves(#[trigger] table[i], request, path),
        resolve(table, request, path) is Err ==> (resolve(table, request, path)->Err_0
            is NotAPreopen <==> forall|i: int|
            0 <= i < table.len() ==> !names(#[trigger] table[i], path)),
        resolve(table, request, path) matches Err(Denial::AccessDenied { original, permitted })
            ==> {
            &&& !(permitted is Any)
            &&& !permits(permitted, request)
            &&& exists|i: int|
                0 <= i < table.len() && names(#[trigger] table[i], path) && table[i].original
                    == original && table[i].access == permitted
        },
{
    lemma_first_serving(table, request, path, 0);
    lemma_first_limiting(table, path, 0);
    let i = first_serving(table, request, path, 0);
    if i < table.len() {
        assert(serves(table[i], request, path));
    } else {
        let k = first_limiting(table, path, 0);
        if k < table.len() {
            assert(limits(table[k], path));
            assert(names(table[k], path));
            assert(!serves(table[k], request, path));
        } else {
            assert forall|j: int| 0 <= j < table.len() implies !names(
                #[trigger] table[j],
                path,
            ) by {
                assert(!serves(table[j], request, path));
                assert(!limits(table[j], path));
            }
        }
    }
}

/// Extension preservation. The translated string of a decision that binds
/// ends in the suffix of its last target: for a path, in the extension of
/// the path.
pub proof fn law_extension_preserved(rw: Rewrite, at: int, table: Seq<Binding>)
    requires
        rw is Bind,
        grants(rw) >= 1,
    ensures
        rw->targets.last().suffix.is_suffix_of(output(rw, at, table)),
{
    match rw {
        Rewrite::Bind { lead, targets, access } => {
            let pieces = shown(targets, at, table);
            let last = pieces.last();
            let suffix = targets.last().suffix;
            assert(last == table[at + targets.len() - 1].token + suffix);
            assert(suffix =~= last.subrange(last.len() - suffix.len(), last.len() as int));
            let joined = join(pieces, ':');
            assert(last =~= joined.subrange(joined.len() - last.len(), joined.len() as int)) by {
                if pieces.len() > 1 {
                    assert(joined == join(pieces.drop_last(), ':') + seq![':'] + last);
                }
            }
            let out = lead + joined;
            assert(suffix =~= out.subrange(out.len() - suffix.len(), out.len() as int));
        },
        _ => {},
    }
}

/// Extension preservation for a path. Where a path is bound behind a lead,
/// the translated string ends in the extension of the path.
pub proof fn law_path_extension_preserved(
    lead: Seq<char>,
    path: Seq<char>,
    access: Access,
    at: int,
    table: Seq<Binding>,
)
    ensures
        extension(path).is_suffix_of(
            output(Rewrite::Bind { lead, targets: seq![target_of(path)], access }, at, table),
        ),
{
    let rw = Rewrite::Bind { lead, targets: seq![target_of(path)], access };
    law_extension_preserved(rw, at, table);
    assert(seq![target_of(path)].last() == target_of(path));
}

/// Decisions that all pass their text on bind nothing, and yield their
/// texts.
proof fn lemma_verbatim_run(rws: Seq<Rewrite>, before: Seq<Binding>, after: Seq<Binding>)
    requires
        forall|i: int| 0 <= i < rws.len() ==> #[trigger] rws[i] is Verbatim,
        bound_all(rws, before, after),
    ensures
        after == before,
        outputs(rws, before.len() as int, after).len() == rws.len(),
        forall|i: int|
            0 <= i < rws.len() ==> #[trigger] outputs(rws, before.len() as int, after)[i]
                == rws[i]->Verbatim_0,
    decreases rws.len(),
{
    if rws.len() > 0 {
        let init = rws.drop_last();
        assert(rws.last() is Verbatim);
        assert forall|i: int| 0 <= i < init.len() implies #[trigger] init[i] is Verbatim by {
            assert(init[i] == rws[i]);
        }
        let mid = after.take(after.len() - grants(rws.last()));
        assert(mid =~= after);
        lemma_verbatim_run(init, before, after);
        let outs = outputs(rws, before.len() as int, after);
        assert forall|i: int| 0 <= i < rws.len() implies #[trigger] outs[i]
            == rws[i]->Verbatim_0 by {
            if i < init.len() {
                assert(outs[i] == outputs(init, before.len() as int, after)[i]);
                assert(init[i] == rws[i]);
            }
        }
    }
}

/// No-magic emptiness. At the level without magic every argument comes back
/// as it went in and nothing is refused; the table is empty and stays so,
/// and every open is refused because the path is no preopen.
pub proof fn law_no_magic(
    args: Seq<Seq<char>>,
    before: Seq<Binding>,
    after: Seq<Binding>,
    res: Result<Seq<Seq<char>>, ErrorKind>,
    request: Request,
    path: Seq<char>,
)
    requires
        well_formed(MagicLevel::NoMagic, before),
        run(decide_args(MagicLevel::NoMagic, args), before, after, res),
    ensures
        res == Ok::<Seq<Seq<char>>, ErrorKind>(args),
        after.len() == 0,
        resolve(after, request, path) == Err::<Seq<u8>, Denial>(Denial::NotAPreopen),
{
    let rws = decide_args(MagicLevel::NoMagic, args);
    lemma_first_reject_is(rws, rws.len() as int);
    assert(rws.take(rws.len() as int) =~= rws);
    lemma_verbatim_run(rws, before, after);
    assert(outputs(rws, before.len() as int, after) =~= args);
}

/// No-magic emptiness for host strings. At the level without magic host
/// strings that are valid Unicode come back as their text and nothing is
/// refused; the table is empty and stays so, and every open is refused
/// because the path is no preopen.
pub proof fn law_no_magic_os(
    args: Seq<Seq<u8>>,
    before: Seq<Binding>,
    after: Seq<Binding>,
    res: Result<Seq<Seq<char>>, ErrorKind>,
    request: Request,
    path: Seq<char>,
)
    requires
        well_formed(MagicLevel::NoMagic, before),
        forall|i: int| 0 <= i < args.len() ==> valid_utf8(#[trigger] args[i]),
        run(decide_args_os(MagicLevel::NoMagic, args), before, after, res),
    ensures
        res == Ok::<Seq<Seq<char>>, ErrorKind>(args.map_values(|a: Seq<u8>| decode_utf8(a))),
        after.len() == 0,
        resolve(after, request, path) == Err::<Seq<u8>, Denial>(Denial::NotAPreopen),
{
    let rws = decide_args_os(MagicLevel::NoMagic, args);
    assert forall|i: int| 0 <= i < rws.len() implies #[trigger] rws[i] is Verbatim by {
        assert(valid_utf8(args[i]));
    }
    lemma_first_reject_is(rws, rws.len() as int);
    assert(rws.take(rws.len() as int) =~= rws);
    lemma_verbatim_run(rws, before, after);
    assert(outputs(rws, before.len() as int, after) =~= args.map_values(
        |a: Seq<u8>| decode_utf8(a),
    )) by {
        assert forall|i: int| 0 <= i < rws.len() implies outputs(
            rws,
            before.len() as int,
            after,
        )[i] == decode_utf8(args[i]) by {
            assert(valid_utf8(args[i]));
        }
    }
}

/// At the level without magic a single argument is passed through, whatever
/// it is, and nothing is bound for a host string either: its text is passed
/// through, or it is refused because it is not valid Unicode.
pub proof fn law_no_magic_verbatim(arg: Seq<char>, bytes: Seq<u8>)
    ensures
        classify(MagicLevel::NoMagic, arg) == Rewrite::Verbatim(arg),
        classify_os(MagicLevel::NoMagic, bytes) == if valid_utf8(bytes) {
            Rewrite::Verbatim(decode_utf8(bytes))
        } else {
            Rewrite::Reject(ErrorKind::IllFormedString)
        },
{
}

/// Verbatim. At every level with magic, `%verbatim:` followed by any text is
/// rewritten to that text, and nothing is bound.
pub proof fn law_verbatim(level: MagicLevel, text: Seq<char>)
    requires
        !(level is NoMagic),
    ensures
        classify(level, seq!['%'] + VERBATIM@ + text) == Rewrite::Verbatim(text),
        grants(classify(level, seq!['%'] + VERBATIM@ + text)) == 0,
{
    let arg = seq!['%'] + VERBATIM@ + text;
    let rest = VERBATIM@ + text;
    assert(arg[0] == '%');
    assert(arg.skip(1) =~= rest);
    assert(VERBATIM@ =~= rest.subrange(0, VERBATIM@.len() as int));
    assert(rest.skip(VERBATIM@.len() as int) =~= text);
}

/// The bytes of a token: 49 of them, one for each character.
proof fn lemma_token_bytes(t: Seq<char>)
    requires
        is_token(t),
    ensures
        encode_utf8(t).len() == TOKEN_CHARS,
        forall|i: int| 0 <= i < t.len() ==> #[trigger] encode_utf8(t)[i] == t[i] as u8,
{
    lemma_token_shape(t);
    assert(is_ascii_chars(t)) by {
        assert forall|i: int| 0 <= i < t.len() implies '\0' <= #[trigger] t[i] <= '\u{7f}' by {
            assert(token_char(t[i]));
        }
    }
    is_ascii_chars_encode_utf8(t);
}

/// Where no token stands at any position of `pre`, the substitution passes
/// `pre` through and goes on behind it.
proof fn lemma_substitute_through(table: Seq<Binding>, pre: Seq<u8>, rest: Seq<u8>)
    requires
        forall|j: int|
            0 <= j < pre.len() ==> first_standing(table, #[trigger] (pre + rest).skip(j), 0)
                == table.len(),
    ensures
        substitute(table, pre + rest) == pre + substitute(table, rest),
    decreases pre.len(),
{
    let text = pre + rest;
    if pre.len() == 0 {
        assert(text =~= rest);
        assert(pre + substitute(table, rest) =~= substitute(table, rest));
    } else {
        assert(text.skip(0) =~= text);
        assert(first_standing(table, text.skip(0), 0) == table.len());
        let shorter = pre.skip(1);
        assert(text.skip(1) =~= shorter + rest);
        assert forall|j: int| 0 <= j < shorter.len() implies first_standing(
            table,
            #[trigger] (shorter + rest).skip(j),
            0,
        ) == table.len() by {
            assert((shorter + rest).skip(j) =~= text.skip(j + 1));
        }
        lemma_substitute_through(table, shorter, rest);
        assert(text[0] == pre[0]);
        let behind = substitute(table, rest);
        assert(seq![pre[0]] + (shorter + behind) =~= pre + behind);
    }
}

/// With well-formed tokens, no token stands at the start of a text that
/// does not begin with the byte `w`, or that is shorter than a token.
proof fn lemma_nothing_stands(table: Seq<Binding>, text: Seq<u8>)
    requires
        tokens_ok(table),
        text.len() < TOKEN_CHARS || text[0] != 119u8,
    ensures
        first_standing(table, text, 0) == table.len(),
{
    lemma_first_standing(table, text, 0);
    let i = first_standing(table, text, 0);
    if i < table.len() {
        lemma_token_bytes(table[i].token);
        lemma_token_shape(table[i].token);
        let t = token_bytes(table[i]);
        assert(t =~= text.subrange(0, t.len() as int));
        assert(t[0] == text.subrange(0, t.len() as int)[0]);
        assert(t[0] == table[i].token[0] as u8);
    }
}

/// A text shorter than a token comes out of the substitution as it went in.
proof fn lemma_substitute_short(table: Seq<Binding>, text: Seq<u8>)
    requires
        tokens_ok(table),
        text.len() < TOKEN_CHARS,
    ensures
        substitute(table, text) == text,
{
    assert forall|j: int| 0 <= j < text.len() implies first_standing(
        table,
        #[trigger] (text + Seq::<u8>::empty()).skip(j),
        0,
    ) == table.len() by {
        lemma_nothing_stands(table, (text + Seq::<u8>::empty()).skip(j));
    }
    lemma_substitute_through(table, text, Seq::empty());
    assert(text + Seq::<u8>::empty() =~= text);
}

/// Writer substitution. Writing `hello `, the token of any binding and
/// ` world` with a line break to a writer with an empty line buffer sends
/// `hello `, a host path and ` world` with the line break to the sink, and
/// leaves the line buffer empty. The host path is that of the first binding
/// with the token: of the binding itself, where no earlier one shares its
/// token, as in every table of distinct tokens.
pub proof fn law_writer_substitution(table: Seq<Binding>, i: int)
    requires
        tokens_ok(table),
        0 <= i < table.len(),
    ensures
        ({
            let first = first_with_token(table, table[i].token, 0);
            &&& 0 <= first <= i
            &&& table[first].token == table[i].token
            &&& tokens_distinct(table) ==> first == i
            &&& feed(
                table,
                Seq::empty(),
                encode_utf8("hello "@) + token_bytes(table[i]) + encode_utf8(" world\n"@),
            ) == (
                encode_utf8("hello "@) + table[first].original + encode_utf8(" world\n"@),
                Seq::<u8>::empty(),
            )
        }),
{
    reveal_strlit("hello ");
    reveal_strlit(" world\n");
    let hello = encode_utf8("hello "@);
    let world = encode_utf8(" world\n"@);
    let token = token_bytes(table[i]);
    is_ascii_chars_encode_utf8("hello "@);
    is_ascii_chars_encode_utf8(" world\n"@);
    lemma_token_bytes(table[i].token);
    lemma_token_shape(table[i].token);
    assert(hello.len() == 6);
    assert(world.len() == 7);
    assert(world[6] == LINE_BREAK);
    let data = hello + token + world;
    let n = data.len() as int;

    // The line break is the last byte, and the only one.
    assert forall|j: int| 0 <= j < n - 1 implies data[j] != LINE_BREAK by {
        if j < 6 {
            assert(data[j] == hello[j]);
            assert(hello[j] == "hello "@[j] as u8);
        } else if j < 6 + token.len() {
            assert(data[j] == token[j - 6]);
            assert(token_char(table[i].token[j - 6]));
        } else {
            assert(data[j] == world[j - 6 - token.len()]);
            assert(world[j - 6 - token.len()] == " world\n"@[j - 6 - token.len()] as u8);
        }
    }
    assert(data[n - 1] == world[6]);
    lemma_first_index_is(data, LINE_BREAK, n - 1);
    assert(data.take(n) =~= data);
    assert(data.skip(n) =~= Seq::<u8>::empty());
    assert(Seq::<u8>::empty() + data =~= data);
    let tail = feed(table, Seq::empty(), Seq::<u8>::empty());
    assert(tail == (Seq::<u8>::empty(), Seq::<u8>::empty() + Seq::<u8>::empty()));
    assert(tail.1 =~= Seq::<u8>::empty());

    // No token stands within `hello `.
    let rest = token + world;
    assert(data =~= hello + rest);
    assert forall|j: int| 0 <= j < hello.len() implies first_standing(
        table,
        #[trigger] (hello + rest).skip(j),
        0,
    ) == table.len() by {
        let text = (hello + rest).skip(j);
        assert(text[0] == hello[j]);
        assert(hello[j] == "hello "@[j] as u8);
        lemma_nothing_stands(table, text);
    }
    lemma_substitute_through(table, hello, rest);

    // The token stands next: the first binding at which it stands is the
    // first binding that has it.
    assert(token =~= rest.subrange(0, token.len() as int));
    assert(stands_at(table[i], rest));
    lemma_first_standing(table, rest, 0);
    lemma_first_with_token(table, table[i].token, 0);
    let k = first_standing(table, rest, 0);
    let first = first_with_token(table, table[i].token, 0);
    lemma_token_bytes(table[k].token);
    assert(token_bytes(table[k]) =~= rest.subrange(0, TOKEN_CHARS as int));
    assert(token_bytes(table[k]) == token);
    encode_utf8_decode_utf8(table[k].token);
    encode_utf8_decode_utf8(table[i].token);
    assert(table[k].token == table[i].token);
    if first < k {
        assert(token_bytes(table[first]) == token);
        assert(stands_at(table[first], rest));
    }
    assert(k == first);
    assert(rest.skip(token.len() as int) =~= world);
    lemma_substitute_short(table, world);
    let path = table[first].original;
    assert(substitute(table, rest) == path + world);
    assert(hello + (path + world) =~= hello + path + world);
    assert(substitute(table, data) + tail.0 =~= hello + path + world);
}

/// Where a list of variables in host strings is refused because of a name,
/// the variable at which processing stopped is the first whose name is not
/// valid Unicode.
pub proof fn law_ill_formed_name(
    level: MagicLevel,
    vars: Seq<(Vec<u8>, Vec<u8>)>,
    before: Seq<Binding>,
    after: Seq<Binding>,
)
    requires
        run(
            decide_vars_os(level, vars),
            before,
            after,
            Err::<Seq<Seq<char>>, ErrorKind>(ErrorKind::IllFormedName),
        ),
    ensures
        ({
            let k = first_reject(decide_vars_os(level, vars));
            &&& 0 <= k < vars.len()
            &&& !valid_utf8(vars[k].0@)
            &&& forall|j: int| 0 <= j < k ==> valid_utf8(#[trigger] vars[j].0@)
        }),
{
    let rws = decide_vars_os(level, vars);
    lemma_first_reject(rws);
    let k = first_reject(rws);
    assert(rws[k] == classify_var_os(level, vars[k].0@, vars[k].1@));
    assert forall|j: int| 0 <= j < k implies valid_utf8(#[trigger] vars[j].0@) by {
        assert(rws[j] == classify_var_os(level, vars[j].0@, vars[j].1@));
        assert(!(rws[j] is Reject));
    }
}

/// An absolute path that the classifier takes for a path: it begins with a
/// slash, holds no colon, and is likely to be a path.
#[verifier::opaque]
pub open spec fn plain_absolute_path(path: Seq<char>) -> bool {
    &&& path.len() > 0
    &&& path[0] == '/'
    &&& !path.contains(':')
    &&& likely_path(path)
}

/// No printable ASCII character other than the space is white space or a
/// control code.
pub open spec fn graphic_ascii_is_plain() -> bool {
    forall|c: char| #[trigger]
        ascii_graphic(c) ==> !unicode_white_space(c) && !unicode_control(c)
}

/// Printable ASCII without spaces and colons, in which no dot stands at the
/// end or before a slash.
pub open spec fn tidy(s: Seq<char>) -> bool {
    &&& forall|i: int| 0 <= i < s.len() ==> ascii_graphic(#[trigger] s[i]) && s[i] != ':'
    &&& forall|i: int|
        0 <= i < s.len() && #[trigger] s[i] == '.' ==> i + 1 < s.len() && s[i + 1] != '/'
}

/// The components of tidy text are acceptable, if printable ASCII is plain.
proof fn lemma_tidy_components(s: Seq<char>)
    requires
        graphic_ascii_is_plain(),
        tidy(s),
    ensures
        components_ok(s),
    decreases s.len(),
{
    lemma_components_step(s);
    lemma_first_index(s, '/');
    let i = first_index(s, '/');
    if 0 <= i < s.len() {
        let p = s.take(i);
        if i > 0 {
            assert(p[0] == s[0]);
            assert(p.last() == s[i - 1]);
            assert(ascii_graphic(s[0]));
            assert(ascii_graphic(s[i - 1]));
            if s[i - 1] == '.' {
                assert(s[i - 1 + 1] != '/');
            }
        }
        let rest = s.skip(i + 1);
        assert(tidy(rest)) by {
            assert forall|j: int| 0 <= j < rest.len() implies ascii_graphic(#[trigger] rest[j])
                && rest[j] != ':' by {
                assert(rest[j] == s[i + 1 + j]);
            }
            assert forall|j: int| 0 <= j < rest.len() && #[trigger] rest[j] == '.' implies j + 1
                < rest.len() && rest[j + 1] != '/' by {
                assert(rest[j] == s[i + 1 + j]);
                assert(s[i + 1 + j] == '.');
                assert(rest[j + 1] == s[i + 1 + j + 1]);
            }
        }
        lemma_tidy_components(rest);
    } else if s.len() > 0 {
        assert(ascii_graphic(s[0]));
        assert(ascii_graphic(s.last()));
        if s.last() == '.' {
            assert(s[s.len() - 1] == '.');
        }
    }
}

/// A tidy path. If printable ASCII is plain, then tidy text of at most 4096
/// characters that begins with a slash is a plain absolute path: at the
/// levels that infer paths it is bound as a whole, and
/// `law_input_and_output` holds of it.
pub proof fn law_tidy_path(s: Seq<char>)
    requires
        graphic_ascii_is_plain(),
        tidy(s),
        0 < s.len() <= MAX_PATH_BYTES,
        s[0] == '/',
    ensures
        plain_absolute_path(s),
{
    reveal(plain_absolute_path);
    lemma_tidy_components(s);
    assert(ascii_graphic('/'));
    assert(is_ascii_chars(s)) by {
        assert forall|i: int| 0 <= i < s.len() implies '\0' <= #[trigger] s[i] <= '\u{7f}' by {
            assert(ascii_graphic(s[i]));
        }
    }
    is_ascii_chars_encode_utf8(s);
    assert(s.contains('/')) by {
        assert(s[0] == '/');
    }
    assert(!s.contains(':')) by {
        if s.contains(':') {
            let j = choose|j: int| 0 <= j < s.len() && s[j] == ':';
            assert(ascii_graphic(s[j]) && s[j] != ':');
        }
    }
    assert(!has_control(s)) by {
        if has_control(s) {
            let j = choose|j: int| 0 <= j < s.len() && unicode_control(#[trigger] s[j]);
            assert(ascii_graphic(s[j]));
        }
    }
}

/// The decision to bind `path` as a whole with the access that `level`
/// infers.
pub open spec fn bound_whole(level: MagicLevel, path: Seq<char>) -> Rewrite {
    Rewrite::Bind {
        lead: Seq::empty(),
        targets: seq![target_of(path)],
        access: inferred_access(level),
    }
}

/// At the levels that infer paths, a plain absolute path is bound as a
/// whole, be it given as text or as a host string.
pub proof fn law_absolute_path_is_bound(level: MagicLevel, path: Seq<char>)
    requires
        level is Auto || level is Readonly,
        plain_absolute_path(path),
    ensures
        classify(level, path) == bound_whole(level, path),
        classify_os(level, encode_utf8(path)) == bound_whole(level, path),
        path.contains('/'),
{
    reveal(plain_absolute_path);
    assert(path[0] == '/');
    lemma_first_index(path, '=');
    let eq = first_index(path, '=');
    if path.contains('=') {
        assert(path.take(eq + 1)[0] == '/');
    }
    encode_utf8_valid_utf8(path);
    encode_utf8_decode_utf8(path);
}

/// Two decisions that bind one target each, carried out on an empty table:
/// the two bindings and the two strings.
proof fn lemma_two_bindings(
    first: Target,
    second: Target,
    access: Access,
    after: Seq<Binding>,
    res: Result<Seq<Seq<char>>, ErrorKind>,
)
    requires
        run(
            seq![
                Rewrite::Bind { lead: Seq::empty(), targets: seq![first], access },
                Rewrite::Bind { lead: Seq::empty(), targets: seq![second], access },
            ],
            Seq::empty(),
            after,
            res,
        ),
    ensures
        after.len() == 2,
        after[0].original == first.original,
        after[1].original == second.original,
        after[0].access == access,
        after[1].access == access,
        res == Ok::<Seq<Seq<char>>, ErrorKind>(
            seq![after[0].token + first.suffix, after[1].token + second.suffix],
        ),
{
    let rw0 = Rewrite::Bind { lead: Seq::empty(), targets: seq![first], access };
    let rw1 = Rewrite::Bind { lead: Seq::empty(), targets: seq![second], access };
    let rws = seq![rw0, rw1];
    lemma_first_reject_is(rws, 2);
    assert(rws.take(2) =~= rws);
    let init = rws.drop_last();
    assert(init =~= seq![rw0]);
    assert(init.drop_last() =~= Seq::<Rewrite>::empty());
    let mid = after.take(after.len() - grants(rws.last()));
    let none = mid.take(mid.len() - grants(init.last()));
    assert(bound_all(init, Seq::empty(), mid));
    assert(bound_all(init.drop_last(), Seq::empty(), none));
    assert(none =~= Seq::<Binding>::empty());
    assert(bound(rw0, none, mid));
    assert(bound(rw1, mid, after));
    assert(mid.len() == 1);
    assert(after[0] == mid[0]) by {
        assert(after.take(1)[0] == after[0]);
    }
    assert(mid[none.len() as int + 0].original == seq![first][0].original);
    assert(after[mid.len() as int + 0].original == seq![second][0].original);

    let one = after[0].token + first.suffix;
    let two = after[1].token + second.suffix;
    let shown_one = shown(seq![first], 0, after);
    let shown_two = shown(seq![second], 1, after);
    assert(shown_one.len() == 1 && shown_one[0] == one);
    assert(shown_two.len() == 1 && shown_two[0] == two);
    assert(output(rw0, 0, after) =~= one);
    assert(output(rw1, 1, after) =~= two);
    assert(grants_all(init.drop_last()) == 0);
    assert(grants_all(init) == 1);
    assert(outputs(init.drop_last(), 0, after) =~= Seq::<Seq<char>>::empty());
    assert(outputs(init, 0, after) =~= seq![one]);
    assert(outputs(rws, 0, after) =~= seq![one, two]);
}

/// Where the first binding of a table does not permit a request and
/// permits less than everything, an open of its token, followed by any text,
/// is refused with that binding's access, unless a later binding serves it.
proof fn lemma_first_refuses(table: Seq<Binding>, request: Request, suffix: Seq<char>)
    requires
        table.len() >= 1,
        !(table[0].access is Any),
        forall|i: int| 0 <= i < table.len() ==> !permits(#[trigger] table[i].access, request),
    ensures
        resolve(table, request, table[0].token + suffix) == Err::<Seq<u8>, Denial>(
            Denial::AccessDenied { original: table[0].original, permitted: table[0].access },
        ),
{
    let path = table[0].token + suffix;
    assert(table[0].token =~= path.subrange(0, table[0].token.len() as int));
    assert(limits(table[0], path));
    lemma_first_serving(table, request, path, 0);
    let k = first_serving(table, request, path, 0);
    if k < table.len() {
        assert(permits(table[k].access, request));
    }
}

/// In a table of two bindings, which of them an open of the second token,
/// followed by any text, meets.
proof fn lemma_second_of_two(table: Seq<Binding>, request: Request, suffix: Seq<char>)
    requires
        tokens_ok(table),
        table.len() == 2,
        table[0].token != table[1].token,
    ensures
        permits(table[1].access, request) ==> resolve(table, request, table[1].token + suffix)
            == Ok::<Seq<u8>, Denial>(table[1].original + encode_utf8(suffix)),
        !permits(table[1].access, request) && !(table[1].access is Any) ==> resolve(
            table,
            request,
            table[1].token + suffix,
        ) == Err::<Seq<u8>, Denial>(
            Denial::AccessDenied { original: table[1].original, permitted: table[1].access },
        ),
{
    let path = table[1].token + suffix;
    lemma_token_shape(table[0].token);
    lemma_token_shape(table[1].token);
    assert(table[1].token =~= path.subrange(0, TOKEN_CHARS as int));
    assert(path.skip(TOKEN_CHARS as int) =~= suffix);
    assert(names(table[1], path));
    assert(!names(table[0], path)) by {
        if names(table[0], path) {
            assert(table[0].token =~= path.subrange(0, TOKEN_CHARS as int));
        }
    }
    assert(first_serving(table, request, path, 2) == 2);
    assert(first_limiting(table, path, 2) == 2);
    if permits(table[1].access, request) {
        assert(first_serving(table, request, path, 1) == 1);
        assert(first_serving(table, request, path, 0) == 1);
    } else {
        assert(first_serving(table, request, path, 1) == 2);
        assert(first_serving(table, request, path, 0) == 2);
        if !(table[1].access is Any) {
            assert(limits(table[1], path));
            assert(first_limiting(table, path, 1) == 1);
            assert(first_limiting(table, path, 0) == 1);
        }
    }
}

/// Two bindings with the same access, Any or Read, and what an open of
/// each token followed by a text without slashes comes to.
proof fn lemma_pair(
    table: Seq<Binding>,
    first_suffix: Seq<char>,
    second_suffix: Seq<char>,
    first_path: Seq<char>,
    second_path: Seq<char>,
)
    requires
        tokens_ok(table),
        table.len() == 2,
        table[0].access == table[1].access,
        table[0].access is Any || table[0].access is Read,
        !first_suffix.contains('/'),
        !second_suffix.contains('/'),
        first_path.contains('/'),
        second_path.contains('/'),
    ensures
        !occurs(first_path, table[0].token + first_suffix),
        !occurs(second_path, table[1].token + second_suffix),
        resolve(table, Request::Read, table[0].token + first_suffix) == Ok::<Seq<u8>, Denial>(
            table[0].original + encode_utf8(first_suffix),
        ),
        table[0].token != table[1].token ==> resolve(
            table,
            Request::Read,
            table[1].token + second_suffix,
        ) == Ok::<Seq<u8>, Denial>(table[1].original + encode_utf8(second_suffix)),
        table[0].access is Any && table[0].token != table[1].token ==> resolve(
            table,
            Request::Write,
            table[1].token + second_suffix,
        ) == Ok::<Seq<u8>, Denial>(table[1].original + encode_utf8(second_suffix)),
        table[0].access is Read ==> (resolve(table, Request::Write, table[1].token + second_suffix)
            matches Err(Denial::AccessDenied { original, permitted }) && permitted == Access::Read
            && (table[0].token != table[1].token ==> original == table[1].original)),
{
    lemma_token_without_slash(table[0].token);
    lemma_token_without_slash(table[1].token);
    lemma_concat_contains(table[0].token, first_suffix, '/');
    lemma_concat_contains(table[1].token, second_suffix, '/');
    lemma_hidden(first_path, table[0].token + first_suffix);
    lemma_hidden(second_path, table[1].token + second_suffix);
    law_suffix_join(table, 0, Request::Read, first_suffix);
    if table[0].token != table[1].token {
        lemma_second_of_two(table, Request::Read, second_suffix);
        lemma_second_of_two(table, Request::Write, second_suffix);
    } else if table[0].access is Read {
        lemma_first_refuses(table, Request::Write, second_suffix);
    }
}

/// The decisions about two plain absolute paths that are handed over as
/// host strings at a level that infers paths.
#[verifier::spinoff_prover]
proof fn lemma_pair_decisions(level: MagicLevel, input: Seq<char>, out: Seq<char>)
    requires
        level is Auto || level is Readonly,
        plain_absolute_path(input),
        plain_absolute_path(out),
    ensures
        decide_args_os(level, seq![encode_utf8(input), encode_utf8(out)]) == seq![
            bound_whole(level, input),
            bound_whole(level, out),
        ],
        input.contains('/'),
        out.contains('/'),
{
    law_absolute_path_is_bound(level, input);
    law_absolute_path_is_bound(level, out);
    let rws = decide_args_os(level, seq![encode_utf8(input), encode_utf8(out)]);
    assert(rws =~= seq![bound_whole(level, input), bound_whole(level, out)]);
}

/// An input and an output. Two plain absolute paths, handed over together
/// as host strings to a fresh mediator at a level that infers paths, are
/// each bound by their stem, with the access that the level infers, and come
/// back as a token and the path's extension, in which the path does not
/// show. An open of the first translated string resolves to the first
/// path. Where the two tokens differ, the second translated string resolves
/// to the second path for every request that the access permits: at `Auto`
/// it can be created; at `Readonly` creating it is refused, and the reason
/// names the second path's binding and the access `Read`.
pub proof fn law_input_and_output(
    level: MagicLevel,
    input: Seq<char>,
    out: Seq<char>,
    after: Seq<Binding>,
    res: Result<Seq<Seq<char>>, ErrorKind>,
)
    requires
        level is Auto || level is Readonly,
        plain_absolute_path(input),
        plain_absolute_path(out),
        run(
            decide_args_os(level, seq![encode_utf8(input), encode_utf8(out)]),
            Seq::empty(),
            after,
            res,
        ),
        tokens_ok(after),
    ensures
        after.len() == 2,
        after[0].original == encode_utf8(stem(input)),
        after[1].original == encode_utf8(stem(out)),
        after[0].access == inferred_access(level),
        after[1].access == inferred_access(level),
        res == Ok::<Seq<Seq<char>>, ErrorKind>(
            seq![after[0].token + extension(input), after[1].token + extension(out)],
        ),
        !occurs(input, after[0].token + extension(input)),
        !occurs(out, after[1].token + extension(out)),
        resolve(after, Request::Read, after[0].token + extension(input)) == Ok::<
            Seq<u8>,
            Denial,
        >(encode_utf8(input)),
        after[0].token != after[1].token ==> resolve(
            after,
            Request::Read,
            after[1].token + extension(out),
        ) == Ok::<Seq<u8>, Denial>(encode_utf8(out)),
        level is Auto && after[0].token != after[1].token ==> resolve(
            after,
            Request::Write,
            after[1].token + extension(out),
        ) == Ok::<Seq<u8>, Denial>(encode_utf8(out)),
        level is Readonly ==> (resolve(after, Request::Write, after[1].token + extension(out))
            matches Err(Denial::AccessDenied { original, permitted }) && permitted == Access::Read
            && (after[0].token != after[1].token ==> original == encode_utf8(stem(out)))),
{
    lemma_pair_decisions(level, input, out);
    lemma_two_bindings(target_of(input), target_of(out), inferred_access(level), after, res);
    lemma_stem_extension(input);
    lemma_stem_extension(out);
    lemma_encode_concat(stem(input), extension(input));
    lemma_encode_concat(stem(out), extension(out));
    lemma_pair(after, extension(input), extension(out), input, out);
}

} // verus!
