//! The parser for project files.
use crate::ada_lexer::{ada_lexes, ada_read_all, lemma_scanner_eof_stays, lemma_scanner_read_all, lemma_scanner_read_prefix, AdaLexer, AdaLexerOptions};
use crate::base_lexer::{kinds, lemma_read_concat, lexable, prefix_of, BaseScanner, Lexer};
use crate::errors::Error;
use crate::files::File;
use crate::packagename::PackageName;
use crate::paths::{
    path_clean, path_join, path_parent, path_set_extension, spec_path_clean, spec_path_join,
    spec_path_parent, spec_path_set_extension,
};
use crate::qualifiedname::QualifiedName;
use crate::rawexpr::{RawExpr, Statement, StatementList, WhenClause};
use crate::rawgpr::RawGPR;
use crate::settings::Settings;
use crate::simplename::{spec_is_case_insensitive, spec_new_attr, SimpleName, StringOrOthers};
use crate::strings::{str_eq, to_lowercase, views};
use crate::gpr_grammar::{reads_package_rest, lemma_extends_clauses, reads_extends_clauses, reads_index, piped_values, reads_attribute_decl, reads_body, reads_extends, reads_stmt, reads_when, reads_when_values, reads_whens, lemma_reads_nonempty, lead_name, spec_from_two, reads_args, reads_attrname, reads_expr, reads_items, reads_qualified, reads_term};
use crate::tokens::{Token, TokenKind};
use vstd::prelude::*;

verus! {

/// A parser for project files.
pub struct GprScanner {
    pub base: BaseScanner<AdaLexer>,
    pub gpr: RawGPR,
    /// What package are we parsing
    pub current_pkg: PackageName,
    /// Whether paths to other projects will have their symbolic links
    /// resolved (by the caller).
    pub resolve_symbolic_links: bool,
}

/// The path of a project imported by `with "path";` from the project at
/// `gpr_path`: relative to the project's directory, with a `.gpr` extension,
/// and cleaned unless symbolic links are to be resolved.
pub open spec fn spec_normalize_gpr_path(gpr_path: Seq<char>, path: Seq<char>, resolve: bool) -> Seq<char> {
    let p = spec_path_set_extension(spec_path_join(spec_path_parent(gpr_path)->0, path), "gpr"@);
    if resolve {
        p
    } else {
        spec_path_clean(p)
    }
}

/// Whether the token qualifies a project declaration.
pub open spec fn is_qualifier(t: TokenKind) -> bool {
    t is Aggregate || t is Library || t is Abstract
}

/// Whether one of the first `i` tokens is `t`.
pub open spec fn has_kind_before(k: Seq<Token>, i: int, t: TokenKind) -> bool {
    exists|m: int| 0 <= m < i && #[trigger] k[m].kind == t
}

/// The fields of `g1` other than the imported projects are those of `g0`.
pub open spec fn same_but_imported(g0: RawGPR, g1: RawGPR) -> bool {
    &&& g1.path == g0.path
    &&& g1.name == g0.name
    &&& g1.is_abstract == g0.is_abstract
    &&& g1.is_aggregate == g0.is_aggregate
    &&& g1.is_library == g0.is_library
    &&& g1.extends == g0.extends
    &&& g1.body == g0.body
}

/// `k` reads as `with "path";`, which adds the normalized path to the
/// projects that `g0` imports.
pub open spec fn reads_with(k: Seq<Token>, g0: RawGPR, g1: RawGPR, resolve: bool) -> bool {
    &&& k.len() == 3
    &&& k[0].kind is With
    &&& k[2].kind is Semicolon
    &&& (k[1].kind matches TokenKind::String(p) && views(g1.imported@) == views(g0.imported@).push(
        spec_normalize_gpr_path(g0.path@, p@, resolve),
    ))
    &&& same_but_imported(g0, g1)
}

/// `k` reads as a project declaration, `[qualifiers] project name [extends
/// "path"] is body end name;`, which sets the name, qualifiers, extended
/// project and body of `g0`.
pub open spec fn reads_project(k: Seq<Token>, g0: RawGPR, g1: RawGPR, resolve: bool) -> bool {
    exists|i: int, j: int|
        #![trigger k[i], k[j]]
        0 <= i && i + 2 <= j && j + 4 <= k.len() && (forall|m: int| 0 <= m < i ==> is_qualifier(#[trigger] k[m].kind))
            && k[i].kind is Project && k[i + 1].kind == TokenKind::Identifier(g1.name) && g1.is_aggregate == (
        g0.is_aggregate || has_kind_before(k, i, TokenKind::Aggregate)) && g1.is_library == (g0.is_library
            || has_kind_before(k, i, TokenKind::Library)) && g1.is_abstract == (g0.is_abstract || has_kind_before(
            k,
            i,
            TokenKind::Abstract,
        )) && ((j == i + 2 && g1.extends is None) || (j == i + 4 && k[i + 2].kind is Extends && (k[i
            + 3].kind matches TokenKind::String(p) && (g1.extends matches Some(x) && x@ == spec_normalize_gpr_path(
            g0.path@,
            p@,
            resolve,
        ))))) && k[j].kind is Is && k[k.len() - 3].kind is End && (k[k.len() - 2].kind matches TokenKind::Identifier(
            e,
        ) && e@ == g1.name@) && k.last().kind is Semicolon && reads_body(k.subrange(j + 1, k.len() - 3), g1.body@, 0)
            && g1.path == g0.path && g1.imported == g0.imported
}

/// `k` reads as a whole project file: `with` clauses and project
/// declarations, which turn `g0` into `g1`.
pub open spec fn reads_file(k: Seq<Token>, g0: RawGPR, g1: RawGPR, resolve: bool) -> bool
    decreases k.len(),
{
    if k.len() == 0 {
        g1 == g0
    } else {
        exists|i: int, gm: RawGPR|
            #![trigger reads_with(k.subrange(i, k.len() as int), gm, g1, resolve)]
            #![trigger reads_project(k.subrange(i, k.len() as int), gm, g1, resolve)]
            0 <= i < k.len() && reads_file(k.subrange(0, i), g0, gm, resolve) && (reads_with(
                k.subrange(i, k.len() as int),
                gm,
                g1,
                resolve,
            ) || reads_project(k.subrange(i, k.len() as int), gm, g1, resolve))
    }
}

/// Whether a token of a kind was read before, after reading one more.
proof fn lemma_kind_before_push(d: Seq<Token>, t: Token, x: TokenKind)
    ensures
        has_kind_before(d.push(t), d.len() + 1int, x) == (has_kind_before(d, d.len() as int, x) || t.kind == x),
{
    let e = d.push(t);
    if has_kind_before(d, d.len() as int, x) {
        let m = choose|m: int| 0 <= m < d.len() && #[trigger] d[m].kind == x;
        assert(e[m] == d[m]);
    }
    if t.kind == x {
        assert(e[d.len() as int] == t);
    }
    if has_kind_before(e, d.len() + 1int, x) {
        let m = choose|m: int| 0 <= m < d.len() + 1 && #[trigger] e[m].kind == x;
        if m < d.len() {
            assert(e[m] == d[m]);
        }
    }
}

/// Which kinds of tokens are among the qualifiers of a declaration: those
/// before the final `project` token.
proof fn lemma_kind_before_prefix(k: Seq<Token>, d1: Seq<Token>, x: TokenKind)
    requires
        d1.len() >= 1,
        d1.last().kind is Project,
        !(x is Project),
        k.len() >= d1.len(),
        k.subrange(0, d1.len() as int) == d1,
    ensures
        has_kind_before(d1, d1.len() as int, x) == has_kind_before(k, d1.len() - 1, x),
{
    let i = d1.len() - 1;
    if has_kind_before(d1, d1.len() as int, x) {
        let m = choose|m: int| 0 <= m < d1.len() && #[trigger] d1[m].kind == x;
        assert(m != i);
        assert(k[m] == k.subrange(0, d1.len() as int)[m]);
    }
    if has_kind_before(k, i, x) {
        let m = choose|m: int| 0 <= m < i && #[trigger] k[m].kind == x;
        assert(k[m] == k.subrange(0, d1.len() as int)[m]);
        assert(d1[m].kind == x);
    }
}

/// A statement read after the statements of a body extends it.
proof fn lemma_body_push(
    a: GprScanner,
    b: GprScanner,
    c: GprScanner,
    b0: Seq<(u32, Statement)>,
    b1: Seq<(u32, Statement)>,
    level: int,
)
    requires
        GprScanner::step(a, b),
        GprScanner::step(b, c),
        reads_body(GprScanner::delta(a, b), b0, level),
        b1.len() == b0.len() + 1,
        b1.drop_last() == b0,
        reads_stmt(GprScanner::delta(b, c), b1.last().1, level),
        GprScanner::starts_at_peeked(b, c),
        b1.last().0 == b.base.peeked.line,
    ensures
        reads_body(GprScanner::delta(a, c), b1, level),
{
    lemma_read_concat(a.base.read@, b.base.read@, c.base.read@);
    let k = GprScanner::delta(a, c);
    let i = GprScanner::delta(a, b).len() as int;
    assert(k.subrange(0, i) =~= GprScanner::delta(a, b));
    assert(k.subrange(i, k.len() as int) =~= GprScanner::delta(b, c));
    assert(k[i] == GprScanner::delta(b, c)[0]);
    assert(reads_stmt(k.subrange(i, k.len() as int), b1.last().1, level));
}

/// `null;` read after the statements of a body keeps them.
proof fn lemma_body_null(a: GprScanner, b: GprScanner, c: GprScanner, b0: Seq<(u32, Statement)>, level: int)
    requires
        GprScanner::step(a, b),
        GprScanner::step(b, c),
        reads_body(GprScanner::delta(a, b), b0, level),
        kinds(GprScanner::delta(b, c)) == seq![TokenKind::Null, TokenKind::Semicolon],
    ensures
        reads_body(GprScanner::delta(a, c), b0, level),
{
    lemma_read_concat(a.base.read@, b.base.read@, c.base.read@);
    let k = GprScanner::delta(a, c);
    assert(kinds(GprScanner::delta(b, c)).len() == 2);
    assert(k.subrange(0, k.len() - 2) =~= GprScanner::delta(a, b));
    assert(k.subrange(k.len() - 2, k.len() as int) =~= GprScanner::delta(b, c));
}

/// The values of a `when` clause stop after the strings `v`, each followed
/// by `|`: the tokens after them, `rest`, are nothing (the end of the file),
/// a token that is neither a string nor `others`, `others` not followed by
/// `=>`, or a string followed by neither `|` nor `=>`. Where `rest` stops
/// before such a token, the file ended there (`eof`).
pub open spec fn when_values_cut_at(ks: Seq<TokenKind>, v: Seq<StringOrOthers>, rest: Seq<TokenKind>, eof: bool) -> bool {
    &&& forall|j: int| 0 <= j < v.len() ==> #[trigger] v[j] is Str
    &&& ks == piped_values(v) + rest
    &&& {
        ||| rest.len() == 0 && eof
        ||| rest.len() == 1 && !(rest[0] is String) && !(rest[0] is Others) && !(rest[0] is EndOfFile)
        ||| rest.len() == 1 && (rest[0] is Others || rest[0] is String) && eof
        ||| rest.len() == 2 && rest[0] is Others && !(rest[1] is Arrow) && !(rest[1] is EndOfFile)
        ||| rest.len() == 2 && rest[0] is String && !(rest[1] is Pipe) && !(rest[1] is Arrow) && !(rest[1] is EndOfFile)
    }
}

/// The values of a `when` clause stop short.
pub open spec fn when_values_cut(ks: Seq<TokenKind>, eof: bool) -> bool {
    exists|v: Seq<StringOrOthers>, rest: Seq<TokenKind>| #[trigger] when_values_cut_at(ks, v, rest, eof)
}

/// The kinds of the tokens of a `with` clause.
pub open spec fn with_pattern() -> Seq<spec_fn(TokenKind) -> bool> {
    seq![|k: TokenKind| k is With, |k: TokenKind| k is String, |k: TokenKind| k is Semicolon]
}

/// The kinds of the tokens of an `extends` clause.
pub open spec fn extends_pattern() -> Seq<spec_fn(TokenKind) -> bool> {
    seq![|k: TokenKind| k is Extends, |k: TokenKind| k is String]
}

/// The tokens follow the first `i` kinds of the pattern, then stop: at a
/// token of another kind, or where the file ended (`eof`; the end of the
/// file is never read).
pub open spec fn kinds_cut_at(ks: Seq<TokenKind>, pat: Seq<spec_fn(TokenKind) -> bool>, i: int, eof: bool) -> bool {
    &&& 0 <= i < pat.len()
    &&& forall|j: int| 0 <= j < i ==> #[trigger] (pat[j])(ks[j])
    &&& {
        ||| ks.len() == i && eof
        ||| ks.len() == i + 1 && !(pat[i])(ks[i]) && !(ks[i] is EndOfFile)
    }
}

/// The tokens stop following the pattern before its end.
pub open spec fn kinds_cut(ks: Seq<TokenKind>, pat: Seq<spec_fn(TokenKind) -> bool>, eof: bool) -> bool {
    exists|i: int| #[trigger] kinds_cut_at(ks, pat, i, eof)
}

/// Tokens that followed the pattern, then one of another kind or the end of
/// the file, stop following it.
proof fn lemma_cut(done: Seq<TokenKind>, pat: Seq<spec_fn(TokenKind) -> bool>, t: TokenKind, ks: Seq<TokenKind>, eof: bool)
    requires
        done.len() < pat.len(),
        t is EndOfFile ==> eof,
        forall|j: int| 0 <= j < done.len() ==> #[trigger] (pat[j])(done[j]),
        t is EndOfFile ==> ks == done,
        !(t is EndOfFile) ==> ks == done.push(t) && !(pat[done.len() as int])(t),
    ensures
        kinds_cut(ks, pat, eof),
{
    assert(kinds_cut_at(ks, pat, done.len() as int, eof));
}

/// The kinds of the first tokens of a type declaration.
pub open spec fn type_pattern() -> Seq<spec_fn(TokenKind) -> bool> {
    seq![|k: TokenKind| k is Type, |k: TokenKind| k is Identifier, |k: TokenKind| k is Is]
}

/// The kind of the first token of a name.
pub open spec fn name_pattern() -> Seq<spec_fn(TokenKind) -> bool> {
    seq![|k: TokenKind| k is Identifier]
}

/// The kind of the first token of a qualified name.
pub open spec fn qname_pattern() -> Seq<spec_fn(TokenKind) -> bool> {
    seq![|k: TokenKind| k is Project || k is Identifier]
}

/// The kinds of the first token of a term of an expression.
pub open spec fn expr_pattern() -> Seq<spec_fn(TokenKind) -> bool> {
    seq![|k: TokenKind| k is String || k is Identifier || k is Project || k is OpenParenthesis]
}

/// The kinds of the first tokens of an attribute declaration.
pub open spec fn attribute_pattern() -> Seq<spec_fn(TokenKind) -> bool> {
    seq![|k: TokenKind| k is For, |k: TokenKind| k is Identifier]
}

/// The kind of the first token of a list of arguments.
pub open spec fn paren_pattern() -> Seq<spec_fn(TokenKind) -> bool> {
    seq![|k: TokenKind| k is OpenParenthesis]
}

/// The kind of the first token of a case statement.
pub open spec fn case_pattern() -> Seq<spec_fn(TokenKind) -> bool> {
    seq![|k: TokenKind| k is Case]
}

/// The kinds of the first tokens of a package declaration.
pub open spec fn package_pattern() -> Seq<spec_fn(TokenKind) -> bool> {
    seq![|k: TokenKind| k is Package, |k: TokenKind| k is Identifier]
}

/// Whether a token starts a statement of a body, or ends the body.
pub open spec fn stmt_start(k: TokenKind) -> bool {
    k is End || k is Null || k is For || k is Case || k is Identifier
}

/// The tokens read are whole statements of a body at nesting `level`, then
/// maybe the first tokens of one more; where nothing of that one was read,
/// the file ended (`eof`) or the next token, `next`, starts no statement.
pub open spec fn body_cut(k: Seq<Token>, level: int, next: TokenKind, eof: bool) -> bool {
    exists|i: int, b: Seq<(u32, Statement)>|
        0 <= i <= k.len() && #[trigger] reads_body(k.take(i), b, level) && (i == k.len() ==> eof || !stmt_start(next))
}

/// The tokens read are qualifiers of a project declaration, and the file
/// ended (`eof`); or qualifiers, then a token that is neither a qualifier
/// nor `project`.
pub open spec fn qualifiers_cut(ks: Seq<TokenKind>, eof: bool) -> bool {
    ||| eof && forall|m: int| 0 <= m < ks.len() ==> is_qualifier(#[trigger] ks[m])
    ||| ks.len() >= 1 && (forall|m: int| 0 <= m < ks.len() - 1 ==> is_qualifier(#[trigger] ks[m]))
        && !is_qualifier(ks.last()) && !(ks.last() is Project) && !(ks.last() is EndOfFile)
}

/// The tokens read are whole clauses of a project file, which turn `g0`
/// into some project, then maybe the first tokens of one more; where nothing
/// of that one was read, the file ended (`eof`).
pub open spec fn file_cut(k: Seq<Token>, g0: RawGPR, eof: bool, resolve: bool) -> bool {
    exists|i: int, g: RawGPR| 0 <= i <= k.len() && #[trigger] reads_file(k.take(i), g0, g, resolve) && (i == k.len() ==> eof)
}

impl GprScanner {
    /// A failure in a project file, after the clauses read from `a` to
    /// `s0`, leaves the clauses and what was read of the next one.
    proof fn lemma_file_cut(a: Self, s0: Self, c: Self)
        requires
            prefix_of(a.base.read@, s0.base.read@),
            prefix_of(s0.base.read@, c.base.read@),
            reads_file(Self::delta(a, s0), a.gpr, s0.gpr, a.resolve_symbolic_links),
            Self::delta(s0, c).len() == 0 ==> c.base.hit_eof(),
        ensures
            file_cut(Self::delta(a, c), a.gpr, c.base.hit_eof(), a.resolve_symbolic_links),
    {
        lemma_read_concat(a.base.read@, s0.base.read@, c.base.read@);
        let k = Self::delta(a, c);
        let i = Self::delta(a, s0).len() as int;
        assert(k.take(i) =~= Self::delta(a, s0));
        assert(reads_file(k.take(i), a.gpr, s0.gpr, a.resolve_symbolic_links));
    }

    /// From state `a` to state `b`, the parser read `i` qualifiers, then
    /// `project`.
    pub open spec fn project_at(a: Self, b: Self, i: int) -> bool {
        &&& 0 <= i && a.base.read@.len() + i < b.base.read@.len()
        &&& b.base.read@[a.base.read@.len() + i].kind is Project
        &&& forall|m: int| 0 <= m < i ==> is_qualifier(#[trigger] b.base.read@[a.base.read@.len() + m].kind)
    }

    /// From state `a` to state `b`, the parser read qualifiers, then
    /// `project`.
    pub open spec fn project_read(a: Self, b: Self) -> bool {
        exists|i: int| #[trigger] Self::project_at(a, b, i)
    }

    /// Reading more keeps the qualifiers and `project` that were read.
    proof fn lemma_project_grow(a: Self, b: Self, c: Self)
        requires
            Self::project_read(a, b),
            prefix_of(b.base.read@, c.base.read@),
        ensures
            Self::project_read(a, c),
    {
        let i = choose|i: int| #[trigger] Self::project_at(a, b, i);
        assert(c.base.read@[a.base.read@.len() + i] == b.base.read@[a.base.read@.len() + i]);
        assert forall|m: int| 0 <= m < i implies is_qualifier(#[trigger] c.base.read@[a.base.read@.len() + m].kind) by {
            assert(c.base.read@[a.base.read@.len() + m] == b.base.read@[a.base.read@.len() + m]);
        }
        assert(Self::project_at(a, c, i));
    }

    /// A parser that fails where the tokens stop following a pattern, or
    /// after, read nothing only where the file ended.
    proof fn lemma_cut_or_follows(a: Self, b: Self, pat: Seq<spec_fn(TokenKind) -> bool>)
        requires
            pat.len() >= 1,
            b.base.read@.len() >= a.base.read@.len(),
            kinds_cut(kinds(Self::delta(a, b)), pat, b.base.hit_eof()) || Self::follows(a, b, pat),
        ensures
            Self::delta(a, b).len() == 0 ==> b.base.hit_eof(),
    {
        if Self::delta(a, b).len() == 0 && !Self::follows(a, b, pat) {
            let ks = kinds(Self::delta(a, b));
            let c = choose|c: int| #[trigger] kinds_cut_at(ks, pat, c, b.base.hit_eof());
            assert(ks.len() == 0);
        }
    }

    /// A failure in a body, after the statements `b0` read from `a` to
    /// `s0`, leaves the statements and what was read of the next one.
    proof fn lemma_body_cut(a: Self, s0: Self, c: Self, b0: Seq<(u32, Statement)>, level: int)
        requires
            prefix_of(a.base.read@, s0.base.read@),
            prefix_of(s0.base.read@, c.base.read@),
            reads_body(Self::delta(a, s0), b0, level),
            Self::delta(s0, c).len() == 0 ==> c.base.hit_eof() || !stmt_start(c.base.peeked.kind),
        ensures
            body_cut(Self::delta(a, c), level, c.base.peeked.kind, c.base.hit_eof()),
    {
        lemma_read_concat(a.base.read@, s0.base.read@, c.base.read@);
        let k = Self::delta(a, c);
        let i = Self::delta(a, s0).len() as int;
        assert(k.take(i) =~= Self::delta(a, s0));
        assert(reads_body(k.take(i), b0, level));
    }

    /// From state `a` to state `b`, the parser read tokens of the kinds of
    /// the pattern first.
    pub open spec fn follows(a: Self, b: Self, pat: Seq<spec_fn(TokenKind) -> bool>) -> bool {
        &&& b.base.read@.len() >= a.base.read@.len() + pat.len()
        &&& forall|j: int| 0 <= j < pat.len() ==> #[trigger] (pat[j])(b.base.read@[a.base.read@.len() + j].kind)
    }

    /// Reading the token looked at in state `b`, of a kind other than the
    /// next one of the pattern, or the end of the file, cuts the pattern.
    proof fn lemma_cut_step(a: Self, b: Self, c: Self, pat: Seq<spec_fn(TokenKind) -> bool>)
        requires
            b.wf(),
            prefix_of(a.base.read@, b.base.read@),
            Self::delta(a, b).len() < pat.len(),
            forall|j: int| 0 <= j < Self::delta(a, b).len() ==> #[trigger] (pat[j])(Self::delta(a, b)[j].kind),
            BaseScanner::read_one(b.base, c.base),
            c.base.lexed@ == b.base.lexed@.push(c.base.peeked),
            b.base.peeked.kind is EndOfFile || !(pat[Self::delta(a, b).len() as int])(b.base.peeked.kind),
        ensures
            kinds_cut(kinds(Self::delta(a, c)), pat, c.base.hit_eof()),
    {
        let dn = Self::delta(a, b);
        let t = b.base.peeked;
        let d = Self::delta(a, c);
        assert(c.base.lexed@[c.base.lexed@.len() - 2] == t);
        if t.kind is EndOfFile {
            assert(d =~= dn);
        } else {
            assert(d =~= dn.push(t));
            assert(kinds(d) =~= kinds(dn).push(t.kind));
        }
        assert forall|j: int| 0 <= j < kinds(dn).len() implies #[trigger] (pat[j])(kinds(dn)[j]) by {
            assert((pat[j])(dn[j].kind));
        }
        lemma_cut(kinds(dn), pat, t.kind, kinds(d), c.base.hit_eof());
    }

    /// The parser's state is consistent.
    pub open spec fn wf(&self) -> bool {
        &&& self.base.wf()
        &&& spec_path_parent(self.gpr.path@) is Some
    }

    /// What remains to be parsed.
    pub open spec fn measure(&self) -> nat {
        self.base.measure()
    }

    /// `b` is a later state of the parser `a`.
    pub open spec fn advance(a: Self, b: Self) -> bool {
        &&& b.wf()
        &&& b.measure() <= a.measure()
        &&& b.gpr.path == a.gpr.path
        &&& b.resolve_symbolic_links == a.resolve_symbolic_links
        &&& prefix_of(a.base.read@, b.base.read@)
        &&& b.base.start == a.base.start
    }

    /// `b` is a later state of the parser `a`, which read a part of the
    /// project without recording it yet.
    pub open spec fn step(a: Self, b: Self) -> bool {
        &&& Self::advance(a, b)
        &&& b.gpr == a.gpr
    }

    /// The tokens consumed from state `a` to state `b`.
    pub open spec fn delta(a: Self, b: Self) -> Seq<Token> {
        b.base.read@.subrange(a.base.read@.len() as int, b.base.read@.len() as int)
    }

    /// From state `a` to state `b`, the token that `a` was looking at was
    /// consumed first.
    pub open spec fn starts_at_peeked(a: Self, b: Self) -> bool {
        Self::delta(a, b).len() > 0 && Self::delta(a, b)[0] == a.base.peeked
    }

    /// Builds a new parser for the file.
    pub fn new(file: &File, settings: &Settings) -> (r: Self)
        requires
            lexable(file.buffer@),
            spec_path_parent(file.path@) is Some,
        ensures
            r.wf(),
            r.gpr.path@ == file.path@,
            r.resolve_symbolic_links == settings.resolve_symbolic_links,
            r.base.read@.len() == 0,
            r.base.start@.base.input@ == file.buffer@,
            r.base.start@.base.context.offset == 0,
            r.base.start@.options == (AdaLexerOptions { kw_aggregate: true, kw_body: false }),
    {
        let options = AdaLexerOptions { kw_aggregate: true, kw_body: false };
        Self {
            gpr: RawGPR::new(&file.path),
            base: BaseScanner::new(AdaLexer::new(file, options)),
            current_pkg: PackageName::Top,
            resolve_symbolic_links: settings.resolve_symbolic_links,
        }
    }

    /// The tokens `k`, read from `start` after `read`, are whole clauses of
    /// a project file, then maybe the first tokens of one more; where
    /// nothing of that one was read, the file ended.
    pub open spec fn fails_within(start: AdaLexer, read: Seq<Token>, k: Seq<Token>, g0: RawGPR, resolve: bool) -> bool {
        &&& ada_lexes(start.base.input@, start.options, start.base.context.offset as int, read + k)
        &&& file_cut(k, g0, ada_read_all(start, read + k), resolve)
    }

    /// Parses the whole file.  Errors are decorated with the location at
    /// which they occurred.
    pub fn parse(self) -> (r: Result<RawGPR, Error>)
        requires
            self.wf(),
        ensures
            r matches Ok(g) ==> g.path == self.gpr.path,
            r matches Ok(g) ==> exists|k: Seq<Token>|
                #[trigger] reads_file(k, self.gpr, g, self.resolve_symbolic_links) && ada_read_all(
                    self.base.start@,
                    self.base.read@ + k,
                ),
            r matches Err(e) ==> e is WithLocation,
            // It fails after whole clauses of a project file, within the
            // next one, or where the file ended.
            r is Err ==> exists|k: Seq<Token>|
                #[trigger] Self::fails_within(self.base.start@, self.base.read@, k, self.gpr, self.resolve_symbolic_links),
    {
        let mut s = self;
        let ghost s0 = s;
        match s.parse_file() {
            Ok(()) => {
                proof {
                    assert(reads_file(Self::delta(s0, s), self.gpr, s.gpr, self.resolve_symbolic_links));
                    lemma_scanner_read_all(s.base);
                    assert(s.base.read@ =~= self.base.read@ + Self::delta(s0, s));
                }
                Ok(s.gpr)
            },
            Err(e) => {
                proof {
                    let k = Self::delta(s0, s);
                    assert(s.base.read@ =~= self.base.read@ + k);
                    lemma_scanner_read_prefix(s.base);
                    let eof = ada_read_all(self.base.start@, self.base.read@ + k);
                    if s.base.hit_eof() {
                        lemma_scanner_eof_stays(s.base);
                        lemma_scanner_read_all(s.base);
                    }
                    let (i, g) = choose|i: int, g: RawGPR|
                        0 <= i <= k.len() && #[trigger] reads_file(k.take(i), s0.gpr, g, s0.resolve_symbolic_links) && (i
                            == k.len() ==> s.base.hit_eof());
                    assert(file_cut(k, self.gpr, eof, self.resolve_symbolic_links));
                    assert(s.base.start == self.base.start);
                    assert(ada_lexes(
                        self.base.start@.base.input@,
                        self.base.start@.options,
                        self.base.start@.base.context.offset as int,
                        self.base.read@ + k,
                    ));
                    assert(Self::fails_within(self.base.start@, self.base.read@, k, self.gpr, self.resolve_symbolic_links));
                }
                Err(s.base.lex.error_with_location(e))
            },
        }
    }

    /// Consumes the next token from the lexer, and expects it to be a string,
    /// or the keyword "others".
    fn expect_str_or_others(&mut self) -> (r: Result<StringOrOthers, Error>)
        requires
            old(self).wf(),
        ensures
            Self::step(*old(self), *final(self)),
            r is Ok ==> final(self).measure() < old(self).measure(),
            old(self).base.peeked.kind is Others ==> r == Ok::<StringOrOthers, Error>(StringOrOthers::Others),
            old(self).base.peeked.kind matches TokenKind::String(s) ==> r == Ok::<StringOrOthers, Error>(
                StringOrOthers::Str(s)),
            !(old(self).base.peeked.kind is Others) && !(old(self).base.peeked.kind is String)
                ==> r is Err,
            BaseScanner::read_one(old(self).base, final(self).base),
    {
        let n = self.base.safe_next()?;
        match n.kind {
            TokenKind::Others => Ok(StringOrOthers::Others),
            TokenKind::String(s) => Ok(StringOrOthers::Str(s)),
            _ => Err(Error::wrong_token("String or others", n.describe())),
        }
    }

    /// Expect either "Project'" or "<name>.": returns None for the former.
    fn expect_project_name(&mut self) -> (r: Result<Option<String>, Error>)
        requires
            old(self).wf(),
        ensures
            Self::step(*old(self), *final(self)),
            r is Ok ==> final(self).measure() < old(self).measure(),
            old(self).base.peeked.kind is Project ==> r == Ok::<Option<String>, Error>(None),
            old(self).base.peeked.kind matches TokenKind::Identifier(s) ==> r == Ok::<
                Option<String>,
                Error,
            >(Some(s)),
            !(old(self).base.peeked.kind is Project) && !(old(self).base.peeked.kind is Identifier)
                ==> r is Err,
            BaseScanner::read_one(old(self).base, final(self).base),
            final(self).base.lexed@ == old(self).base.lexed@.push(final(self).base.peeked),
    {
        let n = self.base.safe_next()?;
        match n.kind {
            TokenKind::Project => Ok(None),
            TokenKind::Identifier(s) => Ok(Some(s)),
            _ => Err(Error::wrong_token("project name", n.describe())),
        }
    }

    /// Expects an unqualified attribute name (and optional index).
    fn expect_unqualified_attrname(&mut self) -> (r: Result<SimpleName, Error>)
        requires
            old(self).wf(),
        ensures
            Self::step(*old(self), *final(self)),
            r is Ok ==> final(self).measure() < old(self).measure(),
            !(old(self).base.peeked.kind is Identifier) ==> r is Err,
            r matches Ok(a) ==> reads_attrname(Self::delta(*old(self), *final(self)), a),
            // It fails at a token other than a name, or in what follows the
            // name.
            r is Err ==> kinds_cut(kinds(Self::delta(*old(self), *final(self))), name_pattern(), final(self).base.hit_eof())
                || Self::follows(*old(self), *final(self), name_pattern()),
        decreases old(self).measure(), 1nat,
    {
        let ghost s0 = *self;
        let name3 = match self.base.expect_identifier() {
            Ok(n) => n,
            Err(e) => {
                proof {
                    assert(Self::delta(*old(self), s0).len() == 0);
                    Self::lemma_cut_step(*old(self), s0, *self, name_pattern());
                }
                return Err(e);
            },
        };
        let ghost s1 = *self;
        proof {
            assert(Self::delta(*old(self), s1) =~= seq![old(self).base.peeked]);
            assert(Self::follows(*old(self), s1, name_pattern()));
        }
        let insensitive = SimpleName::is_case_insensitive(name3.as_str());
        let args = self.parse_opt_arg_list()?;
        match args {
            None => {
                proof {
                    assert(Self::delta(*old(self), *self) =~= seq![old(self).base.peeked]);
                }
                SimpleName::new_attr(name3, None)
            },
            Some(args) => {
                if args.len() == 1 {
                    let s = args[0].as_static_str()?;
                    let idx = if insensitive.0 {
                        to_lowercase(s.as_str())
                    } else {
                        s
                    };
                    let r = SimpleName::new_attr(name3, Some(StringOrOthers::Str(idx)));
                    proof {
                        lemma_read_concat(old(self).base.read@, s1.base.read@, self.base.read@);
                        let k = Self::delta(*old(self), *self);
                        let a = Self::delta(s1, *self);
                        let inner = a.subrange(1, a.len() - 1);
                        assert(k == seq![old(self).base.peeked] + a);
                        assert(reads_expr(inner, args@[0]));
                        assert(args@[0] == RawExpr::Str(s));
                        assert(reads_term(inner, args@[0]));
                        assert(kinds(inner) == seq![TokenKind::String(s)]);
                        assert(inner.len() == 1);
                        assert(k.len() == 4);
                        assert(k[2] == inner[0]);
                        assert(k[2].kind == kinds(inner)[0]);
                        if r is Ok {
                            assert(spec_new_attr(name3@, Some(StringOrOthers::Str(idx))) == Some(r->Ok_0));
                        }
                    }
                    r
                } else {
                    Err(Error::WrongIndexes(name3))
                }
            },
        }
    }

    /// Expect a qualified name (variable or attribute).
    /// When we have an attribute, this also parses the index.
    #[verifier::spinoff_prover]
    #[verifier::rlimit(40)]
    fn expect_qname(&mut self) -> (r: Result<QualifiedName, Error>)
        requires
            old(self).wf(),
        ensures
            Self::step(*old(self), *final(self)),
            r is Ok ==> final(self).measure() < old(self).measure(),
            !(old(self).base.peeked.kind is Project) && !(old(self).base.peeked.kind is Identifier)
                ==> r is Err,
            r matches Ok(q) ==> reads_qualified(Self::delta(*old(self), *final(self)), q),
            // It reads the first name, if there is one; it fails at a token
            // that cannot start a name, or in what follows it.
            old(self).base.peeked.kind is Project || old(self).base.peeked.kind is Identifier ==> Self::follows(
                *old(self),
                *final(self),
                qname_pattern(),
            ),
            r is Err ==> kinds_cut(kinds(Self::delta(*old(self), *final(self))), qname_pattern(), final(self).base.hit_eof())
                || Self::follows(*old(self), *final(self), qname_pattern()),
        decreases old(self).measure(), 2nat,
    {
        let ghost s0 = *self;
        let name1 = match self.expect_project_name() {
            Ok(n) => n,
            Err(e) => {
                proof {
                    assert(Self::delta(*old(self), s0).len() == 0);
                    Self::lemma_cut_step(*old(self), s0, *self, qname_pattern());
                }
                return Err(e);
            },
        };
        let ghost t0 = old(self).base.peeked;
        let ghost s1 = *self;
        proof {
            assert(name1 == lead_name(t0.kind));
            assert(Self::delta(*old(self), s1) =~= seq![t0]);
            assert(Self::follows(*old(self), s1, qname_pattern()));
        }
        if let TokenKind::Dot = self.base.peeked.kind {
            let ghost t1 = self.base.peeked;
            let _ = self.base.next_token();  //  consume the dot
            let ghost t2 = self.base.peeked;
            let name2 = self.base.expect_identifier()?;
            if let TokenKind::Dot = self.base.peeked.kind {
                let ghost t3 = self.base.peeked;
                let _ = self.base.next_token();  //  consume the dot
                let ghost t4 = self.base.peeked;
                let name3 = self.base.expect_identifier()?;
                let package = PackageName::new(name2.as_str())?;
                proof {
                    assert(Self::delta(*old(self), *self) =~= seq![t0, t1, t2, t3, t4]);
                }
                Ok(QualifiedName { project: name1, package, name: SimpleName::new_var(name3) })
            } else if let TokenKind::Tick = self.base.peeked.kind {
                let ghost t3 = self.base.peeked;
                let _ = self.base.next_token();  //  consume the tick
                let ghost s4 = *self;
                let package = PackageName::new(name2.as_str())?;
                let name = self.expect_unqualified_attrname()?;
                proof {
                    let k = Self::delta(*old(self), *self);
                    assert(Self::delta(*old(self), s4) =~= seq![t0, t1, t2, t3]);
                    lemma_read_concat(old(self).base.read@, s4.base.read@, self.base.read@);
                    assert(k.subrange(4, k.len() as int) =~= Self::delta(s4, *self));
                }
                Ok(QualifiedName { project: name1, package, name })
            } else {
                proof {
                    assert(Self::delta(*old(self), *self) =~= seq![t0, t1, t2]);
                }
                Ok(QualifiedName::from_two(name1, SimpleName::new_var(name2)))
            }
        } else if let TokenKind::Tick = self.base.peeked.kind {
            let ghost t1 = self.base.peeked;
            let _ = self.base.next_token();  //  consume the tick
            let ghost s2 = *self;
            let attrname = self.expect_unqualified_attrname()?;
            proof {
                let k = Self::delta(*old(self), *self);
                assert(Self::delta(*old(self), s2) =~= seq![t0, t1]);
                lemma_read_concat(old(self).base.read@, s2.base.read@, self.base.read@);
                assert(k.subrange(2, k.len() as int) =~= Self::delta(s2, *self));
            }
            Ok(QualifiedName::from_two(name1, attrname))
        } else {
            match name1 {
                None => Err(Error::MissingAttributeNameAfterProject),
                Some(n1) => {
                    proof {
                        assert(Self::delta(*old(self), *self) =~= seq![t0]);
                    }
                    Ok(
                        QualifiedName {
                            project: None,
                            package: PackageName::Top,
                            name: SimpleName::new_var(n1),
                        },
                    )
                },
            }
        }
    }

    /// Parse a whole file.
    fn parse_file(&mut self) -> (r: Result<(), Error>)
        requires
            old(self).wf(),
        ensures
            Self::advance(*old(self), *final(self)),
            r is Ok ==> reads_file(
                Self::delta(*old(self), *final(self)),
                old(self).gpr,
                final(self).gpr,
                old(self).resolve_symbolic_links,
            ),
            r is Ok ==> final(self).base.peeked.kind is EndOfFile,
            // An empty file reads as nothing; it fails after whole clauses,
            // within the next one or at the end of the file.
            old(self).base.peeked.kind is EndOfFile ==> r is Ok && *final(self) == *old(self),
            r is Err ==> file_cut(
                Self::delta(*old(self), *final(self)),
                old(self).gpr,
                final(self).base.hit_eof(),
                old(self).resolve_symbolic_links,
            ),
    {
        loop
            invariant
                Self::advance(*old(self), *self),
                old(self).base.peeked.kind is EndOfFile ==> *self == *old(self),
                reads_file(Self::delta(*old(self), *self), old(self).gpr, self.gpr, old(self).resolve_symbolic_links),
            decreases self.measure(),
        {
            let ghost s0 = *self;
            if let TokenKind::EndOfFile = self.base.peeked.kind {
                return Ok(());
            } else if let TokenKind::With = self.base.peeked.kind {
                match self.parse_with_clause() {
                    Ok(()) => {},
                    Err(e) => {
                        proof {
                            let ks = kinds(Self::delta(s0, *self));
                            if Self::delta(s0, *self).len() == 0 {
                                let c = choose|c: int| #[trigger] kinds_cut_at(ks, with_pattern(), c, self.base.hit_eof());
                                assert(ks.len() == 0);
                            }
                            Self::lemma_file_cut(*old(self), s0, *self);
                        }
                        return Err(e);
                    },
                }
                proof {
                    lemma_read_concat(old(self).base.read@, s0.base.read@, self.base.read@);
                    let k = Self::delta(*old(self), *self);
                    let i = Self::delta(*old(self), s0).len() as int;
                    assert(k.subrange(0, i) =~= Self::delta(*old(self), s0));
                    assert(k.subrange(i, k.len() as int) =~= Self::delta(s0, *self));
                    assert(reads_with(k.subrange(i, k.len() as int), s0.gpr, self.gpr, old(self).resolve_symbolic_links));
                }
            } else {
                match self.parse_project_declaration() {
                    Ok(()) => {},
                    Err(e) => {
                        proof {
                            if Self::delta(s0, *self).len() == 0 && Self::project_read(s0, *self) {
                                let q = choose|q: int| #[trigger] Self::project_at(s0, *self, q);
                            }
                            Self::lemma_file_cut(*old(self), s0, *self);
                        }
                        return Err(e);
                    },
                }
                proof {
                    lemma_read_concat(old(self).base.read@, s0.base.read@, self.base.read@);
                    let k = Self::delta(*old(self), *self);
                    let i = Self::delta(*old(self), s0).len() as int;
                    assert(k.subrange(0, i) =~= Self::delta(*old(self), s0));
                    assert(k.subrange(i, k.len() as int) =~= Self::delta(s0, *self));
                    assert(reads_project(k.subrange(i, k.len() as int), s0.gpr, self.gpr, old(self).resolve_symbolic_links));
                }
            }
        }
    }

    /// Resolve relative paths for project dependencies: the path is relative
    /// to the directory of the current project, and gets a ".gpr" extension.
    /// The path is cleaned up, unless symbolic links will be resolved.
    pub fn normalize_gpr_path(&self, path: &str) -> (r: String)
        requires
            spec_path_parent(self.gpr.path@) is Some,
        ensures
            r@ == spec_normalize_gpr_path(self.gpr.path@, path@, self.resolve_symbolic_links),
    {
        let parent = match path_parent(self.gpr.path.as_str()) {
            Some(p) => p,
            None => {
                assert(false);
                String::new()
            },
        };
        let joined = path_join(parent.as_str(), path);
        proof {
            reveal_strlit("gpr");
        }
        let p = path_set_extension(joined.as_str(), "gpr");
        if self.resolve_symbolic_links {
            p
        } else {
            path_clean(p.as_str())
        }
    }

    /// Expect a with_clause.
    fn parse_with_clause(&mut self) -> (r: Result<(), Error>)
        requires
            old(self).wf(),
        ensures
            Self::advance(*old(self), *final(self)),
            r is Ok ==> final(self).measure() < old(self).measure(),
            !(old(self).base.peeked.kind is With) ==> r is Err,
            r is Ok ==> reads_with(Self::delta(*old(self), *final(self)), old(self).gpr, final(self).gpr, old(self).resolve_symbolic_links),
            // It fails where the tokens stop following `with "path";`.
            r is Err ==> kinds_cut(kinds(Self::delta(*old(self), *final(self))), with_pattern(), final(self).base.hit_eof()),
    {
        let ghost t0 = self.base.peeked;
        let ghost s0 = *self;
        match self.base.expect(TokenKind::With) {
            Ok(()) => {},
            Err(e) => {
                proof {
                    let dn: Seq<Token> = seq![];
                    let d = Self::delta(*old(self), *self);
                    if t0.kind is EndOfFile {
                        assert(d =~= dn);
                    } else {
                        assert(d =~= dn.push(t0));
                        assert(kinds(d) =~= kinds(dn).push(t0.kind));
                        assert(!(with_pattern()[0])(t0.kind));
                    }
                    assert(self.base.lexed@[self.base.lexed@.len() - 2] == t0);
                    lemma_cut(kinds(dn), with_pattern(), t0.kind, kinds(d), self.base.hit_eof());
                }
                return Err(e);
            },
        }
        let ghost t1 = self.base.peeked;
        let ghost s1 = *self;
        let path = match self.base.expect_str() {
            Ok(p) => p,
            Err(e) => {
                proof {
                    assert(Self::delta(*old(self), s1) =~= seq![t0]);
                    let dn: Seq<Token> = seq![t0];
                    let d = Self::delta(*old(self), *self);
                    if t1.kind is EndOfFile {
                        assert(d =~= dn);
                    } else {
                        assert(d =~= dn.push(t1));
                        assert(kinds(d) =~= kinds(dn).push(t1.kind));
                        assert(!(with_pattern()[1])(t1.kind));
                    }
                    assert(self.base.lexed@[self.base.lexed@.len() - 2] == t1);
                    lemma_cut(kinds(dn), with_pattern(), t1.kind, kinds(d), self.base.hit_eof());
                }
                return Err(e);
            },
        };
        let normalized = self.normalize_gpr_path(path.as_str());
        let ghost before = self.gpr.imported@;
        self.gpr.imported.push(normalized);
        proof {
            assert(views(self.gpr.imported@) =~= views(before).push(normalized@));
        }
        let ghost t2 = self.base.peeked;
        let ghost s2 = *self;
        match self.base.expect(TokenKind::Semicolon) {
            Ok(()) => {},
            Err(e) => {
                proof {
                    assert(Self::delta(*old(self), s2) =~= seq![t0, t1]);
                    let dn: Seq<Token> = seq![t0, t1];
                    let d = Self::delta(*old(self), *self);
                    if t2.kind is EndOfFile {
                        assert(d =~= dn);
                    } else {
                        assert(d =~= dn.push(t2));
                        assert(kinds(d) =~= kinds(dn).push(t2.kind));
                        assert(!(with_pattern()[2])(t2.kind));
                    }
                    assert(self.base.lexed@[self.base.lexed@.len() - 2] == t2);
                    lemma_cut(kinds(dn), with_pattern(), t2.kind, kinds(d), self.base.hit_eof());
                }
                return Err(e);
            },
        }
        proof {
            assert(Self::delta(*old(self), *self) =~= seq![t0, t1, t2]);
        }
        Ok(())
    }

    /// Parses the declaration of the project, directly into self.gpr.
    #[verifier::spinoff_prover]
    #[verifier::rlimit(100)]
    fn parse_project_declaration(&mut self) -> (r: Result<(), Error>)
        requires
            old(self).wf(),
        ensures
            Self::advance(*old(self), *final(self)),
            r is Ok ==> final(self).measure() < old(self).measure(),
            r is Ok ==> reads_project(
                Self::delta(*old(self), *final(self)),
                old(self).gpr,
                final(self).gpr,
                old(self).resolve_symbolic_links,
            ),
            // It fails among the qualifiers, at the end of the file or at a
            // token that is neither a qualifier nor `project`, or after
            // `project`.
            r is Err ==> qualifiers_cut(kinds(Self::delta(*old(self), *final(self))), final(self).base.hit_eof())
                || Self::project_read(*old(self), *final(self)),
    {
        let ghost g0 = self.gpr;
        loop
            invariant_except_break
                forall|m: int|
                    0 <= m < Self::delta(*old(self), *self).len() ==> is_qualifier(
                        #[trigger] Self::delta(*old(self), *self)[m].kind,
                    ),
            invariant
                Self::advance(*old(self), *self),
                self.gpr.is_aggregate == (g0.is_aggregate || has_kind_before(
                    Self::delta(*old(self), *self),
                    Self::delta(*old(self), *self).len() as int,
                    TokenKind::Aggregate,
                )),
                self.gpr.is_library == (g0.is_library || has_kind_before(
                    Self::delta(*old(self), *self),
                    Self::delta(*old(self), *self).len() as int,
                    TokenKind::Library,
                )),
                self.gpr.is_abstract == (g0.is_abstract || has_kind_before(
                    Self::delta(*old(self), *self),
                    Self::delta(*old(self), *self).len() as int,
                    TokenKind::Abstract,
                )),
                self.gpr.imported == g0.imported,
            ensures
                Self::advance(*old(self), *self),
                self.measure() < old(self).measure(),
                Self::delta(*old(self), *self).len() >= 1,
                Self::delta(*old(self), *self).last().kind is Project,
                forall|m: int|
                    0 <= m < Self::delta(*old(self), *self).len() - 1 ==> is_qualifier(
                        #[trigger] Self::delta(*old(self), *self)[m].kind,
                    ),
            decreases self.measure(),
        {
            let ghost s0 = *self;
            let n = match self.base.safe_next() {
                Ok(n) => n,
                Err(e) => {
                    proof {
                        let d0 = Self::delta(*old(self), s0);
                        assert(Self::delta(*old(self), *self) =~= d0);
                        assert(self.base.lexed@[self.base.lexed@.len() - 2] == s0.base.peeked);
                        let ks = kinds(Self::delta(*old(self), *self));
                        assert forall|m: int| 0 <= m < ks.len() implies is_qualifier(#[trigger] ks[m]) by {
                            assert(ks[m] == d0[m].kind);
                        }
                    }
                    return Err(e);
                },
            };
            proof {
                let d0 = Self::delta(*old(self), s0);
                let d1 = Self::delta(*old(self), *self);
                assert(d1 =~= d0.push(n));
                lemma_kind_before_push(d0, n, TokenKind::Aggregate);
                lemma_kind_before_push(d0, n, TokenKind::Library);
                lemma_kind_before_push(d0, n, TokenKind::Abstract);
            }
            match n.kind {
                TokenKind::Aggregate => self.gpr.is_aggregate = true,
                TokenKind::Library => self.gpr.is_library = true,
                TokenKind::Abstract => self.gpr.is_abstract = true,
                TokenKind::Project => break,
                _ => {
                    proof {
                        let d0 = Self::delta(*old(self), s0);
                        let d1 = Self::delta(*old(self), *self);
                        let ks = kinds(d1);
                        assert(ks.last() == n.kind);
                        assert forall|m: int| 0 <= m < ks.len() - 1 implies is_qualifier(#[trigger] ks[m]) by {
                            assert(ks[m] == d1[m].kind);
                            assert(d1[m] == d0[m]);
                        }
                    }
                    return Err(
                        Error::wrong_token("Aggregate|Library|Abstract|Project", n.describe()),
                    );
                },
            }
        }
        let ghost s1 = *self;
        let ghost t1 = self.base.peeked;
        proof {
            let d1 = Self::delta(*old(self), s1);
            let qn = d1.len() - 1;
            assert(d1[qn] == s1.base.read@[old(self).base.read@.len() + qn]);
            assert forall|m: int| 0 <= m < qn implies is_qualifier(
                #[trigger] s1.base.read@[old(self).base.read@.len() + m].kind,
            ) by {
                assert(d1[m] == s1.base.read@[old(self).base.read@.len() + m]);
            }
            assert(Self::project_at(*old(self), s1, qn));
        }
        self.gpr.name = match self.base.expect_identifier() {
            Ok(n) => n,
            Err(e) => {
                proof {
                    assert(prefix_of(s1.base.read@, self.base.read@));
                    Self::lemma_project_grow(*old(self), s1, *self);
                }
                return Err(e);
            },
        };
        let ghost s2 = *self;
        proof {
            assert(prefix_of(s1.base.read@, s2.base.read@));
        }
        let ghost mut had_ext = false;
        if let TokenKind::Extends = self.base.peeked.kind {
            let ext = match self.parse_project_extension() {
                Ok(ext) => ext,
                Err(e) => {
                    proof {
                        lemma_read_concat(s1.base.read@, s2.base.read@, self.base.read@);
                        Self::lemma_project_grow(*old(self), s1, *self);
                    }
                    return Err(e);
                },
            };
            let normalized = self.normalize_gpr_path(ext.as_str());
            proof {
                had_ext = true;
                assert(kinds(Self::delta(s2, *self)).len() == 2);
                assert(Self::delta(s2, *self)[1].kind == kinds(Self::delta(s2, *self))[1]);
                assert(Self::delta(s2, *self)[0].kind == kinds(Self::delta(s2, *self))[0]);
            }
            self.gpr.extends = Some(normalized);
        } else {
            self.gpr.extends = None;
        }
        let ghost s3 = *self;
        let ghost t3 = self.base.peeked;
        proof {
            lemma_read_concat(s1.base.read@, s2.base.read@, s3.base.read@);
        }
        match self.base.expect(TokenKind::Is) {
            Ok(()) => {},
            Err(e) => {
                proof {
                    assert(prefix_of(s3.base.read@, self.base.read@));
                    lemma_read_concat(s1.base.read@, s3.base.read@, self.base.read@);
                    Self::lemma_project_grow(*old(self), s1, *self);
                }
                return Err(e);
            },
        }
        let ghost s4 = *self;
        proof {
            assert(prefix_of(s3.base.read@, s4.base.read@));
            lemma_read_concat(s1.base.read@, s3.base.read@, s4.base.read@);
            Self::lemma_project_grow(*old(self), s1, s4);
        }
        let mut body: StatementList = Vec::new();
        loop
            invariant_except_break
                reads_body(Self::delta(s4, *self), body@, 0),
            invariant
                Self::advance(*old(self), *self),
                Self::step(s4, *self),
                self.measure() < old(self).measure(),
                self.gpr == s4.gpr,
                Self::project_read(*old(self), s4),
            ensures
                Self::advance(*old(self), *self),
                Self::step(s4, *self),
                self.measure() < old(self).measure(),
                self.gpr == s4.gpr,
                Self::delta(s4, *self).len() >= 2,
                Self::delta(s4, *self)[Self::delta(s4, *self).len() - 2].kind is End,
                (Self::delta(s4, *self).last().kind matches TokenKind::Identifier(e) && e@ == self.gpr.name@),
                reads_body(Self::delta(s4, *self).subrange(0, Self::delta(s4, *self).len() - 2), body@, 0),
            decreases self.measure(),
        {
            let ghost s0 = *self;
            let ghost b0 = body@;
            let (line, kind) = self.base.peek_with_line();
            match kind {
                TokenKind::EndOfFile => {
                    proof {
                        Self::lemma_project_grow(*old(self), s4, *self);
                    }
                    return Err(Error::UnexpectedEOF);
                },
                TokenKind::End => {
                    let ghost te = self.base.peeked;
                    let _ = self.base.next_token();  //  consume
                    let ghost tn = self.base.peeked;
                    let endname = match self.base.expect_identifier() {
                        Ok(n) => n,
                        Err(e) => {
                            proof {
                                lemma_read_concat(s4.base.read@, s0.base.read@, self.base.read@);
                                Self::lemma_project_grow(*old(self), s4, *self);
                            }
                            return Err(e);
                        },
                    };
                    if !str_eq(self.gpr.name.as_str(), endname.as_str()) {
                        proof {
                            lemma_read_concat(s4.base.read@, s0.base.read@, self.base.read@);
                            Self::lemma_project_grow(*old(self), s4, *self);
                        }
                        return Err(Error::MismatchEndName(endname, self.gpr.name.clone()));
                    }
                    proof {
                        lemma_read_concat(s4.base.read@, s0.base.read@, self.base.read@);
                        let d = Self::delta(s4, *self);
                        assert(Self::delta(s0, *self) =~= seq![te, tn]);
                        assert(d.subrange(0, d.len() - 2) =~= Self::delta(s4, s0));
                        assert(d[d.len() - 2] == te);
                        assert(d.last() == tn);
                    }
                    break;
                },
                TokenKind::Null => {
                    //  Consume "null;"
                    let _ = self.base.next_token();
                    match self.base.expect(TokenKind::Semicolon) {
                        Ok(()) => {},
                        Err(e) => {
                            proof {
                                lemma_read_concat(s4.base.read@, s0.base.read@, self.base.read@);
                                Self::lemma_project_grow(*old(self), s4, *self);
                            }
                            return Err(e);
                        },
                    }
                    proof {
                        assert(kinds(Self::delta(s0, *self)) =~= seq![TokenKind::Null, TokenKind::Semicolon]);
                        lemma_body_null(s4, s0, *self, body@, 0);
                    }
                },
                TokenKind::For => {
                    let s = match self.parse_attribute_declaration() {
                        Ok(s) => s,
                        Err(e) => {
                            proof {
                                lemma_read_concat(s4.base.read@, s0.base.read@, self.base.read@);
                                Self::lemma_project_grow(*old(self), s4, *self);
                            }
                            return Err(e);
                        },
                    };
                    body.push((line, s));
                    proof {
                        assert(body@.drop_last() =~= b0);
                        lemma_body_push(s4, s0, *self, b0, body@, 0);
                    }
                },
                TokenKind::Case => {
                    let s = match self.parse_case_statement() {
                        Ok(s) => s,
                        Err(e) => {
                            proof {
                                lemma_read_concat(s4.base.read@, s0.base.read@, self.base.read@);
                                Self::lemma_project_grow(*old(self), s4, *self);
                            }
                            return Err(e);
                        },
                    };
                    body.push((line, s));
                    proof {
                        assert(body@.drop_last() =~= b0);
                        lemma_body_push(s4, s0, *self, b0, body@, 0);
                    }
                },
                TokenKind::Package => {
                    let s = match self.parse_package_declaration() {
                        Ok(s) => s,
                        Err(e) => {
                            proof {
                                lemma_read_concat(s4.base.read@, s0.base.read@, self.base.read@);
                                Self::lemma_project_grow(*old(self), s4, *self);
                            }
                            return Err(e);
                        },
                    };
                    body.push((line, s));
                    proof {
                        assert(body@.drop_last() =~= b0);
                        lemma_body_push(s4, s0, *self, b0, body@, 0);
                    }
                },
                TokenKind::Identifier(_) => {
                    let s = match self.parse_variable_definition() {
                        Ok(s) => s,
                        Err(e) => {
                            proof {
                                lemma_read_concat(s4.base.read@, s0.base.read@, self.base.read@);
                                Self::lemma_project_grow(*old(self), s4, *self);
                            }
                            return Err(e);
                        },
                    };
                    body.push((line, s));
                    proof {
                        assert(body@.drop_last() =~= b0);
                        lemma_body_push(s4, s0, *self, b0, body@, 0);
                    }
                },
                TokenKind::Type => {
                    let s = match self.parse_type_definition() {
                        Ok(s) => s,
                        Err(e) => {
                            proof {
                                lemma_read_concat(s4.base.read@, s0.base.read@, self.base.read@);
                                Self::lemma_project_grow(*old(self), s4, *self);
                            }
                            return Err(e);
                        },
                    };
                    body.push((line, s));
                    proof {
                        assert(body@.drop_last() =~= b0);
                        lemma_body_push(s4, s0, *self, b0, body@, 0);
                    }
                },
                _ => {
                    let n = self.base.safe_next()?;
                    proof {
                        lemma_read_concat(s4.base.read@, s0.base.read@, self.base.read@);
                        Self::lemma_project_grow(*old(self), s4, *self);
                    }
                    return Err(
                        Error::wrong_token("end|for|case|package|identifier|type", n.describe()),
                    );
                },
            }
        }
        let ghost s5 = *self;
        self.gpr.body = body;
        let ghost ts = self.base.peeked;
        match self.base.expect(TokenKind::Semicolon) {
            Ok(()) => {},
            Err(e) => {
                proof {
                    assert(prefix_of(s5.base.read@, self.base.read@));
                    lemma_read_concat(s4.base.read@, s5.base.read@, self.base.read@);
                    Self::lemma_project_grow(*old(self), s4, *self);
                }
                return Err(e);
            },
        }
        proof {
            lemma_read_concat(old(self).base.read@, s1.base.read@, s2.base.read@);
            lemma_read_concat(old(self).base.read@, s2.base.read@, s3.base.read@);
            lemma_read_concat(old(self).base.read@, s3.base.read@, s4.base.read@);
            lemma_read_concat(old(self).base.read@, s4.base.read@, s5.base.read@);
            let k = Self::delta(*old(self), *self);
            let d1 = Self::delta(*old(self), s1);
            let i = d1.len() - 1;
            let e = Self::delta(s2, s3);
            let j = i + 2 + e.len();
            let bd = Self::delta(s4, s5);
            assert(k =~= Self::delta(*old(self), s5).push(ts));
            assert(Self::delta(s1, s2) =~= seq![t1]);
            assert(Self::delta(s3, s4) =~= seq![t3]);
            assert(k.subrange(0, i + 1) =~= d1);
            assert(k[i] == d1.last());
            assert(k[i + 1] == t1);
            assert(k[j] == t3);
            assert(k.subrange(j + 1, k.len() - 3) =~= bd.subrange(0, bd.len() - 2));
            assert(k[k.len() - 3] == bd[bd.len() - 2]);
            assert(k[k.len() - 2] == bd.last());
            assert forall|m: int| 0 <= m < i implies is_qualifier(#[trigger] k[m].kind) by {
                assert(k[m] == d1[m]);
            }
            lemma_kind_before_prefix(k, d1, TokenKind::Aggregate);
            lemma_kind_before_prefix(k, d1, TokenKind::Library);
            lemma_kind_before_prefix(k, d1, TokenKind::Abstract);
            if had_ext {
                assert(k[i + 2] == e[0]);
                assert(k[i + 3] == e[1]);
            } else {
                assert(e.len() == 0);
            }
            assert(reads_project(k, old(self).gpr, self.gpr, old(self).resolve_symbolic_links));
        }
        Ok(())
    }

    /// Parses "extends "path"", and returns the path.
    fn parse_project_extension(&mut self) -> (r: Result<String, Error>)
        requires
            old(self).wf(),
        ensures
            Self::step(*old(self), *final(self)),
            r is Ok ==> final(self).measure() < old(self).measure(),
            !(old(self).base.peeked.kind is Extends) ==> r is Err,
            r matches Ok(p) ==> kinds(Self::delta(*old(self), *final(self))) == seq![TokenKind::Extends, TokenKind::String(p)],
            // It fails where the tokens stop following `extends "path"`.
            r is Err ==> kinds_cut(kinds(Self::delta(*old(self), *final(self))), extends_pattern(), final(self).base.hit_eof()),
    {
        let ghost t0 = self.base.peeked;
        match self.base.expect(TokenKind::Extends) {
            Ok(()) => {},
            Err(e) => {
                proof {
                    let dn: Seq<Token> = seq![];
                    let d = Self::delta(*old(self), *self);
                    if t0.kind is EndOfFile {
                        assert(d =~= dn);
                    } else {
                        assert(d =~= dn.push(t0));
                        assert(kinds(d) =~= kinds(dn).push(t0.kind));
                        assert(!(extends_pattern()[0])(t0.kind));
                    }
                    assert(self.base.lexed@[self.base.lexed@.len() - 2] == t0);
                    lemma_cut(kinds(dn), extends_pattern(), t0.kind, kinds(d), self.base.hit_eof());
                }
                return Err(e);
            },
        }
        let ghost t1 = self.base.peeked;
        let ghost s1 = *self;
        let p = match self.base.expect_str() {
            Ok(p) => p,
            Err(e) => {
                proof {
                    assert(Self::delta(*old(self), s1) =~= seq![t0]);
                    let dn: Seq<Token> = seq![t0];
                    let d = Self::delta(*old(self), *self);
                    if t1.kind is EndOfFile {
                        assert(d =~= dn);
                    } else {
                        assert(d =~= dn.push(t1));
                        assert(kinds(d) =~= kinds(dn).push(t1.kind));
                        assert(!(extends_pattern()[1])(t1.kind));
                    }
                    assert(self.base.lexed@[self.base.lexed@.len() - 2] == t1);
                    lemma_cut(kinds(dn), extends_pattern(), t1.kind, kinds(d), self.base.hit_eof());
                }
                return Err(e);
            },
        };
        proof {
            assert(Self::delta(*old(self), *self) =~= seq![t0, t1]);
            assert(kinds(Self::delta(*old(self), *self)) =~= seq![TokenKind::Extends, TokenKind::String(p)]);
        }
        Ok(p)
    }

    /// Parses "type Name is (...);".
    fn parse_type_definition(&mut self) -> (r: Result<Statement, Error>)
        requires
            old(self).wf(),
        ensures
            Self::step(*old(self), *final(self)),
            r is Ok ==> final(self).measure() < old(self).measure(),
            r matches Ok(s) ==> s is TypeDecl,
            !(old(self).base.peeked.kind is Type) ==> r is Err,
            r matches Ok(s) ==> reads_stmt(Self::delta(*old(self), *final(self)), s, 0),
            r is Ok ==> Self::starts_at_peeked(*old(self), *final(self)),
            // It fails where the tokens stop following `type name is`, or
            // in what comes after them.
            r is Err ==> kinds_cut(kinds(Self::delta(*old(self), *final(self))), type_pattern(), final(self).base.hit_eof())
                || Self::follows(*old(self), *final(self), type_pattern()),
    {
        let ghost t0 = self.base.peeked;
        let ghost s0 = *self;
        match self.base.expect(TokenKind::Type) {
            Ok(()) => {},
            Err(e) => {
                proof {
                    assert(Self::delta(*old(self), s0).len() == 0);
                    Self::lemma_cut_step(*old(self), s0, *self, type_pattern());
                }
                return Err(e);
            },
        }
        let ghost t1 = self.base.peeked;
        let ghost s1 = *self;
        proof {
            assert(Self::delta(*old(self), s1) =~= seq![t0]);
        }
        let typename = match self.base.expect_identifier() {
            Ok(n) => n,
            Err(e) => {
                proof {
                    Self::lemma_cut_step(*old(self), s1, *self, type_pattern());
                }
                return Err(e);
            },
        };
        let ghost t2 = self.base.peeked;
        let ghost s2 = *self;
        proof {
            assert(Self::delta(*old(self), s2) =~= seq![t0, t1]);
        }
        match self.base.expect(TokenKind::Is) {
            Ok(()) => {},
            Err(e) => {
                proof {
                    Self::lemma_cut_step(*old(self), s2, *self, type_pattern());
                }
                return Err(e);
            },
        }
        let ghost s3 = *self;
        proof {
            assert(Self::delta(*old(self), s3) =~= seq![t0, t1, t2]);
            assert(Self::follows(*old(self), s3, type_pattern()));
        }
        let expr = self.parse_expression()?;
        let ghost s4 = *self;
        let ghost t4 = self.base.peeked;
        self.base.expect(TokenKind::Semicolon)?;
        proof {
            lemma_read_concat(old(self).base.read@, s3.base.read@, s4.base.read@);
            let k = Self::delta(*old(self), *self);
            assert(Self::delta(*old(self), s3) =~= seq![t0, t1, t2]);
            assert(k =~= Self::delta(*old(self), s4).push(t4));
            assert(kinds(k.subrange(0, 3)) =~= seq![TokenKind::Type, TokenKind::Identifier(typename), TokenKind::Is]);
            assert(k.subrange(3, k.len() - 1) =~= Self::delta(s3, s4));
            lemma_reads_nonempty(Self::delta(s3, s4), expr);
        }
        Ok(Statement::TypeDecl { typename, valid: expr })
    }

    /// Parses the body of a package, up to and including its final "end name".
    fn parse_package_body(&mut self, startname: &String) -> (r: Result<StatementList, Error>)
        requires
            old(self).wf(),
        ensures
            Self::step(*old(self), *final(self)),
            r is Ok ==> final(self).measure() < old(self).measure(),
            r matches Ok(b) ==> {
                let d = Self::delta(*old(self), *final(self));
                &&& d.len() >= 2
                &&& d[d.len() - 2].kind is End
                &&& (d.last().kind matches TokenKind::Identifier(e) && e@ == startname@)
                &&& reads_body(d.subrange(0, d.len() - 2), b@, 1)
            },
            // It fails after whole statements, at the end of the file or at
            // a token that starts no statement, or within a statement or the
            // final `end name`.
            r is Err ==> body_cut(
                Self::delta(*old(self), *final(self)),
                1,
                final(self).base.peeked.kind,
                final(self).base.hit_eof(),
            ),
        decreases old(self).measure(), 4nat,
    {
        let mut body: StatementList = Vec::new();
        loop
            invariant
                Self::step(*old(self), *self),
                reads_body(Self::delta(*old(self), *self), body@, 1),
            decreases self.measure(),
        {
            let ghost s0 = *self;
            let ghost b0 = body@;
            let (line, kind) = self.base.peek_with_line();
            match kind {
                TokenKind::EndOfFile => {
                    proof {
                        assert(Self::delta(s0, *self).len() == 0);
                        Self::lemma_body_cut(*old(self), s0, *self, b0, 1);
                    }
                    return Err(Error::UnexpectedEOF);
                },
                TokenKind::End => {
                    let ghost t0 = self.base.peeked;
                    let _ = self.base.next_token();  //  consume
                    let ghost t1 = self.base.peeked;
                    let endname = match self.base.expect_identifier() {
                        Ok(n) => n,
                        Err(e) => {
                            proof {
                                Self::lemma_body_cut(*old(self), s0, *self, b0, 1);
                            }
                            return Err(e);
                        },
                    };
                    if !str_eq(startname.as_str(), endname.as_str()) {
                        proof {
                            Self::lemma_body_cut(*old(self), s0, *self, b0, 1);
                        }
                        return Err(Error::MismatchEndName(endname, startname.clone()));
                    }
                    proof {
                        lemma_read_concat(old(self).base.read@, s0.base.read@, self.base.read@);
                        let d = Self::delta(*old(self), *self);
                        assert(Self::delta(s0, *self) =~= seq![t0, t1]);
                        assert(d.subrange(0, d.len() - 2) =~= Self::delta(*old(self), s0));
                        assert(d[d.len() - 2] == t0);
                        assert(d.last() == t1);
                    }
                    return Ok(body);
                },
                TokenKind::Null => {
                    let _ = self.base.next_token();
                    match self.base.expect(TokenKind::Semicolon) {
                        Ok(()) => {},
                        Err(e) => {
                            proof {
                                Self::lemma_body_cut(*old(self), s0, *self, b0, 1);
                            }
                            return Err(e);
                        },
                    }
                    proof {
                        assert(kinds(Self::delta(s0, *self)) =~= seq![TokenKind::Null, TokenKind::Semicolon]);
                        lemma_body_null(*old(self), s0, *self, body@, 1);
                    }
                },
                TokenKind::For => {
                    let s = match self.parse_attribute_declaration() {
                        Ok(s) => s,
                        Err(e) => {
                            proof {
                                Self::lemma_cut_or_follows(s0, *self, attribute_pattern());
                                Self::lemma_body_cut(*old(self), s0, *self, b0, 1);
                            }
                            return Err(e);
                        },
                    };
                    body.push((line, s));
                    proof {
                        assert(body@.drop_last() =~= b0);
                        lemma_body_push(*old(self), s0, *self, b0, body@, 1);
                    }
                },
                TokenKind::Case => {
                    let s = match self.parse_case_statement() {
                        Ok(s) => s,
                        Err(e) => {
                            proof {
                                Self::lemma_cut_or_follows(s0, *self, case_pattern());
                                Self::lemma_body_cut(*old(self), s0, *self, b0, 1);
                            }
                            return Err(e);
                        },
                    };
                    body.push((line, s));
                    proof {
                        assert(body@.drop_last() =~= b0);
                        lemma_body_push(*old(self), s0, *self, b0, body@, 1);
                    }
                },
                TokenKind::Identifier(_) => {
                    let s = match self.parse_variable_definition() {
                        Ok(s) => s,
                        Err(e) => {
                            proof {
                                Self::lemma_cut_or_follows(s0, *self, name_pattern());
                                Self::lemma_body_cut(*old(self), s0, *self, b0, 1);
                            }
                            return Err(e);
                        },
                    };
                    body.push((line, s));
                    proof {
                        assert(body@.drop_last() =~= b0);
                        lemma_body_push(*old(self), s0, *self, b0, body@, 1);
                    }
                },
                t => {
                    proof {
                        assert(Self::delta(s0, *self).len() == 0);
                        Self::lemma_body_cut(*old(self), s0, *self, b0, 1);
                    }
                    return Err(Error::wrong_token("end|null|for|case|identifier", t.describe()));
                },
            }
        }
    }

    /// Parses a package declaration, renaming or extension.
    #[verifier::spinoff_prover]
    #[verifier::rlimit(100)]
    fn parse_package_declaration(&mut self) -> (r: Result<Statement, Error>)
        requires
            old(self).wf(),
        ensures
            Self::step(*old(self), *final(self)),
            r is Ok ==> final(self).measure() < old(self).measure(),
            r matches Ok(s) ==> s is Package,
            !(old(self).base.peeked.kind is Package) ==> r is Err,
            r matches Ok(s) ==> reads_stmt(Self::delta(*old(self), *final(self)), s, 0),
            r is Ok ==> Self::starts_at_peeked(*old(self), *final(self)),
            // It fails where the tokens stop following `package name`, or in
            // what comes after.
            r is Err ==> kinds_cut(kinds(Self::delta(*old(self), *final(self))), package_pattern(), final(self).base.hit_eof())
                || Self::follows(*old(self), *final(self), package_pattern()),
    {
        let ghost t0 = self.base.peeked;
        let ghost s0 = *self;
        match self.base.expect(TokenKind::Package) {
            Ok(()) => {},
            Err(e) => {
                proof {
                    assert(Self::delta(*old(self), s0).len() == 0);
                    Self::lemma_cut_step(*old(self), s0, *self, package_pattern());
                }
                return Err(e);
            },
        }
        let ghost t1 = self.base.peeked;
        let ghost s1 = *self;
        proof {
            assert(Self::delta(*old(self), s1) =~= seq![t0]);
        }
        let startname = match self.base.expect_identifier() {
            Ok(n) => n,
            Err(e) => {
                proof {
                    Self::lemma_cut_step(*old(self), s1, *self, package_pattern());
                }
                return Err(e);
            },
        };
        proof {
            assert(Self::delta(*old(self), *self) =~= seq![t0, t1]);
            assert(Self::follows(*old(self), *self, package_pattern()));
        }
        let name = PackageName::new(startname.as_str())?;
        let mut extends: Option<QualifiedName> = None;
        let mut renames: Option<QualifiedName> = None;
        let mut body: StatementList = Vec::new();
        self.current_pkg = name;
        let ghost s2 = *self;
        proof {
            assert(Self::delta(s2, s2) =~= Seq::<Token>::empty());
        }
        loop
            invariant_except_break
                reads_extends(Self::delta(s2, *self), extends),
                renames is None,
                body@.len() == 0,
            invariant
                Self::step(*old(self), *self),
                Self::step(s2, *self),
                self.measure() < old(self).measure(),
                Self::follows(*old(self), *self, package_pattern()),
            ensures
                Self::step(*old(self), *self),
                Self::step(s2, *self),
                self.measure() < old(self).measure(),
                reads_package_rest(Self::delta(s2, *self), startname@, renames, extends, body@),
            decreases self.measure(),
        {
            let ghost s3 = *self;
            let n = self.base.safe_next()?;
            let ghost s4 = *self;
            match n.kind {
                TokenKind::Is => {
                    body = self.parse_package_body(&startname)?;
                    let ghost s5 = *self;
                    let ghost t5 = self.base.peeked;
                    self.base.expect(TokenKind::Semicolon)?;
                    proof {
                        lemma_read_concat(s2.base.read@, s3.base.read@, s4.base.read@);
                        lemma_read_concat(s2.base.read@, s4.base.read@, s5.base.read@);
                        let d = Self::delta(s2, *self);
                        let i = Self::delta(s2, s3).len() as int;
                        let bd = Self::delta(s4, s5);
                        assert(d =~= Self::delta(s2, s5).push(t5));
                        assert(d.subrange(0, i) =~= Self::delta(s2, s3));
                        assert(d[i] == n);
                        assert(d.subrange(i + 1, d.len() - 3) =~= bd.subrange(0, bd.len() - 2));
                        assert(d[d.len() - 3] == bd[bd.len() - 2]);
                        assert(d[d.len() - 2] == bd.last());
                        assert(Self::delta(s2, *self)[i] == n);
                        assert(reads_package_rest(d, startname@, renames, extends, body@));
                    }
                    break;
                },
                TokenKind::Renames => {
                    renames = Some(self.expect_qname()?);
                    let ghost s5 = *self;
                    let ghost t5 = self.base.peeked;
                    self.base.expect(TokenKind::Semicolon)?;
                    proof {
                        lemma_read_concat(s2.base.read@, s3.base.read@, s4.base.read@);
                        lemma_read_concat(s2.base.read@, s4.base.read@, s5.base.read@);
                        let d = Self::delta(s2, *self);
                        let i = Self::delta(s2, s3).len() as int;
                        assert(d =~= Self::delta(s2, s5).push(t5));
                        assert(d.subrange(0, i) =~= Self::delta(s2, s3));
                        assert(d[i] == n);
                        assert(d.subrange(i + 1, d.len() - 1) =~= Self::delta(s4, s5));
                        assert(Self::delta(s2, *self)[i] == n);
                        assert(reads_package_rest(d, startname@, renames, extends, body@));
                    }
                    break;
                },
                TokenKind::Extends => {
                    let q = self.expect_qname()?;
                    proof {
                        lemma_read_concat(s2.base.read@, s3.base.read@, s4.base.read@);
                        lemma_read_concat(s2.base.read@, s4.base.read@, self.base.read@);
                        let d = Self::delta(s2, *self);
                        let i = Self::delta(s2, s3).len() as int;
                        assert(d.subrange(0, i) =~= Self::delta(s2, s3));
                        assert(d[i] == n);
                        assert(d.subrange(i + 1, d.len() as int) =~= Self::delta(s4, *self));
                        assert(reads_extends_clauses(d.subrange(0, i))) by {
                            lemma_extends_clauses(Self::delta(s2, s3), extends);
                        }
                        assert(reads_extends(d, Some(q)));
                    }
                    extends = Some(q);
                },
                _ => {
                    return Err(Error::wrong_token("is|renames|extends", n.describe()));
                },
            }
        }
        self.current_pkg = PackageName::Top;
        proof {
            lemma_read_concat(old(self).base.read@, s2.base.read@, self.base.read@);
            let k = Self::delta(*old(self), *self);
            let d = Self::delta(s2, *self);
            assert(Self::delta(*old(self), s2) =~= seq![t0, t1]);
            assert(k =~= seq![t0, t1] + d);
            assert(k.subrange(2, k.len() as int) =~= d);
            assert(k[1] == t1);
        }
        Ok(Statement::Package { name, renames, extends, body })
    }

    /// Parses "name [: type] := expr;".
    #[verifier::spinoff_prover]
    #[verifier::rlimit(40)]
    fn parse_variable_definition(&mut self) -> (r: Result<Statement, Error>)
        requires
            old(self).wf(),
        ensures
            Self::step(*old(self), *final(self)),
            r is Ok ==> final(self).measure() < old(self).measure(),
            r matches Ok(s) ==> (s matches Statement::VariableDecl { name, .. }
                && old(self).base.peeked.kind == TokenKind::Identifier(name)),
            !(old(self).base.peeked.kind is Identifier) ==> r is Err,
            r matches Ok(s) ==> forall|level: int| #[trigger] reads_stmt(Self::delta(*old(self), *final(self)), s, level),
            r is Ok ==> Self::starts_at_peeked(*old(self), *final(self)),
            // It fails where the tokens stop following the name of the variable, or in what
            // comes after.
            r is Err ==> kinds_cut(kinds(Self::delta(*old(self), *final(self))), name_pattern(), final(self).base.hit_eof())
                || Self::follows(*old(self), *final(self), name_pattern()),
    {
        let ghost t0 = self.base.peeked;
        let ghost s0 = *self;
        let name = match self.base.expect_identifier() {
            Ok(n) => n,
            Err(e) => {
                proof {
                    assert(Self::delta(*old(self), s0).len() == 0);
                    Self::lemma_cut_step(*old(self), s0, *self, name_pattern());
                }
                return Err(e);
            },
        };
        let ghost s1 = *self;
        proof {
            assert(Self::delta(*old(self), s1) =~= seq![t0]);
            assert(Self::follows(*old(self), s1, name_pattern()));
        }
        let typename = if let TokenKind::Colon = self.base.peeked.kind {
            let _ = self.base.next_token();  // consume ":"
            Some(self.expect_qname()?)
        } else {
            None
        };
        let ghost s2 = *self;
        let ghost t2 = self.base.peeked;
        self.base.expect(TokenKind::Assign)?;
        let ghost s3 = *self;
        let expr = self.parse_expression()?;
        let ghost s4 = *self;
        let ghost t4 = self.base.peeked;
        self.base.expect(TokenKind::Semicolon)?;
        proof {
            lemma_read_concat(old(self).base.read@, s1.base.read@, s2.base.read@);
            lemma_read_concat(old(self).base.read@, s2.base.read@, s3.base.read@);
            lemma_read_concat(old(self).base.read@, s3.base.read@, s4.base.read@);
            let k = Self::delta(*old(self), *self);
            let ex = Self::delta(s3, s4);
            lemma_reads_nonempty(ex, expr);
            assert(k =~= Self::delta(*old(self), s4).push(t4));
            assert(Self::delta(*old(self), s1) =~= seq![t0]);
            assert(Self::delta(s2, s3) =~= seq![t2]);
            let i = Self::delta(*old(self), s2).len() as int;
            assert(k.subrange(i + 1, k.len() - 1) =~= ex);
            assert(k[i] == t2);
            let tn = typename;
            match tn {
                None => {
                    assert(s2 == s1);
                    assert(i == 1);
                },
                Some(q) => {
                    let q0 = Self::delta(s1, s2);
                    assert(q0[0] == s1.base.peeked);
                    assert(k.subrange(2, i) =~= q0.subrange(1, q0.len() as int));
                    assert(k[1] == s1.base.peeked);
                    assert(k[i].kind is Assign);
                },
            }
            let st = Statement::VariableDecl { name, typename, expr };
            assert forall|level: int| #[trigger] reads_stmt(k, st, level) by {}
        }
        Ok(Statement::VariableDecl { name, typename, expr })
    }

    /// Parses the values of a `when` clause, up to and including the arrow.
    fn parse_when_values(&mut self) -> (r: Result<Vec<StringOrOthers>, Error>)
        requires
            old(self).wf(),
        ensures
            Self::step(*old(self), *final(self)),
            r is Ok ==> final(self).measure() < old(self).measure(),
            r matches Ok(v) ==> reads_when_values(Self::delta(*old(self), *final(self)), v@),
            // It fails where the tokens stop being strings separated by `|`
            // (or `others`), then `=>`.
            r is Err ==> when_values_cut(kinds(Self::delta(*old(self), *final(self))), final(self).base.hit_eof()),
    {
        let mut values: Vec<StringOrOthers> = Vec::new();
        loop
            invariant
                Self::step(*old(self), *self),
                kinds(Self::delta(*old(self), *self)) == piped_values(values@),
                forall|j: int| 0 <= j < values@.len() ==> #[trigger] values@[j] is Str,
                values@.len() > 0 ==> self.measure() < old(self).measure(),
            decreases self.measure(),
        {
            let ghost s0 = *self;
            let ghost v0 = values@;
            let ghost t0 = self.base.peeked;
            let n = match self.base.safe_next() {
                Ok(n) => n,
                Err(e) => {
                    proof {
                        assert(Self::delta(*old(self), *self) =~= Self::delta(*old(self), s0));
                        assert(self.base.lexed@[self.base.lexed@.len() - 2] == t0);
                        assert(when_values_cut_at(kinds(Self::delta(*old(self), *self)), v0, seq![], self.base.hit_eof()));
                    }
                    return Err(e);
                },
            };
            proof {
                assert(Self::delta(*old(self), *self) =~= Self::delta(*old(self), s0).push(t0));
                assert(kinds(Self::delta(*old(self), *self)) =~= piped_values(v0).push(n.kind));
            }
            let ghost s1 = *self;
            let ghost t1 = self.base.peeked;
            match n.kind {
                TokenKind::String(s) => values.push(StringOrOthers::Str(s)),
                TokenKind::Others => {
                    match self.base.expect(TokenKind::Arrow) {
                        Ok(()) => {},
                        Err(e) => {
                            proof {
                                if t1.kind is EndOfFile {
                                    assert(Self::delta(*old(self), *self) =~= Self::delta(*old(self), s1));
                                    assert(self.base.lexed@[self.base.lexed@.len() - 2] == t1);
                                    assert(kinds(Self::delta(*old(self), *self)) =~= piped_values(v0) + seq![n.kind]);
                                    assert(when_values_cut_at(kinds(Self::delta(*old(self), *self)), v0, seq![n.kind], self.base.hit_eof()));
                                } else {
                                    assert(Self::delta(*old(self), *self) =~= Self::delta(*old(self), s1).push(t1));
                                    assert(kinds(Self::delta(*old(self), *self)) =~= piped_values(v0) + seq![n.kind, t1.kind]);
                                    assert(when_values_cut_at(kinds(Self::delta(*old(self), *self)), v0, seq![n.kind, t1.kind], self.base.hit_eof()));
                                }
                            }
                            return Err(e);
                        },
                    }
                    values.push(StringOrOthers::Others);
                    proof {
                        assert(values@.drop_last() =~= v0);
                        assert(kinds(Self::delta(*old(self), *self)) =~= kinds(Self::delta(*old(self), s0)) + seq![
                            TokenKind::Others,
                            TokenKind::Arrow,
                        ]);
                    }
                    return Ok(values);
                },
                _ => {
                    proof {
                        assert(!(n.kind is EndOfFile));
                        assert(kinds(Self::delta(*old(self), *self)) =~= piped_values(v0) + seq![n.kind]);
                        assert(when_values_cut_at(kinds(Self::delta(*old(self), *self)), v0, seq![n.kind], self.base.hit_eof()));
                    }
                    return Err(Error::wrong_token("string|others", n.describe()));
                },
            }
            let ghost s2 = *self;
            let ghost t2 = self.base.peeked;
            let n2 = match self.base.safe_next() {
                Ok(n2) => n2,
                Err(e) => {
                    proof {
                        assert(Self::delta(*old(self), *self) =~= Self::delta(*old(self), s2));
                        assert(self.base.lexed@[self.base.lexed@.len() - 2] == t2);
                        assert(Self::delta(*old(self), s2) =~= Self::delta(*old(self), s1));
                        assert(n.kind is String);
                        assert(forall|j: int| 0 <= j < v0.len() ==> #[trigger] v0[j] is Str);
                        assert(kinds(Self::delta(*old(self), *self)) =~= piped_values(v0) + seq![n.kind]);
                        assert(when_values_cut_at(kinds(Self::delta(*old(self), *self)), v0, seq![n.kind], self.base.hit_eof()));
                    }
                    return Err(e);
                },
            };
            proof {
                assert(values@.drop_last() =~= v0);
                assert(kinds(Self::delta(*old(self), *self)) =~= kinds(Self::delta(*old(self), s0)) + seq![
                    n.kind,
                    n2.kind,
                ]);
            }
            match n2.kind {
                TokenKind::Pipe => {},
                TokenKind::Arrow => {
                    return Ok(values);
                },
                _ => {
                    proof {
                        assert(when_values_cut_at(kinds(Self::delta(*old(self), *self)), v0, seq![n.kind, n2.kind], self.base.hit_eof()));
                    }
                    return Err(Error::wrong_token("| or =>", n2.describe()));
                },
            }
        }
    }

    /// Parses the statements of a `when` clause, up to the next `when` or
    /// `end`.
    fn parse_when_body(&mut self) -> (r: Result<StatementList, Error>)
        requires
            old(self).wf(),
        ensures
            Self::step(*old(self), *final(self)),
            r matches Ok(b) ==> reads_body(Self::delta(*old(self), *final(self)), b@, 2),
            // It stops at the next `end` or `when`; it fails after whole
            // statements, at the end of the file, or within a statement or
            // at a token that starts none.
            r is Ok ==> final(self).base.peeked.kind is End || final(self).base.peeked.kind is When,
            r is Err ==> body_cut(
                Self::delta(*old(self), *final(self)),
                2,
                final(self).base.peeked.kind,
                final(self).base.hit_eof(),
            ),
        decreases old(self).measure(), 6nat,
    {
        let mut body: StatementList = Vec::new();
        loop
            invariant
                Self::step(*old(self), *self),
                reads_body(Self::delta(*old(self), *self), body@, 2),
            decreases self.measure(),
        {
            let ghost s0 = *self;
            let ghost b0 = body@;
            let (line, kind) = self.base.peek_with_line();
            match kind {
                TokenKind::EndOfFile => {
                    proof {
                        assert(Self::delta(s0, *self).len() == 0);
                        Self::lemma_body_cut(*old(self), s0, *self, b0, 2);
                    }
                    return Err(Error::UnexpectedEOF);
                },
                TokenKind::End | TokenKind::When => {
                    return Ok(body);
                },
                TokenKind::For => {
                    let s = match self.parse_attribute_declaration() {
                        Ok(s) => s,
                        Err(e) => {
                            proof {
                                Self::lemma_cut_or_follows(s0, *self, attribute_pattern());
                                Self::lemma_body_cut(*old(self), s0, *self, b0, 2);
                            }
                            return Err(e);
                        },
                    };
                    body.push((line, s));
                    proof {
                        assert(body@.drop_last() =~= b0);
                        lemma_body_push(*old(self), s0, *self, b0, body@, 2);
                    }
                },
                TokenKind::Null => {
                    let _ = self.base.next_token();
                    match self.base.expect(TokenKind::Semicolon) {
                        Ok(()) => {},
                        Err(e) => {
                            proof {
                                Self::lemma_body_cut(*old(self), s0, *self, b0, 2);
                            }
                            return Err(e);
                        },
                    }
                    proof {
                        assert(kinds(Self::delta(s0, *self)) =~= seq![TokenKind::Null, TokenKind::Semicolon]);
                        lemma_body_null(*old(self), s0, *self, body@, 2);
                    }
                },
                TokenKind::Case => {
                    let s = match self.parse_case_statement() {
                        Ok(s) => s,
                        Err(e) => {
                            proof {
                                Self::lemma_cut_or_follows(s0, *self, case_pattern());
                                Self::lemma_body_cut(*old(self), s0, *self, b0, 2);
                            }
                            return Err(e);
                        },
                    };
                    body.push((line, s));
                    proof {
                        assert(body@.drop_last() =~= b0);
                        lemma_body_push(*old(self), s0, *self, b0, body@, 2);
                    }
                },
                TokenKind::Identifier(_) => {
                    let s = match self.parse_variable_definition() {
                        Ok(s) => s,
                        Err(e) => {
                            proof {
                                Self::lemma_cut_or_follows(s0, *self, name_pattern());
                                Self::lemma_body_cut(*old(self), s0, *self, b0, 2);
                            }
                            return Err(e);
                        },
                    };
                    body.push((line, s));
                    proof {
                        assert(body@.drop_last() =~= b0);
                        lemma_body_push(*old(self), s0, *self, b0, body@, 2);
                    }
                },
                _ => {
                    let n = self.base.safe_next()?;
                    proof {
                        Self::lemma_body_cut(*old(self), s0, *self, b0, 2);
                    }
                    return Err(
                        Error::wrong_token("end|when|null|case|identifier", n.describe()),
                    );
                },
            }
        }
    }

    /// Parses a case statement.
    #[verifier::spinoff_prover]
    #[verifier::rlimit(60)]
    fn parse_case_statement(&mut self) -> (r: Result<Statement, Error>)
        requires
            old(self).wf(),
        ensures
            Self::step(*old(self), *final(self)),
            r is Ok ==> final(self).measure() < old(self).measure(),
            r matches Ok(s) ==> s is Case,
            !(old(self).base.peeked.kind is Case) ==> r is Err,
            r matches Ok(s) ==> forall|level: int| #[trigger] reads_stmt(Self::delta(*old(self), *final(self)), s, level),
            r is Ok ==> Self::starts_at_peeked(*old(self), *final(self)),
            // It fails where the tokens stop following `case`, or in what
            // comes after.
            r is Err ==> kinds_cut(kinds(Self::delta(*old(self), *final(self))), case_pattern(), final(self).base.hit_eof())
                || Self::follows(*old(self), *final(self), case_pattern()),
        decreases old(self).measure(), 5nat,
    {
        let ghost t0 = self.base.peeked;
        let ghost s0 = *self;
        match self.base.expect(TokenKind::Case) {
            Ok(()) => {},
            Err(e) => {
                proof {
                    assert(Self::delta(*old(self), s0).len() == 0);
                    Self::lemma_cut_step(*old(self), s0, *self, case_pattern());
                }
                return Err(e);
            },
        }
        let ghost s1 = *self;
        proof {
            assert(Self::delta(*old(self), s1) =~= seq![t0]);
            assert(Self::follows(*old(self), s1, case_pattern()));
        }
        let varname = self.expect_qname()?;
        let ghost s2 = *self;
        let ghost t2 = self.base.peeked;
        let mut when: Vec<WhenClause> = Vec::new();
        self.base.expect(TokenKind::Is)?;
        let ghost s3 = *self;
        loop
            invariant_except_break
                reads_whens(Self::delta(s3, *self), when@),
            invariant
                Self::step(*old(self), *self),
                Self::step(s3, *self),
                self.measure() < old(self).measure(),
                Self::follows(*old(self), *self, case_pattern()),
            ensures
                Self::step(*old(self), *self),
                Self::step(s3, *self),
                self.measure() < old(self).measure(),
                Self::delta(s3, *self).len() >= 3,
                kinds(Self::delta(s3, *self).subrange(Self::delta(s3, *self).len() - 3, Self::delta(s3, *self).len() as int))
                    == seq![TokenKind::End, TokenKind::Case, TokenKind::Semicolon],
                reads_whens(Self::delta(s3, *self).subrange(0, Self::delta(s3, *self).len() - 3), when@),
            decreases self.measure(),
        {
            let ghost s4 = *self;
            let ghost w0 = when@;
            let n = self.base.safe_next()?;
            match n.kind {
                TokenKind::End => {
                    let ghost t5 = self.base.peeked;
                    self.base.expect(TokenKind::Case)?;
                    let ghost t6 = self.base.peeked;
                    self.base.expect(TokenKind::Semicolon)?;
                    proof {
                        lemma_read_concat(s3.base.read@, s4.base.read@, self.base.read@);
                        let d = Self::delta(s3, *self);
                        assert(Self::delta(s4, *self) =~= seq![n, t5, t6]);
                        assert(d.subrange(0, d.len() - 3) =~= Self::delta(s3, s4));
                        assert(kinds(d.subrange(d.len() - 3, d.len() as int)) =~= seq![
                            TokenKind::End,
                            TokenKind::Case,
                            TokenKind::Semicolon,
                        ]);
                    }
                    break;
                },
                TokenKind::When => {
                    let ghost s5 = *self;
                    let values = self.parse_when_values()?;
                    let ghost s6 = *self;
                    let body = self.parse_when_body()?;
                    let ghost s7 = *self;
                    let c = WhenClause { values, body };
                    proof {
                        lemma_read_concat(s4.base.read@, s5.base.read@, s6.base.read@);
                        lemma_read_concat(s4.base.read@, s6.base.read@, s7.base.read@);
                        lemma_read_concat(s3.base.read@, s4.base.read@, s7.base.read@);
                        let w = Self::delta(s4, s7);
                        assert(Self::delta(s4, s5) =~= seq![n]);
                        let i = 1 + Self::delta(s5, s6).len() as int;
                        assert(w.subrange(1, i) =~= Self::delta(s5, s6));
                        assert(w.subrange(i, w.len() as int) =~= Self::delta(s6, s7));
                        assert(kinds(Self::delta(s5, s6)).len() >= 2);
                        assert(w[0] == n);
                        assert(reads_when_values(w.subrange(1, i), c.values@));
                        assert(reads_when(w, c));
                        let d = Self::delta(s3, s7);
                        let j = Self::delta(s3, s4).len() as int;
                        assert(d.subrange(0, j) =~= Self::delta(s3, s4));
                        assert(d.subrange(j, d.len() as int) =~= w);
                        let w1 = w0.push(c);
                        assert(w1.drop_last() =~= w0);
                        assert(reads_whens(d.subrange(0, j), w1.drop_last()));
                        assert(reads_when(d.subrange(j, d.len() as int), w1.last()));
                        assert(reads_whens(d, w1));
                    }
                    when.push(c);
                },
                _ => {
                    return Err(Error::wrong_token("end|when", n.describe()));
                },
            }
        }
        proof {
            lemma_read_concat(old(self).base.read@, s1.base.read@, s2.base.read@);
            lemma_read_concat(old(self).base.read@, s2.base.read@, s3.base.read@);
            lemma_read_concat(old(self).base.read@, s3.base.read@, self.base.read@);
            let k = Self::delta(*old(self), *self);
            let q = Self::delta(s1, s2);
            let d = Self::delta(s3, *self);
            let i = 1 + q.len() as int;
            assert(Self::delta(*old(self), s1) =~= seq![t0]);
            assert(Self::delta(s2, s3) =~= seq![t2]);
            assert(k.subrange(1, i) =~= q);
            assert(k[i] == t2);
            assert(k.subrange(i + 1, k.len() - 3) =~= d.subrange(0, d.len() - 3));
            assert(k.subrange(k.len() - 3, k.len() as int) =~= d.subrange(d.len() - 3, d.len() as int));
            let st = Statement::Case { varname, when };
            assert forall|level: int| #[trigger] reads_stmt(k, st, level) by {}
        }
        Ok(Statement::Case { varname, when })
    }

    /// Parse a parenthesized expression as an attribute index, or a function
    /// argument list.  Returns None if there is no opening parenthesis.
    fn parse_opt_arg_list(&mut self) -> (r: Result<Option<Vec<RawExpr>>, Error>)
        requires
            old(self).wf(),
        ensures
            Self::step(*old(self), *final(self)),
            r matches Ok(Some(_)) ==> final(self).measure() < old(self).measure(),
            !(old(self).base.peeked.kind is OpenParenthesis) ==> r == Ok::<
                Option<Vec<RawExpr>>,
                Error,
            >(None) && *final(self) == *old(self),
            r matches Ok(None) ==> *final(self) == *old(self),
            // A parenthesis starts a list of arguments, which is read or
            // refused.
            old(self).base.peeked.kind is OpenParenthesis ==> !(r matches Ok(None)),
            // It fails only within the list, after its opening parenthesis.
            r is Err ==> Self::follows(*old(self), *final(self), paren_pattern()),
            r matches Ok(Some(args)) ==> {
                let d = Self::delta(*old(self), *final(self));
                &&& args@.len() >= 1
                &&& d.len() >= 2
                &&& d[0].kind is OpenParenthesis
                &&& d.last().kind is CloseParenthesis
                &&& reads_args(d.subrange(1, d.len() - 1), args@)
            },
        decreases old(self).measure(), 0nat,
    {
        let mut result: Vec<RawExpr> = Vec::new();
        if let TokenKind::OpenParenthesis = self.base.peeked.kind {
            let _ = self.base.next_token();  //  consume parenthesis
        } else {
            return Ok(None);
        }
        let ghost s1 = *self;
        let ghost mut il: int = 0;
        proof {
            assert(Self::delta(*old(self), s1) =~= seq![old(self).base.peeked]);
            assert(Self::follows(*old(self), s1, paren_pattern()));
        }
        loop
            invariant_except_break
                il >= 0,
                result@.len() == 0 ==> Self::delta(s1, *self).len() == 0,
                result@.len() > 0 ==> Self::delta(s1, *self).len() == il + 1
                    && Self::delta(s1, *self)[il].kind is Comma
                    && reads_args(Self::delta(s1, *self).subrange(0, il), result@),
            invariant
                Self::step(*old(self), *self),
                Self::step(s1, *self),
                self.measure() < old(self).measure(),
                old(self).base.peeked.kind is OpenParenthesis,
                s1.base.read@ == old(self).base.read@.push(old(self).base.peeked),
                Self::follows(*old(self), *self, paren_pattern()),
            ensures
                Self::step(*old(self), *self),
                Self::step(s1, *self),
                self.measure() < old(self).measure(),
                old(self).base.peeked.kind is OpenParenthesis,
                s1.base.read@ == old(self).base.read@.push(old(self).base.peeked),
                result@.len() >= 1,
                Self::delta(s1, *self).len() >= 1,
                Self::delta(s1, *self).last().kind is CloseParenthesis,
                reads_args(Self::delta(s1, *self).drop_last(), result@),
            decreases self.measure(),
        {
            let ghost s2 = *self;
            let ghost r0 = result@;
            match self.base.peeked.kind {
                TokenKind::EndOfFile => {
                    return Err(Error::UnexpectedEOF);
                },
                TokenKind::Others => {
                    let _ = self.base.next_token();
                    proof {
                        assert(kinds(Self::delta(s2, *self)) =~= seq![TokenKind::Others]);
                    }
                    result.push(RawExpr::Others);
                },
                TokenKind::String(_) | TokenKind::Identifier(_) => {
                    let e = self.parse_expression()?;
                    result.push(e);
                },
                _ => {
                    let n = self.base.safe_next()?;
                    return Err(Error::wrong_token("others|string", n.describe()));
                },
            }
            let ghost s3 = *self;
            proof {
                lemma_read_concat(s1.base.read@, s2.base.read@, s3.base.read@);
                let d = Self::delta(s1, s3);
                let ee = Self::delta(s2, s3);
                assert(d == Self::delta(s1, s2) + ee);
                let v = result@;
                assert(v.drop_last() =~= r0);
                if v.len() == 1 {
                    assert(d =~= ee);
                } else {
                    assert(v.drop_last().len() > 0);
                    assert(d.subrange(0, il) =~= Self::delta(s1, s2).subrange(0, il));
                    assert(d.subrange(il + 1, d.len() as int) =~= ee);
                    assert(d[il].kind is Comma);
                }
                assert(reads_args(d, v));
            }
            let n = self.base.safe_next()?;
            proof {
                lemma_read_concat(s1.base.read@, s3.base.read@, self.base.read@);
                assert(Self::delta(s1, *self).drop_last() =~= Self::delta(s1, s3));
            }
            match n.kind {
                TokenKind::Comma => {
                    proof {
                        il = Self::delta(s1, s3).len() as int;
                        assert(Self::delta(s1, *self).subrange(0, il) =~= Self::delta(s1, s3));
                    }
                },
                TokenKind::CloseParenthesis => {
                    break;
                },
                _ => {
                    return Err(Error::wrong_token(")|,", n.describe()));
                },
            }
        }
        proof {
            lemma_read_concat(old(self).base.read@, s1.base.read@, self.base.read@);
            let d = Self::delta(*old(self), *self);
            assert(d.subrange(1, d.len() - 1) =~= Self::delta(s1, *self).drop_last());
            assert(Self::delta(*old(self), s1) =~= seq![old(self).base.peeked]);
            assert(d[0] == Self::delta(*old(self), s1)[0]);
        }
        Ok(Some(result))
    }

    /// The next symbol is an identifier.  It could be an attribute name with
    /// optional index, a variable name, or a function call.
    fn expect_qname_or_func(&mut self) -> (r: Result<RawExpr, Error>)
        requires
            old(self).wf(),
        ensures
            Self::step(*old(self), *final(self)),
            r is Ok ==> final(self).measure() < old(self).measure(),
            r matches Ok(e) ==> (e is Name || e is FuncCall),
            r matches Ok(e) ==> reads_term(Self::delta(*old(self), *final(self)), e),
            // It reads the first name, if there is one; it fails at a token
            // that cannot start a name, or in what follows it.
            old(self).base.peeked.kind is Project || old(self).base.peeked.kind is Identifier ==> Self::follows(
                *old(self),
                *final(self),
                qname_pattern(),
            ),
            r is Err ==> kinds_cut(kinds(Self::delta(*old(self), *final(self))), qname_pattern(), final(self).base.hit_eof())
                || Self::follows(*old(self), *final(self), qname_pattern()),
        decreases old(self).measure(), 3nat,
    {
        let qname = self.expect_qname()?;
        let ghost s1 = *self;
        proof {
            assert(Self::follows(*old(self), s1, qname_pattern()));
        }
        if qname.project.is_none() && qname.package == PackageName::Top && matches!(
            qname.name,
            SimpleName::Name(_)
        ) {
            let args = self.parse_opt_arg_list()?;
            match args {
                Some(args) => {
                    proof {
                        lemma_read_concat(old(self).base.read@, s1.base.read@, self.base.read@);
                        let k = Self::delta(*old(self), *self);
                        let q = Self::delta(*old(self), s1);
                        let a = Self::delta(s1, *self);
                        let i = q.len() as int;
                        assert(k == q + a);
                        assert(k.subrange(0, i) =~= q);
                        assert(k.subrange(i + 1, k.len() - 1) =~= a.subrange(1, a.len() - 1));
                        assert(k[i].kind is OpenParenthesis);
                    }
                    Ok(RawExpr::FuncCall((qname, args)))
                },
                None => Ok(RawExpr::Name(qname)),
            }
        } else {
            Ok(RawExpr::Name(qname))
        }
    }

    /// Parses an expression: terms separated by "&".
    #[verifier::spinoff_prover]
    #[verifier::rlimit(60)]
    fn parse_expression(&mut self) -> (r: Result<RawExpr, Error>)
        requires
            old(self).wf(),
        ensures
            Self::step(*old(self), *final(self)),
            r is Ok ==> final(self).measure() < old(self).measure(),
            r matches Ok(e) ==> !(e is Empty) && !(e is Others),
            r matches Ok(e) ==> reads_expr(Self::delta(*old(self), *final(self)), e),
            // It fails at the end of the file, at a token that cannot start
            // a term, or in what follows the first token of the first term.
            r is Err ==> kinds_cut(
                kinds(Self::delta(*old(self), *final(self))),
                expr_pattern(),
                final(self).base.hit_eof() || final(self).base.peeked.kind is EndOfFile,
            ) || Self::follows(*old(self), *final(self), expr_pattern()),
        decreases old(self).measure(), 4nat,
    {
        let mut result = RawExpr::Empty;
        let ghost mut rl: int = 0;
        loop
            invariant_except_break
                rl >= 0,
                result is Empty ==> Self::delta(*old(self), *self).len() == 0,
                !(result is Empty) ==> Self::delta(*old(self), *self).len() == rl + 1
                    && Self::delta(*old(self), *self)[rl].kind is Ampersand
                    && reads_expr(Self::delta(*old(self), *self).subrange(0, rl), result),
            invariant
                Self::step(*old(self), *self),
                !(result is Empty) ==> self.measure() < old(self).measure(),
                !(result is Others),
                result is Empty ==> *self == *old(self),
                !(result is Empty) ==> Self::follows(*old(self), *self, expr_pattern()),
            ensures
                Self::step(*old(self), *self),
                self.measure() < old(self).measure(),
                !(result is Empty),
                !(result is Others),
                reads_expr(Self::delta(*old(self), *self), result),
            decreases self.measure(),
        {
            let ghost iter_start = self.measure();
            let ghost s0 = *self;
            let term: RawExpr;
            match self.base.peeked.kind {
                TokenKind::EndOfFile => {
                    proof {
                        if result is Empty {
                            assert(Self::delta(*old(self), *self) =~= Seq::<Token>::empty());
                            assert(kinds_cut_at(
                                kinds(Self::delta(*old(self), *self)),
                                expr_pattern(),
                                0,
                                self.base.hit_eof() || self.base.peeked.kind is EndOfFile,
                            ));
                        }
                    }
                    return Err(Error::UnexpectedEOF);
                },
                TokenKind::String(_) => {
                    let s = self.base.expect_str()?;
                    proof {
                        assert(kinds(Self::delta(s0, *self)) =~= seq![TokenKind::String(s)]);
                        assert(reads_term(Self::delta(s0, *self), RawExpr::Str(s)));
                    }
                    term = RawExpr::Str(s);
                },
                TokenKind::Identifier(_) | TokenKind::Project => {
                    term = match self.expect_qname_or_func() {
                        Ok(t) => t,
                        Err(e) => {
                            proof {
                                if result is Empty {
                                    assert(Self::follows(*old(self), *self, qname_pattern()));
                                    let n = old(self).base.read@.len() as int;
                                    assert((qname_pattern()[0])(self.base.read@[n].kind));
                                    assert((expr_pattern()[0])(self.base.read@[n].kind));
                                }
                            }
                            return Err(e);
                        },
                    };
                },
                TokenKind::OpenParenthesis => {
                    let _ = self.base.next_token();  // consume "("
                    let ghost s1 = *self;
                    proof {
                        if result is Empty {
                            assert(Self::delta(*old(self), *self) =~= seq![s0.base.peeked]);
                        }
                        assert(Self::follows(*old(self), *self, expr_pattern()));
                    }
                    let mut list: Vec<RawExpr> = Vec::new();
                    if let TokenKind::CloseParenthesis = self.base.peeked.kind {
                        let _ = self.base.next_token();  //  consume ")",  empty list
                        proof {
                            assert(Self::delta(s0, *self).subrange(1, 1) =~= Seq::<Token>::empty());
                        }
                    } else {
                        let ghost mut il: int = 0;
                        loop
                            invariant_except_break
                                il >= 0,
                                list@.len() == 0 ==> Self::delta(s1, *self).len() == 0,
                                list@.len() > 0 ==> Self::delta(s1, *self).len() == il + 1
                                    && Self::delta(s1, *self)[il].kind is Comma
                                    && reads_items(Self::delta(s1, *self).subrange(0, il), list@),
                            invariant
                                Self::step(*old(self), *self),
                                Self::step(s1, *self),
                                self.measure() < old(self).measure(),
                                self.measure() < iter_start,
                                Self::follows(*old(self), *self, expr_pattern()),
                            ensures
                                Self::step(*old(self), *self),
                                Self::step(s1, *self),
                                self.measure() < old(self).measure(),
                                self.measure() < iter_start,
                                Self::delta(s1, *self).len() >= 1,
                                Self::delta(s1, *self).last().kind is CloseParenthesis,
                                reads_items(Self::delta(s1, *self).drop_last(), list@),
                            decreases self.measure(),
                        {
                            let ghost s2 = *self;
                            let e = self.parse_expression()?;
                            let ghost s3 = *self;
                            proof {
                                lemma_read_concat(s1.base.read@, s2.base.read@, s3.base.read@);
                                let d = Self::delta(s1, s3);
                                let ee = Self::delta(s2, s3);
                                assert(d == Self::delta(s1, s2) + ee);
                                if list@.len() == 0 {
                                    assert(d =~= ee);
                                    assert(reads_items(d, list@.push(e)));
                                } else {
                                    let l2 = list@.push(e);
                                    assert(l2.drop_last() =~= list@);
                                    assert(d.subrange(0, il) =~= Self::delta(s1, s2).subrange(0, il));
                                    assert(d.subrange(il + 1, d.len() as int) =~= ee);
                                    assert(d[il].kind is Comma);
                                    assert(reads_items(d, l2));
                                }
                            }
                            list.push(e);
                            let n = self.base.safe_next()?;
                            proof {
                                lemma_read_concat(s1.base.read@, s3.base.read@, self.base.read@);
                                assert(Self::delta(s1, *self).drop_last() =~= Self::delta(s1, s3));
                            }
                            match n.kind {
                                TokenKind::CloseParenthesis => break,
                                TokenKind::Comma => {
                                    proof {
                                        il = Self::delta(s1, s3).len() as int;
                                        assert(Self::delta(s1, *self).subrange(0, il) =~= Self::delta(s1, s3));
                                    }
                                },
                                _ => {
                                    return Err(
                                        Error::wrong_token("closing parenthesis", n.describe()),
                                    );
                                },
                            }
                        }
                        proof {
                            lemma_read_concat(s0.base.read@, s1.base.read@, self.base.read@);
                            assert(Self::delta(s0, *self).subrange(1, Self::delta(s0, *self).len() - 1) =~= Self::delta(
                                s1,
                                *self,
                            ).drop_last());
                            assert(Self::delta(s0, s1) =~= seq![s0.base.peeked]);
                            assert(Self::delta(s0, *self)[0] == Self::delta(s0, s1)[0]);
                        }
                    }
                    term = RawExpr::List(list);
                },
                _ => {
                    let n = self.base.safe_next()?;
                    proof {
                        if result is Empty {
                            assert(Self::delta(*old(self), s0).len() == 0);
                            Self::lemma_cut_step(*old(self), s0, *self, expr_pattern());
                            let ks = kinds(Self::delta(*old(self), *self));
                            let c = choose|c: int| #[trigger] kinds_cut_at(ks, expr_pattern(), c, self.base.hit_eof());
                            assert(kinds_cut_at(
                                ks,
                                expr_pattern(),
                                c,
                                self.base.hit_eof() || self.base.peeked.kind is EndOfFile,
                            ));
                        }
                    }
                    return Err(Error::wrong_token("string|identifier|(", n.describe()));
                },
            }
            let ghost s4 = *self;
            proof {
                lemma_read_concat(old(self).base.read@, s0.base.read@, s4.base.read@);
                let t = Self::delta(s0, s4);
                let all = Self::delta(*old(self), s4);
                assert(reads_term(t, term));
                if result is Empty {
                    assert(all =~= t);
                } else {
                    let before = Self::delta(*old(self), s0);
                    assert(all.subrange(0, rl) =~= before.subrange(0, rl));
                    assert(all.subrange(rl + 1, all.len() as int) =~= t);
                    assert(all[rl].kind is Ampersand);
                }
            }
            let ghost prev = result;
            let ghost prl = rl;
            result = result.ampersand(term);
            proof {
                let all = Self::delta(*old(self), s4);
                if prev is Empty {
                    assert(all =~= Self::delta(s0, s4));
                    assert(result == term);
                    assert(!(term is Ampersand));
                    assert(reads_expr(all, result));
                } else {
                    assert(all.subrange(prl + 1, all.len() as int) =~= Self::delta(s0, s4));
                    assert(all[prl].kind is Ampersand);
                    assert(reads_expr(all.subrange(0, prl), prev));
                    lemma_reads_nonempty(all.subrange(0, prl), prev);
                    lemma_reads_nonempty(Self::delta(s0, s4), term);
                    assert(reads_expr(all, result));
                }
                rl = all.len() as int;
            }
            if let TokenKind::Ampersand = self.base.peeked.kind {
                let _ = self.base.next_token();  // consume "&"
                proof {
                    lemma_read_concat(old(self).base.read@, s4.base.read@, self.base.read@);
                    assert(Self::delta(*old(self), *self).subrange(0, rl) =~= Self::delta(*old(self), s4));
                }
            } else {
                break;
            }
        }
        Ok(result)
    }

    /// Parses "for Name [(index)] use expr;".
    #[verifier::spinoff_prover]
    #[verifier::rlimit(60)]
    fn parse_attribute_declaration(&mut self) -> (r: Result<Statement, Error>)
        requires
            old(self).wf(),
        ensures
            Self::step(*old(self), *final(self)),
            r is Ok ==> final(self).measure() < old(self).measure(),
            r matches Ok(s) ==> s is AttributeDecl,
            !(old(self).base.peeked.kind is For) ==> r is Err,
            r matches Ok(s) ==> forall|level: int| #[trigger] reads_stmt(Self::delta(*old(self), *final(self)), s, level),
            r is Ok ==> Self::starts_at_peeked(*old(self), *final(self)),
            // It fails where the tokens stop following `for name`, or in what
            // comes after.
            r is Err ==> kinds_cut(kinds(Self::delta(*old(self), *final(self))), attribute_pattern(), final(self).base.hit_eof())
                || Self::follows(*old(self), *final(self), attribute_pattern()),
    {
        let ghost t0 = self.base.peeked;
        let ghost s0 = *self;
        match self.base.expect(TokenKind::For) {
            Ok(()) => {},
            Err(e) => {
                proof {
                    assert(Self::delta(*old(self), s0).len() == 0);
                    Self::lemma_cut_step(*old(self), s0, *self, attribute_pattern());
                }
                return Err(e);
            },
        }
        let ghost t1 = self.base.peeked;
        let ghost s1 = *self;
        proof {
            assert(Self::delta(*old(self), s1) =~= seq![t0]);
        }
        let name = match self.base.expect_identifier() {
            Ok(n) => n,
            Err(e) => {
                proof {
                    Self::lemma_cut_step(*old(self), s1, *self, attribute_pattern());
                }
                return Err(e);
            },
        };
        let ghost s2 = *self;
        proof {
            assert(Self::delta(*old(self), s2) =~= seq![t0, t1]);
            assert(Self::follows(*old(self), s2, attribute_pattern()));
        }
        let insensitive = SimpleName::is_case_insensitive(name.as_str());
        let index = if let TokenKind::OpenParenthesis = self.base.peeked.kind {
            self.base.expect(TokenKind::OpenParenthesis)?;
            let ghost t3 = self.base.peeked;
            let index = self.expect_str_or_others()?;
            self.base.expect(TokenKind::CloseParenthesis)?;
            match index {
                StringOrOthers::Str(s) => {
                    if insensitive.0 {
                        Some(StringOrOthers::Str(to_lowercase(s.as_str())))
                    } else {
                        Some(StringOrOthers::Str(s))
                    }
                },
                StringOrOthers::Others => Some(StringOrOthers::Others),
            }
        } else {
            None
        };
        let ghost s3 = *self;
        let ghost tu = self.base.peeked;
        self.base.expect(TokenKind::Use)?;
        let ghost s4 = *self;
        let value = self.parse_expression()?;
        let ghost s5 = *self;
        let ghost ts = self.base.peeked;
        self.base.expect(TokenKind::Semicolon)?;
        let attr = SimpleName::new_attr(name, index)?;
        let ghost e = value;
        let value = if insensitive.1 {
            if !value.is_lowercase_ok() {
                // Only static lists can be lower-cased
                return Err(Error::NotStaticString);
            }
            value.to_lowercase()
        } else {
            value
        };
        proof {
            lemma_read_concat(old(self).base.read@, s2.base.read@, s3.base.read@);
            lemma_read_concat(old(self).base.read@, s3.base.read@, s4.base.read@);
            lemma_read_concat(old(self).base.read@, s4.base.read@, s5.base.read@);
            let k = Self::delta(*old(self), *self);
            let ex = Self::delta(s4, s5);
            lemma_reads_nonempty(ex, e);
            assert(k =~= Self::delta(*old(self), s5).push(ts));
            assert(Self::delta(*old(self), s2) =~= seq![t0, t1]);
            assert(Self::delta(s3, s4) =~= seq![tu]);
            let i = Self::delta(*old(self), s3).len() as int;
            assert(k[i] == tu);
            assert(k.subrange(i + 1, k.len() - 1) =~= ex);
            if index is Some {
                assert(Self::delta(s2, s3).len() == 3);
                assert(i == 5);
                assert(k[3] == Self::delta(s2, s3)[1]);
                assert(k[2] == Self::delta(s2, s3)[0]);
                assert(k[4] == Self::delta(s2, s3)[2]);
                assert(reads_index(k[3].kind, name@, index));
            } else {
                assert(s3 == s2);
            }
            assert(spec_new_attr(name@, index) == Some(attr));
            assert(reads_expr(k.subrange(i + 1, k.len() - 1), e));
            let st = Statement::AttributeDecl { name: attr, value };
            assert(reads_attribute_decl(k, attr, value));
            assert forall|level: int| #[trigger] reads_stmt(k, st, level) by {}
        }
        Ok(Statement::AttributeDecl { name: attr, value })
    }
}

} // verus!
