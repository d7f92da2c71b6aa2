//! Parsing Ada source files for their unit name and `with` clauses.
use crate::ada_lexer::{ada_lexes, ada_read_all, lemma_scanner_eof_stays, lemma_scanner_read_all, lemma_scanner_read_prefix, AdaLexer};
use crate::base_lexer::{kinds, lemma_read_concat, paren_depth, paren_group, prefix_of, qname_cut_at, qname_kinds, BaseScanner, Lexer};
use crate::errors::Error;
use crate::qnames::QName;
use crate::sourcefile::{add_dep, has_dep, ParseResult, SourceKind};
use crate::strings::str_eq;
use crate::tokens::{Token, TokenKind};
use vstd::prelude::*;

verus! {

/// A parser for Ada files.
pub struct AdaScanner {
    pub base: BaseScanner<AdaLexer>,
}

/// The role of a file after reading `package body`: a package body is the
/// implementation of the unit, unless it is known to be a separate.
pub open spec fn kind_after_body(kw: TokenKind, kind: SourceKind) -> SourceKind {
    match (kw, kind) {
        (TokenKind::Package, SourceKind::Spec) => SourceKind::Implementation,
        (_, SourceKind::Separate) => SourceKind::Separate,
        (TokenKind::Package, _) => SourceKind::Spec,
        _ => kind,
    }
}

/// The tokens of qualified names separated by commas.
pub open spec fn names_kinds(names: Seq<QName>) -> Seq<TokenKind>
    decreases names.len(),
{
    if names.len() <= 1 {
        if names.len() == 1 {
            qname_kinds(names[0].0@)
        } else {
            Seq::empty()
        }
    } else {
        names_kinds(names.drop_last()) + seq![TokenKind::Comma] + qname_kinds(names.last().0@)
    }
}

/// The dependencies after adding names in order, each one unless a
/// dependency of that name is already known.
pub open spec fn deps_after(deps: Seq<QName>, names: Seq<QName>) -> Seq<QName>
    decreases names.len(),
{
    if names.len() == 0 {
        deps
    } else {
        let prev = deps_after(deps, names.drop_last());
        if has_dep(prev, names.last()@) {
            prev
        } else {
            prev.push(names.last())
        }
    }
}

/// `k` reads as one of the items that may come before the unit: a `with`
/// clause (which turns the dependencies `d0` into `d1`), a `use` clause, a
/// pragma other than `No_Body` (its arguments are skipped), `limited`,
/// `private`, or the start of a generic unit (its formal part is skipped).
pub open spec fn reads_ada_item(k: Seq<Token>, d0: Seq<QName>, d1: Seq<QName>) -> bool {
    &&& k.len() >= 1
    &&& {
        ||| (k[0].kind is With && exists|names: Seq<QName>| names.len() >= 1 && kinds(k.subrange(1, k.len() as int))
            == #[trigger] names_kinds(names) + seq![TokenKind::Semicolon] && d1 == deps_after(d0, names))
        ||| (k[0].kind is Use && d1 == d0 && exists|names: Seq<QName>| names.len() >= 1 && (kinds(
            k.subrange(1, k.len() as int),
        ) == #[trigger] names_kinds(names) + seq![TokenKind::Semicolon] || (k.len() >= 2 && k[1].kind is Type
            && kinds(k.subrange(2, k.len() as int)) == names_kinds(names) + seq![TokenKind::Semicolon])))
        ||| (k.len() >= 2 && k[0].kind is Pragma && (k[1].kind matches TokenKind::Identifier(n) && n@
            != "no_body"@) && d1 == d0)
        ||| (k.len() == 1 && (k[0].kind is Limited || k[0].kind is Private) && d1 == d0)
        ||| (k[0].kind is Generic && d1 == d0)
    }
}

/// `k` reads as items that turn the dependencies `d0` into `d1`.
pub open spec fn reads_ada_items(k: Seq<Token>, d0: Seq<QName>, d1: Seq<QName>) -> bool
    decreases k.len(),
{
    if k.len() == 0 {
        d1 == d0
    } else {
        exists|i: int, dm: Seq<QName>|
            #![trigger reads_ada_item(k.subrange(i, k.len() as int), dm, d1)]
            0 <= i < k.len() && reads_ada_items(k.subrange(0, i), d0, dm) && reads_ada_item(
                k.subrange(i, k.len() as int),
                dm,
                d1,
            )
    }
}

/// `k` reads as what ends the parsing, and gives the unit name and the
/// role of the file: `pragma No_Body` (no unit), `separate (parent)`, or
/// the declaration of a package, procedure or function (`body` making a
/// package the implementation).
pub open spec fn reads_ada_unit(k: Seq<Token>, unitname: Seq<String>, kind: SourceKind) -> bool {
    ||| (k.len() >= 2 && k[0].kind is Pragma && (k[1].kind matches TokenKind::Identifier(n) && n@ == "no_body"@)
        && unitname.len() == 0 && kind == SourceKind::Spec)
    ||| (k.len() >= 3 && k[0].kind is Separate && k[1].kind is OpenParenthesis && k.last().kind is CloseParenthesis
        && kinds(k.subrange(2, k.len() - 1)) == qname_kinds(unitname) && kind == SourceKind::Separate)
    ||| (k.len() >= 2 && (k[0].kind is Package || k[0].kind is Procedure || k[0].kind is Function) && ((kinds(
        k.subrange(1, k.len() as int),
    ) == qname_kinds(unitname) && kind == SourceKind::Spec) || (k[1].kind is Body && kinds(
        k.subrange(2, k.len() as int),
    ) == qname_kinds(unitname) && kind == kind_after_body(k[0].kind, SourceKind::Spec))))
}

/// A qualified name starts with a name.
proof fn lemma_qname_starts(q: Seq<String>)
    requires
        q.len() >= 1,
    ensures
        qname_kinds(q).len() >= 1,
        qname_kinds(q)[0] is Identifier,
    decreases q.len(),
{
    if q.len() > 1 {
        lemma_qname_starts(q.drop_last());
    }
}

/// A unit read as `package body Name` is the implementation of its
/// package, and one read as `package Name` its specification.
pub proof fn law_package_body_is_implementation(k: Seq<Token>, unitname: Seq<String>, kind: SourceKind)
    requires
        reads_ada_unit(k, unitname, kind),
        k.len() >= 2,
        k[0].kind is Package,
    ensures
        k[1].kind is Body ==> kind == SourceKind::Implementation,
        k[1].kind is Identifier ==> kind == SourceKind::Spec,
{
    let t = kinds(k.subrange(1, k.len() as int));
    assert(t[0] == k[1].kind);
    if unitname.len() >= 1 {
        lemma_qname_starts(unitname);
    } else {
        assert(qname_kinds(unitname).len() == 0);
    }
}

/// A file read as items then `package body Name` is the implementation of
/// that package.
pub proof fn law_file_package_body(k: Seq<Token>, info: ParseResult, i: int)
    requires
        reads_ada(k, info),
        0 <= i < k.len(),
        reads_ada_items(k.subrange(0, i), Seq::empty(), info.deps@),
        reads_ada_unit(k.subrange(i, k.len() as int), info.unitname.0@, info.kind),
        i + 1 < k.len(),
        k[i].kind is Package,
        k[i + 1].kind is Body,
    ensures
        info.kind == SourceKind::Implementation,
{
    let u = k.subrange(i, k.len() as int);
    assert(u[0] == k[i] && u[1] == k[i + 1]);
    law_package_body_is_implementation(u, info.unitname.0@, info.kind);
}

/// `k` reads as an Ada file up to its unit, which gives `info`.
pub open spec fn reads_ada(k: Seq<Token>, info: ParseResult) -> bool {
    exists|i: int|
        0 <= i < k.len() && #[trigger] reads_ada_items(k.subrange(0, i), Seq::empty(), info.deps@)
            && reads_ada_unit(k.subrange(i, k.len() as int), info.unitname.0@, info.kind)
}

/// The tokens read are the names `names` of a clause, each followed by a
/// comma, then a name cut short; or all the names, followed by a token `t`
/// other than a comma or a semicolon, or by nothing, when the file ended
/// there (`eof`).
pub open spec fn names_cut_at(ks: Seq<TokenKind>, names: Seq<QName>, q: Seq<String>, t: TokenKind, eof: bool) -> bool {
    let pre = if names.len() == 0 {
        Seq::empty()
    } else {
        names_kinds(names) + seq![TokenKind::Comma]
    };
    ||| ks.len() >= pre.len() && ks.subrange(0, pre.len() as int) == pre && qname_cut_at(
        ks.subrange(pre.len() as int, ks.len() as int),
        q,
        t,
        eof,
    )
    ||| names.len() > 0 && ks == names_kinds(names) + seq![t] && !(t is Comma) && !(t is Semicolon) && !(t is Dot)
        && !(t is EndOfFile)
    ||| names.len() > 0 && ks == names_kinds(names) && eof
}

/// The names of a clause are cut short.
pub open spec fn names_cut(ks: Seq<TokenKind>, eof: bool) -> bool {
    exists|names: Seq<QName>, q: Seq<String>, t: TokenKind| #[trigger] names_cut_at(ks, names, q, t, eof)
}

/// After an opening parenthesis, the tokens read are a name cut short, or a
/// whole name `q` followed by a token `t` other than the closing
/// parenthesis, or by nothing, when the file ended there (`eof`).
pub open spec fn separate_cut_at(ks: Seq<TokenKind>, q: Seq<String>, t: TokenKind, eof: bool) -> bool {
    ||| qname_cut_at(ks, q, t, eof)
    ||| q.len() > 0 && ks == qname_kinds(q) + seq![t] && !(t is CloseParenthesis) && !(t is Dot) && !(t is EndOfFile)
    ||| q.len() > 0 && ks == qname_kinds(q) && eof
}

/// The name of a `separate` clause is cut short.
pub open spec fn separate_cut(ks: Seq<TokenKind>, eof: bool) -> bool {
    exists|q: Seq<String>, t: TokenKind| #[trigger] separate_cut_at(ks, q, t, eof)
}

/// A failure after the optional `type` of a `use type` clause is one of
/// the whole clause.
proof fn lemma_with_fail(
    s0: BaseScanner<AdaLexer>,
    s1: BaseScanner<AdaLexer>,
    s: BaseScanner<AdaLexer>,
    is_with: bool,
    had_type: bool,
    eof: bool,
)
    requires
        BaseScanner::grew(s0, s1),
        BaseScanner::grew(s1, s),
        had_type <==> (!is_with && s0.peeked.kind is Type),
        had_type ==> BaseScanner::read_after(s0, s1) == seq![s0.peeked],
        !had_type ==> s1.read@ == s0.read@,
        names_cut(kinds(BaseScanner::read_after(s1, s)), eof),
    ensures
        ({
            let ks = kinds(BaseScanner::read_after(s0, s));
            if !is_with && s0.peeked.kind is Type {
                ks.len() >= 1 && names_cut(ks.drop_first(), eof)
            } else {
                names_cut(ks, eof)
            }
        }),
{
    lemma_read_concat(s0.read@, s1.read@, s.read@);
    let ks = kinds(BaseScanner::read_after(s0, s));
    if had_type {
        assert(BaseScanner::read_after(s0, s) =~= seq![s0.peeked] + BaseScanner::read_after(s1, s));
        assert(ks.drop_first() =~= kinds(BaseScanner::read_after(s1, s)));
    } else {
        assert(BaseScanner::read_after(s0, s) =~= BaseScanner::read_after(s1, s));
    }
}

/// The tokens `k` are whole items of an Ada file (clauses, pragmas, formal
/// parts), then maybe the first tokens of one more; where nothing of that
/// one was read, the file ended (`eof`).
pub open spec fn ada_cut(k: Seq<Token>, eof: bool) -> bool {
    exists|i: int, d: Seq<QName>|
        0 <= i <= k.len() && #[trigger] reads_ada_items(k.take(i), Seq::empty(), d) && (i == k.len() ==> eof)
}

/// The tokens `k`, read from `start`, stop short of a unit (`ada_cut`).
pub open spec fn ada_fails_within(start: AdaLexer, k: Seq<Token>) -> bool {
    &&& ada_lexes(start.base.input@, start.options, start.base.context.offset as int, k)
    &&& ada_cut(k, ada_read_all(start, k))
}

/// A failure after the items `k0`, with nothing more read only at the end
/// of the file, stops short of a unit.
proof fn lemma_ada_fail(b: BaseScanner<AdaLexer>, k0: Seq<Token>, d0: Seq<QName>)
    requires
        b.wf(),
        prefix_of(k0, b.read@),
        reads_ada_items(k0, Seq::empty(), d0),
        b.read@.len() == k0.len() ==> b.hit_eof(),
    ensures
        ada_fails_within(b.start@, b.read@),
{
    lemma_scanner_read_prefix(b);
    if b.read@.len() == k0.len() {
        lemma_scanner_eof_stays(b);
        lemma_scanner_read_all(b);
    }
    let k = b.read@;
    assert(k.take(k0.len() as int) =~= k0);
    assert(reads_ada_items(k.take(k0.len() as int), Seq::empty(), d0));
}

impl AdaScanner {
    /// The scanner is consistent.
    pub open spec fn wf(&self) -> bool {
        self.base.wf()
    }

    /// Parse an Ada source file, and return the unit name
    #[verifier::spinoff_prover]
    #[verifier::rlimit(80)]
    pub fn parse(lex: AdaLexer) -> (r: Result<ParseResult, Error>)
        requires
            lex.base.wf(),
        ensures
            r matches Ok(info) ==> info.wf(),
            r matches Ok(info) ==> exists|k: Seq<Token>|
                #[trigger] reads_ada(k, info) && ada_lexes(lex.base.input@, lex.options, lex.base.context.offset as int, k),
            r matches Err(e) ==> e is WithLocation || e is UnexpectedEOF,
            // It fails after whole items, within the next one (or at a token
            // that starts none), or where the file ended.
            r is Err ==> exists|k: Seq<Token>| #[trigger] ada_fails_within(lex, k),
    {
        let mut scan = AdaScanner { base: BaseScanner::new(lex) };
        let mut info = ParseResult { unitname: QName(Vec::new()), kind: SourceKind::Spec, deps: Vec::new() };
        proof {
            assert(scan.base.read@ =~= Seq::<Token>::empty());
        }
        loop
            invariant_except_break
                reads_ada_items(scan.base.read@, Seq::empty(), info.deps@),
                info.unitname.0@.len() == 0,
                info.kind == SourceKind::Spec,
            invariant
                scan.wf(),
                info.wf(),
                scan.base.start@ == lex,
            ensures
                info.wf(),
                scan.wf(),
                scan.base.start@ == lex,
                reads_ada(scan.base.read@, info),
            decreases scan.base.measure(),
        {
            let ghost k0 = scan.base.read@;
            let ghost d0 = info.deps@;
            let ghost s0 = scan.base;
            let n = match scan.base.safe_next() {
                Ok(n) => n,
                Err(e) => {
                    proof {
                        assert(scan.base.lexed@[scan.base.lexed@.len() - 2] == s0.peeked);
                        lemma_ada_fail(scan.base, k0, d0);
                    }
                    return Err(e);
                },
            };
            let ghost s1 = scan.base;
            let res: Result<(), Error> = match n.kind {
                TokenKind::Use | TokenKind::With => {
                    let is_with = matches!(n.kind, TokenKind::With);
                    let r = scan.parse_with_or_use_clause(is_with, &mut info);
                    proof {
                        if r is Ok {
                            lemma_read_concat(k0, s1.read@, scan.base.read@);
                            let k = scan.base.read@;
                            let i = k0.len() as int;
                            let c = BaseScanner::read_after(s1, scan.base);
                            let it = k.subrange(i, k.len() as int);
                            assert(k.subrange(0, i) =~= k0);
                            assert(it =~= seq![n] + c);
                            assert(it.subrange(1, it.len() as int) =~= c);
                            let names = choose|names: Seq<QName>|
                                #![trigger names_kinds(names)]
                                {
                                    &&& names.len() >= 1
                                    &&& (kinds(c) == names_kinds(names) + seq![TokenKind::Semicolon] || (!is_with && c.len()
                                        >= 1 && c[0].kind is Type && kinds(c.subrange(1, c.len() as int)) == names_kinds(names)
                                        + seq![TokenKind::Semicolon]))
                                    &&& is_with ==> info.deps@ == deps_after(d0, names)
                                };
                            if !is_with && !(kinds(c) == names_kinds(names) + seq![TokenKind::Semicolon]) {
                                assert(it[1] == c[0]);
                                assert(it.subrange(2, it.len() as int) =~= c.subrange(1, c.len() as int));
                            }
                            assert(reads_ada_item(it, d0, info.deps@));
                        }
                    }
                    r
                },
                TokenKind::Pragma => {
                    match scan.parse_pragma() {
                        Ok(name) => {
                            if str_eq(name.as_str(), "no_body") {
                                info.unitname = QName(Vec::new());
                                proof {
                                    lemma_read_concat(k0, s1.read@, scan.base.read@);
                                    let k = scan.base.read@;
                                    let i = k0.len() as int;
                                    assert(k.subrange(0, i) =~= k0);
                                    assert(k[i] == n);
                                    assert(k[i + 1] == BaseScanner::read_after(s1, scan.base)[0]);
                                    assert(info.unitname.0@ =~= Seq::<String>::empty());
                                    assert(reads_ada_unit(k.subrange(i, k.len() as int), info.unitname.0@, info.kind));
                                    assert(reads_ada_items(k.subrange(0, i), Seq::<QName>::empty(), info.deps@));
                                }
                                break;
                            }
                            proof {
                                lemma_read_concat(k0, s1.read@, scan.base.read@);
                                let k = scan.base.read@;
                                let i = k0.len() as int;
                                assert(k.subrange(0, i) =~= k0);
                                let it = k.subrange(i, k.len() as int);
                                assert(it[0] == n);
                                assert(it[1] == BaseScanner::read_after(s1, scan.base)[0]);
                                assert(reads_ada_item(it, d0, info.deps@));
                            }
                            Ok(())
                        },
                        Err(e) => Err(e),
                    }
                },
                // limited with
                TokenKind::Limited | TokenKind::Private => {
                    proof {
                        let k = scan.base.read@;
                        let i = k0.len() as int;
                        assert(k.subrange(0, i) =~= k0);
                        assert(k.subrange(i, k.len() as int) =~= seq![n]);
                        assert(reads_ada_item(k.subrange(i, k.len() as int), d0, info.deps@));
                    }
                    Ok(())
                },
                TokenKind::Separate => {
                    match scan.parse_separate() {
                        Ok(sep) => {
                            info.kind = SourceKind::Separate;
                            info.unitname = sep;
                            proof {
                                lemma_read_concat(k0, s1.read@, scan.base.read@);
                                let k = scan.base.read@;
                                let i = k0.len() as int;
                                let sp = BaseScanner::read_after(s1, scan.base);
                                let it = k.subrange(i, k.len() as int);
                                assert(k.subrange(0, i) =~= k0);
                                assert(it =~= seq![n] + sp);
                                assert(kinds(sp).len() == sp.len());
                                assert(it.subrange(2, it.len() - 1) =~= sp.subrange(1, sp.len() - 1));
                                assert(kinds(sp.subrange(1, sp.len() - 1)) =~= kinds(sp).subrange(1, sp.len() - 1));
                                assert(kinds(sp).subrange(1, sp.len() - 1) =~= qname_kinds(sep.0@));
                                assert(it[1] == sp[0]);
                                assert(it.last() == sp.last());
                                assert(kinds(sp)[0] == sp[0].kind);
                                assert(kinds(sp)[sp.len() - 1] == sp.last().kind);
                                assert(reads_ada_unit(it, info.unitname.0@, info.kind));
                                assert(reads_ada_items(k.subrange(0, i), Seq::<QName>::empty(), info.deps@));
                            }
                            // We are done with the parsing: the "unit" is the
                            // toplevel package we want to compile, so any
                            // separate (even if they are themselves packages)
                            // are just nested
                            break;
                        },
                        Err(e) => Err(e),
                    }
                },
                TokenKind::Generic => {
                    let r = scan.parse_generic();
                    proof {
                        let k = scan.base.read@;
                        let i = k0.len() as int;
                        lemma_read_concat(k0, s1.read@, k);
                        assert(k.subrange(0, i) =~= k0);
                        assert(k.subrange(i, k.len() as int)[0] == n);
                        assert(reads_ada_item(k.subrange(i, k.len() as int), d0, info.deps@));
                    }
                    r
                },
                TokenKind::Package | TokenKind::Procedure | TokenKind::Function => {
                    let mut body_res: Result<(), Error> = Ok(());
                    let ghost mut had_body = false;
                    if let TokenKind::Body = scan.base.peeked.kind {
                        // Unless we have found before that it was a separate
                        let is_package = matches!(n.kind, TokenKind::Package);
                        if is_package {
                            info.kind = match info.kind {
                                SourceKind::Spec => SourceKind::Implementation,
                                SourceKind::Separate => SourceKind::Separate,
                                SourceKind::Implementation => SourceKind::Spec,
                            };
                        }
                        body_res = match scan.base.safe_next() {
                            Ok(_) => Ok(()),
                            Err(e) => Err(e),
                        };
                        proof {
                            had_body = true;
                        }
                    }
                    let ghost s2 = scan.base;
                    match body_res {
                        Ok(()) => {
                            match scan.base.expect_qname() {
                                Ok(q) => {
                                    let ghost qv = q.0@;
                                    info.unitname.join(q);
                                    proof {
                                        lemma_read_concat(k0, s1.read@, s2.read@);
                                        lemma_read_concat(k0, s2.read@, scan.base.read@);
                                        let k = scan.base.read@;
                                        let i = k0.len() as int;
                                        let qk = BaseScanner::read_after(s2, scan.base);
                                        let it = k.subrange(i, k.len() as int);
                                        assert(k.subrange(0, i) =~= k0);
                                        assert(info.unitname.0@ =~= qv);
                                        assert(it[0] == n);
                                        assert(qv.len() > 0);
                                        assert(kinds(qk).len() == qk.len());
                                        if had_body {
                                            assert(it =~= seq![n, s1.peeked] + qk);
                                            assert(it[1] == s1.peeked);
                                            assert(it.subrange(2, it.len() as int) =~= qk);
                                        } else {
                                            assert(it =~= seq![n] + qk);
                                            assert(it.subrange(1, it.len() as int) =~= qk);
                                        }
                                        assert(reads_ada_unit(it, info.unitname.0@, info.kind));
                                        assert(reads_ada_items(k.subrange(0, i), Seq::<QName>::empty(), info.deps@));
                                    }
                                    break;
                                },
                                Err(e) => Err(e),
                            }
                        },
                        Err(e) => Err(e),
                    }
                },
                _ => Err(
                    Error::wrong_token(
                        "with|generic|package|pragma|private|procedure|function|use|separate",
                        n.kind.describe(),
                    ),
                ),
            };
            match res {
                Ok(()) => {
                    proof {
                        let k = scan.base.read@;
                        let i = k0.len() as int;
                        assert(k.subrange(0, i) =~= k0);
                        assert(reads_ada_item(k.subrange(i, k.len() as int), d0, info.deps@));
                        assert(reads_ada_items(k, Seq::<QName>::empty(), info.deps@));
                    }
                },
                Err(e) => {
                    proof {
                        assert(prefix_of(s1.read@, scan.base.read@));
                        lemma_read_concat(k0, s1.read@, scan.base.read@);
                        lemma_ada_fail(scan.base, k0, d0);
                    }
                    return Err(scan.base.lex.error_with_location(e));
                },
            }
        }
        proof {
            lemma_scanner_read_prefix(scan.base);
            assert(reads_ada(scan.base.read@, info));
        }
        Ok(info)
    }

    /// Parses the names of a `with` or `use` clause; those of a `with`
    /// clause are dependencies.
    pub fn parse_with_or_use_clause(&mut self, is_with: bool, info: &mut ParseResult) -> (r: Result<(), Error>)
        requires
            old(self).wf(),
            old(info).wf(),
        ensures
            final(self).wf(),
            final(info).wf(),
            final(info).unitname == old(info).unitname,
            final(info).kind == old(info).kind,
            final(self).base.measure() <= old(self).base.measure(),
            !is_with ==> final(info).deps == old(info).deps,
            BaseScanner::grew(old(self).base, final(self).base),
            r is Ok ==> exists|names: Seq<QName>|
                #![trigger names_kinds(names)]
                {
                    let d = BaseScanner::read_after(old(self).base, final(self).base);
                    &&& names.len() >= 1
                    &&& (kinds(d) == names_kinds(names) + seq![TokenKind::Semicolon] || (!is_with && d.len() >= 1
                        && d[0].kind is Type && kinds(d.subrange(1, d.len() as int)) == names_kinds(names)
                        + seq![TokenKind::Semicolon]))
                    &&& is_with ==> final(info).deps@ == deps_after(old(info).deps@, names)
                },
            // It fails where a name is cut short, or is followed by a token
            // other than a comma or a semicolon.
            r is Err ==> {
                let ks = kinds(BaseScanner::read_after(old(self).base, final(self).base));
                if !is_with && old(self).base.peeked.kind is Type {
                    ks.len() >= 1 && names_cut(ks.drop_first(), final(self).base.hit_eof())
                } else {
                    names_cut(ks, final(self).base.hit_eof())
                }
            },
    {
        let ghost mut had_type = false;
        if !is_with {
            if let TokenKind::Type = self.base.peeked.kind {
                let _ = self.base.next_token();  // consume "use type"
                proof {
                    had_type = true;
                }
            }
        }
        let ghost s1 = self.base;
        let ghost mut names: Seq<QName> = Seq::empty();
        proof {
            if had_type {
                assert(BaseScanner::read_after(old(self).base, s1) =~= seq![old(self).base.peeked]);
            }
        }
        loop
            invariant_except_break
                names.len() == 0 ==> BaseScanner::read_after(s1, self.base).len() == 0,
                names.len() > 0 ==> kinds(BaseScanner::read_after(s1, self.base)) == names_kinds(names) + seq![
                    TokenKind::Comma,
                ],
            invariant
                self.wf(),
                info.wf(),
                info.unitname == old(info).unitname,
                info.kind == old(info).kind,
                self.base.measure() <= old(self).base.measure(),
                !is_with ==> info.deps == old(info).deps,
                is_with ==> info.deps@ == deps_after(old(info).deps@, names),
                BaseScanner::grew(old(self).base, s1),
                BaseScanner::grew(s1, self.base),
                had_type <==> (!is_with && old(self).base.peeked.kind is Type),
                had_type ==> BaseScanner::read_after(old(self).base, s1) == seq![old(self).base.peeked],
                !had_type ==> s1.read@ == old(self).base.read@,
            ensures
                self.wf(),
                info.wf(),
                info.unitname == old(info).unitname,
                info.kind == old(info).kind,
                self.base.measure() <= old(self).base.measure(),
                !is_with ==> info.deps == old(info).deps,
                is_with ==> info.deps@ == deps_after(old(info).deps@, names),
                BaseScanner::grew(old(self).base, s1),
                BaseScanner::grew(s1, self.base),
                names.len() >= 1,
                kinds(BaseScanner::read_after(s1, self.base)) == names_kinds(names) + seq![TokenKind::Semicolon],
            decreases self.base.measure(),
        {
            let ghost s2 = self.base;
            let d = match self.base.expect_qname() {
                Ok(d) => d,
                Err(e) => {
                    proof {
                        lemma_read_concat(s1.read@, s2.read@, self.base.read@);
                        let pre = kinds(BaseScanner::read_after(s1, s2));
                        let rest = kinds(BaseScanner::read_after(s2, self.base));
                        let ks = kinds(BaseScanner::read_after(s1, self.base));
                        assert(ks =~= pre + rest);
                        let (q, t) = choose|q: Seq<String>, t: TokenKind| #[trigger] qname_cut_at(rest, q, t, self.base.hit_eof());
                        if names.len() == 0 {
                            assert(pre =~= Seq::<TokenKind>::empty());
                        }
                        assert(ks.subrange(0, pre.len() as int) =~= pre);
                        assert(ks.subrange(pre.len() as int, ks.len() as int) =~= rest);
                        assert(names_cut_at(ks, names, q, t, self.base.hit_eof()));
                        lemma_with_fail(old(self).base, s1, self.base, is_with, had_type, self.base.hit_eof());
                    }
                    return Err(e);
                },
            };
            let ghost s3 = self.base;
            let ghost n0 = names;
            proof {
                names = names.push(d);
                lemma_read_concat(s1.read@, s2.read@, s3.read@);
                assert(names.drop_last() =~= n0);
                let a = BaseScanner::read_after(s1, s3);
                assert(a == BaseScanner::read_after(s1, s2) + BaseScanner::read_after(s2, s3));
                assert(kinds(a) =~= kinds(BaseScanner::read_after(s1, s2)) + kinds(BaseScanner::read_after(s2, s3)));
                if n0.len() == 0 {
                    assert(kinds(BaseScanner::read_after(s1, s2)) =~= Seq::<TokenKind>::empty());
                    assert(kinds(a) =~= names_kinds(names));
                } else {
                    assert(kinds(a) =~= names_kinds(names));
                }
            }
            if is_with {
                add_dep(&mut info.deps, d);
            }
            let ghost t3 = self.base.peeked;
            let n = match self.base.safe_next() {
                Ok(n) => n,
                Err(e) => {
                    proof {
                        let ks = kinds(BaseScanner::read_after(s1, self.base));
                        assert(BaseScanner::read_after(s1, self.base) =~= BaseScanner::read_after(s1, s3));
                        assert(self.base.lexed@[self.base.lexed@.len() - 2] == t3);
                        assert(names_cut_at(ks, names, Seq::<String>::empty(), t3.kind, self.base.hit_eof()));
                        lemma_with_fail(old(self).base, s1, self.base, is_with, had_type, self.base.hit_eof());
                    }
                    return Err(e);
                },
            };
            proof {
                lemma_read_concat(s1.read@, s3.read@, self.base.read@);
                assert(kinds(BaseScanner::read_after(s1, self.base)) =~= names_kinds(names) + seq![n.kind]);
            }
            match n.kind {
                TokenKind::Semicolon => break,
                TokenKind::Comma => {},
                _ => {
                    proof {
                        let ks = kinds(BaseScanner::read_after(s1, self.base));
                        assert(!(n.kind is Dot));
                        assert(names_cut_at(ks, names, Seq::<String>::empty(), n.kind, self.base.hit_eof()));
                        lemma_with_fail(old(self).base, s1, self.base, is_with, had_type, self.base.hit_eof());
                    }
                    return Err(Error::wrong_token(",|;", n.kind.describe()));
                },
            }
        }
        proof {
            lemma_read_concat(old(self).base.read@, s1.read@, self.base.read@);
            let d = BaseScanner::read_after(old(self).base, self.base);
            let t = BaseScanner::read_after(s1, self.base);
            if had_type {
                assert(BaseScanner::read_after(old(self).base, s1) =~= seq![old(self).base.peeked]);
                assert(d.subrange(1, d.len() as int) =~= t);
                assert(d[0] == old(self).base.peeked);
            } else {
                assert(d =~= t);
            }
        }
        Ok(())
    }

    /// Parses `(parent)` after `separate`, and returns the parent name.
    pub fn parse_separate(&mut self) -> (r: Result<QName, Error>)
        requires
            old(self).wf(),
        ensures
            final(self).wf(),
            final(self).base.measure() <= old(self).base.measure(),
            BaseScanner::grew(old(self).base, final(self).base),
            r matches Ok(q) ==> kinds(BaseScanner::read_after(old(self).base, final(self).base)) == seq![
                TokenKind::OpenParenthesis,
            ] + qname_kinds(q.0@) + seq![TokenKind::CloseParenthesis],
            // It fails without the opening parenthesis, without a name after
            // it, or without the closing parenthesis after the name.
            !(old(self).base.peeked.kind is OpenParenthesis) ==> r is Err,
            old(self).base.peeked.kind is OpenParenthesis && r is Err ==> separate_cut(
                kinds(BaseScanner::read_after(old(self).base, final(self).base)).drop_first(),
                final(self).base.hit_eof(),
            ),
    {
        let ghost t0 = self.base.peeked;
        self.base.expect(TokenKind::OpenParenthesis)?;
        let ghost s1 = self.base;
        proof {
            assert(BaseScanner::read_after(old(self).base, s1) =~= seq![t0]);
        }
        let sep = match self.base.expect_qname() {
            Ok(q) => q,
            Err(e) => {
                proof {
                    lemma_read_concat(old(self).base.read@, s1.read@, self.base.read@);
                    let ra = BaseScanner::read_after(old(self).base, self.base);
                    assert(ra =~= seq![t0] + BaseScanner::read_after(s1, self.base));
                    assert(kinds(ra).drop_first() =~= kinds(BaseScanner::read_after(s1, self.base)));
                    let (q, t) = choose|q: Seq<String>, t: TokenKind|
                        #[trigger] qname_cut_at(kinds(BaseScanner::read_after(s1, self.base)), q, t, self.base.hit_eof());
                    assert(separate_cut_at(kinds(ra).drop_first(), q, t, self.base.hit_eof()));
                }
                return Err(e);
            },
        };
        let ghost s2 = self.base;
        let ghost t2 = self.base.peeked;
        match self.base.expect(TokenKind::CloseParenthesis) {
            Ok(()) => {},
            Err(e) => {
                proof {
                    lemma_read_concat(old(self).base.read@, s1.read@, s2.read@);
                    lemma_read_concat(old(self).base.read@, s2.read@, self.base.read@);
                    lemma_read_concat(s1.read@, s2.read@, self.base.read@);
                    let ra = BaseScanner::read_after(old(self).base, self.base);
                    assert(ra =~= seq![t0] + BaseScanner::read_after(s1, self.base));
                    if t2.kind is EndOfFile {
                        assert(BaseScanner::read_after(s1, self.base) =~= BaseScanner::read_after(s1, s2));
                        assert(self.base.lexed@[self.base.lexed@.len() - 2] == t2);
                    } else {
                        assert(BaseScanner::read_after(s1, self.base) =~= BaseScanner::read_after(s1, s2) + seq![t2]);
                        assert(!(t2.kind is CloseParenthesis));
                    }
                    assert(kinds(ra).drop_first() =~= kinds(BaseScanner::read_after(s1, self.base)));
                    let k12 = kinds(BaseScanner::read_after(s1, s2));
                    assert(k12 == qname_kinds(sep.0@));
                    assert(sep.0@.len() > 0);
                    assert(!(t2.kind is Dot));
                    if t2.kind is EndOfFile {
                        assert(kinds(BaseScanner::read_after(s1, self.base)) =~= k12);
                    } else {
                        assert(kinds(BaseScanner::read_after(s1, self.base)) =~= k12 + seq![t2.kind]);
                        assert(!(t2.kind is CloseParenthesis));
                    }
                    assert(separate_cut_at(kinds(ra).drop_first(), sep.0@, t2.kind, self.base.hit_eof()));
                }
                return Err(e);
            },
        }
        proof {
            lemma_read_concat(old(self).base.read@, s1.read@, s2.read@);
            lemma_read_concat(old(self).base.read@, s2.read@, self.base.read@);
            let d = BaseScanner::read_after(old(self).base, self.base);
            assert(d =~= seq![t0] + BaseScanner::read_after(s1, s2) + seq![t2]);
            assert(kinds(d) =~= seq![TokenKind::OpenParenthesis] + kinds(BaseScanner::read_after(s1, s2)) + seq![
                TokenKind::CloseParenthesis,
            ]);
        }
        Ok(sep)
    }

    /// Parse a `pragma name(args)` and return the name
    pub fn parse_pragma(&mut self) -> (r: Result<String, Error>)
        requires
            old(self).wf(),
        ensures
            final(self).wf(),
            final(self).base.measure() <= old(self).base.measure(),
            old(self).base.peeked.kind is Identifier && r is Ok ==> old(self).base.peeked.kind
                == TokenKind::Identifier(r->Ok_0),
            BaseScanner::grew(old(self).base, final(self).base),
            r matches Ok(name) ==> BaseScanner::read_after(old(self).base, final(self).base).len() >= 1
                && BaseScanner::read_after(old(self).base, final(self).base)[0].kind == TokenKind::Identifier(name),
            old(self).base.peeked.kind is Identifier ==> BaseScanner::read_after(old(self).base, final(self).base).len()
                >= 1 && BaseScanner::read_after(old(self).base, final(self).base)[0] == old(self).base.peeked,
            // After the name come the arguments, if any, up to the matching
            // parenthesis; it fails without a name, or when that parenthesis
            // is missing.
            old(self).base.peeked.kind is Identifier ==> {
                let ks = kinds(BaseScanner::read_after(old(self).base, final(self).base)).drop_first();
                &&& ks.len() == 0 || paren_group(ks)
                &&& r is Ok <==> ks.len() == 0 || paren_depth(ks) == 0
            },
            !(old(self).base.peeked.kind is Identifier) ==> r is Err,
    {
        let ghost t0 = self.base.peeked;
        let name = self.base.expect_identifier()?;  // name of pragma
        let ghost s1 = self.base;
        let res = self.base.skip_opt_arg_list();  // optional parameters
        proof {
            lemma_read_concat(old(self).base.read@, s1.read@, self.base.read@);
            let ra = BaseScanner::read_after(old(self).base, self.base);
            assert(ra[0] == t0);
            assert(BaseScanner::read_after(old(self).base, s1) =~= seq![t0]);
            assert(ra =~= seq![t0] + BaseScanner::read_after(s1, self.base));
            assert(kinds(ra).drop_first() =~= kinds(BaseScanner::read_after(s1, self.base)));
            if !(s1.peeked.kind is OpenParenthesis) {
                assert(BaseScanner::read_after(s1, self.base).len() == 0);
            }
        }
        match res {
            Ok(()) => {},
            Err(e) => {
                return Err(e);
            },
        }
        Ok(name)
    }

    /// Skips the formal parameters of a generic unit, up to the `package`,
    /// `procedure` or `function` keyword that is not nested in parentheses.
    pub fn parse_generic(&mut self) -> (r: Result<(), Error>)
        requires
            old(self).wf(),
        ensures
            final(self).wf(),
            final(self).base.measure() <= old(self).base.measure(),
            r is Ok ==> final(self).base.peeked.kind is Package || final(self).base.peeked.kind is Procedure
                || final(self).base.peeked.kind is Function,
            BaseScanner::grew(old(self).base, final(self).base),
            // It only fails at the end of the file.
            r is Err ==> r == Err::<(), Error>(Error::UnexpectedEOF) && final(self).base.lexed@.len() >= 2
                && final(self).base.lexed@[final(self).base.lexed@.len() - 2].kind is EndOfFile,
    {
        let mut in_parens: i64 = 0;
        let ghost start = self.base.measure();
        loop
            invariant
                self.wf(),
                self.base.measure() <= start,
                start == old(self).base.measure(),
                start <= isize::MAX,
                -(start - self.base.measure()) <= in_parens <= start - self.base.measure(),
                BaseScanner::grew(old(self).base, self.base),
            ensures
                BaseScanner::grew(old(self).base, self.base),
                self.wf(),
                self.base.measure() <= start,
                self.base.peeked.kind is Package || self.base.peeked.kind is Procedure
                    || self.base.peeked.kind is Function,
            decreases self.base.measure(),
        {
            match self.base.peeked.kind {
                TokenKind::OpenParenthesis => {
                    self.base.safe_next()?;  //  consume '('
                    in_parens = in_parens + 1;
                },
                TokenKind::CloseParenthesis => {
                    self.base.safe_next()?;  //  consume ')'
                    in_parens = in_parens - 1;
                },
                TokenKind::Package | TokenKind::Procedure | TokenKind::Function => {
                    if in_parens == 0 {
                        break;
                    }
                    self.base.safe_next()?;
                },
                TokenKind::With => {
                    self.base.safe_next()?;  //  skip 'with'
                    //  Skip next word, which could be package|procedure|
                    //  function|private or any aspect
                    self.base.safe_next()?;
                },
                _ => {
                    self.base.safe_next()?;
                },
            }
        }
        Ok(())
    }
}

} // verus!
