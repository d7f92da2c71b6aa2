//! Parsing C and C++ source files for their `#include` directives.
use crate::base_lexer::{lexes, BaseScanner, Lexer};
use crate::cpp_lexer::CppLexer;
use crate::errors::Error;
use crate::qnames::QName;
use crate::sourcefile::{add_dep, has_dep, ParseResult, SourceKind};
use crate::tokens::{Token, TokenKind};
use vstd::prelude::*;

verus! {

/// A parser for C and C++ files.
pub struct CppScanner {
    pub base: BaseScanner<CppLexer>,
}

/// The names of the files that the `#include` directives `k` include, each
/// once, in the order of their first inclusion.
pub open spec fn included(k: Seq<Token>) -> Seq<Seq<Seq<char>>>
    decreases k.len(),
{
    if k.len() == 0 {
        Seq::empty()
    } else {
        let prev = included(k.drop_last());
        let name = match k.last().kind {
            TokenKind::HashInclude(p) => seq![p@],
            _ => Seq::empty(),
        };
        if prev.contains(name) {
            prev
        } else {
            prev.push(name)
        }
    }
}

/// The names of dependencies.
pub open spec fn dep_names(d: Seq<QName>) -> Seq<Seq<Seq<char>>> {
    d.map_values(|q: QName| q@)
}

/// A name with one component.
fn single_name(s: &String) -> (r: QName)
    ensures
        r@ == seq![s@],
{
    let mut v: Vec<String> = Vec::new();
    v.push(s.clone());
    let r = QName(v);
    assert(r@ =~= seq![s@]);
    r
}

/// All the tokens but the last are `#include` directives.
pub open spec fn includes_then(k: Seq<Token>) -> bool {
    k.len() >= 1 && forall|i: int| 0 <= i < k.len() - 1 ==> #[trigger] k[i].kind is HashInclude
}

impl CppScanner {
    /// The tokens lexed so far are the directives read, then the one looked
    /// at.
    proof fn lemma_stop(b: BaseScanner<CppLexer>)
        requires
            b.wf(),
            forall|i: int| 0 <= i < b.read@.len() ==> #[trigger] b.read@[i].kind is HashInclude,
            b.lexed@ == b.read@.push(b.peeked),
        ensures
            lexes(b.start@, b.lexed@, b.lex),
            includes_then(b.lexed@),
            b.lexed@.last() == b.peeked,
            b.lexed@.drop_last() == b.read@,
    {
        assert(b.lexed@.drop_last() =~= b.read@);
        assert forall|i: int| 0 <= i < b.lexed@.len() - 1 implies #[trigger] b.lexed@[i].kind is HashInclude by {
            assert(b.lexed@[i] == b.read@[i]);
        }
    }

    /// Parses the leading `#include` directives of a file.  The unit is the
    /// file itself.  Parsing stops at the first identifier.
    pub fn parse(lex: CppLexer, path: &String) -> (r: Result<ParseResult, Error>)
        requires
            lex.base.wf(),
        ensures
            r matches Ok(info) ==> info.wf() && info.unitname@ == seq![path@] && info.kind
                == SourceKind::Implementation,
            r matches Ok(info) ==> exists|k: Seq<Token>|
                (forall|i: int| 0 <= i < k.len() ==> #[trigger] k[i].kind is HashInclude) && dep_names(info.deps@)
                    == #[trigger] included(k),
            r matches Err(e) ==> e is WithLocation,
            // It reads the `#include` directives up to the end of the file
            // or the first name, and fails at any other token.
            r matches Ok(info) ==> exists|k: Seq<Token>, l: CppLexer|
                #[trigger] lexes(lex, k, l) && includes_then(k) && (k.last().kind is EndOfFile || k.last().kind is Identifier)
                    && dep_names(info.deps@) == included(k.drop_last()),
            r is Err ==> exists|k: Seq<Token>, l: CppLexer|
                #[trigger] lexes(lex, k, l) && includes_then(k) && !(k.last().kind is EndOfFile) && !(
                k.last().kind is Identifier) && !(k.last().kind is HashInclude),
    {
        let mut scan = CppScanner { base: BaseScanner::new(lex) };
        let mut info = ParseResult { unitname: single_name(path), kind: SourceKind::Implementation, deps: Vec::new() };
        loop
            invariant
                scan.base.wf(),
                info.wf(),
                info.unitname@ == seq![path@],
                info.kind == SourceKind::Implementation,
                forall|i: int| 0 <= i < scan.base.read@.len() ==> #[trigger] scan.base.read@[i].kind is HashInclude,
                dep_names(info.deps@) == included(scan.base.read@),
                scan.base.start@ == lex,
                scan.base.lexed@ == scan.base.read@.push(scan.base.peeked),
            ensures
                info.wf(),
                info.unitname@ == seq![path@],
                info.kind == SourceKind::Implementation,
                exists|k: Seq<Token>, l: CppLexer|
                    #[trigger] lexes(lex, k, l) && includes_then(k) && (k.last().kind is EndOfFile || k.last().kind is Identifier)
                        && dep_names(info.deps@) == included(k.drop_last()),
            decreases scan.base.measure(),
        {
            match scan.base.peek() {
                TokenKind::EndOfFile => {
                    proof {
                        Self::lemma_stop(scan.base);
                        assert(lexes(lex, scan.base.lexed@, scan.base.lex));
                    }
                    break;
                },
                TokenKind::HashInclude(p) => {
                    let ghost k0 = scan.base.read@;
                    let ghost d0 = info.deps@;
                    let _ = scan.base.next_token();  // consume keyword
                    let q = single_name(&p);
                    proof {
                        let k = scan.base.read@;
                        assert(k.drop_last() =~= k0);
                        assert(has_dep(d0, q@) == dep_names(d0).contains(q@)) by {
                            if has_dep(d0, q@) {
                                let i = choose|i: int| 0 <= i < d0.len() && #[trigger] d0[i]@ == q@;
                                assert(dep_names(d0)[i] == q@);
                            }
                            if dep_names(d0).contains(q@) {
                                let i = choose|i: int| 0 <= i < dep_names(d0).len() && dep_names(d0)[i] == q@;
                                assert(d0[i]@ == q@);
                            }
                        }
                    }
                    add_dep(&mut info.deps, q);
                    proof {
                        assert(dep_names(info.deps@) =~= included(scan.base.read@));
                    }
                },
                TokenKind::Identifier(_) => {
                    // Stop parsing at the first function definition.  The
                    // single identifier is likely a type.
                    proof {
                        Self::lemma_stop(scan.base);
                        assert(lexes(lex, scan.base.lexed@, scan.base.lex));
                    }
                    break;
                },
                t => {
                    proof {
                        Self::lemma_stop(scan.base);
                        assert(lexes(lex, scan.base.lexed@, scan.base.lex));
                    }
                    let e = Error::wrong_token("#include|#ifndef|#ifdef|#endif|#pragma", t.describe());
                    return Err(scan.base.lex.error_with_location(e));
                },
            }
        }
        Ok(info)
    }
}

} // verus!
