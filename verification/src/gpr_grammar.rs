//! The grammar of project files: which sequences of tokens are read as
//! which names, expressions and statements.
use crate::base_lexer::kinds;
use crate::packagename::{spec_package_name, PackageName};
use crate::qualifiedname::QualifiedName;
use crate::rawexpr::{lowercase_ok, spec_lowercase, RawExpr, Statement, WhenClause};
use crate::simplename::{law_language_index_case_insensitive, spec_is_case_insensitive, spec_new_attr, SimpleName, StringOrOthers};
use crate::strings::unicode_lowercase;
use crate::tokens::{Token, TokenKind};
use vstd::prelude::*;

verus! {

/// The name that a leading `Project` or identifier gives, when it is
/// followed by a dot or a tick.
pub open spec fn lead_name(t: TokenKind) -> Option<String> {
    match t {
        TokenKind::Identifier(s) => Some(s),
        _ => None,
    }
}

/// The qualified name built from an optional leading name, which is a
/// package when it names one and a project otherwise.
pub open spec fn spec_from_two(lead: Option<String>, name: SimpleName) -> QualifiedName {
    match lead {
        None => QualifiedName { project: None, package: PackageName::Top, name },
        Some(n1) => match spec_package_name(n1@) {
            Some(p) => QualifiedName { project: None, package: p, name },
            None => QualifiedName { project: Some(n1), package: PackageName::Top, name },
        },
    }
}

/// `k` reads as the attribute name `a`: an identifier with an optional
/// index between parentheses (lower-cased for attributes whose index is
/// case-insensitive).
pub open spec fn reads_attrname(k: Seq<Token>, a: SimpleName) -> bool {
    &&& k.len() >= 1
    &&& (k[0].kind matches TokenKind::Identifier(n) && ((k.len() == 1 && spec_new_attr(n@, None) == Some(a))
        || (k.len() == 4 && k[1].kind is OpenParenthesis && k[3].kind is CloseParenthesis
        && (k[2].kind matches TokenKind::String(s) && exists|idx: String|
        idx@ == (if spec_is_case_insensitive(n@).0 { unicode_lowercase(s@) } else { s@ })
            && #[trigger] spec_new_attr(n@, Some(StringOrOthers::Str(idx))) == Some(a)))))
}

/// `k` reads as the qualified name `q`: `[lead.]name`, `lead.package.name`,
/// `[lead.package]'attribute` or `lead'attribute`, where `lead` is an
/// identifier or `Project`.
pub open spec fn reads_qualified(k: Seq<Token>, q: QualifiedName) -> bool {
    &&& k.len() >= 1
    &&& (k[0].kind is Project || k[0].kind is Identifier)
    &&& {
        let lead = lead_name(k[0].kind);
        ||| (k.len() == 1 && (k[0].kind matches TokenKind::Identifier(n1) && q == QualifiedName {
            project: None,
            package: PackageName::Top,
            name: SimpleName::Name(n1),
        }))
        ||| (k.len() == 3 && k[1].kind is Dot && (k[2].kind matches TokenKind::Identifier(n2) && q
            == spec_from_two(lead, SimpleName::Name(n2))))
        ||| (k.len() == 5 && k[1].kind is Dot && (k[2].kind matches TokenKind::Identifier(n2)
            && k[3].kind is Dot && (k[4].kind matches TokenKind::Identifier(n3) && (spec_package_name(n2@)
            matches Some(p) && q == QualifiedName { project: lead, package: p, name: SimpleName::Name(n3) }))))
        ||| (k.len() > 4 && k[1].kind is Dot && (k[2].kind matches TokenKind::Identifier(n2)
            && k[3].kind is Tick && (spec_package_name(n2@) matches Some(p) && q.project == lead && q.package
            == p && reads_attrname(k.subrange(4, k.len() as int), q.name))))
        ||| (k.len() > 2 && k[1].kind is Tick && reads_attrname(k.subrange(2, k.len() as int), q.name) && q
            == spec_from_two(lead, q.name))
    }
}

/// `k` reads as the expression `e`: terms separated by `&`.
pub open spec fn reads_expr(k: Seq<Token>, e: RawExpr) -> bool
    decreases e, 1nat,
{
    match e {
        RawExpr::Ampersand((l, r)) => exists|i: int|
            0 < i < k.len() - 1 && #[trigger] k[i].kind is Ampersand && reads_expr(k.subrange(0, i), *l)
                && reads_term(k.subrange(i + 1, k.len() as int), *r),
        _ => reads_term(k, e),
    }
}

/// `k` reads as the term `e`: a string, a name, a function call, or a
/// parenthesized list of expressions.
pub open spec fn reads_term(k: Seq<Token>, e: RawExpr) -> bool
    decreases e, 0nat,
{
    match e {
        RawExpr::Str(s) => kinds(k) == seq![TokenKind::String(s)],
        RawExpr::Name(q) => reads_qualified(k, q),
        RawExpr::FuncCall((q, args)) => exists|i: int|
            0 < i < k.len() && reads_qualified(k.subrange(0, i), q) && #[trigger] k[i].kind is OpenParenthesis
                && k.last().kind is CloseParenthesis && args@.len() >= 1 && reads_args(
                k.subrange(i + 1, k.len() - 1),
                args@,
            ),
        RawExpr::List(v) => k.len() >= 2 && k[0].kind is OpenParenthesis && k.last().kind is CloseParenthesis
            && reads_items(k.subrange(1, k.len() - 1), v@),
        _ => false,
    }
}

/// `k` reads as the expressions `v`, separated by commas.
pub open spec fn reads_items(k: Seq<Token>, v: Seq<RawExpr>) -> bool
    decreases v, 0nat,
{
    if v.len() == 0 {
        k.len() == 0
    } else if v.len() == 1 {
        reads_expr(k, v[0])
    } else {
        exists|i: int|
            0 <= i < k.len() && #[trigger] k[i].kind is Comma && reads_items(k.subrange(0, i), v.drop_last())
                && reads_expr(k.subrange(i + 1, k.len() as int), v.last())
    }
}

/// `k` reads as the arguments `v`, separated by commas: each one is
/// `others` or an expression.
pub open spec fn reads_args(k: Seq<Token>, v: Seq<RawExpr>) -> bool
    decreases v, 0nat,
{
    if v.len() == 0 {
        k.len() == 0
    } else if v.len() == 1 {
        if v[0] is Others {
            kinds(k) == seq![TokenKind::Others]
        } else {
            reads_expr(k, v[0])
        }
    } else {
        exists|i: int|
            0 <= i < k.len() && #[trigger] k[i].kind is Comma && reads_args(k.subrange(0, i), v.drop_last()) && (
            if v.last() is Others {
                kinds(k.subrange(i + 1, k.len() as int)) == seq![TokenKind::Others]
            } else {
                reads_expr(k.subrange(i + 1, k.len() as int), v.last())
            })
    }
}

/// The token of a `when` value.
pub open spec fn value_kind(v: StringOrOthers) -> TokenKind {
    match v {
        StringOrOthers::Str(s) => TokenKind::String(s),
        StringOrOthers::Others => TokenKind::Others,
    }
}

/// The tokens of values, each followed by `|`.
pub open spec fn piped_values(v: Seq<StringOrOthers>) -> Seq<TokenKind>
    decreases v.len(),
{
    if v.len() == 0 {
        Seq::empty()
    } else {
        piped_values(v.drop_last()) + seq![value_kind(v.last()), TokenKind::Pipe]
    }
}

/// `k` reads as the values of a `when` clause: strings separated by `|`
/// (the last one may be `others`), then `=>`.
pub open spec fn reads_when_values(k: Seq<Token>, v: Seq<StringOrOthers>) -> bool {
    &&& v.len() >= 1
    &&& forall|j: int| 0 <= j < v.len() - 1 ==> #[trigger] v[j] is Str
    &&& kinds(k) == piped_values(v.drop_last()) + seq![value_kind(v.last()), TokenKind::Arrow]
}

/// `t` reads as the index `index` of attribute `n`: a string (lower-cased
/// for attributes whose index is case-insensitive) or `others`.
pub open spec fn reads_index(t: TokenKind, n: Seq<char>, index: Option<StringOrOthers>) -> bool {
    match t {
        TokenKind::Others => index == Some(StringOrOthers::Others),
        TokenKind::String(s) => (index matches Some(StringOrOthers::Str(idx)) && idx@ == (if spec_is_case_insensitive(
            n,
        ).0 {
            unicode_lowercase(s@)
        } else {
            s@
        })),
        _ => false,
    }
}

/// `k` reads as `for name [(index)] use value;`: the value is lower-cased
/// for attributes whose value is case-insensitive.
pub open spec fn reads_attribute_decl(k: Seq<Token>, name: SimpleName, value: RawExpr) -> bool {
    &&& k.len() >= 5
    &&& k[0].kind is For
    &&& k.last().kind is Semicolon
    &&& (k[1].kind matches TokenKind::Identifier(n) && exists|i: int, e: RawExpr, index: Option<StringOrOthers>|
        #![trigger spec_new_attr(n@, index), reads_expr(k.subrange(i + 1, k.len() - 1), e)]
        ((i == 2 && index is None) || (i == 5 && k[2].kind is OpenParenthesis && k[4].kind is CloseParenthesis
            && reads_index(k[3].kind, n@, index))) && i < k.len() - 1 && k[i].kind is Use && reads_expr(
            k.subrange(i + 1, k.len() - 1),
            e,
        ) && spec_new_attr(n@, index) == Some(name) && (if spec_is_case_insensitive(n@).1 {
            lowercase_ok(e) && spec_lowercase(e, value)
        } else {
            value == e
        }))
}

/// The language index of a `Spec_Suffix` or `Body_Suffix` declaration is
/// read lower-cased, whatever its case in the file: `("Ada")` and
/// `("ada")` declare the same entry.
pub proof fn law_suffix_index_lowercased(k: Seq<Token>, name: SimpleName, value: RawExpr)
    requires
        reads_attribute_decl(k, name, value),
    ensures
        name matches SimpleName::SpecSuffix(x) ==> (k[3].kind matches TokenKind::String(s) && x@ == unicode_lowercase(
            s@,
        )),
        name matches SimpleName::BodySuffix(x) ==> (k[3].kind matches TokenKind::String(s) && x@ == unicode_lowercase(
            s@,
        )),
{
    if name is SpecSuffix || name is BodySuffix {
        let n = k[1].kind->Identifier_0;
        let (i, e, index) = choose|i: int, e: RawExpr, index: Option<StringOrOthers>|
            #![trigger spec_new_attr(n@, index), reads_expr(k.subrange(i + 1, k.len() - 1), e)]
            ((i == 2 && index is None) || (i == 5 && k[2].kind is OpenParenthesis && k[4].kind is CloseParenthesis
                && reads_index(k[3].kind, n@, index))) && i < k.len() - 1 && k[i].kind is Use && reads_expr(
                k.subrange(i + 1, k.len() - 1),
                e,
            ) && spec_new_attr(n@, index) == Some(name) && (if spec_is_case_insensitive(n@).1 {
                lowercase_ok(e) && spec_lowercase(e, value)
            } else {
                value == e
            });
        if let Some(ix) = index {
            law_language_index_case_insensitive(n@, ix);
        }
    }
}

/// `k` reads as zero or more `extends name` clauses.
pub open spec fn reads_extends_clauses(k: Seq<Token>) -> bool
    decreases k.len(),
{
    k.len() == 0 || exists|i: int|
        0 <= i < k.len() && #[trigger] k[i].kind is Extends && reads_extends_clauses(k.subrange(0, i)) && exists|
            q: QualifiedName,
        | #[trigger] reads_qualified(k.subrange(i + 1, k.len() as int), q)
}

/// `k` reads as zero or more `extends name` clauses, of which `ext` is the
/// last one.
pub open spec fn reads_extends(k: Seq<Token>, ext: Option<QualifiedName>) -> bool {
    if k.len() == 0 {
        ext is None
    } else {
        exists|i: int|
            0 <= i < k.len() && #[trigger] k[i].kind is Extends && reads_extends_clauses(k.subrange(0, i)) && (
            ext matches Some(q) && reads_qualified(k.subrange(i + 1, k.len() as int), q))
    }
}

/// `k` reads as the statement `s`.  Packages and types are only allowed at
/// the level of the project (level 0), not in packages (level 1) nor in case
/// statements (level 2).
pub open spec fn reads_stmt(k: Seq<Token>, s: Statement, level: int) -> bool
    decreases s, 0nat,
{
    match s {
        Statement::TypeDecl { typename, valid } => level == 0 && k.len() >= 5 && kinds(k.subrange(0, 3)) == seq![
            TokenKind::Type,
            TokenKind::Identifier(typename),
            TokenKind::Is,
        ] && k.last().kind is Semicolon && reads_expr(k.subrange(3, k.len() - 1), valid),
        Statement::VariableDecl { name, typename, expr } => k.len() >= 4 && k[0].kind == TokenKind::Identifier(name)
            && k.last().kind is Semicolon && match typename {
            None => k[1].kind is Assign && reads_expr(k.subrange(2, k.len() - 1), expr),
            Some(q) => exists|i: int|
                2 < i < k.len() - 1 && k[1].kind is Colon && #[trigger] k[i].kind is Assign && reads_qualified(
                    k.subrange(2, i),
                    q,
                ) && reads_expr(k.subrange(i + 1, k.len() - 1), expr),
        },
        Statement::AttributeDecl { name, value } => reads_attribute_decl(k, name, value),
        Statement::Case { varname, when } => k.len() >= 5 && k[0].kind is Case && kinds(
            k.subrange(k.len() - 3, k.len() as int),
        ) == seq![TokenKind::End, TokenKind::Case, TokenKind::Semicolon] && exists|i: int|
            1 < i < k.len() - 3 && #[trigger] k[i].kind is Is && reads_qualified(k.subrange(1, i), varname)
                && reads_whens(k.subrange(i + 1, k.len() - 3), when@),
        Statement::Package { name, renames, extends, body } => level == 0 && k.len() >= 4 && k[0].kind is Package
            && (k[1].kind matches TokenKind::Identifier(n) && spec_package_name(n@) == Some(name) && reads_package_rest(
            k.subrange(2, k.len() as int),
            n@,
            renames,
            extends,
            body@,
        )),
    }
}

/// `k` reads as what follows `package name` in the declaration of a package
/// with that name: `extends` clauses, then `renames name;` or `is body end
/// name;`.
pub open spec fn reads_package_rest(
    k: Seq<Token>,
    name: Seq<char>,
    renames: Option<QualifiedName>,
    extends: Option<QualifiedName>,
    body: Seq<(u32, Statement)>,
) -> bool
    decreases body, k.len() + 1,
{
    exists|i: int|
        #![trigger k[i]]
        0 <= i < k.len() && reads_extends(k.subrange(0, i), extends) && match renames {
            Some(q) => body.len() == 0 && k[i].kind is Renames && k.last().kind is Semicolon && reads_qualified(
                k.subrange(i + 1, k.len() - 1),
                q,
            ),
            None => k[i].kind is Is && i + 4 <= k.len()
                && k[k.len() - 3].kind is End && (k[k.len() - 2].kind matches TokenKind::Identifier(e) && e@ == name)
                && k.last().kind is Semicolon && reads_body(k.subrange(i + 1, k.len() - 3), body, 1),
        }
}

/// `k` reads as the statements `b` (with the line of their first token),
/// possibly with `null;` between them.
pub open spec fn reads_body(k: Seq<Token>, b: Seq<(u32, Statement)>, level: int) -> bool
    decreases b, k.len(),
{
    if k.len() == 0 {
        b.len() == 0
    } else {
        ||| (k.len() >= 2 && kinds(k.subrange(k.len() - 2, k.len() as int)) == seq![
            TokenKind::Null,
            TokenKind::Semicolon,
        ] && reads_body(k.subrange(0, k.len() - 2), b, level))
        ||| (b.len() > 0 && exists|i: int|
            0 <= i < k.len() && reads_body(k.subrange(0, i), b.drop_last(), level) && reads_stmt(
                #[trigger] k.subrange(i, k.len() as int),
                b.last().1,
                level,
            ) && b.last().0 == k[i].line)
    }
}

/// `k` reads as the `when` clauses `w`.
pub open spec fn reads_whens(k: Seq<Token>, w: Seq<WhenClause>) -> bool
    decreases w, 0nat,
{
    if w.len() == 0 {
        k.len() == 0
    } else {
        exists|i: int|
            0 <= i < k.len() && #[trigger] k[i].kind is When && reads_whens(k.subrange(0, i), w.drop_last())
                && reads_when(k.subrange(i, k.len() as int), w.last())
    }
}

/// `k` reads as the `when` clause `c`: `when values => statements`.
pub open spec fn reads_when(k: Seq<Token>, c: WhenClause) -> bool
    decreases c, 0nat,
{
    k.len() >= 3 && k[0].kind is When && exists|i: int|
        1 < i <= k.len() && #[trigger] reads_when_values(k.subrange(1, i), c.values@) && reads_body(
            k.subrange(i, k.len() as int),
            c.body@,
            2,
        )
}

/// Tokens that read as `extends` clauses with a last one read as such
/// clauses.
pub proof fn lemma_extends_clauses(k: Seq<Token>, ext: Option<QualifiedName>)
    requires
        reads_extends(k, ext),
    ensures
        reads_extends_clauses(k),
{
    if k.len() > 0 {
        let i = choose|i: int|
            0 <= i < k.len() && #[trigger] k[i].kind is Extends && reads_extends_clauses(k.subrange(0, i)) && (
            ext matches Some(q) && reads_qualified(k.subrange(i + 1, k.len() as int), q));
        let q = ext->0;
        assert(reads_qualified(k.subrange(i + 1, k.len() as int), q));
    }
}

/// What reads as an expression or a term is not empty.
pub proof fn lemma_reads_nonempty(k: Seq<Token>, e: RawExpr)
    ensures
        reads_expr(k, e) ==> k.len() >= 1,
        reads_term(k, e) ==> k.len() >= 1,
{
    if reads_term(k, e) {
        if e is Str {
            assert(kinds(k).len() == 1);
        }
    }
}

} // verus!
