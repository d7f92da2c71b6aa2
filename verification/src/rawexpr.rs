//! The un-interpreted tree, as parsed from a GPR file.
use crate::errors::Error;
use crate::packagename::PackageName;
use crate::qualifiedname::QualifiedName;
use crate::simplename::{SimpleName, StringOrOthers};
use crate::strings::{str_eq, to_lowercase, unicode_lowercase};
use vstd::prelude::*;

verus! {

/// One `when` branch of a case statement.
#[derive(Debug, PartialEq)]
pub struct WhenClause {
    pub values: Vec<StringOrOthers>,
    pub body: StatementList,
}

/// The statements of a project file.
#[derive(Debug, PartialEq)]
pub enum Statement {
    Package {
        name: PackageName,
        renames: Option<QualifiedName>,
        extends: Option<QualifiedName>,
        body: StatementList,
    },
    TypeDecl { typename: String, valid: RawExpr },
    AttributeDecl { name: SimpleName, value: RawExpr },
    VariableDecl { name: String, typename: Option<QualifiedName>, expr: RawExpr },
    Case { varname: QualifiedName, when: Vec<WhenClause> },
}

/// Line + Statement
pub type StatementList = Vec<(u32, Statement)>;

/// An expression, as read from the project file.
#[derive(Debug, PartialEq)]
pub enum RawExpr {
    Empty,
    Others,
    /// doesn't include surrounding quotes
    Str(String),
    Name(QualifiedName),
    FuncCall((QualifiedName, Vec<RawExpr>)),
    Ampersand((Box<RawExpr>, Box<RawExpr>)),
    List(Vec<RawExpr>),
}

/// Whether an optional string has the given characters.
pub open spec fn opt_view_eq(d: Option<Seq<char>>, d2: Option<String>) -> bool {
    match d {
        None => d2 is None,
        Some(x) => d2 matches Some(y) && y@ == x,
    }
}

/// Whether the name is the builtin function `external`.
pub open spec fn is_external_func(q: QualifiedName) -> bool {
    &&& q.project is None
    &&& q.package == PackageName::Top
    &&& q.name matches SimpleName::Name(n) && n@ == "external"@
}

/// Whether the name is the builtin function `external`.
pub fn is_external_name(q: &QualifiedName) -> (r: bool)
    ensures
        r == is_external_func(*q),
{
    if q.project.is_some() || q.package != PackageName::Top {
        return false;
    }
    match &q.name {
        SimpleName::Name(n) => str_eq(n.as_str(), "external"),
        _ => false,
    }
}

/// The first call to `external` in the expression: the name of the
/// variable and its default value.  `Some(Err(()))` when the arguments of that
/// call are not static strings (or a name, for the default).
pub open spec fn spec_find_external(e: RawExpr) -> Option<Result<(Seq<char>, Option<Seq<char>>), ()>>
    decreases e,
{
    match e {
        RawExpr::Ampersand((left, right)) => match spec_find_external(*left) {
            Some(x) => Some(x),
            None => spec_find_external(*right),
        },
        RawExpr::List(v) => spec_find_external_list(v@),
        RawExpr::FuncCall((q, args)) => if is_external_func(q) {
            if args@.len() > 0 && args@[0] is Str {
                if args@.len() < 2 {
                    Some(Ok((args@[0]->Str_0@, None)))
                } else {
                    match args@[1] {
                        RawExpr::Str(d) => Some(Ok((args@[0]->Str_0@, Some(d@)))),
                        RawExpr::Name(q2) => Some(Ok((args@[0]->Str_0@, Some(q2.description())))),
                        _ => Some(Err(())),
                    }
                }
            } else {
                Some(Err(()))
            }
        } else {
            None
        },
        _ => None,
    }
}

/// The first call to `external` in a list of expressions.
pub open spec fn spec_find_external_list(s: Seq<RawExpr>) -> Option<
    Result<(Seq<char>, Option<Seq<char>>), ()>,
>
    decreases s,
{
    if s.len() == 0 {
        None
    } else {
        match spec_find_external(s[0]) {
            Some(x) => Some(x),
            None => spec_find_external_list(s.subrange(1, s.len() as int)),
        }
    }
}

/// Whether the expression can be evaluated without reaching an invalid
/// construct: no `others` or empty expression outside of function
/// arguments, and calls to `external` have a static string as first
/// argument.
pub open spec fn eval_ok(e: RawExpr) -> bool
    decreases e,
{
    match e {
        RawExpr::Empty => false,
        RawExpr::Others => false,
        RawExpr::Str(_) => true,
        RawExpr::Name(_) => true,
        RawExpr::FuncCall((q, args)) => if is_external_func(q) {
            &&& args@.len() > 0
            &&& args@[0] is Str
            &&& args@.len() >= 2 ==> eval_ok(args@[1])
        } else {
            true
        },
        RawExpr::Ampersand((left, right)) => eval_ok(*left) && eval_ok(*right),
        RawExpr::List(v) => all_eval_ok(v@),
    }
}

/// `eval_ok` for all expressions of a list.
pub open spec fn all_eval_ok(s: Seq<RawExpr>) -> bool
    decreases s,
{
    if s.len() == 0 {
        true
    } else {
        eval_ok(s[0]) && all_eval_ok(s.subrange(1, s.len() as int))
    }
}

/// Whether the expression is a static string or a (nested) list of static
/// strings, which can be lower-cased.
pub open spec fn lowercase_ok(e: RawExpr) -> bool
    decreases e,
{
    match e {
        RawExpr::Str(_) => true,
        RawExpr::List(v) => all_lowercase_ok(v@),
        _ => false,
    }
}

/// `lowercase_ok` for all expressions of a list.
pub open spec fn all_lowercase_ok(s: Seq<RawExpr>) -> bool
    decreases s,
{
    if s.len() == 0 {
        true
    } else {
        lowercase_ok(s[0]) && all_lowercase_ok(s.subrange(1, s.len() as int))
    }
}

/// The lower-cased form of a (nested) list of static strings.
pub open spec fn spec_lowercase(e: RawExpr, r: RawExpr) -> bool
    decreases e,
{
    match (e, r) {
        (RawExpr::Str(s), RawExpr::Str(t)) => t@ == unicode_lowercase(s@),
        (RawExpr::List(v), RawExpr::List(w)) => v@.len() == w@.len() && spec_lowercase_list(v@, w@),
        _ => false,
    }
}

/// `spec_lowercase` element-wise.
pub open spec fn spec_lowercase_list(v: Seq<RawExpr>, w: Seq<RawExpr>) -> bool
    decreases v,
{
    if v.len() == 0 || w.len() == 0 {
        v.len() == w.len()
    } else {
        spec_lowercase(v[0], w[0]) && spec_lowercase_list(
            v.subrange(1, v.len() as int),
            w.subrange(1, w.len() as int),
        )
    }
}

/// The static strings of a list, when all elements are static strings.
pub open spec fn spec_static_list(s: Seq<RawExpr>) -> Option<Seq<Seq<char>>>
    decreases s.len(),
{
    if s.len() == 0 {
        Some(Seq::empty())
    } else {
        match s.last() {
            RawExpr::Str(x) => match spec_static_list(s.drop_last()) {
                Some(l) => Some(l.push(x@)),
                None => None,
            },
            _ => None,
        }
    }
}

impl RawExpr {
    /// Finds the first call to `external`.
    pub fn find_external(&self) -> (r: Option<Result<(String, Option<String>), ()>>)
        ensures
            spec_find_external(*self) is None <==> r is None,
            spec_find_external(*self) matches Some(Err(_)) <==> r matches Some(Err(_)),
            spec_find_external(*self) matches Some(Ok((n, d))) ==> (r matches Some(Ok((n2, d2)))
                && n2@ == n && opt_view_eq(d, d2)),
        decreases self,
    {
        match self {
            RawExpr::Ampersand((left, right)) => match left.find_external() {
                Some(x) => Some(x),
                None => right.find_external(),
            },
            RawExpr::List(v) => {
                let mut i: usize = 0;
                assert(v@.subrange(0, v@.len() as int) =~= v@);
                while i < v.len()
                    invariant
                        *self == RawExpr::List(*v),
                        i <= v@.len(),
                        spec_find_external_list(v@) == spec_find_external_list(v@.subrange(i as int, v@.len() as int)),
                    decreases v.len() - i,
                {
                    proof {
                        assert(decreases_to!(*v => v[i as int]));
                    }
                    assert(v@.subrange(i as int, v@.len() as int)[0] == v@[i as int]);
                    assert(v@.subrange(i as int, v@.len() as int).subrange(1, v@.len() - i) =~= v@.subrange(i + 1, v@.len() as int));
                    let x = v[i].find_external();
                    if x.is_some() {
                        return x;
                    }
                    i = i + 1;
                }
                None
            },
            RawExpr::FuncCall((q, args)) => {
                if is_external_name(q) {
                    if args.len() > 0 {
                        match &args[0] {
                            RawExpr::Str(s) => {
                                if args.len() < 2 {
                                    Some(Ok((s.clone(), None)))
                                } else {
                                    match &args[1] {
                                        RawExpr::Str(d) => Some(Ok((s.clone(), Some(d.clone())))),
                                        RawExpr::Name(q2) => Some(Ok((s.clone(), Some(q2.describe())))),
                                        _ => Some(Err(())),
                                    }
                                }
                            },
                            _ => Some(Err(())),
                        }
                    } else {
                        Some(Err(()))
                    }
                } else {
                    None
                }
            },
            _ => None,
        }
    }

    /// Whether the expression contains a call to external().
    /// Returns the name of the scenario variable, and the default value.
    pub fn has_external(&self) -> (r: Option<(String, Option<String>)>)
        requires
            !(spec_find_external(*self) matches Some(Err(_))),
        ensures
            spec_find_external(*self) is None <==> r is None,
            spec_find_external(*self) matches Some(Ok((n, d))) ==> (r matches Some((n2, d2))
                && n2@ == n && opt_view_eq(d, d2)),
    {
        match self.find_external() {
            Some(Ok(x)) => Some(x),
            _ => None,
        }
    }

    /// Whether the first call to `external`, if any, has valid arguments.
    pub fn external_is_valid(&self) -> (r: bool)
        ensures
            r == !(spec_find_external(*self) matches Some(Err(_))),
    {
        !matches!(self.find_external(), Some(Err(_)))
    }

    /// Combine two expressions with an "&".
    pub fn ampersand(self, right: RawExpr) -> (r: RawExpr)
        ensures
            self is Empty ==> r == right,
            !(self is Empty) ==> r == RawExpr::Ampersand((Box::new(self), Box::new(right))),
    {
        match self {
            RawExpr::Empty => right,
            _ => RawExpr::Ampersand((Box::new(self), Box::new(right))),
        }
    }

    /// Convert to a static string.
    pub fn as_static_str(&self) -> (r: Result<String, Error>)
        ensures
            *self matches RawExpr::Str(s) ==> r == Ok::<String, Error>(s),
            !(self is Str) ==> r == Err::<String, Error>(Error::NotStaticString),
    {
        match self {
            RawExpr::Str(s) => Ok(s.clone()),
            _ => Err(Error::NotStaticString),
        }
    }

    /// Convert to a list of static strings.
    pub fn as_list(&self) -> (r: Result<Vec<String>, Error>)
        ensures
            *self matches RawExpr::List(v) ==> match spec_static_list(v@) {
                Some(l) => r matches Ok(res) && res@.map_values(|x: String| x@) == l,
                None => r == Err::<Vec<String>, Error>(Error::NotStaticString),
            },
            !(self is List) ==> r == Err::<Vec<String>, Error>(Error::NotStaticString),
    {
        match self {
            RawExpr::List(v) => {
                let mut res: Vec<String> = Vec::new();
                let mut i: usize = 0;
                while i < v.len()
                    invariant
                        *self == RawExpr::List(*v),
                        i <= v@.len(),
                        spec_static_list(v@.take(i as int)) matches Some(l) && res@.map_values(
                            |x: String| x@,
                        ) == l,
                    decreases v.len() - i,
                {
                    assert(v@.take(i + 1).drop_last() =~= v@.take(i as int));
                    match &v[i] {
                        RawExpr::Str(s) => res.push(s.clone()),
                        _ => {
                            proof {
                                lemma_static_list_prefix(v@, i as int + 1);
                            }
                            return Err(Error::NotStaticString);
                        },
                    }
                    i = i + 1;
                    assert(res@.map_values(|x: String| x@) =~= res@.drop_last().map_values(
                        |x: String| x@,
                    ).push(res@.last()@));
                }
                assert(v@.take(v@.len() as int) =~= v@);
                Ok(res)
            },
            _ => Err(Error::NotStaticString),
        }
    }

    /// Convert a list of static strings to lower case.
    pub fn to_lowercase(&self) -> (r: RawExpr)
        requires
            lowercase_ok(*self),
        ensures
            spec_lowercase(*self, r),
        decreases self,
    {
        match self {
            RawExpr::Str(s) => RawExpr::Str(to_lowercase(s.as_str())),
            RawExpr::List(v) => {
                let mut res: Vec<RawExpr> = Vec::new();
                let mut i: usize = 0;
                while i < v.len()
                    invariant
                        *self == RawExpr::List(*v),
                        i <= v@.len(),
                        all_lowercase_ok(v@),
                        res@.len() == i,
                        forall|j: int| 0 <= j < i ==> spec_lowercase(#[trigger] v@[j], res@[j]),
                    decreases v.len() - i,
                {
                    proof {
                        lemma_all_lowercase_ok(v@, i as int);
                        assert(decreases_to!(*self => (*self)->List_0));
                        assert(decreases_to!(*v => v[i as int]));
                    }
                    let x = v[i].to_lowercase();
                    res.push(x);
                    i = i + 1;
                }
                proof {
                    lemma_lowercase_list(v@, res@);
                }
                RawExpr::List(res)
            },
            _ => RawExpr::Empty,
        }
    }
}

proof fn lemma_static_list_prefix(v: Seq<RawExpr>, n: int)
    requires
        0 < n <= v.len(),
        !(v[n - 1] is Str),
    ensures
        spec_static_list(v) is None,
    decreases v.len(),
{
    if n < v.len() {
        lemma_static_list_prefix(v.drop_last(), n);
        assert(v.drop_last()[n - 1] == v[n - 1]);
    }
}

proof fn lemma_all_lowercase_ok(v: Seq<RawExpr>, i: int)
    requires
        all_lowercase_ok(v),
        0 <= i < v.len(),
    ensures
        lowercase_ok(v[i]),
    decreases v.len(),
{
    if i > 0 {
        lemma_all_lowercase_ok(v.subrange(1, v.len() as int), i - 1);
    }
}

proof fn lemma_lowercase_list(v: Seq<RawExpr>, w: Seq<RawExpr>)
    requires
        v.len() == w.len(),
        forall|j: int| 0 <= j < v.len() ==> spec_lowercase(#[trigger] v[j], w[j]),
    ensures
        spec_lowercase_list(v, w),
    decreases v.len(),
{
    if v.len() > 0 {
        let v1 = v.subrange(1, v.len() as int);
        let w1 = w.subrange(1, w.len() as int);
        assert forall|j: int| 0 <= j < v1.len() implies spec_lowercase(#[trigger] v1[j], w1[j]) by {
            assert(v1[j] == v[j + 1]);
            assert(w1[j] == w[j + 1]);
        }
        lemma_lowercase_list(v1, w1);
        assert(spec_lowercase(v[0], w[0]));
    }
}

/// Whether the statements can be processed: all their expressions can be
/// evaluated, calls to `external` have valid arguments, and only static
/// strings are lower-cased.
pub open spec fn statement_ok(s: Statement) -> bool
    decreases s,
{
    match s {
        Statement::Package { body, .. } => statements_ok(body@),
        Statement::TypeDecl { valid, .. } => eval_ok(valid),
        Statement::AttributeDecl { value, .. } => eval_ok(value),
        Statement::VariableDecl { typename, expr, .. } => {
            &&& !(spec_find_external(expr) matches Some(Err(_)))
            &&& (typename is Some && spec_find_external(expr) is Some) || eval_ok(expr)
        },
        Statement::Case { when, .. } => whens_ok(when@),
    }
}

/// `statement_ok` for a list of statements.
pub open spec fn statements_ok(s: Seq<(u32, Statement)>) -> bool
    decreases s,
{
    if s.len() == 0 {
        true
    } else {
        statement_ok(s[0].1) && statements_ok(s.subrange(1, s.len() as int))
    }
}

/// `statement_ok` for the bodies of `when` clauses.
pub open spec fn whens_ok(s: Seq<WhenClause>) -> bool
    decreases s,
{
    if s.len() == 0 {
        true
    } else {
        statements_ok(s[0].body@) && whens_ok(s.subrange(1, s.len() as int))
    }
}

} // verus!

verus! {

impl RawExpr {
    /// Whether the expression is a (nested) list of static strings, which
    /// can be lower-cased.
    pub fn is_lowercase_ok(&self) -> (r: bool)
        ensures
            r == lowercase_ok(*self),
        decreases self,
    {
        match self {
            RawExpr::Str(_) => true,
            RawExpr::List(v) => {
                let mut i: usize = 0;
                assert(v@.subrange(0, v@.len() as int) =~= v@);
                while i < v.len()
                    invariant
                        *self == RawExpr::List(*v),
                        i <= v@.len(),
                        all_lowercase_ok(v@) == all_lowercase_ok(v@.subrange(i as int, v@.len() as int)),
                    decreases v.len() - i,
                {
                    proof {
                        assert(decreases_to!(*self => (*self)->List_0));
                        assert(decreases_to!(*v => v[i as int]));
                        assert(v@.subrange(i as int, v@.len() as int)[0] == v@[i as int]);
                        assert(v@.subrange(i as int, v@.len() as int).subrange(1, v@.len() - i)
                            =~= v@.subrange(i + 1, v@.len() as int));
                    }
                    if !v[i].is_lowercase_ok() {
                        return false;
                    }
                    i = i + 1;
                }
                true
            },
            _ => false,
        }
    }
}

} // verus!

verus! {

pub proof fn lemma_all_eval_ok(v: Seq<RawExpr>, i: int)
    requires
        0 <= i < v.len(),
    ensures
        all_eval_ok(v) ==> eval_ok(v[i]),
        all_eval_ok(v) == (eval_ok(v[0]) && all_eval_ok(v.subrange(1, v.len() as int))),
    decreases v.len(),
{
    if i > 0 {
        lemma_all_eval_ok(v.subrange(1, v.len() as int), i - 1);
    }
}

/// The `i`-th statement of a valid list is valid.
pub proof fn lemma_statements_ok(v: Seq<(u32, Statement)>, i: int)
    requires
        0 <= i < v.len(),
        statements_ok(v),
    ensures
        statement_ok(v[i].1),
    decreases v.len(),
{
    if i > 0 {
        lemma_statements_ok(v.subrange(1, v.len() as int), i - 1);
    }
}

/// The body of the `i`-th clause of a valid list is valid.
pub proof fn lemma_whens_ok(v: Seq<WhenClause>, i: int)
    requires
        0 <= i < v.len(),
        whens_ok(v),
    ensures
        statements_ok(v[i].body@),
    decreases v.len(),
{
    if i > 0 {
        lemma_whens_ok(v.subrange(1, v.len() as int), i - 1);
    }
}

impl RawExpr {
    /// Whether the expression can be evaluated.
    pub fn is_evaluable(&self) -> (r: bool)
        ensures
            r == eval_ok(*self),
        decreases self,
    {
        match self {
            RawExpr::Empty => false,
            RawExpr::Others => false,
            RawExpr::Str(_) => true,
            RawExpr::Name(_) => true,
            RawExpr::FuncCall((q, args)) => {
                if is_external_name(q) {
                    if args.len() == 0 {
                        return false;
                    }
                    if !matches!(args[0], RawExpr::Str(_)) {
                        return false;
                    }
                    if args.len() >= 2 {
                        proof {
                            assert(decreases_to!(*self => (*self)->FuncCall_0));
                            assert(decreases_to!((*self)->FuncCall_0 => (*self)->FuncCall_0.1));
                            assert(decreases_to!(*args => args[1]));
                        }
                        args[1].is_evaluable()
                    } else {
                        true
                    }
                } else {
                    true
                }
            },
            RawExpr::Ampersand((left, right)) => left.is_evaluable() && right.is_evaluable(),
            RawExpr::List(v) => {
                let mut i: usize = 0;
                assert(v@.subrange(0, v@.len() as int) =~= v@);
                while i < v.len()
                    invariant
                        *self == RawExpr::List(*v),
                        i <= v@.len(),
                        all_eval_ok(v@) == all_eval_ok(v@.subrange(i as int, v@.len() as int)),
                    decreases v.len() - i,
                {
                    proof {
                        assert(decreases_to!(*self => (*self)->List_0));
                        assert(decreases_to!(*v => v[i as int]));
                        let sub = v@.subrange(i as int, v@.len() as int);
                        lemma_all_eval_ok(sub, 0);
                        assert(sub[0] == v@[i as int]);
                        assert(sub.subrange(1, sub.len() as int) =~= v@.subrange(i + 1, v@.len() as int));
                    }
                    if !v[i].is_evaluable() {
                        return false;
                    }
                    i = i + 1;
                }
                true
            },
        }
    }
}

/// Whether a statement can be processed.
pub fn statement_valid(s: &Statement) -> (r: bool)
    ensures
        r == statement_ok(*s),
    decreases s,
{
    match s {
        Statement::Package { body, .. } => statements_valid(body),
        Statement::TypeDecl { valid, .. } => valid.is_evaluable(),
        Statement::AttributeDecl { value, .. } => value.is_evaluable(),
        Statement::VariableDecl { typename, expr, .. } => {
            if !expr.external_is_valid() {
                return false;
            }
            (typename.is_some() && expr.has_external().is_some()) || expr.is_evaluable()
        },
        Statement::Case { when: clauses, .. } => {
            let mut i: usize = 0;
            assert(clauses@.subrange(0, clauses@.len() as int) =~= clauses@);
            while i < clauses.len()
                invariant
                    *s == (Statement::Case { varname: s->varname, when: *clauses }),
                    i <= clauses@.len(),
                    whens_ok(clauses@) == whens_ok(clauses@.subrange(i as int, clauses@.len() as int)),
                decreases clauses.len() - i,
            {
                proof {
                    assert(decreases_to!(*s => s->when));
                    assert(decreases_to!(*clauses => clauses[i as int]));
                    assert(decreases_to!(clauses[i as int] => clauses[i as int].body));
                    let sub = clauses@.subrange(i as int, clauses@.len() as int);
                    assert(sub[0] == clauses@[i as int]);
                    assert(sub.subrange(1, sub.len() as int) =~= clauses@.subrange(i + 1, clauses@.len() as int));
                }
                if !statements_valid(&clauses[i].body) {
                    return false;
                }
                i = i + 1;
            }
            true
        },
    }
}

/// Whether all statements can be processed.
pub fn statements_valid(body: &StatementList) -> (r: bool)
    ensures
        r == statements_ok(body@),
    decreases body,
{
    let mut i: usize = 0;
    assert(body@.subrange(0, body@.len() as int) =~= body@);
    while i < body.len()
        invariant
            i <= body@.len(),
            statements_ok(body@) == statements_ok(body@.subrange(i as int, body@.len() as int)),
        decreases body.len() - i,
    {
        proof {
            assert(decreases_to!(*body => body[i as int]));
            assert(decreases_to!(body[i as int] => body[i as int].1));
            let sub = body@.subrange(i as int, body@.len() as int);
            assert(sub[0] == body@[i as int]);
            assert(sub.subrange(1, sub.len() as int) =~= body@.subrange(i + 1, body@.len() as int));
        }
        if !statement_valid(&body[i].1) {
            return false;
        }
        i = i + 1;
    }
    true
}

} // verus!
