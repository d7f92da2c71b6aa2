//! The value of an expression in a project file, for each scenario.
use crate::allscenarios::AllScenarios;
use crate::errors::Error;
use crate::gpr::{all_wf, GprFile};
use crate::packagename::PackageName;
use crate::perscenario::{is_single, PerScenario};
use crate::qualifiedname::QualifiedName;
use crate::rawexpr::{all_eval_ok, eval_ok, is_external_func, is_external_name, lemma_all_eval_ok, RawExpr};
use crate::scenarios::Scenario;
use crate::simplename::SimpleName;
use crate::strings::{push_str, views};
use vstd::prelude::*;

verus! {

/// A value that does not depend on scenarios.
pub enum Constant {
    Str(Seq<char>),
    List(Seq<Seq<char>>),
}

/// Why an expression cannot be evaluated.
pub enum EvalError {
    NotFound(Seq<char>),
    UnknownFunction(Seq<char>),
    ListOfStrings,
    WrongAmpersand,
}

impl EvalError {
    /// Whether the error reports this reason.
    pub open spec fn reported_by(self, e: Error) -> bool {
        match self {
            EvalError::NotFound(n) => e matches Error::NotFound(m) && m@ == n,
            EvalError::UnknownFunction(n) => e matches Error::UnknownFunction(m) && m@ == n,
            EvalError::ListOfStrings => e is ListCanOnlyContainStrings,
            EvalError::WrongAmpersand => e is WrongAmpersand,
        }
    }
}

/// The value of an expression: a string or a list of strings, for each
/// scenario.
#[derive(Clone, Debug, PartialEq)]
pub enum ExprValue {
    Str(PerScenario<String>),
    StrList(PerScenario<Vec<String>>),
}

/// The value of an environment variable, from position `i`.
pub open spec fn env_lookup_from(env: Seq<(String, String)>, name: Seq<char>, i: int) -> Option<Seq<char>>
    decreases env.len() - i,
{
    if i < 0 || i >= env.len() {
        None
    } else if env[i].0@ == name {
        Some(env[i].1@)
    } else {
        env_lookup_from(env, name, i + 1)
    }
}

/// The name reported for an unknown function.
pub open spec fn function_name(q: QualifiedName) -> Seq<char> {
    if q.project is None && q.package == PackageName::Top && q.name is Name {
        q.name->Name_0@
    } else {
        q.description()
    }
}

/// Whether the expression evaluates to a list (`Ok(true)`) or a string
/// (`Ok(false)`), or why it cannot be evaluated.
pub open spec fn eval_result(
    e: RawExpr,
    gpr: GprFile,
    deps: Seq<&GprFile>,
    env: Seq<(String, String)>,
    pkg: PackageName,
) -> Result<bool, EvalError>
    decreases e,
{
    match e {
        RawExpr::Name(q) => match gpr.spec_lookup(q, deps, pkg) {
            Some(v) => Ok(v is StrList),
            None => Err(EvalError::NotFound(q.description())),
        },
        RawExpr::FuncCall((q, args)) => if is_external_func(q) {
            let dflt = if args@.len() >= 2 {
                eval_result(args@[1], gpr, deps, env, pkg)
            } else {
                Ok(false)
            };
            match dflt {
                Err(x) => Err(x),
                Ok(k) => if args@.len() > 0 && env_lookup_from(env, args@[0]->Str_0@, 0) is Some {
                    Ok(false)
                } else {
                    Ok(k)
                },
            }
        } else {
            Err(EvalError::UnknownFunction(function_name(q)))
        },
        RawExpr::Ampersand((l, r)) => match eval_result(*l, gpr, deps, env, pkg) {
            Err(x) => Err(x),
            Ok(lk) => match eval_result(*r, gpr, deps, env, pkg) {
                Err(x) => Err(x),
                Ok(rk) => if !lk && rk {
                    Err(EvalError::WrongAmpersand)
                } else {
                    Ok(lk)
                },
            },
        },
        RawExpr::List(v) => match eval_list(v@, gpr, deps, env, pkg) {
            Err(x) => Err(x),
            Ok(()) => Ok(true),
        },
        _ => Ok(false),
    }
}

/// Whether all elements of a list evaluate to strings, or why not.
pub open spec fn eval_list(
    v: Seq<RawExpr>,
    gpr: GprFile,
    deps: Seq<&GprFile>,
    env: Seq<(String, String)>,
    pkg: PackageName,
) -> Result<(), EvalError>
    decreases v,
{
    if v.len() == 0 {
        Ok(())
    } else {
        match eval_list(v.drop_last(), gpr, deps, env, pkg) {
            Err(x) => Err(x),
            Ok(()) => match eval_result(v.last(), gpr, deps, env, pkg) {
                Err(x) => Err(x),
                Ok(true) => Err(EvalError::ListOfStrings),
                Ok(false) => Ok(()),
            },
        }
    }
}

/// The value of an expression, when it does not depend on scenarios.
pub open spec fn eval_constant(
    e: RawExpr,
    gpr: GprFile,
    deps: Seq<&GprFile>,
    env: Seq<(String, String)>,
    pkg: PackageName,
) -> Option<Constant>
    decreases e,
{
    match e {
        RawExpr::Str(s) => Some(Constant::Str(s@)),
        RawExpr::Name(q) => match gpr.spec_lookup(q, deps, pkg) {
            Some(v) => v.constant(),
            None => None,
        },
        RawExpr::FuncCall((q, args)) => if is_external_func(q) && args@.len() > 0 {
            if args@.len() >= 2 && eval_result(args@[1], gpr, deps, env, pkg) is Err {
                None
            } else {
                match env_lookup_from(env, args@[0]->Str_0@, 0) {
                    Some(x) => Some(Constant::Str(x)),
                    None => if args@.len() >= 2 {
                        eval_constant(args@[1], gpr, deps, env, pkg)
                    } else {
                        Some(Constant::Str(Seq::empty()))
                    },
                }
            }
        } else {
            None
        },
        RawExpr::Ampersand((l, r)) => match (
            eval_constant(*l, gpr, deps, env, pkg),
            eval_constant(*r, gpr, deps, env, pkg),
        ) {
            (Some(Constant::Str(a)), Some(Constant::Str(b))) => Some(Constant::Str(a + b)),
            (Some(Constant::List(a)), Some(Constant::Str(b))) => Some(Constant::List(a.push(b))),
            (Some(Constant::List(a)), Some(Constant::List(b))) => Some(Constant::List(a + b)),
            _ => None,
        },
        RawExpr::List(v) => match eval_list_constant(v@, gpr, deps, env, pkg) {
            Some(l) => Some(Constant::List(l)),
            None => None,
        },
        _ => None,
    }
}

/// The strings of a list, when none depends on scenarios.
pub open spec fn eval_list_constant(
    v: Seq<RawExpr>,
    gpr: GprFile,
    deps: Seq<&GprFile>,
    env: Seq<(String, String)>,
    pkg: PackageName,
) -> Option<Seq<Seq<char>>>
    decreases v,
{
    if v.len() == 0 {
        Some(Seq::empty())
    } else {
        match (
            eval_list_constant(v.drop_last(), gpr, deps, env, pkg),
            eval_constant(v.last(), gpr, deps, env, pkg),
        ) {
            (Some(acc), Some(Constant::Str(x))) => Some(acc.push(x)),
            _ => None,
        }
    }
}

/// The value of an environment variable, if it is set.
fn env_lookup(env: &Vec<(String, String)>, name: &String) -> (r: Option<String>)
    ensures
        match env_lookup_from(env@, name@, 0) {
            Some(x) => r matches Some(s) && s@ == x,
            None => r is None,
        },
{
    let mut i: usize = 0;
    while i < env.len()
        invariant
            i <= env@.len(),
            env_lookup_from(env@, name@, 0) == env_lookup_from(env@, name@, i as int),
        decreases env.len() - i,
    {
        if env[i].0 == *name {
            return Some(env[i].1.clone());
        }
        i = i + 1;
    }
    None
}

/// The name reported for an unknown function.
fn unknown_function(q: &QualifiedName) -> (r: Error)
    ensures
        r matches Error::UnknownFunction(m) && m@ == function_name(*q),
{
    if q.project.is_none() && q.package == PackageName::Top {
        if let SimpleName::Name(n) = &q.name {
            return Error::UnknownFunction(n.clone());
        }
    }
    Error::UnknownFunction(q.describe())
}

/// Replaces a string by another.
pub fn replace_with(_v1: String, v2: &String) -> (r: String)
    ensures
        r@ == v2@,
{
    v2.clone()
}

/// Concatenates two strings.
fn concat_str(v1: String, v2: &String) -> (r: String)
    ensures
        r@ == v1@ + v2@,
{
    let mut res = v1;
    push_str(&mut res, v2.as_str());
    res
}

/// Appends a string to a list.
fn push_to_list(v1: Vec<String>, v2: &String) -> (r: Vec<String>)
    ensures
        r@ == v1@.push(*v2),
{
    let mut v = v1;
    v.push(v2.clone());
    v
}

/// Appends a list to a list.
fn extend_list(v1: Vec<String>, v2: &Vec<String>) -> (r: Vec<String>)
    ensures
        r@ == v1@ + v2@,
{
    let mut v = v1;
    let ghost start = v@;
    let mut k: usize = 0;
    while k < v2.len()
        invariant
            k <= v2@.len(),
            v@ == start + v2@.take(k as int),
        decreases v2.len() - k,
    {
        v.push(v2[k].clone());
        k = k + 1;
        assert(v@ =~= start + v2@.take(k as int));
    }
    assert(v2@.take(v2@.len() as int) =~= v2@);
    v
}

/// An error in the first elements of a list is the error of the list, and
/// a list of constants starts with constants.
proof fn lemma_eval_list_prefix(
    v: Seq<RawExpr>,
    i: int,
    gpr: GprFile,
    deps: Seq<&GprFile>,
    env: Seq<(String, String)>,
    pkg: PackageName,
)
    requires
        0 <= i <= v.len(),
    ensures
        eval_list(v.take(i), gpr, deps, env, pkg) is Err ==> eval_list(v, gpr, deps, env, pkg) == eval_list(
            v.take(i),
            gpr,
            deps,
            env,
            pkg,
        ),
        eval_list_constant(v, gpr, deps, env, pkg) is Some ==> eval_list_constant(v.take(i), gpr, deps, env, pkg) is Some,
    decreases v.len() - i,
{
    if i == v.len() {
        assert(v.take(i) =~= v);
    } else {
        lemma_eval_list_prefix(v, i + 1, gpr, deps, env, pkg);
        assert(v.take(i + 1).drop_last() =~= v.take(i));
    }
}

impl ExprValue {
    /// The values are well-formed.
    pub open spec fn wf(&self) -> bool {
        match self {
            ExprValue::Str(p) => p.wf(),
            ExprValue::StrList(p) => p.wf(),
        }
    }

    /// The value, when it does not depend on scenarios.
    pub open spec fn constant(&self) -> Option<Constant> {
        match self {
            ExprValue::Str(p) => if is_single(p.values@) {
                Some(Constant::Str(p.values@[0].1@))
            } else {
                None
            },
            ExprValue::StrList(p) => if is_single(p.values@) {
                Some(Constant::List(views(p.values@[0].1@)))
            } else {
                None
            },
        }
    }

    /// Both values are the same in all scenarios.
    pub open spec fn same_value(&self, other: &ExprValue) -> bool {
        match (self, other) {
            (ExprValue::Str(a), ExprValue::Str(b)) => a.entries() == b.entries(),
            (ExprValue::StrList(a), ExprValue::StrList(b)) => a.entries() == b.entries(),
            _ => false,
        }
    }

    /// An expression that always has the same static value for all scenarios
    pub fn new_with_str(s: String) -> (r: Self)
        ensures
            r.wf(),
            r.constant() == Some(Constant::Str(s@)),
    {
        ExprValue::Str(PerScenario::new(s))
    }

    /// An expression value created as a list of strings
    pub fn new_with_list(list: Vec<String>) -> (r: Self)
        ensures
            r.wf(),
            r.constant() == Some(Constant::List(views(list@))),
    {
        ExprValue::StrList(PerScenario::new(list))
    }

    /// The scenarios of the value.
    pub open spec fn scenario_set(&self) -> Set<Scenario> {
        match self {
            ExprValue::Str(a) => a.scenario_set(),
            ExprValue::StrList(a) => a.scenario_set(),
        }
    }

    /// All the scenarios used in the value are added to the list.
    pub fn find_used_scenarios(&self, scenars: &mut Vec<Scenario>)
        ensures
            final(scenars)@.to_set() == old(scenars)@.to_set() + self.scenario_set(),
            old(scenars)@.no_duplicates() ==> final(scenars)@.no_duplicates(),
    {
        match self {
            ExprValue::Str(a) => a.find_used_scenarios(scenars),
            ExprValue::StrList(a) => a.find_used_scenarios(scenars),
        }
    }

    /// Display the expression, one line per scenario (see
    /// `PerScenario::two_columns`); lists are displayed as comma-separated
    /// values.
    pub fn format(&self, scenarios: &AllScenarios, indent: &str, eol: &str) -> (r: String)
        ensures
            match self {
                ExprValue::Str(map) => map.shown_in_columns(scenarios, indent@, eol@, r@),
                ExprValue::StrList(map) => map.shown_in_columns(scenarios, indent@, eol@, r@),
            },
    {
        match self {
            ExprValue::Str(map) => map.two_columns(scenarios, indent, eol),
            ExprValue::StrList(map) => map.two_columns(scenarios, indent, eol),
        }
    }

    /// A copy of the value.
    pub fn dup(&self) -> (r: Self)
        ensures
            r.same_value(self),
            r.constant() == self.constant(),
            self.wf() ==> r.wf(),
    {
        match self {
            ExprValue::Str(p) => {
                let c = p.duplicate();
                proof {
                    if is_single(p.values@) {
                        assert(c.entries()[0] == p.entries()[0]);
                    }
                }
                ExprValue::Str(c)
            },
            ExprValue::StrList(p) => {
                let c = p.duplicate();
                proof {
                    if is_single(p.values@) {
                        assert(c.entries()[0] == p.entries()[0]);
                    }
                }
                ExprValue::StrList(c)
            },
        }
    }
    /// Evaluate a raw expression into its final value.
    /// The expression is initially seen in the context of one scenario
    /// (matching the case and when clauses), but its final value might be
    /// split into several scenarios if it is referencing another variable.
    /// Calls to `external` read the environment variables recorded in
    /// `scenars`.
    pub fn new_with_raw(
        expr: &RawExpr,
        gpr: &GprFile,
        gpr_deps: &[&GprFile],
        scenars: &mut AllScenarios,
        context: Scenario,
        current_pkg: PackageName,
    ) -> (r: Result<ExprValue, Error>)
        requires
            eval_ok(*expr),
            gpr.wf(),
            all_wf(gpr_deps@),
        ensures
            *final(scenars) == *old(scenars),
            match eval_result(*expr, *gpr, gpr_deps@, old(scenars).externals@, current_pkg) {
                Ok(is_list) => r matches Ok(v) && v.wf() && (v is StrList) == is_list,
                Err(x) => r matches Err(e) && x.reported_by(e),
            },
            context == Scenario::all() && !old(scenars).spec_never_matches(Scenario::all()) ==> (eval_constant(
                *expr,
                *gpr,
                gpr_deps@,
                old(scenars).externals@,
                current_pkg,
            ) matches Some(c) ==> r matches Ok(v) && v.constant() == Some(c)),
            *expr matches RawExpr::Name(q) ==> (gpr.spec_lookup(q, gpr_deps@, current_pkg) matches Some(
                val,
            ) ==> r matches Ok(v) && v.same_value(&val)),
        decreases expr,
    {
        let ghost special = context == Scenario::all() && !scenars.spec_never_matches(Scenario::all());
        match expr {
            RawExpr::Empty | RawExpr::Others => {
                assert(false);
                Err(Error::WrongAmpersand)
            },
            RawExpr::FuncCall((q, args)) => {
                if !is_external_name(q) {
                    return Err(unknown_function(q));
                }
                let varname = match &args[0] {
                    RawExpr::Str(v) => v,
                    _ => {
                        assert(false);
                        return Err(Error::InvalidExternal);
                    },
                };
                let default = if args.len() >= 2 {
                    proof {
                        assert(decreases_to!(*expr => (*expr)->FuncCall_0));
                        assert(decreases_to!((*expr)->FuncCall_0 => (*expr)->FuncCall_0.1));
                        assert(decreases_to!(*args => args[1]));
                    }
                    match Self::new_with_raw(&args[1], gpr, gpr_deps, scenars, context, current_pkg) {
                        Ok(v) => v,
                        Err(e) => return Err(e),
                    }
                } else {
                    Self::new_with_str(String::new())
                };
                match env_lookup(&scenars.externals, varname) {
                    Some(v) => Ok(ExprValue::new_with_str(v)),
                    None => Ok(default),
                }
            },
            RawExpr::Name(q) => {
                proof {
                    gpr.lemma_lookup_wf(*q, gpr_deps@, current_pkg);
                }
                match gpr.lookup(q, gpr_deps, current_pkg) {
                    Ok(v) => Ok(v.dup()),
                    Err(e) => Err(e),
                }
            },
            RawExpr::Str(s) => {
                let mut v: PerScenario<String> = PerScenario::new(String::new());
                let s2: PerScenario<String> = PerScenario::new(s.clone());
                v.update(
                    &s2,
                    context,
                    &*scenars,
                    replace_with,
                );
                Ok(ExprValue::Str(v))
            },
            RawExpr::List(ls) => {
                let mut values: PerScenario<Vec<String>> = PerScenario::new(Vec::new());
                let ghost env = scenars.externals@;
                proof {
                    assert(views(Seq::<String>::empty()) =~= Seq::<Seq<char>>::empty());
                    assert(ls@.take(0) =~= Seq::<RawExpr>::empty());
                }
                let mut i: usize = 0;
                while i < ls.len()
                    invariant
                        *expr == RawExpr::List(*ls),
                        eval_ok(*expr),
                        all_eval_ok(ls@),
                        gpr.wf(),
                        all_wf(gpr_deps@),
                        *scenars == *old(scenars),
                        env == scenars.externals@,
                        special == (context == Scenario::all() && !scenars.spec_never_matches(Scenario::all())),
                        i <= ls@.len(),
                        values.wf(),
                        eval_list(ls@.take(i as int), *gpr, gpr_deps@, env, current_pkg) == Ok::<(), EvalError>(()),
                        special ==> (eval_list_constant(ls@.take(i as int), *gpr, gpr_deps@, env, current_pkg) matches Some(acc)
                            ==> is_single(values.values@) && views(values.values@[0].1@) == acc),
                    decreases ls.len() - i,
                {
                    proof {
                        assert(decreases_to!(*expr => (*expr)->List_0));
                        assert(decreases_to!(*ls => ls[i as int]));
                        lemma_all_eval_ok(ls@, i as int);
                        assert(ls@.take(i + 1).drop_last() =~= ls@.take(i as int));
                        assert(ls@.take(i + 1).last() == ls@[i as int]);
                        lemma_eval_list_prefix(ls@, i + 1, *gpr, gpr_deps@, env, current_pkg);
                    }
                    let s = match Self::new_with_raw(&ls[i], gpr, gpr_deps, scenars, context, current_pkg) {
                        Ok(v) => v,
                        Err(e) => return Err(e),
                    };
                    match s {
                        ExprValue::Str(per_scenario) => {
                            let ghost before = values.values@;
                            values.update(
                                &per_scenario,
                                context,
                                &*scenars,
                                push_to_list,
                            );
                            proof {
                                if special {
                                    if let Some(acc) = eval_list_constant(ls@.take(i + 1), *gpr, gpr_deps@, env, current_pkg) {
                                        assert(views(values.values@[0].1@) =~= views(before[0].1@).push(per_scenario.values@[0].1@));
                                    }
                                }
                            }
                        },
                        ExprValue::StrList(_) => {
                            return Err(Error::ListCanOnlyContainStrings);
                        },
                    }
                    i = i + 1;
                }
                proof {
                    assert(ls@.take(ls@.len() as int) =~= ls@);
                }
                Ok(ExprValue::StrList(values))
            },
            RawExpr::Ampersand((left, right)) => {
                let l_eval = match Self::new_with_raw(left, gpr, gpr_deps, scenars, context, current_pkg) {
                    Ok(v) => v,
                    Err(e) => return Err(e),
                };
                let r_eval = match Self::new_with_raw(right, gpr, gpr_deps, scenars, context, current_pkg) {
                    Ok(v) => v,
                    Err(e) => return Err(e),
                };
                match (l_eval, r_eval) {
                    (ExprValue::Str(mut ls), ExprValue::Str(rs)) => {
                        let ghost before = ls.values@;
                        ls.update(
                            &rs,
                            context,
                            &*scenars,
                            concat_str,
                        );
                        Ok(ExprValue::Str(ls))
                    },
                    (ExprValue::StrList(mut ls), ExprValue::Str(rs)) => {
                        let ghost before = ls.values@;
                        ls.update(
                            &rs,
                            context,
                            &*scenars,
                            push_to_list,
                        );
                        proof {
                            if special && is_single(before) && is_single(rs.values@) {
                                assert(views(ls.values@[0].1@) =~= views(before[0].1@).push(rs.values@[0].1@));
                            }
                        }
                        Ok(ExprValue::StrList(ls))
                    },
                    (ExprValue::StrList(mut ls), ExprValue::StrList(rs)) => {
                        let ghost before = ls.values@;
                        ls.update(
                            &rs,
                            context,
                            &*scenars,
                            extend_list,
                        );
                        proof {
                            if special && is_single(before) && is_single(rs.values@) {
                                assert(views(ls.values@[0].1@) =~= views(before[0].1@) + views(rs.values@[0].1@));
                            }
                        }
                        Ok(ExprValue::StrList(ls))
                    },
                    _ => Err(Error::WrongAmpersand),
                }
            },
        }
    }
}

} // verus!
