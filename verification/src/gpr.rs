//! A specific GPR file, once processed: the values of its attributes and
//! variables, for each scenario.
use crate::allscenarios::{lemma_vars_kept_find, lemma_vars_kept_refl, lemma_vars_kept_trans, vars_kept, AllScenarios};
use crate::errors::Error;
use crate::packagename::PackageName;
use crate::perscenario::{good_after, is_single, PerScenario};
use crate::qualifiedname::QualifiedName;
use crate::rawexpr::{
    eval_ok, lemma_statements_ok, lemma_whens_ok, spec_find_external, statement_ok, statements_ok, Statement,
    StatementList,
};
use crate::rawgpr::RawGPR;
use crate::scenarios::Scenario;
use crate::simplename::SimpleName;
use crate::qnames::copy_strings;
use crate::strings::{push_str, ends_with, spec_ends_with, owned, sort_strings, sorted_seqs, string_from_chars, chars_of, lemma_perm_views, views};
use crate::scenario_variables::{value_names, ScenarioVariable};
use crate::paths::{path_clean, path_join, path_parent, spec_path_clean, spec_path_join, spec_path_parent};
use crate::directory::Directory;
use crate::values::{eval_result, replace_with, Constant, ExprValue};
use vstd::prelude::*;

verus! {

/// A specific GPR file.
/// Such an object is independent of the scanner that created it, though it
/// needs an environment to resolve paths.
#[derive(Debug)]
pub struct GprFile {
    pub name: String,
    pub path: String,
    /// The node of the project in the dependency graph.
    pub node: usize,
    pub is_abstract: bool,
    pub is_aggregate: bool,
    pub is_library: bool,
    /// For each package, the variables and attributes, with their value for
    /// each scenario.
    pub values: Vec<(PackageName, SimpleName, ExprValue)>,
    /// For each scenario, the source files (path and language).
    pub source_files: Vec<(Scenario, Vec<(String, String)>)>,
}

/// The first position, from `i`, of a name in a package.
pub open spec fn find_value_from(
    v: Seq<(PackageName, SimpleName, ExprValue)>,
    pkg: PackageName,
    name: SimpleName,
    i: int,
) -> Option<int>
    decreases v.len() - i,
{
    if i < 0 || i >= v.len() {
        None
    } else if v[i].0 == pkg && v[i].1.same(&name) {
        Some(i)
    } else {
        find_value_from(v, pkg, name, i + 1)
    }
}

/// The position of a name in a package.
pub open spec fn find_value(
    v: Seq<(PackageName, SimpleName, ExprValue)>,
    pkg: PackageName,
    name: SimpleName,
) -> Option<int> {
    find_value_from(v, pkg, name, 0)
}

/// The value of a name in a package.
pub open spec fn value_of(
    v: Seq<(PackageName, SimpleName, ExprValue)>,
    pkg: PackageName,
    name: SimpleName,
) -> Option<ExprValue> {
    match find_value(v, pkg, name) {
        Some(i) => Some(v[i].2),
        None => None,
    }
}

/// The first project, from position `i`, with that name.
pub open spec fn find_dep_from(deps: Seq<&GprFile>, name: Seq<char>, i: int) -> Option<int>
    decreases deps.len() - i,
{
    if i < 0 || i >= deps.len() {
        None
    } else if deps[i].name@ == name {
        Some(i)
    } else {
        find_dep_from(deps, name, i + 1)
    }
}

proof fn lemma_find_value_from(
    v: Seq<(PackageName, SimpleName, ExprValue)>,
    pkg: PackageName,
    name: SimpleName,
    i: int,
)
    requires
        0 <= i < v.len(),
        !(v[i].0 == pkg && v[i].1.same(&name)),
    ensures
        find_value_from(v, pkg, name, i) == find_value_from(v, pkg, name, i + 1),
{
}

/// The position found for a name holds that name.
proof fn lemma_find_value_in(
    v: Seq<(PackageName, SimpleName, ExprValue)>,
    pkg: PackageName,
    name: SimpleName,
    i: int,
)
    ensures
        find_value_from(v, pkg, name, i) matches Some(j) ==> 0 <= i <= j < v.len() && v[j].0 == pkg
            && v[j].1.same(&name),
    decreases v.len() - i,
{
    if 0 <= i < v.len() && !(v[i].0 == pkg && v[i].1.same(&name)) {
        lemma_find_value_in(v, pkg, name, i + 1);
    }
}

proof fn lemma_find_dep_in(deps: Seq<&GprFile>, name: Seq<char>, i: int)
    ensures
        find_dep_from(deps, name, i) matches Some(j) ==> 0 <= i <= j < deps.len() && deps[j].name@ == name,
    decreases deps.len() - i,
{
    if 0 <= i < deps.len() && deps[i].name@ != name {
        lemma_find_dep_in(deps, name, i + 1);
    }
}

/// All projects of the list are well-formed.
pub open spec fn all_wf(deps: Seq<&GprFile>) -> bool {
    forall|i: int| 0 <= i < deps.len() ==> #[trigger] deps[i].wf()
}

impl GprFile {
    /// All values are well-formed.
    pub open spec fn wf(&self) -> bool {
        forall|i: int| 0 <= i < self.values@.len() ==> #[trigger] self.values@[i].2.wf()
    }

    /// A value found in well-formed projects is well-formed.
    pub proof fn lemma_lookup_wf(&self, name: QualifiedName, deps: Seq<&GprFile>, current_pkg: PackageName)
        requires
            self.wf(),
            all_wf(deps),
        ensures
            self.spec_lookup(name, deps, current_pkg) matches Some(v) ==> v.wf(),
    {
        if let Some(c) = name.project {
            lemma_find_dep_in(deps, c@, 0);
        }
        if let Some(p) = self.spec_lookup_gpr(name, deps) {
            assert(p.wf());
            lemma_find_value_in(p.values@, current_pkg, name.name, 0);
            lemma_find_value_in(p.values@, name.package, name.name, 0);
        }
    }

    /// The project in which a qualified name is looked up: self, or one of
    /// its dependencies.
    pub open spec fn spec_lookup_gpr(&self, name: QualifiedName, deps: Seq<&GprFile>) -> Option<GprFile> {
        match name.project {
            None => Some(*self),
            Some(c) => if c@ == self.name@ {
                Some(*self)
            } else {
                match find_dep_from(deps, c@, 0) {
                    Some(i) => Some(*deps[i]),
                    None => None,
                }
            },
        }
    }

    /// The value of a qualified name, looked up in self or its
    /// dependencies.  An unqualified name is first searched in the current
    /// package.
    pub open spec fn spec_lookup(
        &self,
        name: QualifiedName,
        deps: Seq<&GprFile>,
        current_pkg: PackageName,
    ) -> Option<ExprValue> {
        match self.spec_lookup_gpr(name, deps) {
            None => None,
            Some(p) => {
                let first = if name.package == PackageName::Top && current_pkg != PackageName::Top {
                    value_of(p.values@, current_pkg, name.name)
                } else {
                    None
                };
                match first {
                    Some(v) => Some(v),
                    None => value_of(p.values@, name.package, name.name),
                }
            },
        }
    }

    /// The value of a name in a package of this project.
    pub fn get(&self, pkg: PackageName, name: &SimpleName) -> (r: Option<&ExprValue>)
        ensures
            match value_of(self.values@, pkg, *name) {
                Some(v) => r == Some(&v),
                None => r is None,
            },
    {
        let mut i: usize = 0;
        while i < self.values.len()
            invariant
                i <= self.values@.len(),
                find_value(self.values@, pkg, *name) == find_value_from(self.values@, pkg, *name, i as int),
            decreases self.values.len() - i,
        {
            if self.values[i].0 == pkg && self.values[i].1.is_same(name) {
                return Some(&self.values[i].2);
            }
            proof {
                lemma_find_value_from(self.values@, pkg, *name, i as int);
            }
            i = i + 1;
        }
        None
    }

    /// Lookup the project file referenced by the given name, in self or its
    /// dependencies.
    pub fn lookup_gpr<'a>(&'a self, name: &QualifiedName, dependencies: &'a [&'a GprFile]) -> (r:
        Result<&'a GprFile, Error>)
        ensures
            match self.spec_lookup_gpr(*name, dependencies@) {
                Some(p) => r == Ok::<&GprFile, Error>(&p),
                None => r matches Err(Error::NotFound(n)) && n@ == name.description(),
            },
    {
        match &name.project {
            None => Ok(self),
            Some(c) => {
                if *c == self.name {
                    return Ok(self);
                }
                let mut i: usize = 0;
                while i < dependencies.len()
                    invariant
                        i <= dependencies@.len(),
                        name.project == Some(*c),
                        c@ != self.name@,
                        find_dep_from(dependencies@, c@, 0) == find_dep_from(dependencies@, c@, i as int),
                    decreases dependencies.len() - i,
                {
                    if dependencies[i].name == *c {
                        assert(find_dep_from(dependencies@, c@, i as int) == Some(i as int));
                        return Ok(dependencies[i]);
                    }
                    i = i + 1;
                }
                Err(Error::not_found(name.describe()))
            },
        }
    }

    /// After a project has been processed, we can lookup values of variables
    /// and attributes directly, for each scenario.
    /// The lookup is also done in imported projects.
    pub fn lookup<'a>(
        &'a self,
        name: &QualifiedName,
        dependencies: &'a [&'a GprFile],
        current_pkg: PackageName,
    ) -> (r: Result<&'a ExprValue, Error>)
        ensures
            match self.spec_lookup(*name, dependencies@, current_pkg) {
                Some(v) => r == Ok::<&ExprValue, Error>(&v),
                None => r matches Err(Error::NotFound(n)) && n@ == name.description(),
            },
    {
        let project = match self.lookup_gpr(name, dependencies) {
            Ok(p) => p,
            Err(e) => return Err(e),
        };
        if name.package == PackageName::Top && current_pkg != PackageName::Top {
            if let Some(v) = project.get(current_pkg, &name.name) {
                return Ok(v);
            }
        }
        match project.get(name.package, &name.name) {
            Some(v) => Ok(v),
            None => Err(Error::not_found(name.describe())),
        }
    }
}


/// Whether this is an attribute we want to keep in the project.
pub open spec fn spec_keep_attribute(name: SimpleName) -> bool {
    name is BodySuffix || name is Body || name is ExcludedSourceFiles || name is Languages || name is Main
        || name is ProjectFiles || name is SourceDirs || name is SourceFiles || name is Spec
        || name is SpecSuffix || name is SourceListFile
}

/// Is this an attribute we want to keep in the project ?
pub fn keep_attribute(name: &SimpleName) -> (r: bool)
    ensures
        r == spec_keep_attribute(*name),
{
    matches!(
        name,
        SimpleName::BodySuffix(_) | SimpleName::Body(_) | SimpleName::ExcludedSourceFiles
            | SimpleName::Languages | SimpleName::Main | SimpleName::ProjectFiles
            | SimpleName::SourceDirs | SimpleName::SourceFiles | SimpleName::Spec(_)
            | SimpleName::SpecSuffix(_) | SimpleName::SourceListFile
    )
}

/// The entries whose name is kept.
pub open spec fn kept_values(v: Seq<(PackageName, SimpleName, ExprValue)>) -> Seq<(PackageName, SimpleName, ExprValue)>
    decreases v.len(),
{
    if v.len() == 0 {
        v
    } else if spec_keep_attribute(v.last().1) {
        kept_values(v.drop_last()).push(v.last())
    } else {
        kept_values(v.drop_last())
    }
}

/// A value that does not depend on scenarios.
pub open spec fn is_const_str(v: ExprValue, s: Seq<char>) -> bool {
    v.wf() && v.constant() == Some(Constant::Str(s))
}

/// A list of strings that does not depend on scenarios.
pub open spec fn is_const_list(v: ExprValue, l: Seq<Seq<char>>) -> bool {
    v.wf() && v.constant() == Some(Constant::List(l))
}

/// Whether the entry is a default value of the Naming package for a
/// language: `spec` tells whether it is the suffix of specs.
pub open spec fn is_suffix_default(
    e: (PackageName, SimpleName, ExprValue),
    spec: bool,
    lang: Seq<char>,
    suffix: Seq<char>,
) -> bool {
    &&& e.0 == PackageName::Naming
    &&& if spec {
        e.1 matches SimpleName::SpecSuffix(l) && l@ == lang
    } else {
        e.1 matches SimpleName::BodySuffix(l) && l@ == lang
    }
    &&& is_const_str(e.2, suffix)
}

/// The values of a project before its file is processed.
pub open spec fn default_values(v: Seq<(PackageName, SimpleName, ExprValue)>) -> bool {
    &&& v.len() == 13
    &&& v[0].0 == PackageName::Top && v[0].1 == SimpleName::Target && is_const_str(v[0].2, "x86_64-linux"@)
    &&& v[1].0 == PackageName::Linker && v[1].1 == SimpleName::LinkerOptions && is_const_list(v[1].2, seq![])
    &&& v[2].0 == PackageName::Top && v[2].1 == SimpleName::SourceDirs && is_const_list(v[2].2, seq!["."@])
    &&& v[3].0 == PackageName::Top && v[3].1 == SimpleName::ObjectDir && is_const_list(v[3].2, seq!["."@])
    &&& v[4].0 == PackageName::Top && v[4].1 == SimpleName::ExecDir && is_const_list(v[4].2, seq!["."@])
    &&& v[5].0 == PackageName::Top && v[5].1 == SimpleName::Languages && is_const_list(v[5].2, seq!["ada"@])
    &&& v[6].0 == PackageName::Naming && v[6].1 == SimpleName::DotReplacement && is_const_str(v[6].2, "-"@)
    &&& is_suffix_default(v[7], true, "ada"@, ".ads"@)
    &&& is_suffix_default(v[8], false, "ada"@, ".adb"@)
    &&& is_suffix_default(v[9], true, "c++"@, ".hh"@)
    &&& is_suffix_default(v[10], false, "c++"@, ".cpp"@)
    &&& is_suffix_default(v[11], true, "c"@, ".h"@)
    &&& is_suffix_default(v[12], false, "c"@, ".c"@)
}

/// A list holding one string.
fn one_string(s: &str) -> (r: Vec<String>)
    ensures
        views(r@) == seq![s@],
{
    let mut v: Vec<String> = Vec::new();
    v.push(owned(s));
    assert(views(v@) =~= seq![s@]);
    v
}

/// Everything but the values of a project is the same.
pub open spec fn same_header(a: GprFile, b: GprFile) -> bool {
    &&& a.name == b.name
    &&& a.path == b.path
    &&& a.node == b.node
    &&& a.is_abstract == b.is_abstract
    &&& a.is_aggregate == b.is_aggregate
    &&& a.is_library == b.is_library
    &&& a.source_files == b.source_files
}

/// What processing keeps of the scenarios: their consistency, the
/// variables already declared and the environment.
pub open spec fn scenarios_kept(a: AllScenarios, b: AllScenarios) -> bool {
    &&& b.wf()
    &&& b.externals == a.externals
    &&& vars_kept(a.variables@, b.variables@)
}

impl GprFile {
    /// Creates a project with the default values of its attributes.
    pub fn new(path: String, is_abstract: bool, is_aggregate: bool, is_library: bool, node: usize) -> (r: Self)
        ensures
            r.wf(),
            r.path == path,
            r.name@.len() == 0,
            r.node == node,
            r.is_abstract == is_abstract,
            r.is_aggregate == is_aggregate,
            r.is_library == is_library,
            r.source_files@.len() == 0,
            default_values(r.values@),
    {
        let mut v: Vec<(PackageName, SimpleName, ExprValue)> = Vec::new();
        // Declare the fallback value for "project'Target" attribute.
        v.push((PackageName::Top, SimpleName::Target, ExprValue::new_with_str(owned("x86_64-linux"))));
        v.push((PackageName::Linker, SimpleName::LinkerOptions, ExprValue::new_with_list(Vec::new())));
        v.push((PackageName::Top, SimpleName::SourceDirs, ExprValue::new_with_list(one_string("."))));
        v.push((PackageName::Top, SimpleName::ObjectDir, ExprValue::new_with_list(one_string("."))));
        v.push((PackageName::Top, SimpleName::ExecDir, ExprValue::new_with_list(one_string("."))));
        v.push((PackageName::Top, SimpleName::Languages, ExprValue::new_with_list(one_string("ada"))));
        v.push((PackageName::Naming, SimpleName::DotReplacement, ExprValue::new_with_str(owned("-"))));
        v.push((PackageName::Naming, SimpleName::SpecSuffix(owned("ada")), ExprValue::new_with_str(owned(".ads"))));
        v.push((PackageName::Naming, SimpleName::BodySuffix(owned("ada")), ExprValue::new_with_str(owned(".adb"))));
        v.push((PackageName::Naming, SimpleName::SpecSuffix(owned("c++")), ExprValue::new_with_str(owned(".hh"))));
        v.push((PackageName::Naming, SimpleName::BodySuffix(owned("c++")), ExprValue::new_with_str(owned(".cpp"))));
        v.push((PackageName::Naming, SimpleName::SpecSuffix(owned("c")), ExprValue::new_with_str(owned(".h"))));
        v.push((PackageName::Naming, SimpleName::BodySuffix(owned("c")), ExprValue::new_with_str(owned(".c"))));
        proof {
            assert(views(Seq::<String>::empty()) =~= seq![]);
        }
        GprFile {
            name: String::new(),
            path,
            node,
            is_abstract,
            is_aggregate,
            is_library,
            values: v,
            source_files: Vec::new(),
        }
    }

    /// Trim attributes and variables that will no longer be used.
    /// This is optional, and just a way to reduce the number of combinations
    /// that we will need to look at for scenarios.
    pub fn trim(&mut self)
        ensures
            same_header(*final(self), *old(self)),
            final(self).values@ == kept_values(old(self).values@),
            old(self).wf() ==> final(self).wf(),
    {
        let mut kept: Vec<(PackageName, SimpleName, ExprValue)> = Vec::new();
        let ghost orig = self.values@;
        let mut rest: Vec<(PackageName, SimpleName, ExprValue)> = Vec::new();
        std::mem::swap(&mut rest, &mut self.values);
        // Walk the entries from the last, so that they can be moved out.
        let mut tail: Vec<(PackageName, SimpleName, ExprValue)> = Vec::new();
        while rest.len() > 0
            invariant
                orig == rest@ + tail@.reverse(),
                same_header(*self, *old(self)),
                self.values@.len() == 0,
            decreases rest.len(),
        {
            let e = rest.pop().unwrap();
            let ghost t = tail@;
            tail.push(e);
            assert(tail@.reverse() =~= seq![e] + t.reverse());
            assert(orig =~= rest@ + tail@.reverse());
        }
        assert(orig =~= tail@.reverse());
        let ghost n = orig.len();
        assert(orig.skip(0) =~= orig);
        while tail.len() > 0
            invariant
                tail@.reverse() == orig.skip(n - tail@.len()),
                n == orig.len(),
                same_header(*self, *old(self)),
                tail@.len() <= n,
                kept@ == kept_values(orig.take(n - tail@.len())),
                self.values@.len() == 0,
            decreases tail.len(),
        {
            let ghost before = tail@;
            let e = tail.pop().unwrap();
            let ghost k = n - before.len();
            proof {
                assert(orig[k] == e) by {
                    assert(before.reverse()[0] == e);
                    assert(orig.skip(k)[0] == orig[k]);
                }
                assert(tail@.reverse() =~= orig.skip(k + 1)) by {
                    assert forall|j: int| 0 <= j < tail@.len() implies tail@.reverse()[j] == orig.skip(k + 1)[j] by {
                        assert(tail@.reverse()[j] == before.reverse()[j + 1]);
                    }
                }
                assert(orig.take(k + 1).drop_last() =~= orig.take(k));
                assert(orig.take(k + 1).last() == e);
            }
            if keep_attribute(&e.1) {
                kept.push(e);
            }
        }
        assert(orig.take(n as int) =~= orig);
        self.values = kept;
        proof {
            if old(self).wf() {
                lemma_kept_values_wf(orig);
            }
        }
    }
}

proof fn lemma_kept_values_wf(v: Seq<(PackageName, SimpleName, ExprValue)>)
    requires
        forall|i: int| 0 <= i < v.len() ==> #[trigger] v[i].2.wf(),
    ensures
        forall|i: int| 0 <= i < kept_values(v).len() ==> #[trigger] kept_values(v)[i].2.wf(),
    decreases v.len(),
{
    if v.len() > 0 {
        let d = v.drop_last();
        assert forall|i: int| 0 <= i < d.len() implies #[trigger] d[i].2.wf() by {
            assert(d[i] == v[i]);
        }
        lemma_kept_values_wf(d);
        let k = kept_values(v);
        assert forall|i: int| 0 <= i < k.len() implies #[trigger] k[i].2.wf() by {
            if spec_keep_attribute(v.last().1) && i == k.len() - 1 {
                assert(k[i] == v.last());
            } else {
                assert(k[i] == kept_values(d)[i]);
            }
        }
    }
}


/// The value of a name after a new declaration `v` in the context, where it
/// had the value `o`: two strings, or two lists, are merged by `update` (the
/// new value applies in the context, the old one elsewhere); otherwise the
/// new value replaces the old one.
pub open spec fn declared_after(o: ExprValue, v: ExprValue, scenars: AllScenarios, context: Scenario, n: ExprValue) -> bool {
    match (o, v) {
        (ExprValue::Str(a), ExprValue::Str(b)) => n matches ExprValue::Str(f) && good_after(
            a.values@,
            b.values@,
            scenars,
            context,
            replace_with,
            f.values@,
            b.values@.len() as int,
        ),
        (ExprValue::StrList(a), ExprValue::StrList(b)) => n matches ExprValue::StrList(f) && good_after(
            a.values@,
            b.values@,
            scenars,
            context,
            replace_list,
            f.values@,
            b.values@.len() as int,
        ),
        _ => n == v,
    }
}

/// A source directory of a project in `gpr`, resolved: relative to the
/// project's directory (and cleaned, unless symbolic links are resolved),
/// with whether its subdirectories count too (it ends with "/**").
pub open spec fn dir_pattern(gpr: Seq<char>, d: Seq<char>, resolve_symbolic_links: bool) -> (Seq<char>, bool) {
    let parent = spec_path_parent(gpr)->0;
    let recursive = spec_ends_with(d, "/**"@);
    let rel = if recursive { d.subrange(0, d.len() - 3) } else { d };
    let joined = spec_path_join(parent, rel);
    (if resolve_symbolic_links { joined } else { spec_path_clean(joined) }, recursive)
}

/// The resolved source directories, in order; none where the project file
/// has no parent directory.
pub open spec fn dirs_resolved(gpr: Seq<char>, dirs: Seq<String>, resolve_symbolic_links: bool, r: Seq<(String, bool)>) -> bool
    decreases dirs.len(),
{
    if spec_path_parent(gpr) is None {
        r.len() == 0
    } else if dirs.len() == 0 {
        r.len() == 0
    } else {
        r.len() == dirs.len() && dirs_resolved(gpr, dirs.drop_last(), resolve_symbolic_links, r.drop_last())
            && (r.last().0@, r.last().1) == dir_pattern(gpr, dirs.last()@, resolve_symbolic_links)
    }
}

/// Replaces a list by another.
pub fn replace_list(_v1: Vec<String>, v2: &Vec<String>) -> (r: Vec<String>)
    ensures
        r@ == v2@,
{
    copy_strings(v2.as_slice())
}

/// Changing an entry without changing its name keeps all positions.
proof fn lemma_find_value_update(
    v: Seq<(PackageName, SimpleName, ExprValue)>,
    i: int,
    e: (PackageName, SimpleName, ExprValue),
    pkg: PackageName,
    name: SimpleName,
    k: int,
)
    requires
        0 <= i < v.len(),
        e.0 == v[i].0,
        e.1 == v[i].1,
    ensures
        find_value_from(v.update(i, e), pkg, name, k) == find_value_from(v, pkg, name, k),
    decreases v.len() - k,
{
    if 0 <= k < v.len() {
        lemma_find_value_update(v, i, e, pkg, name, k + 1);
    }
}

/// Adding an entry at the end keeps all positions, and finds the new name
/// when it was not there.
proof fn lemma_find_value_push(
    v: Seq<(PackageName, SimpleName, ExprValue)>,
    e: (PackageName, SimpleName, ExprValue),
    pkg: PackageName,
    name: SimpleName,
    k: int,
)
    requires
        0 <= k <= v.len(),
    ensures
        find_value_from(v.push(e), pkg, name, k) == match find_value_from(v, pkg, name, k) {
            Some(j) => Some(j),
            None => if e.0 == pkg && e.1.same(&name) {
                Some(v.len() as int)
            } else {
                None
            },
        },
    decreases v.len() - k,
{
    assert(v.push(e)[v.len() as int] == e);
    if k < v.len() {
        assert(v.push(e)[k] == v[k]);
        lemma_find_value_push(v, e, pkg, name, k + 1);
    }
}

/// Whether two projects have the same values for all names but one.
pub open spec fn others_unchanged(
    a: Seq<(PackageName, SimpleName, ExprValue)>,
    b: Seq<(PackageName, SimpleName, ExprValue)>,
    pkg: PackageName,
    name: SimpleName,
) -> bool {
    forall|p2: PackageName, n2: SimpleName|
        !(p2 == pkg && name.same(&n2)) ==> #[trigger] value_of(b, p2, n2) == value_of(a, p2, n2)
}

/// Every name that had a value still has one.
pub open spec fn names_kept(a: Seq<(PackageName, SimpleName, ExprValue)>, b: Seq<(PackageName, SimpleName, ExprValue)>) -> bool {
    forall|p: PackageName, n: SimpleName| value_of(a, p, n) is Some ==> #[trigger] value_of(b, p, n) is Some
}

/// Values with the same scenarios combine them into the same mask.
proof fn lemma_and_all_keys(a: Seq<(Scenario, String)>, b: Seq<(Scenario, String)>)
    requires
        a.len() == b.len(),
        forall|k: int| #![trigger a[k]] 0 <= k < a.len() ==> a[k].0 == b[k].0,
    ensures
        crate::allscenarios::and_all(a) == crate::allscenarios::and_all(b),
    decreases a.len(),
{
    if a.len() > 0 {
        assert forall|k: int| #![trigger a.drop_last()[k]] 0 <= k < a.drop_last().len() implies a.drop_last()[k].0
            == b.drop_last()[k].0 by {
            assert(a[k].0 == b[k].0);
        }
        lemma_and_all_keys(a.drop_last(), b.drop_last());
        assert(a.last().0 == b.last().0) by {
            assert(a[a.len() - 1].0 == b[a.len() - 1].0);
        }
    }
}

/// Lists with the same names, in the same order, find a name at the same
/// position.
proof fn lemma_same_keys(
    a: Seq<(PackageName, SimpleName, ExprValue)>,
    b: Seq<(PackageName, SimpleName, ExprValue)>,
    pkg: PackageName,
    name: SimpleName,
    i: int,
)
    requires
        a.len() == b.len(),
        forall|k: int| #![trigger a[k]] 0 <= k < a.len() ==> a[k].0 == b[k].0 && a[k].1 == b[k].1,
    ensures
        find_value_from(a, pkg, name, i) == find_value_from(b, pkg, name, i),
    decreases a.len() - i,
{
    if 0 <= i < a.len() {
        assert(a[i].0 == b[i].0 && a[i].1 == b[i].1);
        lemma_same_keys(a, b, pkg, name, i + 1);
    }
}

/// Names that are the same are found at the same position.
proof fn lemma_find_value_same(v: Seq<(PackageName, SimpleName, ExprValue)>, pkg: PackageName, a: SimpleName, b: SimpleName, i: int)
    requires
        a.same(&b),
    ensures
        find_value_from(v, pkg, a, i) == find_value_from(v, pkg, b, i),
    decreases v.len() - i,
{
    if 0 <= i < v.len() {
        if v[i].1.same(&a) {
            crate::simplename::lemma_same_shared(a, v[i].1, b);
            assert(v[i].1.same(&b));
        } else if v[i].1.same(&b) {
            assert(b.same(&a));
            crate::simplename::lemma_same_shared(b, v[i].1, a);
            assert(v[i].1.same(&a));
        }
        lemma_find_value_same(v, pkg, a, b, i + 1);
    }
}

/// Changing only the value of a name, which then has a value, keeps all
/// the names.
proof fn lemma_names_kept(
    a: Seq<(PackageName, SimpleName, ExprValue)>,
    b: Seq<(PackageName, SimpleName, ExprValue)>,
    pkg: PackageName,
    name: SimpleName,
)
    requires
        others_unchanged(a, b, pkg, name),
        value_of(b, pkg, name) is Some,
    ensures
        names_kept(a, b),
{
    assert forall|p: PackageName, n: SimpleName| value_of(a, p, n) is Some implies #[trigger] value_of(b, p, n) is Some by {
        if p == pkg && name.same(&n) {
            lemma_find_value_same(b, pkg, name, n, 0);
        } else {
            assert(value_of(b, p, n) == value_of(a, p, n));
        }
    }
}

/// The entries of a package, in order.
pub open spec fn package_entries(v: Seq<(PackageName, SimpleName, ExprValue)>, pkg: PackageName) -> Seq<
    (PackageName, SimpleName, ExprValue),
>
    decreases v.len(),
{
    if v.len() == 0 {
        Seq::empty()
    } else if v.last().0 == pkg {
        package_entries(v.drop_last(), pkg).push(v.last())
    } else {
        package_entries(v.drop_last(), pkg)
    }
}

/// Keeping the names is transitive.
proof fn lemma_names_kept_trans(
    a: Seq<(PackageName, SimpleName, ExprValue)>,
    b: Seq<(PackageName, SimpleName, ExprValue)>,
    c: Seq<(PackageName, SimpleName, ExprValue)>,
)
    requires
        names_kept(a, b),
        names_kept(b, c),
    ensures
        names_kept(a, c),
{
    assert forall|p: PackageName, n: SimpleName| value_of(a, p, n) is Some implies #[trigger] value_of(c, p, n) is Some by {
        assert(value_of(b, p, n) is Some);
    }
}

/// The strings of the list that a type declares, if it is a non-empty list.
pub open spec fn type_values(g: GprFile, deps: Seq<&GprFile>, pkg: PackageName, tn: QualifiedName) -> Option<Seq<Seq<char>>> {
    match g.spec_lookup(tn, deps, pkg) {
        Some(ExprValue::StrList(p)) => if p.values@.len() > 0 {
            Some(views(p.values@[0].1@))
        } else {
            None
        },
        _ => None,
    }
}

/// The value of a scenario variable: in the scenarios of each of its values
/// (whatever the other variables), that value.
pub open spec fn variable_value(per: PerScenario<String>, var: ScenarioVariable) -> bool {
    &&& per.values@.len() == var.valid@.len()
    &&& forall|i: int|
        0 <= i < var.valid@.len() ==> #[trigger] per.values@[i].0 == Scenario(var.valid@[i].1.0 | !var.full_mask.0)
            && per.values@[i].1@ == var.valid@[i].0@
}

/// After a declaration `name : Type := external ("ext")`: `ext` is a
/// scenario variable whose values are those of the type, sorted; and `name`
/// has, within the context, the value of that variable in each scenario
/// (the old value elsewhere, as `declare` merges them).
pub open spec fn typed_external_declared(
    tv: Seq<Seq<char>>,
    ext: Seq<char>,
    scenars: AllScenarios,
    old_value: Option<ExprValue>,
    new_value: Option<ExprValue>,
    context: Scenario,
) -> bool {
    exists|k: int|
        0 <= k < scenars.variables@.len() && #[trigger] scenars.variables@[k].name@ == ext && {
            let var = scenars.variables@[k];
            &&& sorted_seqs(value_names(var.valid@))
            &&& value_names(var.valid@).len() == tv.len()
            &&& forall|x: Seq<char>| #[trigger] value_names(var.valid@).contains(x) <==> tv.contains(x)
            &&& exists|per: PerScenario<String>|
                #[trigger] variable_value(per, var) && match old_value {
                    None => new_value == Some(ExprValue::Str(per)),
                    Some(o) => new_value matches Some(n) && declared_after(o, ExprValue::Str(per), scenars, context, n),
                }
        }
}

/// Whether a declaration statement gave its name a value in the package.
pub open spec fn declared_in(st: Statement, pkg: PackageName, values: Seq<(PackageName, SimpleName, ExprValue)>) -> bool {
    match st {
        Statement::TypeDecl { typename, .. } => value_of(values, pkg, SimpleName::Name(typename)) is Some,
        Statement::VariableDecl { name, .. } => value_of(values, pkg, SimpleName::Name(name)) is Some,
        Statement::AttributeDecl { name, .. } => value_of(values, pkg, name) is Some,
        _ => true,
    }
}

/// The project found for a name is well-formed.
proof fn lemma_lookup_gpr_wf(gpr: GprFile, name: QualifiedName, deps: Seq<&GprFile>)
    requires
        gpr.wf(),
        all_wf(deps),
    ensures
        gpr.spec_lookup_gpr(name, deps) matches Some(p) ==> p.wf(),
{
    if let Some(c) = name.project {
        lemma_find_dep_in(deps, c@, 0);
    }
}

/// Keeping scenarios is transitive.
proof fn lemma_scenarios_kept_trans(a: AllScenarios, b: AllScenarios, c: AllScenarios)
    requires
        scenarios_kept(a, b),
        scenarios_kept(b, c),
    ensures
        scenarios_kept(a, c),
{
    lemma_vars_kept_trans(a.variables@, b.variables@, c.variables@);
}

impl GprFile {
    /// The position of a name in a package, if present.
    fn find(&self, pkg: PackageName, name: &SimpleName) -> (r: Option<usize>)
        ensures
            r matches Some(i) ==> find_value(self.values@, pkg, *name) == Some(i as int),
            r is None ==> find_value(self.values@, pkg, *name) is None,
    {
        let mut i: usize = 0;
        while i < self.values.len()
            invariant
                i <= self.values@.len(),
                find_value(self.values@, pkg, *name) == find_value_from(self.values@, pkg, *name, i as int),
            decreases self.values.len() - i,
        {
            if self.values[i].0 == pkg && self.values[i].1.is_same(name) {
                return Some(i);
            }
            proof {
                lemma_find_value_from(self.values@, pkg, *name, i as int);
            }
            i = i + 1;
        }
        None
    }

    /// Sets the value of a name in a package, replacing any previous value.
    pub fn set_value(&mut self, package: PackageName, name: SimpleName, value: ExprValue)
        requires
            old(self).wf(),
            value.wf(),
        ensures
            final(self).wf(),
            same_header(*final(self), *old(self)),
            value_of(final(self).values@, package, name) == Some(value),
            others_unchanged(old(self).values@, final(self).values@, package, name),
    {
        let ghost v0 = self.values@;
        match self.find(package, &name) {
            None => {
                let ghost e = (package, name, value);
                self.values.push((package, name, value));
                proof {
                    lemma_find_value_push(v0, e, package, name, 0);
                    assert(name.same(&name));
                    assert forall|p2: PackageName, n2: SimpleName|
                        !(p2 == package && name.same(&n2)) implies #[trigger] value_of(self.values@, p2, n2)
                        == value_of(v0, p2, n2) by {
                        lemma_find_value_push(v0, e, p2, n2, 0);
                        lemma_find_value_in(v0, p2, n2, 0);
                    }
                }
            },
            Some(i) => {
                proof {
                    lemma_find_value_in(v0, package, name, 0);
                }
                let (p, n, _old_value) = self.values.remove(i);
                let ghost e = (p, n, value);
                self.values.insert(i, (p, n, value));
                proof {
                    assert(self.values@ =~= v0.update(i as int, e));
                    lemma_find_value_update(v0, i as int, e, package, name, 0);
                    assert forall|p2: PackageName, n2: SimpleName|
                        !(p2 == package && name.same(&n2)) implies #[trigger] value_of(self.values@, p2, n2)
                        == value_of(v0, p2, n2) by {
                        lemma_find_value_update(v0, i as int, e, p2, n2, 0);
                        lemma_find_value_in(v0, p2, n2, 0);
                        if v0[i as int].1.same(&n2) {
                            lemma_find_value_in(v0, package, name, 0);
                            assert(find_value(v0, package, name) == Some(i as int));
                            assert(v0[i as int].1.same(&name));
                            crate::simplename::lemma_same_shared(v0[i as int].1, name, n2);
                        }
                    }
                }
            },
        }
    }

    /// Declare a new named object, or change the value of an existing one
    /// within the given scenario (its value in other scenarios is left
    /// unchanged).
    pub fn declare(
        &mut self,
        package: PackageName,
        name: SimpleName,
        context: Scenario,
        scenars: &mut AllScenarios,
        value: ExprValue,
    ) -> (r: Result<(), Error>)
        requires
            old(self).wf(),
            value.wf(),
        ensures
            r is Ok,
            final(self).wf(),
            same_header(*final(self), *old(self)),
            *final(scenars) == *old(scenars),
            others_unchanged(old(self).values@, final(self).values@, package, name),
            value_of(final(self).values@, package, name) is Some,
            names_kept(old(self).values@, final(self).values@),
            value_of(old(self).values@, package, name) is None ==> value_of(final(self).values@, package, name)
                == Some(value),
            old(scenars).wf() ==> (value_of(old(self).values@, package, name) matches Some(o) ==> declared_after(
                o,
                value,
                *old(scenars),
                context,
                value_of(final(self).values@, package, name)->0,
            )),
            // A value that does not depend on scenarios replaces another one.
            context == Scenario::all() && !old(scenars).spec_never_matches(Scenario::all()) && value.constant() is Some
                && (value_of(old(self).values@, package, name) matches Some(o) ==> o.constant() is Some)
                ==> value_of(final(self).values@, package, name).unwrap().constant() == value.constant(),
    {
        let ghost v0 = self.values@;
        match self.find(package, &name) {
            None => {
                self.set_value(package, name, value);
            },
            Some(i) => {
                proof {
                    lemma_find_value_in(v0, package, name, 0);
                    assert(self.values@[i as int].2.wf());
                }
                let (p, n, old_value) = self.values.remove(i);
                let new_value = match (old_value, value) {
                    (ExprValue::Str(mut o), ExprValue::Str(v)) => {
                        o.update(&v, context, &*scenars, replace_with);
                        ExprValue::Str(o)
                    },
                    (ExprValue::StrList(mut o), ExprValue::StrList(v)) => {
                        let ghost before = o.values@;
                        o.update(&v, context, &*scenars, replace_list);
                        proof {
                            if is_single(before) && is_single(v.values@) && context == Scenario::all()
                                && !scenars.spec_never_matches(Scenario::all()) {
                                assert(views(o.values@[0].1@) =~= views(v.values@[0].1@));
                            }
                        }
                        ExprValue::StrList(o)
                    },
                    (_, v) => v,
                };
                let ghost e = (p, n, new_value);
                self.values.insert(i, (p, n, new_value));
                proof {
                    assert(self.values@ =~= v0.update(i as int, e));
                    lemma_find_value_update(v0, i as int, e, package, name, 0);
                    assert forall|p2: PackageName, n2: SimpleName|
                        !(p2 == package && name.same(&n2)) implies #[trigger] value_of(self.values@, p2, n2)
                        == value_of(v0, p2, n2) by {
                        lemma_find_value_update(v0, i as int, e, p2, n2, 0);
                        lemma_find_value_in(v0, p2, n2, 0);
                        if v0[i as int].1.same(&n2) {
                            lemma_find_value_in(v0, package, name, 0);
                            assert(find_value(v0, package, name) == Some(i as int));
                            assert(v0[i as int].1.same(&name));
                            crate::simplename::lemma_same_shared(v0[i as int].1, name, n2);
                        }
                    }
                }
            },
        }
        proof {
            lemma_names_kept(old(self).values@, self.values@, package, name);
        }
        Ok(())
    }

    /// The names and values of a package, copied.
    fn package_values(&self, pkg: PackageName) -> (r: Vec<(SimpleName, ExprValue)>)
        requires
            self.wf(),
        ensures
            forall|i: int| 0 <= i < r@.len() ==> #[trigger] r@[i].1.wf(),
            r@.len() == package_entries(self.values@, pkg).len(),
            forall|i: int| 0 <= i < r@.len() ==> #[trigger] r@[i].0 == package_entries(self.values@, pkg)[i].1,
            forall|i: int| 0 <= i < r@.len() ==> #[trigger] r@[i].1.same_value(&package_entries(self.values@, pkg)[i].2),
    {
        let mut r: Vec<(SimpleName, ExprValue)> = Vec::new();
        let mut i: usize = 0;
        while i < self.values.len()
            invariant
                self.wf(),
                i <= self.values@.len(),
                forall|k: int| 0 <= k < r@.len() ==> #[trigger] r@[k].1.wf(),
                r@.len() == package_entries(self.values@.take(i as int), pkg).len(),
                forall|k: int|
                    0 <= k < r@.len() ==> #[trigger] r@[k].0 == package_entries(self.values@.take(i as int), pkg)[k].1
                        && r@[k].1.same_value(&package_entries(self.values@.take(i as int), pkg)[k].2),
            decreases self.values.len() - i,
        {
            proof {
                assert(self.values@.take(i + 1).drop_last() =~= self.values@.take(i as int));
                assert(self.values@.take(i + 1).last() == self.values@[i as int]);
            }
            if self.values[i].0 == pkg {
                proof {
                    assert(self.values@[i as int].2.wf());
                }
                r.push((self.values[i].1.dup(), self.values[i].2.dup()));
            }
            i = i + 1;
        }
        proof {
            assert(self.values@.take(i as int) =~= self.values@);
            let pe = package_entries(self.values@, pkg);
            assert(package_entries(self.values@.take(i as int), pkg) == pe);
            assert forall|k: int| 0 <= k < r@.len() implies #[trigger] r@[k].0 == pe[k].1 by {
                assert(r@[k].0 == package_entries(self.values@.take(i as int), pkg)[k].1);
            }
            assert forall|k: int| 0 <= k < r@.len() implies #[trigger] r@[k].1.same_value(&pe[k].2) by {
                assert(r@[k].0 == package_entries(self.values@.take(i as int), pkg)[k].1);
            }
        }
        r
    }

    /// Process one statement
    fn process_one_stmt(
        &mut self,
        dependencies: &[&GprFile],
        scenarios: &mut AllScenarios,
        current_scenario: Scenario,
        current_pkg: PackageName,
        statement: &Statement,
    ) -> (r: Result<(), Error>)
        requires
            old(self).wf(),
            all_wf(dependencies@),
            old(scenarios).wf(),
            statement_ok(*statement),
        ensures
            final(self).wf(),
            same_header(*final(self), *old(self)),
            scenarios_kept(*old(scenarios), *final(scenarios)),
            // No name loses its value.
            names_kept(old(self).values@, final(self).values@),
            // A declaration makes its name known.
            r is Ok ==> match *statement {
                Statement::TypeDecl { typename, .. } => value_of(
                    final(self).values@,
                    current_pkg,
                    SimpleName::Name(typename),
                ) is Some,
                Statement::VariableDecl { name, .. } => value_of(
                    final(self).values@,
                    current_pkg,
                    SimpleName::Name(name),
                ) is Some,
                Statement::AttributeDecl { name, .. } => value_of(final(self).values@, current_pkg, name) is Some,
                _ => true,
            },
            // A declaration fails exactly when its expression cannot be
            // evaluated.
            match *statement {
                Statement::TypeDecl { valid, .. } => r is Ok <==> eval_result(
                    valid,
                    *old(self),
                    dependencies@,
                    old(scenarios).externals@,
                    current_pkg,
                ) is Ok,
                Statement::AttributeDecl { value, .. } => r is Ok <==> eval_result(
                    value,
                    *old(self),
                    dependencies@,
                    old(scenarios).externals@,
                    current_pkg,
                ) is Ok,
                Statement::VariableDecl { typename, expr, .. } => typename is None || spec_find_external(expr) is None
                    ==> (r is Ok <==> eval_result(expr, *old(self), dependencies@, old(scenarios).externals@, current_pkg) is Ok),
                _ => true,
            },
            // A typed variable from `external` becomes a scenario variable
            // with the values of its type: it fails when the type is not a
            // list, or when there is no room for the values of a new
            // variable.
            match *statement {
                Statement::VariableDecl { name, typename: Some(tn), expr } => spec_find_external(expr) matches Some(
                    Ok((ext, _)),
                ) ==> {
                    let tv = type_values(*old(self), dependencies@, current_pkg, tn);
                    &&& tv is None ==> r is Err
                    &&& tv is Some && old(scenarios).spec_find_var(ext) is None ==> (r is Err <==> old(scenarios).next_bit
                        + tv->0.len() > 64) && (r is Err ==> r matches Err(Error::TooManyScenarioVariables))
                    &&& r is Ok ==> (tv matches Some(t) && typed_external_declared(
                        t,
                        ext,
                        *final(scenarios),
                        value_of(old(self).values@, current_pkg, SimpleName::Name(name)),
                        value_of(final(self).values@, current_pkg, SimpleName::Name(name)),
                        current_scenario,
                    ))
                },
                _ => true,
            },
            // A case statement fails when its variable is unknown, is a
            // list, or depends on more than one scenario variable.
            match *statement {
                Statement::Case { varname, .. } => match old(self).spec_lookup(varname, dependencies@, current_pkg) {
                    None => r matches Err(Error::NotFound(_)),
                    Some(ExprValue::StrList(_)) => r matches Err(Error::VariableMustBeString),
                    Some(ExprValue::Str(p)) => old(scenarios).spec_case_stmt(p.values@) is None ==> r matches Err(
                        Error::CaseOnMultipleVariables(_),
                    ),
                },
                _ => true,
            },
            // A package processes its body with itself as the current
            // package: on success every declaration of the body has a
            // value there; without renaming or extension, a first
            // declaration that cannot be evaluated makes it fail.
            match *statement {
                Statement::Package { name, renames, extends, body } => {
                    &&& r is Ok ==> forall|i: int|
                        0 <= i < body@.len() ==> #[trigger] declared_in(body@[i].1, name, final(self).values@)
                    &&& renames is None && extends is None && Self::first_fails(
                        body@,
                        *old(self),
                        dependencies@,
                        old(scenarios).externals@,
                        name,
                    ) ==> r is Err
                },
                _ => true,
            },
        decreases statement,
    {
        proof {
            lemma_vars_kept_refl(scenarios.variables@);
        }
        match statement {
            Statement::TypeDecl { typename, valid } => {
                let e = match ExprValue::new_with_raw(
                    valid,
                    &*self,
                    dependencies,
                    scenarios,
                    current_scenario,
                    current_pkg,
                ) {
                    Ok(e) => e,
                    Err(err) => return Err(err),
                };
                self.declare(current_pkg, SimpleName::Name(typename.clone()), current_scenario, scenarios, e)
            },
            Statement::VariableDecl { name, typename, expr } => {
                // Is this a scenario variable ?
                // It has both a type and "external".  In this case, we do
                // not check its actual value from the environment or the
                // default, but instead create a value with a different
                // value for each scenario
                let ext = expr.has_external();
                match (typename, ext) {
                    (Some(tn), Some((extname, _))) => {
                        let mut valid: Vec<String> = match self.lookup(tn, dependencies, current_pkg) {
                            Ok(ExprValue::StrList(p)) => {
                                if p.values.len() == 0 {
                                    return Err(Error::InvalidType(tn.describe()));
                                }
                                copy_strings(p.values[0].1.as_slice())
                            },
                            Ok(ExprValue::Str(_)) => {
                                return Err(Error::InvalidType(tn.describe()));
                            },
                            Err(e) => {
                                return Err(e);
                            },
                        };
                        let ghost unsorted = valid@;
                        sort_strings(&mut valid);
                        proof {
                            lemma_perm_views(valid@, unsorted);
                            vstd::seq_lib::to_multiset_len(valid@);
                            vstd::seq_lib::to_multiset_len(unsorted);
                        }
                        let ghost s0 = *scenarios;
                        let idx = match scenarios.try_add_variable(extname.clone(), valid.as_slice()) {
                            Ok(i) => i,
                            Err(e) => {
                                return Err(e);
                            },
                        };
                        let per = scenarios.expr_from_variable(extname.as_str());
                        let ghost v0 = self.values@;
                        let ghost perv = per;
                        let res = self.declare(
                            current_pkg,
                            SimpleName::Name(name.clone()),
                            current_scenario,
                            scenarios,
                            ExprValue::Str(per),
                        );
                        proof {
                            let k = scenarios.spec_find_var(extname@)->0;
                            if k != idx {
                                assert(scenarios.variables@[k].name@ != scenarios.variables@[idx as int].name@);
                            }
                            let var = scenarios.variables@[k];
                            assert(value_names(var.valid@) == views(valid@));
                            assert(variable_value(perv, var));
                            assert(typed_external_declared(
                                views(unsorted),
                                extname@,
                                *scenarios,
                                value_of(v0, current_pkg, SimpleName::Name(*name)),
                                value_of(self.values@, current_pkg, SimpleName::Name(*name)),
                                current_scenario,
                            ));
                        }
                        res
                    },
                    _ => {
                        // A standard variable (either untyped or not
                        // using external), whose value is the expression
                        let e = match ExprValue::new_with_raw(
                            expr,
                            &*self,
                            dependencies,
                            scenarios,
                            current_scenario,
                            current_pkg,
                        ) {
                            Ok(e) => e,
                            Err(err) => return Err(err),
                        };
                        self.declare(current_pkg, SimpleName::Name(name.clone()), current_scenario, scenarios, e)
                    },
                }
            },
            Statement::AttributeDecl { name, value } => {
                let e = match ExprValue::new_with_raw(
                    value,
                    &*self,
                    dependencies,
                    scenarios,
                    current_scenario,
                    current_pkg,
                ) {
                    Ok(e) => e,
                    Err(err) => return Err(err),
                };
                self.declare(current_pkg, name.dup(), current_scenario, scenarios, e)
            },
            Statement::Package { name, renames, extends, body } => {
                // A package that renames or extends another one starts with
                // the values of that package.
                let origin = match (renames, extends) {
                    (Some(r), None) => Some(r),
                    (None, Some(r)) => Some(r),
                    _ => None,
                };
                if let Some(r) = origin {
                    let copies = match self.lookup_gpr(r, dependencies) {
                        Ok(orig) => {
                            proof {
                                lemma_lookup_gpr_wf(*self, *r, dependencies@);
                            }
                            orig.package_values(*name)
                        },
                        Err(e) => return Err(e),
                    };
                    let mut k: usize = 0;
                    while k < copies.len()
                        invariant
                            self.wf(),
                            same_header(*self, *old(self)),
                            k <= copies@.len(),
                            names_kept(old(self).values@, self.values@),
                            forall|i: int| 0 <= i < copies@.len() ==> #[trigger] copies@[i].1.wf(),
                        decreases copies.len() - k,
                    {
                        proof {
                            assert(copies@[k as int].1.wf());
                        }
                        let ghost v1 = self.values@;
                        let n2 = copies[k].0.dup();
                        self.set_value(*name, n2, copies[k].1.dup());
                        proof {
                            lemma_names_kept(v1, self.values@, *name, n2);
                            lemma_names_kept_trans(old(self).values@, v1, self.values@);
                        }
                        k = k + 1;
                    }
                }
                let ghost v1 = self.values@;
                let res = self.process_body(dependencies, scenarios, current_scenario, *name, body);
                proof {
                    lemma_names_kept_trans(old(self).values@, v1, self.values@);
                }
                res
            },
            Statement::Case { varname, when: clauses } => {
                // This is a scenario variable, so its value is one entry
                // per scenario, with one static string every time.
                let per = match self.lookup(varname, dependencies, current_pkg) {
                    Ok(ExprValue::Str(p)) => p.duplicate(),
                    Ok(ExprValue::StrList(_)) => {
                        return Err(Error::VariableMustBeString);
                    },
                    Err(e) => {
                        return Err(e);
                    },
                };
                proof {
                    if let Some(ExprValue::Str(p)) = self.spec_lookup(*varname, dependencies@, current_pkg) {
                        lemma_and_all_keys(per.values@, p.values@);
                        if per.values@.len() > 0 {
                            assert(per.entries()[0] == p.entries()[0]);
                        }
                    }
                }
                let mut case_stmt = match scenarios.try_prepare_case_stmt(&per) {
                    Some(c) => c,
                    None => {
                        return Err(Error::CaseOnMultipleVariables(varname.describe()));
                    },
                };
                let ghost s0 = *scenarios;
                proof {
                    if case_stmt.full_mask.0 != 0 {
                        let m = crate::allscenarios::and_all(per.values@);
                        scenarios.lemma_first_covering_in(m, 0);
                        let k = scenarios.first_covering(m, 0)->0;
                        assert(scenarios.variables@[k].name@ == case_stmt.var@);
                    }
                }
                let mut i: usize = 0;
                while i < clauses.len()
                    invariant
                        *statement == (Statement::Case { varname: *varname, when: *clauses }),
                        statement_ok(*statement),
                        self.wf(),
                        all_wf(dependencies@),
                        same_header(*self, *old(self)),
                        scenarios_kept(*old(scenarios), *scenarios),
                        scenarios.wf(),
                        case_stmt.full_mask.0 != 0 ==> scenarios.spec_find_var(case_stmt.var@) is Some,
                        match old(self).spec_lookup(*varname, dependencies@, current_pkg) {
                            Some(ExprValue::Str(p)) => old(scenarios).spec_case_stmt(p.values@) is Some,
                            _ => false,
                        },
                        i <= clauses@.len(),
                        names_kept(old(self).values@, self.values@),
                    decreases clauses.len() - i,
                {
                    proof {
                        assert(decreases_to!(*statement => statement->when));
                        assert(decreases_to!(*clauses => clauses[i as int]));
                        assert(decreases_to!(clauses[i as int] => clauses[i as int].body));
                        lemma_whens_ok(clauses@, i as int);
                    }
                    // The clause applies to the scenarios of its values,
                    // within those of the enclosing case statements.
                    let s = scenarios.process_when_clause(current_scenario, &mut case_stmt, &clauses[i]) & current_scenario;
                    if !scenarios.never_matches(s) {
                        let ghost before = *scenarios;
                        let ghost v1 = self.values@;
                        match self.process_body(dependencies, scenarios, s, current_pkg, &clauses[i].body) {
                            Ok(()) => {},
                            Err(e) => {
                                proof {
                                    lemma_scenarios_kept_trans(*old(scenarios), before, *scenarios);
                                    lemma_names_kept_trans(old(self).values@, v1, self.values@);
                                }
                                return Err(e);
                            },
                        }
                        proof {
                            lemma_names_kept_trans(old(self).values@, v1, self.values@);
                            lemma_scenarios_kept_trans(*old(scenarios), before, *scenarios);
                            if case_stmt.full_mask.0 != 0 {
                                lemma_vars_kept_find(before, *scenarios, case_stmt.var@);
                            }
                        }
                    }
                    i = i + 1;
                }
                Ok(())
            },
        }
    }

    /// The first statement of a body is a declaration whose expression
    /// cannot be evaluated in the project `g`.
    pub open spec fn first_fails(
        body: Seq<(u32, Statement)>,
        g: GprFile,
        deps: Seq<&GprFile>,
        env: Seq<(String, String)>,
        pkg: PackageName,
    ) -> bool {
        body.len() > 0 && match body[0].1 {
            Statement::TypeDecl { valid, .. } => eval_result(valid, g, deps, env, pkg) is Err,
            Statement::AttributeDecl { value, .. } => eval_result(value, g, deps, env, pkg) is Err,
            Statement::VariableDecl { typename, expr, .. } => (typename is None || spec_find_external(expr) is None)
                && eval_result(expr, g, deps, env, pkg) is Err,
            _ => false,
        }
    }

    /// Process a set of statements
    fn process_body(
        &mut self,
        dependencies: &[&GprFile],
        scenarios: &mut AllScenarios,
        current_scenario: Scenario,
        current_pkg: PackageName,
        body: &StatementList,
    ) -> (r: Result<(), Error>)
        requires
            old(self).wf(),
            all_wf(dependencies@),
            old(scenarios).wf(),
            statements_ok(body@),
        ensures
            final(self).wf(),
            same_header(*final(self), *old(self)),
            scenarios_kept(*old(scenarios), *final(scenarios)),
            // No name loses its value, and after a success every
            // declaration of the body has given its name a value.
            names_kept(old(self).values@, final(self).values@),
            r is Ok ==> forall|i: int|
                0 <= i < body@.len() ==> #[trigger] declared_in(body@[i].1, current_pkg, final(self).values@),
            // The statements are processed in order, and the first failure
            // ends the processing: an empty body changes nothing, and a body
            // whose first declaration cannot be evaluated fails.
            body@.len() == 0 ==> r is Ok && *final(self) == *old(self),
            Self::first_fails(body@, *old(self), dependencies@, old(scenarios).externals@, current_pkg) ==> r is Err,
        decreases body,
    {
        proof {
            lemma_vars_kept_refl(scenarios.variables@);
        }
        let mut i: usize = 0;
        while i < body.len()
            invariant
                self.wf(),
                all_wf(dependencies@),
                same_header(*self, *old(self)),
                scenarios_kept(*old(scenarios), *scenarios),
                statements_ok(body@),
                i <= body@.len(),
                names_kept(old(self).values@, self.values@),
                forall|k: int| 0 <= k < i ==> #[trigger] declared_in(body@[k].1, current_pkg, self.values@),
                i == 0 ==> *self == *old(self) && *scenarios == *old(scenarios),
                i > 0 ==> !Self::first_fails(body@, *old(self), dependencies@, old(scenarios).externals@, current_pkg),
            decreases body.len() - i,
        {
            proof {
                assert(decreases_to!(*body => body[i as int]));
                assert(decreases_to!(body[i as int] => body[i as int].1));
                lemma_statements_ok(body@, i as int);
            }
            let ghost before = *scenarios;
            let ghost v1 = self.values@;
            let res = self.process_one_stmt(dependencies, scenarios, current_scenario, current_pkg, &body[i].1);
            proof {
                lemma_scenarios_kept_trans(*old(scenarios), before, *scenarios);
                lemma_names_kept_trans(old(self).values@, v1, self.values@);
                assert forall|k: int| 0 <= k < i implies #[trigger] declared_in(body@[k].1, current_pkg, self.values@) by {
                    assert(declared_in(body@[k].1, current_pkg, v1));
                    match body@[k].1 {
                        Statement::TypeDecl { typename, .. } => {
                            assert(value_of(v1, current_pkg, SimpleName::Name(typename)) is Some);
                        },
                        Statement::VariableDecl { name, .. } => {
                            assert(value_of(v1, current_pkg, SimpleName::Name(name)) is Some);
                        },
                        Statement::AttributeDecl { name, .. } => {
                            assert(value_of(v1, current_pkg, name) is Some);
                        },
                        _ => {},
                    }
                }
            }
            match res {
                Ok(()) => {},
                Err(e) => {
                    return Err(e);
                },
            }
            i = i + 1;
        }
        Ok(())
    }

    /// Process the raw gpr file into the final list of attributes
    pub fn process(
        &mut self,
        raw: &RawGPR,
        extends: Option<&GprFile>,
        dependencies: &[&GprFile],
        scenarios: &mut AllScenarios,
    ) -> (r: Result<(), Error>)
        requires
            old(self).wf(),
            all_wf(dependencies@),
            extends matches Some(e) ==> e.wf(),
            old(scenarios).wf(),
            statements_ok(raw.body@),
        ensures
            final(self).wf(),
            final(self).name@ == raw.name@,
            final(self).path == old(self).path,
            final(self).node == old(self).node,
            final(self).is_abstract == old(self).is_abstract,
            final(self).is_aggregate == old(self).is_aggregate,
            final(self).is_library == old(self).is_library,
            scenarios_kept(*old(scenarios), *final(scenarios)),
            r matches Err(e) ==> e matches Error::WithPath { path, .. } && path@ == old(self).path@,
            // It starts from the values of the project it extends (or its
            // own), keeps every name, and on success every declaration of
            // the project's body has a value.
            extends is None ==> names_kept(old(self).values@, final(self).values@),
            extends matches Some(e) ==> names_kept(e.values@, final(self).values@),
            r is Ok ==> forall|i: int|
                0 <= i < raw.body@.len() ==> #[trigger] declared_in(raw.body@[i].1, PackageName::Top, final(self).values@),
    {
        self.name = raw.name.clone();

        if let Some(ext) = extends {
            let mut values: Vec<(PackageName, SimpleName, ExprValue)> = Vec::new();
            let mut i: usize = 0;
            while i < ext.values.len()
                invariant
                    ext.wf(),
                    i <= ext.values@.len(),
                    values@.len() == i,
                    forall|k: int| 0 <= k < values@.len() ==> #[trigger] values@[k].2.wf(),
                    forall|k: int| 0 <= k < values@.len() ==> #[trigger] values@[k].0 == ext.values@[k].0 && values@[k].1
                        == ext.values@[k].1,
                decreases ext.values.len() - i,
            {
                proof {
                    assert(ext.values@[i as int].2.wf());
                }
                values.push((ext.values[i].0, ext.values[i].1.dup(), ext.values[i].2.dup()));
                i = i + 1;
            }
            self.values = values;
            proof {
                assert forall|k: int| #![trigger ext.values@[k]] 0 <= k < ext.values@.len() implies ext.values@[k].0
                    == self.values@[k].0 && ext.values@[k].1 == self.values@[k].1 by {
                    assert(self.values@[k].0 == ext.values@[k].0);
                }
                assert forall|p: PackageName, n: SimpleName| value_of(ext.values@, p, n) is Some implies #[trigger] value_of(
                    self.values@,
                    p,
                    n,
                ) is Some by {
                    lemma_same_keys(ext.values@, self.values@, p, n, 0);
                }
            }
        }
        let ghost v1 = self.values@;
        let res = self.process_body(dependencies, scenarios, Scenario(u64::MAX), PackageName::Top, &raw.body);
        proof {
            if extends is None {
                assert(names_kept(old(self).values@, v1));
                lemma_names_kept_trans(old(self).values@, v1, self.values@);
            }
            if let Some(e) = extends {
                lemma_names_kept_trans(e.values@, v1, self.values@);
            }
        }
        match res {
            Ok(()) => Ok(()),
            Err(e) => Err(Error::WithPath { path: self.path.clone(), error: Box::new(e) }),
        }
    }

    /// The first lines of the description of the project.
    pub open spec fn details_header(&self) -> Seq<char> {
        "file: "@ + self.path@ + "\nproject "@ + self.name@ + " is\n"@
    }

    /// The text that describes the project: its path, its name, then each
    /// attribute (and, with `print_vars`, each variable) of each package,
    /// with its value in each scenario (see `ExprValue::format`).
    pub fn details(&self, scenarios: &AllScenarios, print_vars: bool) -> (r: String)
        ensures
            r@.len() >= self.details_header().len(),
            r@.subrange(0, self.details_header().len() as int) == self.details_header(),
    {
        let mut r = owned("file: ");
        push_str(&mut r, self.path.as_str());
        push_str(&mut r, "\nproject ");
        push_str(&mut r, self.name.as_str());
        push_str(&mut r, " is\n");
        proof {
            reveal_strlit("file: ");
            reveal_strlit("\nproject ");
            reveal_strlit(" is\n");
        }
        let ghost header = r@;
        assert(header =~= self.details_header());
        assert(r@.subrange(0, header.len() as int) =~= header);
        let mut pkgidx: usize = 0;
        while pkgidx < crate::packagename::PACKAGE_NAME_VARIANTS
            invariant
                r@.len() >= header.len(),
                r@.subrange(0, header.len() as int) == header,
            decreases crate::packagename::PACKAGE_NAME_VARIANTS - pkgidx,
        {
            let pkg = PackageName::from_index(pkgidx);
            let mut i: usize = 0;
            while i < self.values.len()
                invariant
                    r@.len() >= header.len(),
                    r@.subrange(0, header.len() as int) == header,
                decreases self.values.len() - i,
            {
                if self.values[i].0 == pkg && (print_vars || !matches!(self.values[i].1, SimpleName::Name(_))) {
                    let ghost before = r@;
                    push_str(&mut r, "   for ");
                    push_str(&mut r, pkg.describe().as_str());
                    push_str(&mut r, self.values[i].1.describe().as_str());
                    push_str(&mut r, "\n");
                    push_str(&mut r, self.values[i].2.format(scenarios, "      ", "\n").as_str());
                    push_str(&mut r, "\n");
                    assert(r@.subrange(0, header.len() as int) =~= before.subrange(0, header.len() as int));
                }
                i = i + 1;
            }
            pkgidx = pkgidx + 1;
        }
        let ghost before = r@;
        push_str(&mut r, "end project;");
        assert(r@.subrange(0, header.len() as int) =~= before.subrange(0, header.len() as int));
        r
    }

    /// Resolve relative paths, and cleanup ".." from the name.  When
    /// symbolic links are resolved, the caller still has to canonicalize
    /// the result on the disk.  `None` when the project has no parent
    /// directory.
    pub fn normalize_path(&self, path: &str, resolve_symbolic_links: bool) -> (r: Option<String>)
        ensures
            match spec_path_parent(self.path@) {
                None => r is None,
                Some(parent) => r matches Some(p) && p@ == if resolve_symbolic_links {
                    spec_path_join(parent, path@)
                } else {
                    spec_path_clean(spec_path_join(parent, path@))
                },
            },
    {
        let parent = match path_parent(self.path.as_str()) {
            Some(p) => p,
            None => {
                return None;
            },
        };
        let p = path_join(parent.as_str(), path);
        if resolve_symbolic_links {
            Some(p)
        } else {
            Some(path_clean(p.as_str()))
        }
    }

    /// The source directories of each scenario, with relative paths
    /// resolved: each is given with whether its subdirectories are source
    /// directories too (when its name ends with "/**").  The caller lists
    /// the directories on the disk.
    pub fn source_dir_patterns(&self, resolve_symbolic_links: bool) -> (r: Result<
        Vec<(Scenario, Vec<(String, bool)>)>,
        Error,
    >)
        ensures
            match value_of(self.values@, PackageName::Top, SimpleName::SourceDirs) {
                Some(ExprValue::StrList(p)) => r matches Ok(v) && v@.len() == p.values@.len() && forall|i: int|
                    0 <= i < v@.len() ==> #[trigger] v@[i].0 == p.values@[i].0 && dirs_resolved(
                        self.path@,
                        p.values@[i].1@,
                        resolve_symbolic_links,
                        v@[i].1@,
                    ),
                _ => r is Err,
            },
    {
        let dirs = match self.get(PackageName::Top, &SimpleName::SourceDirs) {
            Some(ExprValue::StrList(p)) => p,
            _ => {
                return Err(Error::InvalidType(owned("Source_Dirs")));
            },
        };
        let mut result: Vec<(Scenario, Vec<(String, bool)>)> = Vec::new();
        let mut i: usize = 0;
        while i < dirs.values.len()
            invariant
                i <= dirs.values@.len(),
                result@.len() == i,
                forall|k: int| 0 <= k < i ==> #[trigger] result@[k].0 == dirs.values@[k].0 && dirs_resolved(
                    self.path@,
                    dirs.values@[k].1@,
                    resolve_symbolic_links,
                    result@[k].1@,
                ),
            decreases dirs.values.len() - i,
        {
            let mut for_scenar: Vec<(String, bool)> = Vec::new();
            let mut j: usize = 0;
            while j < dirs.values[i].1.len()
                invariant
                    i < dirs.values@.len(),
                    j <= dirs.values@[i as int].1@.len(),
                    dirs_resolved(self.path@, dirs.values@[i as int].1@.take(j as int), resolve_symbolic_links, for_scenar@),
                decreases dirs.values@[i as int].1@.len() - j,
            {
                let ghost before = for_scenar@;
                proof {
                    let l = dirs.values@[i as int].1@;
                    assert(l.take(j + 1).drop_last() =~= l.take(j as int));
                    assert(l.take(j + 1).last() == l[j as int]);
                }
                let d = &dirs.values[i].1[j];
                if ends_with(d.as_str(), "/**") {
                    let chars = chars_of(d.as_str());
                    proof {
                        reveal_strlit("/**");
                    }
                    let parent = string_from_chars(chars.as_slice(), 0, chars.len() - 3);
                    if let Some(n) = self.normalize_path(parent.as_str(), resolve_symbolic_links) {
                        for_scenar.push((n, true));
                    }
                } else {
                    if let Some(n) = self.normalize_path(d.as_str(), resolve_symbolic_links) {
                        for_scenar.push((n, false));
                    }
                }
                proof {
                    reveal_strlit("/**");
                    if for_scenar@.len() > before.len() {
                        assert(for_scenar@.drop_last() =~= before);
                    } else {
                        assert(for_scenar@ == before);
                    }
                }
                j = j + 1;
            }
            proof {
                let l = dirs.values@[i as int].1@;
                assert(l.take(l.len() as int) =~= l);
            }
            let ghost before = result@;
            result.push((dirs.values[i].0, for_scenar));
            proof {
                assert forall|k: int| 0 <= k < i + 1 implies #[trigger] result@[k].0 == dirs.values@[k].0 && dirs_resolved(
                    self.path@,
                    dirs.values@[k].1@,
                    resolve_symbolic_links,
                    result@[k].1@,
                ) by {
                    if k < i {
                        assert(result@[k] == before[k]);
                    }
                }
            }
            i = i + 1;
        }
        Ok(result)
    }

    /// Computes the list of source files for all scenarios, from the
    /// source directories of each scenario (as found on the disk) and the
    /// naming scheme of the project.
    pub fn resolve_source_files(
        &mut self,
        source_dirs: &Vec<(Scenario, Vec<String>)>,
        all_dirs: &Vec<Directory>,
        scenarios: &AllScenarios,
    )
        ensures
            final(self).values == old(self).values,
            final(self).name == old(self).name,
            final(self).path == old(self).path,
            final(self).node == old(self).node,
            forall|i: int| 0 <= i < final(self).source_files@.len() ==> !scenarios.spec_never_matches(
                #[trigger] final(self).source_files@[i].0,
            ),
    {
        let mut files: Vec<(Scenario, Vec<(String, String)>)> = Vec::new();
        let ada = owned("ada");
        let mut i: usize = 0;
        while i < source_dirs.len()
            invariant
                forall|t: int| 0 <= t < files@.len() ==> !scenarios.spec_never_matches(#[trigger] files@[t].0),
            decreases source_dirs.len() - i,
        {
            let scenar_dir = source_dirs[i].0;
            let dirs_in_scenar = &source_dirs[i].1;
            let mut n: usize = 0;
            while n < self.values.len()
                invariant
                    forall|t: int| 0 <= t < files@.len() ==> !scenarios.spec_never_matches(#[trigger] files@[t].0),
                decreases self.values.len() - n,
            {
                if self.values[n].0 == PackageName::Naming {
                    if let ExprValue::Str(v) = &self.values[n].2 {
                        let lang_opt: Option<&String> = match &self.values[n].1 {
                            SimpleName::SpecSuffix(lang) => Some(lang),
                            SimpleName::BodySuffix(lang) => Some(lang),
                            _ => None,
                        };
                        let is_file_name = matches!(&self.values[n].1, SimpleName::Spec(_) | SimpleName::Body(_));
                        let mut a: usize = 0;
                        while a < v.values.len()
                            invariant
                                forall|t: int| 0 <= t < files@.len() ==> !scenarios.spec_never_matches(#[trigger] files@[t].0),
                            decreases v.values.len() - a,
                        {
                            let s = v.values[a].0 & scenar_dir;
                            if !scenarios.never_matches(s) && (lang_opt.is_some() || is_file_name) {
                                let pos = entry_for(&mut files, s);
                                proof {
                                    assert(!scenarios.spec_never_matches(files@[pos as int].0));
                                }
                                let mut sfiles = Vec::new();
                                std::mem::swap(&mut sfiles, &mut files[pos].1);
                                let mut d: usize = 0;
                                while d < dirs_in_scenar.len()
                                    invariant
                                        a < v.values@.len(),
                                    decreases dirs_in_scenar.len() - d,
                                {
                                    if let Some(dir) = find_dir(all_dirs, &dirs_in_scenar[d]) {
                                        match lang_opt {
                                            Some(lang) => dir.filter_suffix(v.values[a].1.as_str(), lang, &mut sfiles),
                                            None => {
                                                dir.add_if_found(&v.values[a].1, &ada, &mut sfiles);
                                            },
                                        }
                                    }
                                    d = d + 1;
                                }
                                let ghost before = files@;
                                std::mem::swap(&mut sfiles, &mut files[pos].1);
                                proof {
                                    assert forall|t: int| 0 <= t < files@.len() implies !scenarios.spec_never_matches(
                                        #[trigger] files@[t].0,
                                    ) by {
                                        assert(files@[t].0 == before[t].0);
                                    }
                                }
                            }
                            a = a + 1;
                        }
                    }
                }
                n = n + 1;
            }
            i = i + 1;
        }
        self.source_files = files;
    }
}

/// The position of the files of a scenario, added when not there yet.
fn entry_for(files: &mut Vec<(Scenario, Vec<(String, String)>)>, s: Scenario) -> (r: usize)
    ensures
        r < final(files)@.len(),
        final(files)@[r as int].0 == s,
        final(files)@.len() >= old(files)@.len(),
        forall|t: int| 0 <= t < old(files)@.len() ==> #[trigger] final(files)@[t] == old(files)@[t],
        forall|t: int| old(files)@.len() <= t < final(files)@.len() ==> #[trigger] final(files)@[t].0 == s,
{
    let mut i: usize = 0;
    while i < files.len()
        invariant
            i <= files@.len(),
            files@ == old(files)@,
        decreases files.len() - i,
    {
        if files[i].0 == s {
            return i;
        }
        i = i + 1;
    }
    files.push((s, Vec::new()));
    files.len() - 1
}

/// The directory with the given path.
fn find_dir<'a>(all_dirs: &'a Vec<Directory>, path: &String) -> (r: Option<&'a Directory>)
    ensures
        r matches Some(d) ==> d.path@ == path@,
        r is None ==> forall|i: int| 0 <= i < all_dirs@.len() ==> #[trigger] all_dirs@[i].path@ != path@,
{
    let mut i: usize = 0;
    while i < all_dirs.len()
        invariant
            i <= all_dirs@.len(),
            forall|k: int| 0 <= k < i ==> #[trigger] all_dirs@[k].path@ != path@,
        decreases all_dirs.len() - i,
    {
        if all_dirs[i].path == *path {
            return Some(&all_dirs[i]);
        }
        i = i + 1;
    }
    None
}

} // verus!
