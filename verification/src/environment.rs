//! The whole set of project files, their source files and the dependency
//! graph between them.  Files are read by the caller, which hands their
//! contents to the functions below.
use crate::allscenarios::AllScenarios;
use crate::errors::Error;
use crate::files::File;
use crate::gpr::{all_wf, declared_in, GprFile};
use crate::gpr_scanner::GprScanner;
use crate::base_lexer::lexable_text;
use crate::graph::{all_distinct, edges_of, has_cycle, lemma_topological_order_acyclic, DepGraph, Edge, Node};
use crate::strings::{lemma_views_push, views};
use crate::paths::path_parent;
use crate::qnames::QName;
use crate::rawexpr::statements_valid;
use crate::rawgpr::RawGPR;
use crate::scenarios::Scenario;
use crate::settings::Settings;
use crate::sourcefile::SourceFile;
use crate::packagename::PackageName;
use crate::simplename::SimpleName;
use crate::values::ExprValue;
use vstd::prelude::*;
use vstd::string::StrSliceExecFns;

verus! {

/// The whole set of gpr files
pub struct Environment {
    pub scenarios: AllScenarios,
    pub graph: DepGraph,
    /// The processed projects, by path.
    pub gprs: Vec<(String, GprFile)>,
    /// The source files, each registered once.
    pub files: Vec<SourceFile>,
    /// The graph node of each unit.
    pub units: Vec<(QName, usize)>,
    /// The projects implicitly imported by all others.
    pub implicit_projects: Vec<usize>,
}

/// The position of a path in a list of (path, node) pairs.
pub open spec fn find_path_from(v: Seq<(String, usize)>, path: Seq<char>, i: int) -> Option<int>
    decreases v.len() - i,
{
    if i < 0 || i >= v.len() {
        None
    } else if v[i].0@ == path {
        Some(i)
    } else {
        find_path_from(v, path, i + 1)
    }
}

/// The node of a path in a list of (path, node) pairs.
fn find_path(v: &Vec<(String, usize)>, path: &String) -> (r: Option<usize>)
    ensures
        match find_path_from(v@, path@, 0) {
            Some(i) => r == Some(v@[i].1),
            None => r is None,
        },
{
    let mut i: usize = 0;
    while i < v.len()
        invariant
            i <= v@.len(),
            find_path_from(v@, path@, 0) == find_path_from(v@, path@, i as int),
        decreases v.len() - i,
    {
        if v[i].0 == *path {
            return Some(v[i].1);
        }
        i = i + 1;
    }
    None
}

proof fn lemma_find_path_in(v: Seq<(String, usize)>, path: Seq<char>, i: int)
    ensures
        find_path_from(v, path, i) matches Some(j) ==> 0 <= i <= j < v.len() && v[j].0@ == path,
    decreases v.len() - i,
{
    if 0 <= i < v.len() && v[i].0@ != path {
        lemma_find_path_in(v, path, i + 1);
    }
}

/// The position of the first source file with that path, from `i` on.
pub open spec fn file_from(files: Seq<SourceFile>, path: Seq<char>, i: int) -> Option<int>
    decreases files.len() - i,
{
    if i < 0 || i >= files.len() {
        None
    } else if files[i].path@ == path {
        Some(i)
    } else {
        file_from(files, path, i + 1)
    }
}

/// The position of the first project with that path, from `i` on.
pub open spec fn gpr_from(gprs: Seq<(String, GprFile)>, path: Seq<char>, i: int) -> Option<int>
    decreases gprs.len() - i,
{
    if i < 0 || i >= gprs.len() {
        None
    } else if gprs[i].0@ == path {
        Some(i)
    } else {
        gpr_from(gprs, path, i + 1)
    }
}

/// The scenarios of a list of values.
pub open spec fn values_scenarios(values: Seq<(PackageName, SimpleName, ExprValue)>) -> Set<Scenario>
    decreases values.len(),
{
    if values.len() == 0 {
        Set::empty()
    } else {
        values_scenarios(values.drop_last()) + values.last().2.scenario_set()
    }
}

/// The scenarios of the values of the projects.
pub open spec fn gprs_scenarios(gprs: Seq<(String, GprFile)>) -> Set<Scenario>
    decreases gprs.len(),
{
    if gprs.len() == 0 {
        Set::empty()
    } else {
        gprs_scenarios(gprs.drop_last()) + values_scenarios(gprs.last().1.values@)
    }
}

/// The position of the first unit with that name, from `i` on.
pub open spec fn unit_from(units: Seq<(QName, usize)>, name: Seq<Seq<char>>, i: int) -> Option<int>
    decreases units.len() - i,
{
    if i < 0 || i >= units.len() {
        None
    } else if units[i].0@ == name {
        Some(i)
    } else {
        unit_from(units, name, i + 1)
    }
}

/// The edges for the files of one list, in a scenario: from the project to
/// each file, and from its unit, if any, to the file.
pub open spec fn list_edges(files: Seq<SourceFile>, gpridx: usize, sc: Scenario, l: Seq<usize>) -> Seq<(nat, nat, Edge)>
    decreases l.len(),
{
    if l.len() == 0 {
        Seq::empty()
    } else {
        let f = files[l.last() as int];
        let prev = list_edges(files, gpridx, sc, l.drop_last()).push(
            (gpridx as nat, f.file_node as nat, Edge::ProjectSource(sc)),
        );
        match f.unit_node {
            Some(u) => prev.push((u as nat, f.file_node as nat, Edge::UnitSource((f.kind, sc)))),
            None => prev,
        }
    }
}

/// The edges for the files of all the scenarios, in order.
pub open spec fn sources_edges(files: Seq<SourceFile>, gpridx: usize, sources: Seq<(Scenario, Vec<usize>)>) -> Seq<
    (nat, nat, Edge),
>
    decreases sources.len(),
{
    if sources.len() == 0 {
        Seq::empty()
    } else {
        sources_edges(files, gpridx, sources.drop_last()) + list_edges(
            files,
            gpridx,
            sources.last().0,
            sources.last().1@,
        )
    }
}

/// Every file of the list is known.
pub open spec fn list_valid(files: Seq<SourceFile>, l: Seq<usize>) -> bool {
    forall|k: int| 0 <= k < l.len() ==> #[trigger] l[k] < files.len()
}

/// Every file of every scenario is known.
pub open spec fn sources_valid(files: Seq<SourceFile>, sources: Seq<(Scenario, Vec<usize>)>) -> bool {
    forall|k: int| 0 <= k < sources.len() ==> list_valid(files, #[trigger] sources[k].1@)
}

/// A list has at least as many edges as any of its prefixes.
proof fn lemma_list_edges_mono(files: Seq<SourceFile>, gpridx: usize, sc: Scenario, l: Seq<usize>, k: int)
    ensures
        forall|t: int| 0 <= t <= l.len() ==> #[trigger] list_edges(files, gpridx, sc, l.take(t)).len() <= list_edges(
            files,
            gpridx,
            sc,
            l,
        ).len(),
    decreases l.len(),
{
    if l.len() > 0 {
        lemma_list_edges_mono(files, gpridx, sc, l.drop_last(), k);
        assert forall|t: int| 0 <= t <= l.len() implies #[trigger] list_edges(files, gpridx, sc, l.take(t)).len()
            <= list_edges(files, gpridx, sc, l).len() by {
            if t < l.len() {
                assert(l.take(t) =~= l.drop_last().take(t));
            } else {
                assert(l.take(t) =~= l);
            }
        }
    }
}

/// All the scenarios have at least as many edges as any of their prefixes.
proof fn lemma_sources_edges_mono(files: Seq<SourceFile>, gpridx: usize, sources: Seq<(Scenario, Vec<usize>)>, k: int)
    ensures
        forall|t: int| 0 <= t <= sources.len() ==> #[trigger] sources_edges(files, gpridx, sources.take(t)).len()
            <= sources_edges(files, gpridx, sources).len(),
    decreases sources.len(),
{
    if sources.len() > 0 {
        lemma_sources_edges_mono(files, gpridx, sources.drop_last(), k);
        assert forall|t: int| 0 <= t <= sources.len() implies #[trigger] sources_edges(files, gpridx, sources.take(t)).len()
            <= sources_edges(files, gpridx, sources).len() by {
            if t < sources.len() {
                assert(sources.take(t) =~= sources.drop_last().take(t));
            } else {
                assert(sources.take(t) =~= sources);
            }
        }
    }
}

/// The smaller of two integers.
pub open spec fn min_int(a: int, b: int) -> int {
    if a < b {
        a
    } else {
        b
    }
}

/// The number of roots that come with what was found in them.
pub open spec fn root_span(root: Seq<String>, found: Seq<Option<Vec<String>>>) -> int {
    min_int(root.len() as int, found.len() as int)
}

/// The number of projects of the first `k` roots: the root itself, or
/// the project files found under it.
pub open spec fn root_count(root: Seq<String>, found: Seq<Option<Vec<String>>>, k: int) -> nat
    decreases k,
{
    if k <= 0 {
        0
    } else {
        root_count(root, found, k - 1) + match found[k - 1] {
            None => 1nat,
            Some(v) => v@.len(),
        }
    }
}

/// The number of projects of the roots only grows with more roots.
proof fn lemma_root_count_mono(root: Seq<String>, found: Seq<Option<Vec<String>>>, a: int, b: int)
    requires
        a <= b,
    ensures
        root_count(root, found, a) <= root_count(root, found, b),
    decreases b - a,
{
    if a < b {
        lemma_root_count_mono(root, found, a, b - 1);
    }
}

/// The projects of a root have a node.
pub open spec fn root_found(gprs: Seq<(String, usize)>, root: String, found: Option<Vec<String>>) -> bool {
    match found {
        None => find_path_from(gprs, root@, 0) is Some,
        Some(v) => forall|j: int| 0 <= j < v@.len() ==> #[trigger] find_path_from(gprs, v@[j]@, 0) is Some,
    }
}

/// A list that only grew keeps the first position of each path.
proof fn lemma_find_path_prefix(a: Seq<(String, usize)>, b: Seq<(String, usize)>, p: Seq<char>, k: int)
    requires
        a.len() <= b.len(),
        forall|t: int| 0 <= t < a.len() ==> #[trigger] b[t] == a[t],
        find_path_from(a, p, k) is Some,
    ensures
        find_path_from(b, p, k) == find_path_from(a, p, k),
    decreases a.len() - k,
{
    if 0 <= k < a.len() && a[k].0@ != p {
        assert(b[k] == a[k]);
        lemma_find_path_prefix(a, b, p, k + 1);
    } else if 0 <= k < a.len() {
        assert(b[k] == a[k]);
    }
}

/// A list that only grew keeps the first position of each path.
proof fn lemma_find_path_prefix_all(a: Seq<(String, usize)>, b: Seq<(String, usize)>)
    requires
        a.len() <= b.len(),
        forall|t: int| 0 <= t < a.len() ==> #[trigger] b[t] == a[t],
    ensures
        forall|p: Seq<char>| #[trigger] find_path_from(a, p, 0) is Some ==> find_path_from(b, p, 0) == find_path_from(a, p, 0),
{
    assert forall|p: Seq<char>| #[trigger] find_path_from(a, p, 0) is Some implies find_path_from(b, p, 0) == find_path_from(a, p, 0) by {
        lemma_find_path_prefix(a, b, p, 0);
    }
}

/// The projects of a root keep their nodes when the list grows.
proof fn lemma_root_found_prefix(a: Seq<(String, usize)>, b: Seq<(String, usize)>, root: String, found: Option<Vec<String>>)
    requires
        a.len() <= b.len(),
        forall|t: int| 0 <= t < a.len() ==> #[trigger] b[t] == a[t],
        root_found(a, root, found),
    ensures
        root_found(b, root, found),
{
    lemma_find_path_prefix_all(a, b);
    match found {
        None => {},
        Some(v) => {
            assert forall|j: int| 0 <= j < v@.len() implies #[trigger] find_path_from(b, v@[j]@, 0) is Some by {
                assert(find_path_from(a, v@[j]@, 0) is Some);
            }
        },
    }
}

/// All the nodes of the list are nodes of the graph.
pub open spec fn nodes_in(v: Seq<(String, usize)>, count: nat) -> bool {
    forall|i: int| 0 <= i < v.len() ==> #[trigger] v[i].1 < count
}

/// Whether the graph can hold one more node and one more edge.
pub open spec fn graph_has_room(g: &DepGraph) -> bool {
    g.nodes().len() + 1 < u32::MAX && g.edges().len() + 1 < u32::MAX
}

impl Environment {
    /// The graph is consistent, and the nodes recorded are nodes of the
    /// graph.
    pub open spec fn wf(&self) -> bool {
        &&& self.graph.wf()
        &&& self.scenarios.wf()
        &&& forall|i: int| 0 <= i < self.gprs@.len() ==> #[trigger] self.gprs@[i].1.wf()
        &&& forall|i: int| 0 <= i < self.files@.len() ==> #[trigger] self.files@[i].file_node < self.graph.nodes().len()
            && (self.files@[i].unit_node matches Some(u) ==> u < self.graph.nodes().len())
        &&& forall|i: int| 0 <= i < self.units@.len() ==> #[trigger] self.units@[i].1 < self.graph.nodes().len()
        &&& forall|i: int| 0 <= i < self.implicit_projects@.len() ==> #[trigger] self.implicit_projects@[i]
            < self.graph.nodes().len()
    }

    /// An empty environment.
    pub fn new() -> (r: Self)
        ensures
            r.wf(),
            r.graph.nodes().len() == 0,
            r.gprs@.len() == 0,
            r.files@.len() == 0,
            r.graph.edges().len() == 0,
            r.units@.len() == 0,
            r.implicit_projects@.len() == 0,
            r.scenarios.variables@.len() == 0,
            r.scenarios.next_bit == 0,
            r.scenarios.externals@.len() == 0,
    {
        Environment {
            scenarios: AllScenarios { variables: Vec::new(), next_bit: 0, externals: Vec::new() },
            graph: DepGraph::new(),
            gprs: Vec::new(),
            files: Vec::new(),
            units: Vec::new(),
            implicit_projects: Vec::new(),
        }
    }

    /// Register a GPR file into the graph, unless it is there already, and
    /// return its node.
    pub fn register_gpr(&mut self, gpr: String, gprs: &mut Vec<(String, usize)>) -> (r: Result<usize, Error>)
        requires
            old(self).wf(),
            nodes_in(old(gprs)@, old(self).graph.nodes().len()),
        ensures
            final(self).wf(),
            nodes_in(final(gprs)@, final(self).graph.nodes().len()),
            final(self).graph.nodes().len() >= old(self).graph.nodes().len(),
            final(self).gprs == old(self).gprs,
            final(self).files == old(self).files,
            final(self).implicit_projects == old(self).implicit_projects,
            final(self).scenarios == old(self).scenarios,
            r matches Ok(i) ==> i < final(self).graph.nodes().len() && find_path_from(final(gprs)@, gpr@, 0) == Some(
                find_path_from(final(gprs)@, gpr@, 0)->0,
            ) && final(gprs)@[find_path_from(final(gprs)@, gpr@, 0)->0].1 == i,
            r is Err ==> r == Err::<usize, Error>(Error::TooManyNodes),
            // A known project keeps its node; a new one gets a new node.
            find_path_from(old(gprs)@, gpr@, 0) is Some ==> *final(self) == *old(self) && final(gprs)@ == old(gprs)@
                && r is Ok,
            find_path_from(old(gprs)@, gpr@, 0) is None ==> if graph_has_room(&old(self).graph) {
                &&& r == Ok::<usize, Error>(old(self).graph.nodes().len() as usize)
                &&& final(self).graph.nodes().len() == old(self).graph.nodes().len() + 1
                &&& final(self).graph.nodes().drop_last() == old(self).graph.nodes()
                &&& final(self).graph.nodes().last() matches Node::Project(p) && p@ == gpr@
                &&& final(self).graph.edges() == old(self).graph.edges()
                &&& final(gprs)@.len() == old(gprs)@.len() + 1
                &&& final(gprs)@.drop_last() == old(gprs)@
                &&& final(gprs)@.last().0@ == gpr@
                &&& final(gprs)@.last().1 == old(self).graph.nodes().len()
            } else {
                *final(self) == *old(self) && final(gprs)@ == old(gprs)@
            },
    {
        proof {
            lemma_find_path_in(gprs@, gpr@, 0);
        }
        match find_path(gprs, &gpr) {
            Some(i) => Ok(i),
            None => {
                if !self.graph_has_room() {
                    return Err(Error::TooManyNodes);
                }
                let ghost before = gprs@;
                let idx = self.graph.add_node(Node::Project(crate::strings::owned(gpr.as_str())));
                gprs.push((gpr, idx));
                proof {
                    lemma_find_path_push(before, (gpr, idx), gpr@, 0);
                    assert(gprs@[before.len() as int].1 == idx);
                    assert(gprs@.drop_last() =~= before);
                    assert(self.graph.nodes().drop_last() =~= old(self).graph.nodes());
                }
                Ok(idx)
            },
        }
    }

    /// Whether the graph can hold one more node and one more edge.
    pub fn graph_has_room(&self) -> (r: bool)
        ensures
            r == graph_has_room(&self.graph),
    {
        let n = self.graph.node_count();
        let e = self.graph.edge_count();
        n < u32::MAX as usize - 1 && e < u32::MAX as usize - 1
    }

    /// Find all GPR files that need to be parsed: the runtime projects, and
    /// the projects given as roots.  `found_in_roots[i]` is `None` when the
    /// i-th root is itself a project file, or the project files found under
    /// it when it is a directory.
    /// Insert dummy nodes in the graph, so that we have an index
    pub fn find_all_gpr(&mut self, settings: &Settings, found_in_roots: &Vec<Option<Vec<String>>>) -> (r: Result<
        Vec<(String, usize)>,
        Error,
    >)
        requires
            old(self).wf(),
        ensures
            final(self).wf(),
            final(self).gprs == old(self).gprs,
            final(self).files == old(self).files,
            r matches Ok(gprs) ==> nodes_in(gprs@, final(self).graph.nodes().len()),
            r is Err ==> r == Err::<Vec<(String, usize)>, Error>(Error::TooManyNodes),
            // It succeeds when the graph has room for a node per project.
            old(self).graph.nodes().len() + settings.runtime_gpr@.len() + root_count(
                settings.root@,
                found_in_roots@,
                root_span(settings.root@, found_in_roots@),
            ) + 1 < u32::MAX && old(self).graph.edges().len() + 1 < u32::MAX ==> r is Ok,
            // Every runtime project and every project of the roots has a
            // node; the runtime projects are implicitly imported.
            r matches Ok(gprs) ==> {
                &&& forall|t: int|
                    0 <= t < settings.runtime_gpr@.len() ==> #[trigger] find_path_from(
                        gprs@,
                        settings.runtime_gpr@[t]@,
                        0,
                    ) is Some
                &&& forall|t: int|
                    0 <= t < root_span(settings.root@, found_in_roots@) ==> #[trigger] root_found(
                        gprs@,
                        settings.root@[t],
                        found_in_roots@[t],
                    )
                &&& final(self).implicit_projects@.len() == old(self).implicit_projects@.len()
                    + settings.runtime_gpr@.len()
                &&& forall|t: int|
                    0 <= t < settings.runtime_gpr@.len() ==> #[trigger] final(self).implicit_projects@[old(
                        self,
                    ).implicit_projects@.len() + t] == gprs@[find_path_from(gprs@, settings.runtime_gpr@[t]@, 0)->0].1
                &&& forall|t: int|
                    0 <= t < old(self).implicit_projects@.len() ==> #[trigger] final(self).implicit_projects@[t] == old(
                        self,
                    ).implicit_projects@[t]
            },
    {
        let ghost n0 = self.graph.nodes().len();
        let ghost total = settings.runtime_gpr@.len() + root_count(
            settings.root@,
            found_in_roots@,
            root_span(settings.root@, found_in_roots@),
        );
        let ghost imp0 = self.implicit_projects@;
        let mut gprs: Vec<(String, usize)> = Vec::new();
        let mut i: usize = 0;
        while i < settings.runtime_gpr.len()
            invariant
                self.wf(),
                self.gprs == old(self).gprs,
                self.files == old(self).files,
                self.graph.edges() == old(self).graph.edges(),
                nodes_in(gprs@, self.graph.nodes().len()),
                i <= settings.runtime_gpr@.len(),
                n0 == old(self).graph.nodes().len(),
                self.graph.nodes().len() <= n0 + i,
                forall|t: int| 0 <= t < i ==> #[trigger] find_path_from(gprs@, settings.runtime_gpr@[t]@, 0) is Some,
                self.implicit_projects@.len() == imp0.len() + i,
                imp0 == old(self).implicit_projects@,
                forall|t: int| 0 <= t < imp0.len() ==> #[trigger] self.implicit_projects@[t] == imp0[t],
                forall|t: int|
                    0 <= t < i ==> #[trigger] self.implicit_projects@[imp0.len() + t] == gprs@[find_path_from(
                        gprs@,
                        settings.runtime_gpr@[t]@,
                        0,
                    )->0].1,
            decreases settings.runtime_gpr.len() - i,
        {
            let ghost g0 = gprs@;
            let ghost imp1 = self.implicit_projects@;
            let nodeidx = self.register_gpr(crate::strings::owned(settings.runtime_gpr[i].as_str()), &mut gprs)?;
            proof {
                lemma_find_path_prefix_all(g0, gprs@);
            }
            self.implicit_projects.push(nodeidx);
            proof {
                assert forall|t: int| 0 <= t < i + 1 implies #[trigger] find_path_from(gprs@, settings.runtime_gpr@[t]@, 0) is Some by {
                    if t < i {
                        assert(find_path_from(g0, settings.runtime_gpr@[t]@, 0) is Some);
                    }
                }
                assert forall|t: int| 0 <= t < imp0.len() implies #[trigger] self.implicit_projects@[t] == imp0[t] by {
                    assert(self.implicit_projects@[t] == imp1[t]);
                }
                assert forall|t: int|
                    0 <= t < i + 1 implies #[trigger] self.implicit_projects@[imp0.len() + t] == gprs@[find_path_from(
                        gprs@,
                        settings.runtime_gpr@[t]@,
                        0,
                    )->0].1 by {
                    if t < i {
                        assert(self.implicit_projects@[imp0.len() + t] == imp1[imp0.len() + t]);
                        assert(find_path_from(g0, settings.runtime_gpr@[t]@, 0) is Some);
                        let q = find_path_from(g0, settings.runtime_gpr@[t]@, 0)->0;
                        lemma_find_path_in(g0, settings.runtime_gpr@[t]@, 0);
                        assert(gprs@[q] == g0[q]);
                    }
                }
            }
            i = i + 1;
        }
        let mut k: usize = 0;
        while k < settings.root.len()
            invariant
                self.wf(),
                self.gprs == old(self).gprs,
                self.files == old(self).files,
                self.graph.edges() == old(self).graph.edges(),
                nodes_in(gprs@, self.graph.nodes().len()),
                imp0 == old(self).implicit_projects@,
                self.implicit_projects@.len() == imp0.len() + i,
                forall|t: int| 0 <= t < imp0.len() ==> #[trigger] self.implicit_projects@[t] == imp0[t],
                forall|t: int|
                    0 <= t < i ==> #[trigger] self.implicit_projects@[imp0.len() + t] == gprs@[find_path_from(
                        gprs@,
                        settings.runtime_gpr@[t]@,
                        0,
                    )->0].1,
                n0 + total + 1 < u32::MAX ==> self.graph.nodes().len() + 1 <= n0 + i + root_count(settings.root@, found_in_roots@, min_int(k as int, found_in_roots@.len() as int)) + 1,
                i == settings.runtime_gpr@.len(),
                k <= settings.root@.len(),
                n0 == old(self).graph.nodes().len(),
                total == settings.runtime_gpr@.len() + root_count(
                    settings.root@,
                    found_in_roots@,
                    root_span(settings.root@, found_in_roots@),
                ),
                self.graph.nodes().len() <= n0 + i + root_count(settings.root@, found_in_roots@, min_int(k as int, found_in_roots@.len() as int)),
                forall|t: int| 0 <= t < i ==> #[trigger] find_path_from(gprs@, settings.runtime_gpr@[t]@, 0) is Some,
                forall|t: int|
                    0 <= t < min_int(k as int, found_in_roots@.len() as int) ==> #[trigger] root_found(
                        gprs@,
                        settings.root@[t],
                        found_in_roots@[t],
                    ),
            decreases settings.root.len() - k,
        {
            if k < found_in_roots.len() {
                let ghost g0 = gprs@;
                let ghost imp1 = self.implicit_projects@;
                proof {
                    lemma_root_count_mono(settings.root@, found_in_roots@, k + 1, root_span(settings.root@, found_in_roots@));
                    assert(min_int(k as int, found_in_roots@.len() as int) == k);
                }
                match &found_in_roots[k] {
                    None => {
                        self.register_gpr(crate::strings::owned(settings.root[k].as_str()), &mut gprs)?;
                        proof {
                            lemma_find_path_prefix_all(g0, gprs@);
                        }
                    },
                    Some(found) => {
                        let mut j: usize = 0;
                        while j < found.len()
                            invariant
                                self.wf(),
                                self.gprs == old(self).gprs,
                                self.files == old(self).files,
                                self.graph.edges() == old(self).graph.edges(),
                                nodes_in(gprs@, self.graph.nodes().len()),
                                j <= found@.len(),
                                g0.len() <= gprs@.len(),
                                forall|t: int| 0 <= t < g0.len() ==> #[trigger] gprs@[t] == g0[t],
                                self.graph.nodes().len() <= n0 + i + root_count(settings.root@, found_in_roots@, k as int) + j,
                                found_in_roots@[k as int] == Some(*found),
                                k < found_in_roots@.len(),
                                root_count(settings.root@, found_in_roots@, k + 1) <= root_count(
                                    settings.root@,
                                    found_in_roots@,
                                    root_span(settings.root@, found_in_roots@),
                                ),
                                total == settings.runtime_gpr@.len() + root_count(
                                    settings.root@,
                                    found_in_roots@,
                                    root_span(settings.root@, found_in_roots@),
                                ),
                                i == settings.runtime_gpr@.len(),
                                n0 == old(self).graph.nodes().len(),
                                self.implicit_projects@ == imp1,
                                forall|t: int| 0 <= t < j ==> #[trigger] find_path_from(gprs@, found@[t]@, 0) is Some,
                            decreases found.len() - j,
                        {
                            let ghost g1 = gprs@;
                            self.register_gpr(crate::strings::owned(found[j].as_str()), &mut gprs)?;
                            proof {
                                lemma_find_path_prefix_all(g1, gprs@);
                                assert forall|t: int| 0 <= t < g0.len() implies #[trigger] gprs@[t] == g0[t] by {
                                    assert(gprs@[t] == g1[t]);
                                }
                                assert forall|t: int| 0 <= t < j + 1 implies #[trigger] find_path_from(gprs@, found@[t]@, 0) is Some by {
                                    if t < j {
                                        assert(find_path_from(g1, found@[t]@, 0) is Some);
                                    }
                                }
                            }
                            j = j + 1;
                        }
                        proof {
                            lemma_find_path_prefix_all(g0, gprs@);
                        }
                    },
                }
                proof {
                    assert forall|t: int| 0 <= t < i implies #[trigger] find_path_from(gprs@, settings.runtime_gpr@[t]@, 0) is Some by {
                        assert(find_path_from(g0, settings.runtime_gpr@[t]@, 0) is Some);
                    }
                    assert forall|t: int|
                        0 <= t < i implies #[trigger] self.implicit_projects@[imp0.len() + t] == gprs@[find_path_from(
                            gprs@,
                            settings.runtime_gpr@[t]@,
                            0,
                        )->0].1 by {
                        assert(find_path_from(g0, settings.runtime_gpr@[t]@, 0) is Some);
                        let q = find_path_from(g0, settings.runtime_gpr@[t]@, 0)->0;
                        lemma_find_path_in(g0, settings.runtime_gpr@[t]@, 0);
                        assert(gprs@[q] == g0[q]);
                    }
                    assert(min_int(k + 1, found_in_roots@.len() as int) == k + 1);
                    assert forall|t: int|
                        0 <= t < min_int(k + 1, found_in_roots@.len() as int) implies #[trigger] root_found(
                        gprs@,
                        settings.root@[t],
                        found_in_roots@[t],
                    ) by {
                        if t < k {
                            assert(root_found(g0, settings.root@[t], found_in_roots@[t]));
                            lemma_root_found_prefix(g0, gprs@, settings.root@[t], found_in_roots@[t]);
                        }
                    }
                }
            }
            k = k + 1;
        }
        Ok(gprs)
    }

    /// Retrieve a project from its path.
    pub fn get_gpr(&self, gprpath: &String) -> (r: Option<&GprFile>)
        ensures
            r matches Some(g) ==> exists|i: int| 0 <= i < self.gprs@.len() && #[trigger] self.gprs@[i].0@ == gprpath@
                && self.gprs@[i].1 == *g,
            r is None ==> forall|i: int| 0 <= i < self.gprs@.len() ==> #[trigger] self.gprs@[i].0@ != gprpath@,
            match gpr_from(self.gprs@, gprpath@, 0) {
                Some(i) => r == Some(&self.gprs@[i].1),
                None => r is None,
            },
    {
        let mut i: usize = 0;
        while i < self.gprs.len()
            invariant
                i <= self.gprs@.len(),
                forall|k: int| 0 <= k < i ==> #[trigger] self.gprs@[k].0@ != gprpath@,
                gpr_from(self.gprs@, gprpath@, 0) == gpr_from(self.gprs@, gprpath@, i as int),
            decreases self.gprs.len() - i,
        {
            if self.gprs[i].0 == *gprpath {
                return Some(&self.gprs[i].1);
            }
            i = i + 1;
        }
        None
    }
}

proof fn lemma_find_path_push(v: Seq<(String, usize)>, e: (String, usize), path: Seq<char>, k: int)
    requires
        0 <= k <= v.len(),
        find_path_from(v, path, k) is None,
        e.0@ == path,
    ensures
        find_path_from(v.push(e), path, k) == Some(v.len() as int),
    decreases v.len() - k,
{
    assert(v.push(e)[v.len() as int] == e);
    if k < v.len() {
        assert(v.push(e)[k] == v[k]);
        lemma_find_path_push(v, e, path, k + 1);
    }
}


/// The project with the given path, in a list of processed projects.
fn find_gpr<'a>(gprs: &'a Vec<(String, GprFile)>, path: &String) -> (r: Option<&'a GprFile>)
    ensures
        r matches Some(g) ==> exists|i: int| 0 <= i < gprs@.len() && #[trigger] gprs@[i].0@ == path@ && gprs@[i].1 == *g,
        match gpr_from(gprs@, path@, 0) {
            Some(i) => r == Some(&gprs@[i].1),
            None => r is None,
        },
{
    let mut i: usize = 0;
    while i < gprs.len()
        invariant
            i <= gprs@.len(),
            gpr_from(gprs@, path@, 0) == gpr_from(gprs@, path@, i as int),
        decreases gprs.len() - i,
    {
        if gprs[i].0 == *path {
            return Some(&gprs[i].1);
        }
        i = i + 1;
    }
    None
}

/// Whether the node is in the list.
fn contains_node(v: &Vec<usize>, n: usize) -> (r: bool)
    ensures
        r == v@.contains(n),
{
    let mut i: usize = 0;
    while i < v.len()
        invariant
            i <= v@.len(),
            forall|k: int| 0 <= k < i ==> v@[k] != n,
        decreases v.len() - i,
    {
        if v[i] == n {
            assert(v@[i as int] == n);
            return true;
        }
        i = i + 1;
    }
    false
}

/// The project `g`, recorded at `path`, is the processed raw file of its
/// node (the first one listed for it): with the raw file's path, name and
/// qualifiers, and a value for every declaration of its body.
pub open spec fn processed_from(rawfiles: Seq<(usize, RawGPR)>, path: Seq<char>, g: GprFile) -> bool {
    exists|i: int|
        0 <= i < rawfiles.len() && #[trigger] rawfiles[i].0 == g.node && (forall|m: int|
            0 <= m < i ==> rawfiles[m].0 != g.node) && {
            let raw = rawfiles[i].1;
            &&& path == raw.path@
            &&& g.path@ == raw.path@
            &&& g.name@ == raw.name@
            &&& g.is_abstract == raw.is_abstract
            &&& g.is_aggregate == raw.is_aggregate
            &&& g.is_library == raw.is_library
            &&& forall|j: int|
                0 <= j < raw.body@.len() ==> #[trigger] declared_in(raw.body@[j].1, PackageName::Top, g.values@)
        }
}

/// The raw project of a node.
fn find_raw(rawfiles: &Vec<(usize, RawGPR)>, node: usize) -> (r: Option<&RawGPR>)
    ensures
        r matches Some(g) ==> exists|i: int| 0 <= i < rawfiles@.len() && #[trigger] rawfiles@[i].0 == node && rawfiles@[i].1 == *g
            && forall|k: int| 0 <= k < i ==> rawfiles@[k].0 != node,
        r is None ==> forall|i: int| 0 <= i < rawfiles@.len() ==> #[trigger] rawfiles@[i].0 != node,
{
    let mut i: usize = 0;
    while i < rawfiles.len()
        invariant
            i <= rawfiles@.len(),
            forall|k: int| 0 <= k < i ==> #[trigger] rawfiles@[k].0 != node,
        decreases rawfiles.len() - i,
    {
        if rawfiles[i].0 == node {
            return Some(&rawfiles[i].1);
        }
        i = i + 1;
    }
    None
}

impl Environment {
    /// Adds an edge, when the graph has room for it.
    fn add_edge_checked(&mut self, from: usize, to: usize, e: Edge) -> (r: Result<(), Error>)
        requires
            old(self).wf(),
            from < old(self).graph.nodes().len(),
            to < old(self).graph.nodes().len(),
        ensures
            final(self).wf(),
            final(self).graph.nodes() == old(self).graph.nodes(),
            r is Ok ==> final(self).graph.edges() == old(self).graph.edges().push((from as nat, to as nat, e)),
            r is Err ==> r == Err::<(), Error>(Error::TooManyNodes) && final(self).graph.edges() == old(self).graph.edges(),
            r is Ok <==> graph_has_room(&old(self).graph),
            final(self).gprs == old(self).gprs,
            final(self).files == old(self).files,
            final(self).units == old(self).units,
            final(self).implicit_projects == old(self).implicit_projects,
            final(self).scenarios == old(self).scenarios,
    {
        if !self.graph_has_room() {
            return Err(Error::TooManyNodes);
        }
        self.graph.add_edge(from, to, e);
        Ok(())
    }

    /// Parse a raw GPR file, but do not analyze it yet.  We can however
    /// setup dependencies in the graph already, so that we can do
    /// topological sort later and parse them in the correct order.  The
    /// projects it imports or extends that were not known yet are added to
    /// `tovisit`.
    pub fn parse_raw_gpr(
        &mut self,
        file: &File,
        nodeidx: usize,
        settings: &Settings,
        gprs: &mut Vec<(String, usize)>,
        tovisit: &mut Vec<(String, usize)>,
    ) -> (r: Result<RawGPR, Error>)
        requires
            old(self).wf(),
            nodeidx < old(self).graph.nodes().len(),
            nodes_in(old(gprs)@, old(self).graph.nodes().len()),
            nodes_in(old(tovisit)@, old(self).graph.nodes().len()),
        ensures
            final(self).wf(),
            final(self).graph.nodes().len() >= old(self).graph.nodes().len(),
            nodes_in(final(gprs)@, final(self).graph.nodes().len()),
            nodes_in(final(tovisit)@, final(self).graph.nodes().len()),
            final(self).gprs == old(self).gprs,
            final(self).files == old(self).files,
            final(self).scenarios == old(self).scenarios,
            r matches Ok(raw) ==> raw.path@ == file.path@,
    {
        if !lexable_text(file.buffer.as_str()) {
            return Err(Error::IoWithPath(crate::strings::owned("Too many lines"), file.path.clone()));
        }
        if path_parent(file.path.as_str()).is_none() {
            return Err(Error::NotFound(file.path.clone()));
        }
        let scanner = GprScanner::new(file, settings);
        let raw = scanner.parse()?;
        let ghost n0 = self.graph.nodes().len();
        if !raw.is_abstract && !contains_node(&self.implicit_projects, nodeidx) {
            let mut i: usize = 0;
            while i < self.implicit_projects.len()
                invariant
                    self.wf(),
                    nodeidx < self.graph.nodes().len(),
                    self.graph.nodes().len() == n0,
                    n0 >= old(self).graph.nodes().len(),
                    nodes_in(gprs@, self.graph.nodes().len()),
                    nodes_in(tovisit@, self.graph.nodes().len()),
                    self.gprs == old(self).gprs,
                    self.files == old(self).files,
                    self.scenarios == old(self).scenarios,
                decreases self.implicit_projects.len() - i,
            {
                let imp = self.implicit_projects[i];
                self.add_edge_checked(nodeidx, imp, Edge::GPRImports)?;
                i = i + 1;
            }
        }
        let mut k: usize = 0;
        while k < raw.imported.len()
            invariant
                self.wf(),
                nodeidx < self.graph.nodes().len(),
                self.graph.nodes().len() >= n0,
                n0 >= old(self).graph.nodes().len(),
                nodes_in(gprs@, self.graph.nodes().len()),
                nodes_in(tovisit@, self.graph.nodes().len()),
                self.gprs == old(self).gprs,
                self.files == old(self).files,
                self.scenarios == old(self).scenarios,
            decreases raw.imported.len() - k,
        {
            let dep = &raw.imported[k];
            let depidx = self.node_to_visit(dep, gprs, tovisit)?;
            self.add_edge_checked(nodeidx, depidx, Edge::GPRImports)?;
            k = k + 1;
        }
        if let Some(ext) = &raw.extends {
            let extidx = self.node_to_visit(ext, gprs, tovisit)?;
            self.add_edge_checked(nodeidx, extidx, Edge::GPRExtends)?;
        }
        Ok(raw)
    }

    /// The node of a project, registered (and to be visited) if it was not
    /// known yet.
    fn node_to_visit(
        &mut self,
        path: &String,
        gprs: &mut Vec<(String, usize)>,
        tovisit: &mut Vec<(String, usize)>,
    ) -> (r: Result<usize, Error>)
        requires
            old(self).wf(),
            nodes_in(old(gprs)@, old(self).graph.nodes().len()),
            nodes_in(old(tovisit)@, old(self).graph.nodes().len()),
        ensures
            final(self).wf(),
            final(self).graph.nodes().len() >= old(self).graph.nodes().len(),
            nodes_in(final(gprs)@, final(self).graph.nodes().len()),
            nodes_in(final(tovisit)@, final(self).graph.nodes().len()),
            final(self).gprs == old(self).gprs,
            final(self).files == old(self).files,
            final(self).scenarios == old(self).scenarios,
            r matches Ok(i) ==> i < final(self).graph.nodes().len(),
            // A known project keeps its node; a new one gets a new node and
            // is to be visited.
            find_path_from(old(gprs)@, path@, 0) matches Some(i) ==> r == Ok::<usize, Error>(old(gprs)@[i].1)
                && *final(self) == *old(self) && final(gprs)@ == old(gprs)@ && final(tovisit)@ == old(tovisit)@,
            find_path_from(old(gprs)@, path@, 0) is None ==> if graph_has_room(&old(self).graph) {
                &&& r == Ok::<usize, Error>(old(self).graph.nodes().len() as usize)
                &&& final(self).graph.nodes().len() == old(self).graph.nodes().len() + 1
                &&& final(self).graph.nodes().drop_last() == old(self).graph.nodes()
                &&& final(self).graph.nodes().last() matches Node::Project(p) && p@ == path@
                &&& final(gprs)@.drop_last() == old(gprs)@
                &&& final(gprs)@.last().0@ == path@
                &&& final(gprs)@.last().1 == old(self).graph.nodes().len()
                &&& final(tovisit)@.drop_last() == old(tovisit)@
                &&& final(tovisit)@.last().0@ == path@
                &&& final(tovisit)@.last().1 == old(self).graph.nodes().len()
            } else {
                r == Err::<usize, Error>(Error::TooManyNodes) && *final(self) == *old(self) && final(gprs)@ == old(
                    gprs,
                )@ && final(tovisit)@ == old(tovisit)@
            },
    {
        match find_path(gprs, path) {
            Some(d) => {
                proof {
                    lemma_find_path_in(gprs@, path@, 0);
                }
                Ok(d)
            },
            None => {
                let idx = self.register_gpr(crate::strings::owned(path.as_str()), gprs)?;
                let ghost t0 = tovisit@;
                tovisit.push((crate::strings::owned(path.as_str()), idx));
                proof {
                    assert(tovisit@.drop_last() =~= t0);
                }
                Ok(idx)
            },
        }
    }

    /// Process the projects in topological order, so that any reference to
    /// a variable or attribute in another project is found.
    pub fn process_projects(&mut self, rawfiles: &Vec<(usize, RawGPR)>) -> (r: Result<(), Error>)
        requires
            old(self).wf(),
        ensures
            final(self).wf(),
            final(self).graph == old(self).graph,
            final(self).files == old(self).files,
            // It fails on a cycle, and only then with that error.
            has_cycle(old(self).graph.edges()) <==> r == Err::<(), Error>(Error::DependencyCycle),
            // On success, one project per node of the graph is added, each
            // the processed raw file of its node.
            r is Ok ==> {
                &&& final(self).gprs@.len() == old(self).gprs@.len() + old(self).graph.nodes().len()
                &&& final(self).gprs@.subrange(0, old(self).gprs@.len() as int) == old(self).gprs@
                &&& forall|t: int|
                    old(self).gprs@.len() <= t < final(self).gprs@.len() ==> #[trigger] processed_from(
                        rawfiles@,
                        final(self).gprs@[t].0@,
                        final(self).gprs@[t].1,
                    )
                &&& forall|t: int, u: int|
                    old(self).gprs@.len() <= t < u < final(self).gprs@.len() ==> #[trigger] final(self).gprs@[t].1.node
                        != #[trigger] final(self).gprs@[u].1.node
            },
    {
        let order = match self.graph.toposort() {
            Some(o) => {
                proof {
                    lemma_topological_order_acyclic(self.graph.nodes().len(), self.graph.edges(), o@);
                }
                o
            },
            None => {
                return Err(Error::DependencyCycle);
            },
        };
        let mut k: usize = order.len();
        let ghost n0 = old(self).gprs@.len();
        while k > 0
            invariant
                self.wf(),
                self.graph == old(self).graph,
                self.files == old(self).files,
                !has_cycle(old(self).graph.edges()),
                k <= order@.len(),
                order@.len() == old(self).graph.nodes().len(),
                all_distinct(order@),
                n0 == old(self).gprs@.len(),
                forall|i: int| 0 <= i < order@.len() ==> #[trigger] order@[i] < self.graph.nodes().len(),
                self.gprs@.len() == n0 + (order@.len() - k),
                self.gprs@.subrange(0, n0 as int) == old(self).gprs@,
                forall|t: int|
                    n0 <= t < self.gprs@.len() ==> #[trigger] processed_from(rawfiles@, self.gprs@[t].0@, self.gprs@[t].1)
                        && self.gprs@[t].1.node == order@[order@.len() - 1 - (t - n0)],
            decreases k,
        {
            k = k - 1;
            let nodeidx = order[k];
            let raw = match find_raw(rawfiles, nodeidx) {
                Some(r) => r,
                None => {
                    return Err(Error::InvalidGraphNode(crate::strings::owned("project not parsed")));
                },
            };
            if !statements_valid(&raw.body) {
                return Err(Error::UnsupportedExpression(raw.path.clone()));
            }
            let deps = self.graph.gpr_dependencies(nodeidx);
            let mut gprdeps: Vec<&GprFile> = Vec::new();
            let mut i: usize = 0;
            while i < deps.len()
                invariant
                    self.wf(),
                    self.graph == old(self).graph,
                    self.files == old(self).files,
                    !has_cycle(old(self).graph.edges()),
                    i <= deps@.len(),
                    all_wf(gprdeps@),
                decreases deps.len() - i,
            {
                proof {
                    // Dependencies are reachable, hence nodes of the graph.
                    assert(deps@.contains(deps@[i as int]));
                }
                let d = deps[i];
                if d >= self.graph.node_count() {
                    return Err(Error::InvalidGraphNode(crate::strings::owned("dependency out of the graph")));
                }
                let path = self.graph.get_project(d)?;
                match find_gpr(&self.gprs, path) {
                    Some(g) => {
                        proof {
                            let j = choose|j: int| 0 <= j < self.gprs@.len() && #[trigger] self.gprs@[j].0@ == path@
                                && self.gprs@[j].1 == *g;
                            assert(self.gprs@[j].1.wf());
                        }
                        let ghost before = gprdeps@;
                        gprdeps.push(g);
                        proof {
                            assert forall|t: int| 0 <= t < gprdeps@.len() implies #[trigger] gprdeps@[t].wf() by {
                                if t < before.len() {
                                    assert(gprdeps@[t] == before[t]);
                                }
                            }
                        }
                    },
                    None => {
                        return Err(Error::NotFound(path.clone()));
                    },
                }
                i = i + 1;
            }
            let ext = match &raw.extends {
                Some(e) => find_gpr(&self.gprs, e),
                None => None,
            };
            let mut gpr = GprFile::new(raw.path.clone(), raw.is_abstract, raw.is_aggregate, raw.is_library, nodeidx);
            gpr.process(raw, ext, gprdeps.as_slice(), &mut self.scenarios)?;
            let ghost g0 = self.gprs@;
            let p = raw.path.clone();
            proof {
                let ri = choose|ri: int|
                    0 <= ri < rawfiles@.len() && #[trigger] rawfiles@[ri].0 == nodeidx && rawfiles@[ri].1 == *raw
                        && forall|m: int| 0 <= m < ri ==> rawfiles@[m].0 != nodeidx;
                assert(processed_from(rawfiles@, p@, gpr));
            }
            self.gprs.push((p, gpr));
            proof {
                assert(self.gprs@.subrange(0, n0 as int) =~= g0.subrange(0, n0 as int));
                assert forall|t: int|
                    n0 <= t < self.gprs@.len() implies #[trigger] processed_from(rawfiles@, self.gprs@[t].0@, self.gprs@[t].1)
                        && self.gprs@[t].1.node == order@[order@.len() - 1 - (t - n0)] by {
                    if t < g0.len() {
                        assert(self.gprs@[t] == g0[t]);
                    }
                }
            }
        }
        proof {
            assert forall|t: int, u: int|
                n0 <= t < u < self.gprs@.len() implies #[trigger] self.gprs@[t].1.node != #[trigger] self.gprs@[u].1.node by {
                assert(processed_from(rawfiles@, self.gprs@[t].0@, self.gprs@[t].1));
                assert(processed_from(rawfiles@, self.gprs@[u].0@, self.gprs@[u].1));
            }
        }
        Ok(())
    }

    /// Add a unit to the graph, if not there yet, and return its node.
    pub fn add_unit(&mut self, unitname: &QName) -> (r: Result<usize, Error>)
        requires
            old(self).wf(),
        ensures
            final(self).wf(),
            final(self).graph.edges() == old(self).graph.edges(),
            final(self).graph.nodes().len() >= old(self).graph.nodes().len(),
            final(self).gprs == old(self).gprs,
            final(self).files == old(self).files,
            final(self).scenarios == old(self).scenarios,
            r matches Ok(u) ==> u < final(self).graph.nodes().len() && exists|i: int|
                0 <= i < final(self).units@.len() && #[trigger] final(self).units@[i].0@ == unitname@
                    && final(self).units@[i].1 == u,
            // A known unit keeps its node; a new one gets a new node.
            unit_from(old(self).units@, unitname@, 0) matches Some(i) ==> *final(self) == *old(self) && r == Ok::<
                usize,
                Error,
            >(old(self).units@[i].1),
            unit_from(old(self).units@, unitname@, 0) is None ==> if graph_has_room(&old(self).graph) {
                &&& r == Ok::<usize, Error>(old(self).graph.nodes().len() as usize)
                &&& final(self).graph.nodes().len() == old(self).graph.nodes().len() + 1
                &&& final(self).graph.nodes().drop_last() == old(self).graph.nodes()
                &&& final(self).graph.nodes().last() matches Node::Unit(q) && q@ == unitname@
                &&& final(self).units@.drop_last() == old(self).units@
                &&& final(self).units@.last().1 == old(self).graph.nodes().len()
            } else {
                *final(self) == *old(self) && r == Err::<usize, Error>(Error::TooManyNodes)
            },
    {
        let mut i: usize = 0;
        while i < self.units.len()
            invariant
                self.wf(),
                i <= self.units@.len(),
                unit_from(self.units@, unitname@, 0) == unit_from(self.units@, unitname@, i as int),
            decreases self.units.len() - i,
        {
            if self.units[i].0.same(unitname) {
                return Ok(self.units[i].1);
            }
            i = i + 1;
        }
        if !self.graph_has_room() {
            return Err(Error::TooManyNodes);
        }
        let node = self.graph.add_node(Node::Unit(QName::from_slice(unitname.0.as_slice())));
        let name = QName::from_slice(unitname.0.as_slice());
        self.units.push((name, node));
        proof {
            assert(self.units@[self.units@.len() - 1].0@ == unitname@) by {
                assert(self.units@[self.units@.len() - 1].0.0@ == unitname.0@);
            }
            assert(self.units@.drop_last() =~= old(self).units@);
            assert(self.graph.nodes().drop_last() =~= old(self).graph.nodes());
        }
        Ok(node)
    }

    /// Add a new dependency from the source to a given unit
    pub fn add_source_import(&mut self, source: usize, unit: &QName) -> (r: Result<(), Error>)
        requires
            old(self).wf(),
            source < old(self).graph.nodes().len(),
        ensures
            final(self).wf(),
            final(self).graph.nodes().len() >= old(self).graph.nodes().len(),
            final(self).gprs == old(self).gprs,
            final(self).files == old(self).files,
            final(self).scenarios == old(self).scenarios,
            forall|k: int| 0 <= k < old(self).graph.nodes().len() ==> #[trigger] final(self).graph.nodes()[k] == old(
                self,
            ).graph.nodes()[k],
            // The file imports the unit, added if needed.
            r is Ok ==> exists|i: int|
                0 <= i < final(self).units@.len() && #[trigger] final(self).units@[i].0@ == unit@ && final(self).graph.edges()
                    == old(self).graph.edges().push((source as nat, final(self).units@[i].1 as nat, Edge::SourceImports)),
            r is Err ==> r == Err::<(), Error>(Error::TooManyNodes),
    {
        let u = self.add_unit(unit)?;
        proof {
            assert forall|k: int| 0 <= k < old(self).graph.nodes().len() implies #[trigger] self.graph.nodes()[k] == old(
                self,
            ).graph.nodes()[k] by {
                if self.graph.nodes().len() > old(self).graph.nodes().len() {
                    assert(self.graph.nodes().drop_last()[k] == self.graph.nodes()[k]);
                }
            }
        }
        self.add_edge_checked(source, u, Edge::SourceImports)
    }

    /// Create a new SourceFile, or return an existing one for the same path.
    /// It is an error if the same file has already been registered with
    /// a different language.  The contents of the file were read by the
    /// caller.  Returns the position of the file in `files`.
    pub fn register_source(&mut self, file: &File, lang: &str) -> (r: Result<usize, Error>)
        requires
            old(self).wf(),
        ensures
            final(self).wf(),
            final(self).gprs == old(self).gprs,
            final(self).scenarios == old(self).scenarios,
            final(self).files@.len() >= old(self).files@.len(),
            forall|i: int| 0 <= i < old(self).files@.len() ==> #[trigger] final(self).files@[i] == old(self).files@[i],
            r matches Ok(i) ==> i < final(self).files@.len() && final(self).files@[i as int].path@ == file.path@
                && final(self).files@[i as int].lang@ == lang@,
            // A known file is found again, if its language is the same.
            file_from(old(self).files@, file.path@, 0) matches Some(i) ==> *final(self) == *old(self) && if old(
                self,
            ).files@[i].lang@ == lang@ {
                r == Ok::<usize, Error>(i as usize)
            } else {
                r matches Err(Error::InconsistentFileLang(p)) && p@ == file.path@
            },
            // A new file is added last, with a new source node.
            file_from(old(self).files@, file.path@, 0) is None ==> (r matches Ok(i) ==> i == old(self).files@.len()
                && final(self).files@.len() == old(self).files@.len() + 1 && final(self).files@[i as int].file_node
                == old(self).graph.nodes().len() && (final(self).graph.nodes()[old(self).graph.nodes().len() as int]
                matches Node::Source(p) && p@ == file.path@)),
    {
        let mut i: usize = 0;
        while i < self.files.len()
            invariant
                self.wf(),
                *self == *old(self),
                i <= self.files@.len(),
                file_from(self.files@, file.path@, 0) == file_from(self.files@, file.path@, i as int),
            decreases self.files.len() - i,
        {
            if self.files[i].path == file.path {
                assert(file_from(self.files@, file.path@, i as int) == Some(i as int));
                if !crate::strings::str_eq(self.files[i].lang.as_str(), lang) {
                    return Err(Error::InconsistentFileLang(crate::strings::owned(file.path.as_str())));
                }
                return Ok(i);
            }
            i = i + 1;
        }
        assert(file_from(self.files@, file.path@, i as int) is None);
        assert(file_from(old(self).files@, file.path@, 0) is None);
        if !self.graph_has_room() {
            return Err(Error::TooManyNodes);
        }
        if !lexable_text(file.buffer.as_str()) {
            return Err(Error::IoWithPath(crate::strings::owned("Too many lines"), file.path.clone()));
        }
        let ghost files0 = self.files@;
        let sidx = self.graph.add_node(Node::Source(crate::strings::owned(file.path.as_str())));
        let ghost nodes1 = self.graph.nodes();
        let mut s = SourceFile::new(file, lang, sidx)?;
        if s.unitname.0.len() > 0 {
            let u = self.add_unit(&s.unitname)?;
            s.unit_node = Some(u);
        }
        let mut k: usize = 0;
        while k < s.deps.len()
            invariant
                self.wf(),
                self.files@ == files0,
                files0 == old(self).files@,
                self.gprs == old(self).gprs,
                self.scenarios == old(self).scenarios,
                sidx < self.graph.nodes().len(),
                s.file_node == sidx,
                s.unit_node matches Some(u) ==> u < self.graph.nodes().len(),
                s.path@ == file.path@,
                s.lang@ == lang@,
                file_from(old(self).files@, file.path@, 0) is None,
                nodes1.len() <= self.graph.nodes().len(),
                forall|t: int| 0 <= t < nodes1.len() ==> #[trigger] self.graph.nodes()[t] == nodes1[t],
            decreases s.deps.len() - k,
        {
            self.add_source_import(sidx, &s.deps[k])?;
            k = k + 1;
        }
        // Automatically depend on parent unit
        if let Some(parent) = s.unitname.parent() {
            self.add_source_import(sidx, &parent)?;
        }
        self.files.push(s);
        proof {
            assert forall|t: int| 0 <= t < self.files@.len() implies #[trigger] self.files@[t].file_node
                < self.graph.nodes().len() && (self.files@[t].unit_node matches Some(u) ==> u
                < self.graph.nodes().len()) by {
                if t < files0.len() {
                    assert(self.files@[t] == files0[t]);
                }
            }
        }
        Ok(self.files.len() - 1)
    }

    /// Create graph edges from a project to its source files, and from the
    /// units to their files.  `sources` gives, for each scenario, the
    /// positions of the project's files in `files`.
    pub fn add_sources_to_graph(&mut self, gpridx: usize, sources: &Vec<(Scenario, Vec<usize>)>) -> (r: Result<
        (),
        Error,
    >)
        requires
            old(self).wf(),
            gpridx < old(self).graph.nodes().len(),
        ensures
            final(self).wf(),
            final(self).graph.nodes() == old(self).graph.nodes(),
            final(self).gprs == old(self).gprs,
            final(self).files == old(self).files,
            // The edges of each file, in order.
            r is Ok ==> final(self).graph.edges() == old(self).graph.edges() + sources_edges(
                old(self).files@,
                gpridx,
                sources@,
            ),
            // It succeeds when all the files are known and the graph has room.
            r is Ok <==> sources_valid(old(self).files@, sources@) && (sources_edges(old(self).files@, gpridx, sources@).len()
                == 0 || (old(self).graph.nodes().len() + 1 < u32::MAX && old(self).graph.edges().len() + sources_edges(
                old(self).files@,
                gpridx,
                sources@,
            ).len() < u32::MAX)),
    {
        let ghost files = self.files@;
        let ghost e0 = self.graph.edges();
        let ghost total = sources_edges(files, gpridx, sources@).len();
        proof {
            lemma_sources_edges_mono(files, gpridx, sources@, 0);
        }
        let mut i: usize = 0;
        while i < sources.len()
            invariant
                self.wf(),
                gpridx < self.graph.nodes().len(),
                self.graph.nodes() == old(self).graph.nodes(),
                self.gprs == old(self).gprs,
                self.files == old(self).files,
                files == self.files@,
                e0 == old(self).graph.edges(),
                total == sources_edges(files, gpridx, sources@).len(),
                i <= sources@.len(),
                sources_valid(files, sources@.take(i as int)),
                self.graph.edges() == e0 + sources_edges(files, gpridx, sources@.take(i as int)),
                forall|k: int| 0 <= k <= sources@.len() ==> #[trigger] sources_edges(files, gpridx, sources@.take(k)).len() <= total,
                self.graph.edges().len() > e0.len() ==> self.graph.nodes().len() + 1 < u32::MAX
                    && self.graph.edges().len() < u32::MAX,
                forall|k: int| 0 <= k <= sources@.len() ==> (#[trigger] sources_valid(files, sources@.take(k)) <== sources_valid(files, sources@)),
            decreases sources.len() - i,
        {
            let scenario = sources[i].0;
            let ghost before = self.graph.edges();
            let ghost l = sources@[i as int].1@;
            proof {
                assert(sources@.take(i + 1).drop_last() =~= sources@.take(i as int));
                assert(sources@.take(i + 1).last() == sources@[i as int]);
                assert(l.take(0) =~= Seq::<usize>::empty());
                assert(self.graph.edges() =~= before + list_edges(files, gpridx, scenario, l.take(0)));
                lemma_list_edges_mono(files, gpridx, scenario, l, 0);
            }
            let mut j: usize = 0;
            while j < sources[i].1.len()
                invariant
                    self.wf(),
                    i < sources@.len(),
                    gpridx < self.graph.nodes().len(),
                    self.graph.nodes() == old(self).graph.nodes(),
                    self.gprs == old(self).gprs,
                    self.files == old(self).files,
                    files == self.files@,
                    l == sources@[i as int].1@,
                    scenario == sources@[i as int].0,
                    j <= l.len(),
                    list_valid(files, l.take(j as int)),
                    self.graph.edges() == before + list_edges(files, gpridx, scenario, l.take(j as int)),
                    forall|k: int| 0 <= k <= l.len() ==> #[trigger] list_edges(files, gpridx, scenario, l.take(k)).len()
                        <= list_edges(files, gpridx, scenario, l).len(),
                    e0 == old(self).graph.edges(),
                    before == e0 + sources_edges(files, gpridx, sources@.take(i as int)),
                    total == sources_edges(files, gpridx, sources@).len(),
                    sources_edges(files, gpridx, sources@.take(i + 1)).len() <= total,
                    sources_edges(files, gpridx, sources@.take(i + 1)) == sources_edges(files, gpridx, sources@.take(i as int))
                        + list_edges(files, gpridx, scenario, l),
                    self.graph.edges().len() > e0.len() ==> self.graph.nodes().len() + 1 < u32::MAX
                        && self.graph.edges().len() < u32::MAX,
                    sources_valid(files, sources@.take(i as int)),
                decreases sources@[i as int].1@.len() - j,
            {
                proof {
                    assert(l.take(j + 1).drop_last() =~= l.take(j as int));
                    assert(l.take(j + 1).last() == l[j as int]);
                }
                let f = sources[i].1[j];
                if f >= self.files.len() {
                    return Err(Error::InvalidGraphNode(crate::strings::owned("unknown source file")));
                }
                let file_node = self.files[f].file_node;
                let unit_node = self.files[f].unit_node;
                let kind = self.files[f].kind;
                proof {
                    let lj = list_edges(files, gpridx, scenario, l.take(j as int));
                    let lj1 = list_edges(files, gpridx, scenario, l.take(j + 1));
                    assert(lj1.len() >= lj.len() + 1);
                    assert(lj1.len() <= list_edges(files, gpridx, scenario, l).len());
                    assert(self.graph.edges().len() == e0.len() + sources_edges(files, gpridx, sources@.take(i as int)).len() + lj.len());
                }
                self.add_edge_checked(gpridx, file_node, Edge::ProjectSource(scenario))?;
                if let Some(u) = unit_node {
                    self.add_edge_checked(u, file_node, Edge::UnitSource((kind, scenario)))?;
                }
                proof {
                    assert(self.graph.edges() =~= before + list_edges(files, gpridx, scenario, l.take(j + 1)));
                }
                j = j + 1;
            }
            proof {
                assert(l.take(l.len() as int) =~= l);
                assert(self.graph.edges() =~= e0 + sources_edges(files, gpridx, sources@.take(i + 1)));
            }
            i = i + 1;
        }
        proof {
            assert(sources@.take(sources@.len() as int) =~= sources@);
        }
        Ok(())
    }

    /// From a list of unit nodes, return the paths of all their source
    /// files.  Each path is returned once, since the same file might be
    /// visible in multiple scenarios.
    pub fn file_paths_from_units(&self, unit_nodes: &Vec<usize>) -> (r: Vec<String>)
        requires
            self.wf(),
        ensures
            forall|a: int, b: int| 0 <= a < b < r@.len() ==> #[trigger] r@[a]@ != #[trigger] r@[b]@,
            forall|a: int| 0 <= a < r@.len() ==> is_source_path(self.graph.nodes(), #[trigger] r@[a]),
            forall|s: Seq<char>|
                #[trigger] views(r@).contains(s) <==> exists|i: int, j: int|
                    0 <= i < unit_nodes@.len() && #[trigger] unit_source_at(
                        self.graph.nodes(),
                        self.graph.edges(),
                        unit_nodes@[i],
                        j,
                        s,
                    ),
    {
        let ghost nodes = self.graph.nodes();
        let ghost edges = self.graph.edges();
        let mut r: Vec<String> = Vec::new();
        let mut i: usize = 0;
        while i < unit_nodes.len()
            invariant
                self.wf(),
                nodes == self.graph.nodes(),
                edges == self.graph.edges(),
                i <= unit_nodes@.len(),
                forall|a: int, b: int| 0 <= a < b < r@.len() ==> #[trigger] r@[a]@ != #[trigger] r@[b]@,
                forall|a: int| 0 <= a < r@.len() ==> is_source_path(self.graph.nodes(), #[trigger] r@[a]),
                forall|s: Seq<char>|
                    #[trigger] views(r@).contains(s) <==> exists|i2: int, j: int|
                        0 <= i2 < i && #[trigger] unit_source_at(nodes, edges, unit_nodes@[i2], j, s),
            decreases unit_nodes.len() - i,
        {
            let unit = unit_nodes[i];
            if unit < self.graph.node_count() {
                let out = self.graph.out_edges(unit);
                let mut j: usize = 0;
                while j < out.len()
                    invariant
                        self.wf(),
                        nodes == self.graph.nodes(),
                        edges == self.graph.edges(),
                        i < unit_nodes@.len(),
                        unit == unit_nodes@[i as int],
                        unit < nodes.len(),
                        j <= out@.len(),
                        out@.len() == edges_of(edges, unit as nat, true).len(),
                        forall|t: int|
                            0 <= t < out@.len() ==> #[trigger] out@[t].0 as nat == edges_of(edges, unit as nat, true)[t].0
                                && out@[t].1 == edges_of(edges, unit as nat, true)[t].1,
                        forall|t: int| 0 <= t < out@.len() ==> #[trigger] out@[t].0 < self.graph.nodes().len(),
                        forall|a: int, b: int| 0 <= a < b < r@.len() ==> #[trigger] r@[a]@ != #[trigger] r@[b]@,
                        forall|a: int| 0 <= a < r@.len() ==> is_source_path(self.graph.nodes(), #[trigger] r@[a]),
                        forall|s: Seq<char>|
                            #[trigger] views(r@).contains(s) <==> (exists|i2: int, j2: int|
                                0 <= i2 < i && #[trigger] unit_source_at(nodes, edges, unit_nodes@[i2], j2, s)) || (exists|j2: int|
                                0 <= j2 < j && #[trigger] unit_source_at(nodes, edges, unit, j2, s)),
                    decreases out.len() - j,
                {
                    let ghost before = r@;
                    let ghost mut hit: Option<Seq<char>> = None;
                    proof {
                        assert(out@[j as int].0 as nat == edges_of(edges, unit as nat, true)[j as int].0);
                        assert(out@[j as int].1 == edges_of(edges, unit as nat, true)[j as int].1);
                    }
                    if let Edge::UnitSource(_) = out[j].1 {
                        let target = out[j].0;
                        if let Node::Source(path) = self.graph.node(target) {
                            if !contains_string(&r, path) {
                                r.push(path.clone());
                                proof {
                                    assert(self.graph.nodes()[target as int] == Node::Source(r@[r@.len() - 1]));
                                    assert forall|a: int| 0 <= a < r@.len() implies is_source_path(
                                        self.graph.nodes(),
                                        #[trigger] r@[a],
                                    ) by {
                                        if a < before.len() {
                                            assert(r@[a] == before[a]);
                                        } else {
                                            assert(self.graph.nodes()[target as int] == Node::Source(r@[a]));
                                        }
                                    }
                                    assert forall|a: int, b: int| 0 <= a < b < r@.len() implies #[trigger] r@[a]@
                                        != #[trigger] r@[b]@ by {
                                        if b < before.len() {
                                            assert(r@[a] == before[a] && r@[b] == before[b]);
                                        } else {
                                            assert(r@[a] == before[a]);
                                        }
                                    }
                                    lemma_views_push(before, r@[r@.len() - 1]);
                                    assert(views(r@) =~= views(before).push(path@));
                                    assert forall|x: Seq<char>| #[trigger] views(r@).contains(x) <==> views(before).contains(x) || x == path@ by {
                                        if views(before).contains(x) {
                                            let a = choose|a: int| 0 <= a < views(before).len() && views(before)[a] == x;
                                            assert(views(r@)[a] == x);
                                        }
                                        if x == path@ {
                                            assert(views(r@)[before.len() as int] == x);
                                        }
                                    }
                                }
                            } else {
                                proof {
                                    let a = choose|a: int| 0 <= a < r@.len() && #[trigger] r@[a]@ == path@;
                                    assert(views(r@)[a] == path@);
                                    assert(views(r@).contains(path@));
                                }
                            }
                            proof {
                                hit = Some(path@);
                                assert(forall|x: Seq<char>| #[trigger] views(r@).contains(x) <==> views(before).contains(x) || x == path@);
                                assert forall|x: Seq<char>| unit_source_at(nodes, edges, unit, j as int, x) <==> x == path@ by {}
                            }
                        } else {
                            proof {
                                assert forall|x: Seq<char>| !unit_source_at(nodes, edges, unit, j as int, x) by {}
                            }
                        }
                    } else {
                        proof {
                            assert forall|x: Seq<char>| !unit_source_at(nodes, edges, unit, j as int, x) by {}
                        }
                    }
                    proof {
                        assert forall|x: Seq<char>| #[trigger] views(r@).contains(x) <==> views(before).contains(x) || hit == Some(x) by {
                            if hit is None {
                                assert(r@ == before);
                            }
                        }
                        assert forall|x: Seq<char>| unit_source_at(nodes, edges, unit, j as int, x) <==> hit == Some(x) by {}
                        assert forall|x: Seq<char>|
                            #[trigger] views(r@).contains(x) <==> (exists|i2: int, j2: int|
                                0 <= i2 < i && #[trigger] unit_source_at(nodes, edges, unit_nodes@[i2], j2, x)) || (exists|j2: int|
                                0 <= j2 < j + 1 && #[trigger] unit_source_at(nodes, edges, unit, j2, x)) by {
                            if unit_source_at(nodes, edges, unit, j as int, x) {
                                assert(hit == Some(x));
                            }
                        }
                    }
                    j = j + 1;
                }
            } else {
                proof {
                    assert forall|s: Seq<char>, j: int| !unit_source_at(nodes, edges, unit, j, s) by {}
                }
            }
            i = i + 1;
        }
        r
    }

    /// Iterates over unit dependencies.
    /// In the graph, a unit contains source files, which themselves
    /// import units.
    /// For instance, in Ada:
    ///     unit A
    ///     owns source a.ads
    ///     which imports unit B
    /// This level of indirection allows the actual file to vary depending on
    /// the scenario.
    ///
    /// This function bypasses the file nodes, and returns the dependencies
    /// between units (so we get tuples like (A, B) in the example above).
    /// Iteration starts from a set of target units (B in the example above)
    #[verifier::spinoff_prover]
    pub fn iter_unit_deps(&self, targets: &Vec<usize>) -> (r: Vec<(usize, usize)>)
        requires
            self.wf(),
        ensures
            forall|t: int| 0 <= t < r@.len() ==> targets@.contains(#[trigger] r@[t].1) && r@[t].0
                < self.graph.nodes().len(),
            forall|a: usize, u: usize|
                #[trigger] r@.contains((a, u)) <==> targets@.contains(u) && exists|j: int, k: int|
                    #[trigger] unit_dep_at(self.graph.nodes(), self.graph.edges(), u, j, k, a),
    {
        let ghost nodes = self.graph.nodes();
        let ghost edges = self.graph.edges();
        let mut r: Vec<(usize, usize)> = Vec::new();
        let mut i: usize = 0;
        while i < targets.len()
            invariant
                self.wf(),
                nodes == self.graph.nodes(),
                edges == self.graph.edges(),
                i <= targets@.len(),
                forall|t: int| 0 <= t < r@.len() ==> targets@.contains(#[trigger] r@[t].1) && r@[t].0
                    < self.graph.nodes().len(),
                forall|a: usize, u: usize|
                    #[trigger] r@.contains((a, u)) <==> deps_before(nodes, edges, targets@, i as int, a, u),
            decreases targets.len() - i,
        {
            let unit = targets[i];
            let ghost r0 = r@;
            if unit < self.graph.node_count() {
                let incoming = self.graph.in_edges(unit);
                let mut j: usize = 0;
                while j < incoming.len()
                    invariant
                        self.wf(),
                        nodes == self.graph.nodes(),
                        edges == self.graph.edges(),
                        i < targets@.len(),
                        unit == targets@[i as int],
                        unit < nodes.len(),
                        j <= incoming@.len(),
                        incoming@.len() == edges_of(edges, unit as nat, false).len(),
                        forall|t: int|
                            0 <= t < incoming@.len() ==> #[trigger] incoming@[t].0 as nat == edges_of(edges, unit as nat, false)[t].0
                                && incoming@[t].1 == edges_of(edges, unit as nat, false)[t].1,
                        forall|t: int| 0 <= t < incoming@.len() ==> #[trigger] incoming@[t].0 < self.graph.nodes().len(),
                        forall|t: int| 0 <= t < r@.len() ==> targets@.contains(#[trigger] r@[t].1) && r@[t].0
                            < self.graph.nodes().len(),
                        forall|a: usize, u: usize|
                            #[trigger] r@.contains((a, u)) <==> deps_before(nodes, edges, targets@, i as int, a, u) || (u
                                == unit && exists|j2: int, k: int| 0 <= j2 < j && #[trigger] unit_dep_at(nodes, edges, u, j2, k, a)),
                    decreases incoming.len() - j,
                {
                    proof {
                        assert(incoming@[j as int].0 as nat == edges_of(edges, unit as nat, false)[j as int].0);
                    }
                    let ghost r1 = r@;
                    if let Edge::SourceImports = incoming[j].1 {
                        let sourcefile = incoming[j].0;
                        let owners = self.graph.in_edges(sourcefile);
                        let mut k: usize = 0;
                        while k < owners.len()
                            invariant
                                self.wf(),
                                nodes == self.graph.nodes(),
                                edges == self.graph.edges(),
                                i < targets@.len(),
                                unit == targets@[i as int],
                                unit < nodes.len(),
                                j < edges_of(edges, unit as nat, false).len(),
                                edges_of(edges, unit as nat, false)[j as int].1 is SourceImports,
                                edges_of(edges, unit as nat, false)[j as int].0 == sourcefile as nat,
                                sourcefile < nodes.len(),
                                k <= owners@.len(),
                                owners@.len() == edges_of(edges, sourcefile as nat, false).len(),
                                forall|t: int|
                                    0 <= t < owners@.len() ==> #[trigger] owners@[t].0 as nat == edges_of(edges, sourcefile as nat, false)[t].0
                                        && owners@[t].1 == edges_of(edges, sourcefile as nat, false)[t].1,
                                forall|t: int| 0 <= t < owners@.len() ==> #[trigger] owners@[t].0 < self.graph.nodes().len(),
                                forall|t: int| 0 <= t < r@.len() ==> targets@.contains(#[trigger] r@[t].1) && r@[t].0
                                    < self.graph.nodes().len(),
                                forall|a: usize, u: usize|
                                    #[trigger] r@.contains((a, u)) <==> r1.contains((a, u)) || (u == unit && exists|k2: int|
                                        0 <= k2 < k && #[trigger] unit_dep_at(nodes, edges, u, j as int, k2, a)),
                            decreases owners.len() - k,
                        {
                            proof {
                                assert(owners@[k as int].0 as nat == edges_of(edges, sourcefile as nat, false)[k as int].0);
                                assert(owners@[k as int].1 == edges_of(edges, sourcefile as nat, false)[k as int].1);
                            }
                            let ghost r2 = r@;
                            if let Edge::UnitSource(_) = owners[k].1 {
                                r.push((owners[k].0, unit));
                                assert(targets@[i as int] == unit);
                                proof {
                                    assert forall|t: int| 0 <= t < r@.len() implies targets@.contains(#[trigger] r@[t].1) && r@[t].0
                                        < self.graph.nodes().len() by {
                                        if t < r2.len() {
                                            assert(r@[t] == r2[t]);
                                        } else {
                                            assert(r@[t] == (owners@[k as int].0, unit));
                                            assert(targets@[i as int] == unit);
                                        }
                                    }
                                    assert(unit_dep_at(nodes, edges, unit, j as int, k as int, owners@[k as int].0));
                                    assert forall|a: usize, u: usize| #[trigger] r@.contains((a, u)) <==> r2.contains((a, u)) || (a, u) == (owners@[k as int].0, unit) by {
                                        if r2.contains((a, u)) {
                                            let w = choose|w: int| 0 <= w < r2.len() && r2[w] == (a, u);
                                            assert(r@[w] == (a, u));
                                        }
                                        if r@.contains((a, u)) && !r2.contains((a, u)) {
                                            let w = choose|w: int| 0 <= w < r@.len() && r@[w] == (a, u);
                                            if w < r2.len() {
                                                assert(r2[w] == (a, u));
                                            }
                                        }
                                        if (a, u) == (owners@[k as int].0, unit) {
                                            assert(r@[r2.len() as int] == (a, u));
                                        }
                                    }
                                    assert forall|a: usize| unit_dep_at(nodes, edges, unit, j as int, k as int, a) <==> a == owners@[k as int].0 by {}
                                    assert(forall|t: int| 0 <= t < r@.len() ==> targets@.contains(#[trigger] r@[t].1) && r@[t].0
                                        < self.graph.nodes().len());
                                }
                            } else {
                                proof {
                                    assert forall|a: usize| !unit_dep_at(nodes, edges, unit, j as int, k as int, a) by {}
                                    assert(r@ == r2);
                                    assert(forall|t: int| 0 <= t < r@.len() ==> targets@.contains(#[trigger] r@[t].1) && r@[t].0
                                        < self.graph.nodes().len());
                                }
                            }
                            proof {
                                assert forall|a: usize, u: usize|
                                    #[trigger] r@.contains((a, u)) <==> r1.contains((a, u)) || (u == unit && exists|k2: int|
                                        0 <= k2 < k + 1 && #[trigger] unit_dep_at(nodes, edges, u, j as int, k2, a)) by {
                                    if u == unit && unit_dep_at(nodes, edges, u, j as int, k as int, a) {
                                        assert(r@.contains((a, u)));
                                    }
                                }
                                assert(forall|t: int| 0 <= t < r@.len() ==> targets@.contains(#[trigger] r@[t].1) && r@[t].0
                                    < self.graph.nodes().len());
                            }
                            k = k + 1;
                        }
                        proof {
                            assert forall|a: usize, k2: int| unit_dep_at(nodes, edges, unit, j as int, k2, a) implies 0 <= k2 < k by {}
                        }
                    } else {
                        proof {
                            assert forall|a: usize, k2: int| !unit_dep_at(nodes, edges, unit, j as int, k2, a) by {}
                        }
                    }
                    proof {
                        assert forall|a: usize, u: usize|
                            #[trigger] r@.contains((a, u)) <==> deps_before(nodes, edges, targets@, i as int, a, u) || (u
                                == unit && exists|j2: int, k: int| 0 <= j2 < j + 1 && #[trigger] unit_dep_at(nodes, edges, u, j2, k, a)) by {
                            if u == unit && exists|k: int| #[trigger] unit_dep_at(nodes, edges, u, j as int, k, a) {
                                let k = choose|k: int| #[trigger] unit_dep_at(nodes, edges, u, j as int, k, a);
                                assert(r@.contains((a, u)));
                            }
                            if u == unit && exists|j2: int, k: int| 0 <= j2 < j + 1 && #[trigger] unit_dep_at(nodes, edges, u, j2, k, a) {
                                let (j2, k) = choose|j2: int, k: int| 0 <= j2 < j + 1 && #[trigger] unit_dep_at(nodes, edges, u, j2, k, a);
                                if j2 < j {
                                    assert(r1.contains((a, u)));
                                }
                            }
                        }
                    }
                    j = j + 1;
                }
                proof {
                    assert forall|a: usize, u: usize| #[trigger] r@.contains((a, u)) <==> deps_before(nodes, edges, targets@, i + 1, a, u) by {
                        if u == unit && exists|j2: int, k: int| #[trigger] unit_dep_at(nodes, edges, u, j2, k, a) {
                            let (j2, k) = choose|j2: int, k: int| #[trigger] unit_dep_at(nodes, edges, u, j2, k, a);
                            assert(0 <= j2 < j);
                        }
                        if deps_before(nodes, edges, targets@, i + 1, a, u) && !deps_before(nodes, edges, targets@, i as int, a, u) {
                            assert(u == unit);
                        }
                    }
                }
            } else {
                proof {
                    assert forall|a: usize, u: usize| #[trigger] r@.contains((a, u)) <==> deps_before(nodes, edges, targets@, i + 1, a, u) by {
                        if deps_before(nodes, edges, targets@, i + 1, a, u) && !deps_before(nodes, edges, targets@, i as int, a, u) {
                            assert(u == unit);
                            let (j2, k) = choose|j2: int, k: int| #[trigger] unit_dep_at(nodes, edges, u, j2, k, a);
                        }
                    }
                }
            }
            i = i + 1;
        }
        proof {
            assert forall|a: usize, u: usize| #[trigger] r@.contains((a, u)) <==> targets@.contains(u) && exists|j: int, k: int|
                #[trigger] unit_dep_at(nodes, edges, u, j, k, a) by {
                if targets@.contains(u) && exists|j: int, k: int| #[trigger] unit_dep_at(nodes, edges, u, j, k, a) {
                    let t = choose|t: int| 0 <= t < targets@.len() && targets@[t] == u;
                    assert(deps_before(nodes, edges, targets@, targets@.len() as int, a, u));
                }
            }
        }
        r
    }
}

/// The `k`-th edge into the source file of the `j`-th edge into unit `u`
/// comes from unit `a`, which owns that file, and the file imports `u`.
pub open spec fn unit_dep_at(nodes: Seq<Node>, edges: Seq<(nat, nat, Edge)>, u: usize, j: int, k: int, a: usize) -> bool {
    let into = edges_of(edges, u as nat, false);
    &&& u < nodes.len()
    &&& 0 <= j < into.len()
    &&& into[j].1 is SourceImports
    &&& 0 <= k < edges_of(edges, into[j].0, false).len()
    &&& edges_of(edges, into[j].0, false)[k].1 is UnitSource
    &&& edges_of(edges, into[j].0, false)[k].0 == a as nat
}

/// Unit `a` depends on unit `u`, one of the first `i` targets.
pub open spec fn deps_before(nodes: Seq<Node>, edges: Seq<(nat, nat, Edge)>, targets: Seq<usize>, i: int, a: usize, u: usize) -> bool {
    exists|t: int, j: int, k: int| 0 <= t < i && targets[t] == u && #[trigger] unit_dep_at(nodes, edges, targets[t], j, k, a)
}

/// The `j`-th edge leaving unit `u` leads to a source file with path `s`.
pub open spec fn unit_source_at(nodes: Seq<Node>, edges: Seq<(nat, nat, Edge)>, u: usize, j: int, s: Seq<char>) -> bool {
    &&& u < nodes.len()
    &&& 0 <= j < edges_of(edges, u as nat, true).len()
    &&& edges_of(edges, u as nat, true)[j].1 is UnitSource
    &&& nodes[edges_of(edges, u as nat, true)[j].0 as int] matches Node::Source(p) && p@ == s
}

/// Whether the graph has a source node with that path.
pub open spec fn is_source_path(nodes: Seq<Node>, p: String) -> bool {
    exists|n: int| 0 <= n < nodes.len() && #[trigger] nodes[n] == Node::Source(p)
}

/// Whether a string is in the list.
fn contains_string(v: &Vec<String>, s: &String) -> (r: bool)
    ensures
        r == exists|i: int| 0 <= i < v@.len() && #[trigger] v@[i]@ == s@,
{
    let mut i: usize = 0;
    while i < v.len()
        invariant
            i <= v@.len(),
            forall|k: int| 0 <= k < i ==> #[trigger] v@[k]@ != s@,
        decreases v.len() - i,
    {
        if v[i] == *s {
            return true;
        }
        i = i + 1;
    }
    false
}

impl Environment {
    /// The position of the source file with that path.
    pub fn find_file(&self, path: &String) -> (r: Option<usize>)
        ensures
            r matches Some(i) ==> i < self.files@.len() && self.files@[i as int].path@ == path@ && forall|k: int|
                0 <= k < i ==> #[trigger] self.files@[k].path@ != path@,
            r is None ==> forall|i: int| 0 <= i < self.files@.len() ==> #[trigger] self.files@[i].path@ != path@,
            r matches Some(i) ==> file_from(self.files@, path@, 0) == Some(i as int),
            r is None ==> file_from(self.files@, path@, 0) is None,
    {
        let mut i: usize = 0;
        while i < self.files.len()
            invariant
                i <= self.files@.len(),
                forall|k: int| 0 <= k < i ==> #[trigger] self.files@[k].path@ != path@,
                file_from(self.files@, path@, 0) == file_from(self.files@, path@, i as int),
            decreases self.files.len() - i,
        {
            if self.files[i].path == *path {
                return Some(i);
            }
            i = i + 1;
        }
        None
    }

    /// All the scenarios used in the values of the projects are added to
    /// the list, each once.
    pub fn find_used_scenarios(&self, used: &mut Vec<Scenario>)
        ensures
            final(used)@.to_set() == old(used)@.to_set() + gprs_scenarios(self.gprs@),
            old(used)@.no_duplicates() ==> final(used)@.no_duplicates(),
    {
        let mut i: usize = 0;
        proof {
            assert(self.gprs@.take(0) =~= Seq::<(String, GprFile)>::empty());
            assert(used@.to_set() =~= old(used)@.to_set() + gprs_scenarios(self.gprs@.take(0)));
        }
        while i < self.gprs.len()
            invariant
                i <= self.gprs@.len(),
                used@.to_set() == old(used)@.to_set() + gprs_scenarios(self.gprs@.take(i as int)),
                old(used)@.no_duplicates() ==> used@.no_duplicates(),
            decreases self.gprs.len() - i,
        {
            let gpr = &self.gprs[i].1;
            let ghost before = used@;
            let mut j: usize = 0;
            proof {
                assert(gpr.values@.take(0) =~= Seq::<(PackageName, SimpleName, ExprValue)>::empty());
                assert(used@.to_set() =~= before.to_set() + values_scenarios(gpr.values@.take(0)));
            }
            while j < gpr.values.len()
                invariant
                    j <= gpr.values@.len(),
                    used@.to_set() == before.to_set() + values_scenarios(gpr.values@.take(j as int)),
                    old(used)@.no_duplicates() ==> used@.no_duplicates(),
                decreases gpr.values@.len() - j,
            {
                let ghost b2 = used@;
                gpr.values[j].2.find_used_scenarios(used);
                proof {
                    assert(gpr.values@.take(j + 1).drop_last() =~= gpr.values@.take(j as int));
                    assert(used@.to_set() =~= before.to_set() + values_scenarios(gpr.values@.take(j + 1)));
                }
                j = j + 1;
            }
            proof {
                assert(gpr.values@.take(gpr.values@.len() as int) =~= gpr.values@);
                assert(self.gprs@.take(i + 1).drop_last() =~= self.gprs@.take(i as int));
                assert(used@.to_set() =~= old(used)@.to_set() + gprs_scenarios(self.gprs@.take(i + 1)));
            }
            i = i + 1;
        }
        proof {
            assert(self.gprs@.take(self.gprs@.len() as int) =~= self.gprs@);
        }
    }
}

} // verus!
