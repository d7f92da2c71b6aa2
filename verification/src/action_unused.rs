//! Reporting the source files that no other file imports.
use crate::environment::{unit_source_at, Environment};
use crate::graph::{Edge, Node};
use crate::sourcefile::SourceFile;
use crate::errors::Error;
use crate::paths::{path_join, path_starts_with, spec_path_join, spec_path_starts_with};
use crate::paths::{paths_ascending, sort_by_path};
use crate::strings::{chars_of, lemma_perm_views, lemma_views_push, views};
use vstd::prelude::*;

verus! {

/// Report all source files that are never imported.
pub struct ActionSourceUnused {
    /// Files that list the files known to be unused, with the directory
    /// their entries are relative to.
    pub unused: Vec<(String, String)>,
    /// Files in these directories are never reported.
    pub ignore: Vec<String>,
    pub recurse: bool,
}

/// Whether a line of a list of unused files names a file: it is neither
/// empty nor a comment.
pub open spec fn names_file(line: Seq<char>) -> bool {
    line.len() > 0 && line[0] != '#'
}

/// The files named by the lines of a list of unused files, relative to
/// `root`.
pub open spec fn listed_files(lines: Seq<String>, root: Seq<char>) -> Seq<Seq<char>>
    decreases lines.len(),
{
    if lines.len() == 0 {
        Seq::empty()
    } else if names_file(lines.last()@) {
        listed_files(lines.drop_last(), root).push(spec_path_join(root, lines.last()@))
    } else {
        listed_files(lines.drop_last(), root)
    }
}

/// The condensation of a graph, as computed by `petgraph::algo::condensation`
/// (keeping it acyclic): its strongly connected components, and the edges
/// between them.
pub uninterp spec fn spec_condensation(n: nat, edges: Seq<(usize, usize)>) -> (Seq<Seq<usize>>, Seq<(usize, usize)>);

/// The components of a graph with `n` nodes and the given edges, and the
/// edges between the components, with `petgraph::algo::condensation`.
/// Every node is in a component and every edge joins two components.
#[verifier::external_body]
fn condense(n: usize, edges: &Vec<(usize, usize)>) -> (r: (Vec<Vec<usize>>, Vec<(usize, usize)>))
    requires
        forall|k: int| 0 <= k < edges@.len() ==> #[trigger] edges@[k].0 < n && edges@[k].1 < n,
        n < u32::MAX,
        edges@.len() < u32::MAX,
    ensures
        (r.0@.map_values(|c: Vec<usize>| c@), r.1@) == spec_condensation(n as nat, edges@),
        forall|c: int, k: int| 0 <= c < r.0@.len() && 0 <= k < r.0@[c]@.len() ==> #[trigger] r.0@[c]@[k] < n,
        forall|k: int| 0 <= k < r.1@.len() ==> #[trigger] r.1@[k].0 < r.0@.len() && r.1@[k].1 < r.0@.len(),
{
    let mut g: petgraph::graph::Graph<usize, u8, petgraph::Directed, u32> = petgraph::graph::Graph::new();
    for i in 0..n {
        g.add_node(i);
    }
    for (a, b) in edges {
        g.add_edge(petgraph::graph::NodeIndex::new(*a), petgraph::graph::NodeIndex::new(*b), 0);
    }
    let c = petgraph::algo::condensation(g, true);
    let comps = c.node_indices().map(|i| c[i].clone()).collect();
    let cedges = c.edge_indices().map(|e| {
        let (a, b) = c.edge_endpoints(e).unwrap();
        (a.index(), b.index())
    }).collect();
    (comps, cedges)
}

/// Whether `x` is one of the first `k` elements.
pub open spec fn among(v: Seq<usize>, k: int, x: usize) -> bool {
    exists|s: int| 0 <= s < k && v[s] == x
}

/// Whether the value is in the list.
fn contains_usize(v: &Vec<usize>, x: usize) -> (r: bool)
    ensures
        r == v@.contains(x),
{
    let mut i: usize = 0;
    while i < v.len()
        invariant
            i <= v@.len(),
            forall|k: int| 0 <= k < i ==> v@[k] != x,
        decreases v.len() - i,
    {
        if v[i] == x {
            assert(v@[i as int] == x);
            return true;
        }
        i = i + 1;
    }
    false
}

/// Number of components still in the graph.
pub open spec fn count_alive(alive: Seq<bool>) -> nat
    decreases alive.len(),
{
    if alive.len() == 0 {
        0
    } else {
        count_alive(alive.drop_last()) + if alive.last() { 1nat } else { 0nat }
    }
}

proof fn lemma_count_alive_update(alive: Seq<bool>, i: int)
    requires
        0 <= i < alive.len(),
        alive[i],
    ensures
        count_alive(alive.update(i, false)) + 1 == count_alive(alive),
    decreases alive.len(),
{
    if i < alive.len() - 1 {
        lemma_count_alive_update(alive.drop_last(), i);
        assert(alive.update(i, false).drop_last() =~= alive.drop_last().update(i, false));
    } else {
        assert(alive.update(i, false).drop_last() =~= alive.drop_last());
    }
}

proof fn lemma_count_alive_le(alive: Seq<bool>)
    ensures
        count_alive(alive) <= alive.len(),
    decreases alive.len(),
{
    if alive.len() > 0 {
        lemma_count_alive_le(alive.drop_last());
    }
}

/// No node of the component is a keeper.
pub open spec fn keeper_free(comp: Seq<usize>, keepers: Seq<usize>) -> bool {
    forall|w: int| 0 <= w < comp.len() ==> !keepers.contains(#[trigger] comp[w])
}

/// Some node of the component is expected to be unused.
pub open spec fn holds_expected(comp: Seq<usize>, expected: Seq<usize>) -> bool {
    exists|w: int| 0 <= w < comp.len() && expected.contains(#[trigger] comp[w])
}

/// Every edge into component `c` comes from a component of `gone`.
pub open spec fn preds_gone(edges: Seq<(usize, usize)>, gone: Set<int>, c: int) -> bool {
    forall|k: int| 0 <= k < edges.len() && #[trigger] edges[k].1 == c ==> gone.contains(edges[k].0 as int)
}

/// Component `c` holds no keeper, and every edge into it comes from a
/// component of `gone`: once those are removed, it is a root.
pub open spec fn reportable(
    comps: Seq<Vec<usize>>,
    edges: Seq<(usize, usize)>,
    keepers: Seq<usize>,
    gone: Set<int>,
    c: int,
) -> bool {
    0 <= c < comps.len() && keeper_free(comps[c]@, keepers) && preds_gone(edges, gone, c)
}

/// The components no longer alive.
pub open spec fn gone_of(alive: Seq<bool>) -> Set<int> {
    Set::new(|c: int| 0 <= c < alive.len() && !alive[c])
}

/// All the nodes of the component are reported.
pub open spec fn reported_all(comp: Seq<usize>, r: Seq<usize>) -> bool {
    forall|w: int| 0 <= w < comp.len() ==> r.contains(#[trigger] comp[w])
}

/// Each reported node is in a component that can be reported.
pub open spec fn reported_ok(
    comps: Seq<Vec<usize>>,
    edges: Seq<(usize, usize)>,
    keepers: Seq<usize>,
    gone: Set<int>,
    r: Seq<usize>,
) -> bool {
    forall|x: usize|
        #[trigger] r.contains(x) ==> exists|c: int| reportable(comps, edges, keepers, gone, c) && #[trigger] comps[c]@.contains(x)
}

/// The removed components could be reported, and without `recurse` they
/// hold no expected node.
pub open spec fn dead_ok(
    comps: Seq<Vec<usize>>,
    edges: Seq<(usize, usize)>,
    keepers: Seq<usize>,
    expected: Seq<usize>,
    recurse: bool,
    alive: Seq<bool>,
) -> bool {
    forall|c: int|
        0 <= c < alive.len() && !#[trigger] alive[c] ==> reportable(comps, edges, keepers, gone_of(alive), c) && (!recurse
            ==> !holds_expected(comps[c]@, expected))
}

/// The outcome of the search for unused nodes, with `gone` the components
/// removed from the graph: each was a root that holds no keeper (and,
/// without `recurse`, no expected node); the nodes reported are those of
/// the components that are roots once those are removed; and the roots that
/// remain hold an expected node (so none remains with `recurse`).
pub open spec fn unused_outcome(
    comps: Seq<Vec<usize>>,
    edges: Seq<(usize, usize)>,
    keepers: Seq<usize>,
    expected: Seq<usize>,
    recurse: bool,
    gone: Set<int>,
    r: Seq<usize>,
) -> bool {
    &&& forall|c: int|
        #[trigger] gone.contains(c) ==> reportable(comps, edges, keepers, gone, c) && (!recurse ==> !holds_expected(
            comps[c]@,
            expected,
        ))
    &&& forall|x: usize|
        #[trigger] r.contains(x) <==> exists|c: int| reportable(comps, edges, keepers, gone, c) && #[trigger] comps[c]@.contains(x)
    &&& forall|c: int|
        #[trigger] reportable(comps, edges, keepers, gone, c) && !gone.contains(c) ==> !recurse && holds_expected(
            comps[c]@,
            expected,
        )
}

/// Removing more components keeps the edges into `c` from removed ones.
proof fn lemma_preds_mono(edges: Seq<(usize, usize)>, g0: Set<int>, g1: Set<int>, c: int)
    requires
        g0.subset_of(g1),
        preds_gone(edges, g0, c),
    ensures
        preds_gone(edges, g1, c),
{
    assert forall|k: int| 0 <= k < edges.len() && #[trigger] edges[k].1 == c implies g1.contains(edges[k].0 as int) by {
        assert(g0.contains(edges[k].0 as int));
    }
}

/// A longer list still reports the nodes that it extends.
proof fn lemma_reported_grows(comp: Seq<usize>, a: Seq<usize>, b: Seq<usize>)
    requires
        reported_all(comp, a),
        a.len() <= b.len(),
        forall|t: int| 0 <= t < a.len() ==> b[t] == a[t],
    ensures
        reported_all(comp, b),
{
    assert forall|w: int| 0 <= w < comp.len() implies b.contains(#[trigger] comp[w]) by {
        let t = choose|t: int| 0 <= t < a.len() && a[t] == comp[w];
        assert(b[t] == comp[w]);
    }
}

/// When no root is removed, the search is over: its outcome holds with the
/// components removed so far.
proof fn lemma_last_round(
    comps: Seq<Vec<usize>>,
    edges: Seq<(usize, usize)>,
    keepers: Seq<usize>,
    expected: Seq<usize>,
    recurse: bool,
    alive: Seq<bool>,
    roots: Seq<usize>,
    to_remove: Seq<usize>,
    unused: Seq<usize>,
)
    requires
        alive.len() == comps.len(),
        comps.len() <= usize::MAX,
        to_remove.len() == 0,
        dead_ok(comps, edges, keepers, expected, recurse, alive),
        forall|c: int| 0 <= c < alive.len() && !alive[c] ==> reported_all(#[trigger] comps[c]@, unused),
        reported_ok(comps, edges, keepers, gone_of(alive), unused),
        forall|c: int|
            0 <= c < alive.len() && alive[c] && reportable(comps, edges, keepers, gone_of(alive), c) ==> roots.contains(
                c as usize,
            ),
        forall|t: int| 0 <= t < roots.len() ==> #[trigger] roots[t] < alive.len(),
        forall|t: int| 0 <= t < roots.len() ==> reported_all(comps[#[trigger] roots[t] as int]@, unused),
        forall|t: int|
            0 <= t < roots.len() && (recurse || !holds_expected(comps[#[trigger] roots[t] as int]@, expected))
                ==> to_remove.contains(roots[t]),
    ensures
        unused_outcome(comps, edges, keepers, expected, recurse, gone_of(alive), unused),
{
    let gone = gone_of(alive);
    assert forall|c: int| #[trigger] reportable(comps, edges, keepers, gone, c) && !gone.contains(c) implies !recurse
        && holds_expected(comps[c]@, expected) by {
        assert(alive[c]);
        let t = choose|t: int| 0 <= t < roots.len() && roots[t] == c as usize;
        assert(roots[t] as int == c);
        if recurse || !holds_expected(comps[roots[t] as int]@, expected) {
            assert(to_remove.contains(roots[t]));
        }
    }
    assert forall|x: usize| exists|c: int| reportable(comps, edges, keepers, gone, c) && #[trigger] comps[c]@.contains(x)
        implies #[trigger] unused.contains(x) by {
        let c = choose|c: int| reportable(comps, edges, keepers, gone, c) && #[trigger] comps[c]@.contains(x);
        let v = choose|v: int| 0 <= v < comps[c]@.len() && comps[c]@[v] == x;
        if alive[c] {
            let t = choose|t: int| 0 <= t < roots.len() && roots[t] == c as usize;
            assert(roots[t] as int == c);
            assert(reported_all(comps[roots[t] as int]@, unused));
        } else {
            assert(reported_all(comps[c]@, unused));
        }
        assert(unused.contains(comps[c]@[v]));
    }
    assert forall|c: int| #[trigger] gone.contains(c) implies reportable(comps, edges, keepers, gone, c) && (!recurse
        ==> !holds_expected(comps[c]@, expected)) by {
        assert(!alive[c]);
    }
}

/// After the roots of a round are removed, the removed components are
/// still reported ones, and the reported nodes still come from components
/// that could be reported.
proof fn lemma_round_done(
    comps: Seq<Vec<usize>>,
    edges: Seq<(usize, usize)>,
    keepers: Seq<usize>,
    expected: Seq<usize>,
    recurse: bool,
    alive0: Seq<bool>,
    alive: Seq<bool>,
    roots: Seq<usize>,
    to_remove: Seq<usize>,
    unused: Seq<usize>,
)
    requires
        alive0.len() == comps.len(),
        alive.len() == comps.len(),
        comps.len() <= usize::MAX,
        dead_ok(comps, edges, keepers, expected, recurse, alive0),
        forall|c: int| 0 <= c < alive0.len() && !alive0[c] ==> reported_all(#[trigger] comps[c]@, unused),
        reported_ok(comps, edges, keepers, gone_of(alive0), unused),
        forall|t: int|
            0 <= t < roots.len() ==> #[trigger] roots[t] < alive0.len() && alive0[roots[t] as int] && reportable(
                comps,
                edges,
                keepers,
                gone_of(alive0),
                roots[t] as int,
            ),
        forall|t: int| 0 <= t < roots.len() ==> reported_all(comps[#[trigger] roots[t] as int]@, unused),
        forall|s: int| 0 <= s < to_remove.len() ==> among(roots, roots.len() as int, #[trigger] to_remove[s]),
        forall|s: int|
            0 <= s < to_remove.len() ==> recurse || !holds_expected(comps[#[trigger] to_remove[s] as int]@, expected),
        forall|c: int|
            0 <= c < alive.len() ==> (#[trigger] alive[c] <==> alive0[c] && !among(to_remove, to_remove.len() as int, c as usize)),
    ensures
        dead_ok(comps, edges, keepers, expected, recurse, alive),
        forall|c: int| 0 <= c < alive.len() && !alive[c] ==> reported_all(#[trigger] comps[c]@, unused),
        reported_ok(comps, edges, keepers, gone_of(alive), unused),
{
    let g0 = gone_of(alive0);
    let g1 = gone_of(alive);
    assert(g0.subset_of(g1)) by {
        assert forall|c: int| g0.contains(c) implies g1.contains(c) by {
            assert(!alive[c]);
        }
    }
    assert forall|c: int| 0 <= c < alive.len() && !#[trigger] alive[c] implies reportable(comps, edges, keepers, g1, c) && (
    !recurse ==> !holds_expected(comps[c]@, expected)) && reported_all(comps[c]@, unused) by {
        if alive0[c] {
            let s = choose|s: int| 0 <= s < to_remove.len() && to_remove[s] == c as usize;
            assert(among(roots, roots.len() as int, to_remove[s]));
            let t = choose|t: int| 0 <= t < roots.len() && roots[t] == to_remove[s];
            assert(reportable(comps, edges, keepers, g0, roots[t] as int));
            assert(recurse || !holds_expected(comps[to_remove[s] as int]@, expected));
            assert(reported_all(comps[roots[t] as int]@, unused));
        } else {
            assert(reportable(comps, edges, keepers, g0, c));
            assert(reported_all(comps[c]@, unused));
        }
        lemma_preds_mono(edges, g0, g1, c);
    }
    assert forall|x: usize| #[trigger] unused.contains(x) implies exists|c: int|
        reportable(comps, edges, keepers, g1, c) && #[trigger] comps[c]@.contains(x) by {
        let c = choose|c: int| reportable(comps, edges, keepers, g0, c) && #[trigger] comps[c]@.contains(x);
        lemma_preds_mono(edges, g0, g1, c);
    }
}

/// A file to keep: a main unit, a library interface, or a file under one of
/// the ignored directories.
pub open spec fn is_keeper_file(f: SourceFile, ignore: Seq<String>) -> bool {
    f.is_ever_main || f.is_library_interface || exists|j: int|
        0 <= j < ignore.len() && spec_path_starts_with(f.path@, #[trigger] ignore[j]@)
}

/// `u` is the unit of a file to keep.
pub open spec fn keeper_unit(files: Seq<SourceFile>, ignore: Seq<String>, u: usize) -> bool {
    exists|f: int| 0 <= f < files.len() && #[trigger] files[f].unit_node == Some(u) && is_keeper_file(files[f], ignore)
}

/// `u` is the unit of an Ada file.
pub open spec fn ada_unit(files: Seq<SourceFile>, u: usize) -> bool {
    exists|f: int| 0 <= f < files.len() && #[trigger] files[f].unit_node == Some(u) && files[f].lang@ == "ada"@
}

/// `s` is the path of a source file of one of the units.
pub open spec fn unit_paths(nodes: Seq<Node>, edges: Seq<(nat, nat, Edge)>, units: Seq<usize>, s: Seq<char>) -> bool {
    exists|i: int, j: int| 0 <= i < units.len() && #[trigger] unit_source_at(nodes, edges, units[i], j, s)
}

/// The report on unused files, for the units `unodes` found unused: none
/// is the unit of a file to keep, all are units of Ada files; `unused`
/// holds the paths of their files that are not listed in `expected`, and
/// `used` the listed paths that are not among them.
pub open spec fn unused_report(
    files: Seq<SourceFile>,
    ignore: Seq<String>,
    nodes: Seq<Node>,
    edges: Seq<(nat, nat, Edge)>,
    expected: Seq<Seq<char>>,
    unodes: Seq<usize>,
    unused: Seq<Seq<char>>,
    used: Seq<Seq<char>>,
) -> bool {
    &&& forall|k: int|
        0 <= k < unodes.len() ==> ada_unit(files, #[trigger] unodes[k]) && !keeper_unit(files, ignore, unodes[k])
    &&& forall|x: Seq<char>| #[trigger] unused.contains(x) <==> unit_paths(nodes, edges, unodes, x) && !expected.contains(x)
    &&& forall|x: Seq<char>| #[trigger] used.contains(x) <==> expected.contains(x) && !unit_paths(nodes, edges, unodes, x)
}

impl ActionSourceUnused {
    /// The files named by the lines of a list of unused files (neither
    /// empty nor comments), relative to `root`.
    pub fn unused_from_lines(lines: &Vec<String>, root: &str) -> (r: Vec<String>)
        ensures
            views(r@) == listed_files(lines@, root@),
    {
        let mut r: Vec<String> = Vec::new();
        let mut i: usize = 0;
        while i < lines.len()
            invariant
                i <= lines@.len(),
                views(r@) == listed_files(lines@.take(i as int), root@),
            decreases lines.len() - i,
        {
            proof {
                assert(lines@.take(i + 1).drop_last() =~= lines@.take(i as int));
                assert(lines@.take(i + 1).last() == lines@[i as int]);
            }
            let chars = chars_of(lines[i].as_str());
            if chars.len() > 0 && chars[0] != '#' {
                let ghost before = r@;
                let p = path_join(root, lines[i].as_str());
                r.push(p);
                proof {
                    crate::strings::lemma_views_push(before, p);
                }
            }
            i = i + 1;
        }
        assert(lines@.take(lines@.len() as int) =~= lines@);
        r
    }

    /// Compute the list of files we should never report as unused (their
    /// position in the environment).
    /// This includes main units, library interfaces, as well as files in
    /// specific directories (e.g. third party libraries)
    pub fn keepers(&self, env: &Environment) -> (r: Vec<usize>)
        ensures
            forall|k: int| 0 <= k < r@.len() ==> #[trigger] r@[k] < env.files@.len(),
            forall|i: int| 0 <= i < env.files@.len() ==> (r@.contains(i as usize) <==> ({
                let f = #[trigger] env.files@[i];
                f.is_ever_main || f.is_library_interface || exists|j: int|
                    0 <= j < self.ignore@.len() && spec_path_starts_with(f.path@, #[trigger] self.ignore@[j]@)
            })),
    {
        let mut r: Vec<usize> = Vec::new();
        let mut i: usize = 0;
        while i < env.files.len()
            invariant
                i <= env.files@.len(),
                forall|k: int| 0 <= k < r@.len() ==> #[trigger] r@[k] < i,
                forall|t: int| 0 <= t < i ==> (r@.contains(t as usize) <==> ({
                    let f = #[trigger] env.files@[t];
                    f.is_ever_main || f.is_library_interface || exists|j: int|
                        0 <= j < self.ignore@.len() && spec_path_starts_with(f.path@, #[trigger] self.ignore@[j]@)
                })),
            decreases env.files.len() - i,
        {
            let f = &env.files[i];
            let mut keep = f.is_ever_main || f.is_library_interface;
            let mut j: usize = 0;
            while j < self.ignore.len() && !keep
                invariant
                    j <= self.ignore@.len(),
                    i < env.files@.len(),
                    *f == env.files@[i as int],
                    keep == (f.is_ever_main || f.is_library_interface || exists|t: int|
                        0 <= t < j && spec_path_starts_with(f.path@, #[trigger] self.ignore@[t]@)),
                decreases self.ignore.len() - j,
            {
                if path_starts_with(f.path.as_str(), self.ignore[j].as_str()) {
                    keep = true;
                }
                j = j + 1;
            }
            let ghost before = r@;
            if keep {
                r.push(i);
            }
            proof {
                assert forall|t: int| 0 <= t < i + 1 implies (r@.contains(t as usize) <==> ({
                    let f = #[trigger] env.files@[t];
                    f.is_ever_main || f.is_library_interface || exists|j: int|
                        0 <= j < self.ignore@.len() && spec_path_starts_with(f.path@, #[trigger] self.ignore@[j]@)
                })) by {
                    if t < i {
                        if r@.contains(t as usize) {
                            let k = choose|k: int| 0 <= k < r@.len() && r@[k] == t as usize;
                            if k < before.len() {
                                assert(before.contains(t as usize));
                            }
                        }
                        if before.contains(t as usize) {
                            let k = choose|k: int| 0 <= k < before.len() && before[k] == t as usize;
                            assert(r@[k] == t as usize);
                        }
                    } else {
                        if keep {
                            assert(r@[r@.len() - 1] == i);
                        } else {
                            if r@.contains(t as usize) {
                                let k = choose|k: int| 0 <= k < r@.len() && r@[k] == t as usize;
                                assert(before[k] < i);
                            }
                        }
                    }
                }
            }
            i = i + 1;
        }
        r
    }

    /// The roots of the graph that remains: the live components that hold
    /// no keeper and have no edge from another live component, in order.
    fn find_roots(
        components: &Vec<Vec<usize>>,
        edges: &Vec<(usize, usize)>,
        keepers: &Vec<usize>,
        alive: &Vec<bool>,
    ) -> (roots: Vec<usize>)
        requires
            alive@.len() == components@.len(),
            forall|k: int| 0 <= k < edges@.len() ==> #[trigger] edges@[k].0 < components@.len() && edges@[k].1
                < components@.len(),
        ensures
            forall|k: int|
                0 <= k < roots@.len() ==> #[trigger] roots@[k] < alive@.len() && alive@[roots@[k] as int] && reportable(
                    components@,
                    edges@,
                    keepers@,
                    gone_of(alive@),
                    roots@[k] as int,
                ),
            forall|a: int, b: int| 0 <= a < b < roots@.len() ==> roots@[a] < roots@[b],
            forall|c: int|
                0 <= c < alive@.len() && alive@[c] && reportable(components@, edges@, keepers@, gone_of(alive@), c)
                    ==> roots@.contains(c as usize),
    {
        let ghost gone = gone_of(alive@);
        let mut roots: Vec<usize> = Vec::new();
        let mut n: usize = 0;
        while n < alive.len()
            invariant
                forall|k: int| 0 <= k < edges@.len() ==> #[trigger] edges@[k].0 < components@.len() && edges@[k].1
                    < components@.len(),
                n <= alive@.len(),
                alive@.len() == components@.len(),
                gone == gone_of(alive@),
                forall|k: int|
                    0 <= k < roots@.len() ==> #[trigger] roots@[k] < n && alive@[roots@[k] as int] && reportable(
                        components@,
                        edges@,
                        keepers@,
                        gone,
                        roots@[k] as int,
                    ),
                forall|a: int, b: int| 0 <= a < b < roots@.len() ==> roots@[a] < roots@[b],
                forall|c: int|
                    0 <= c < n && alive@[c] && reportable(components@, edges@, keepers@, gone, c) ==> roots@.contains(
                        c as usize,
                    ),
            decreases alive.len() - n,
        {
            if alive[n] {
                let mut has_incoming = false;
                let mut e: usize = 0;
                while e < edges.len()
                    invariant
                        forall|k: int| 0 <= k < edges@.len() ==> #[trigger] edges@[k].0 < components@.len()
                            && edges@[k].1 < components@.len(),
                        e <= edges@.len(),
                        alive@.len() == components@.len(),
                        has_incoming <==> exists|k: int|
                            0 <= k < e && #[trigger] edges@[k].1 == n && alive@[edges@[k].0 as int],
                    decreases edges.len() - e,
                {
                    let (a, b) = edges[e];
                    if b == n && a < alive.len() && alive[a] {
                        has_incoming = true;
                    }
                    e = e + 1;
                }
                let mut is_keeper = false;
                let mut w: usize = 0;
                while w < components[n].len()
                    invariant
                        n < components@.len(),
                        w <= components@[n as int]@.len(),
                        is_keeper <==> exists|v: int| 0 <= v < w && keepers@.contains(#[trigger] components@[n as int]@[v]),
                    decreases components@[n as int]@.len() - w,
                {
                    if contains_usize(keepers, components[n][w]) {
                        is_keeper = true;
                    }
                    w = w + 1;
                }
                proof {
                    if !has_incoming {
                        assert forall|k: int| 0 <= k < edges@.len() && #[trigger] edges@[k].1 == n implies gone.contains(
                            edges@[k].0 as int,
                        ) by {
                            assert(!alive@[edges@[k].0 as int]);
                        }
                    } else {
                        let k = choose|k: int|
                            0 <= k < edges@.len() && #[trigger] edges@[k].1 == n && alive@[edges@[k].0 as int];
                        assert(!gone.contains(edges@[k].0 as int));
                    }
                    if is_keeper {
                        let v = choose|v: int| 0 <= v < w && keepers@.contains(#[trigger] components@[n as int]@[v]);
                        assert(!keeper_free(components@[n as int]@, keepers@));
                    }
                    assert(reportable(components@, edges@, keepers@, gone, n as int) <==> !has_incoming && !is_keeper);
                }
                if !has_incoming && !is_keeper {
                    let ghost before = roots@;
                    roots.push(n);
                    proof {
                        assert forall|c: int|
                            0 <= c < n + 1 && alive@[c] && reportable(components@, edges@, keepers@, gone, c) implies roots@.contains(
                            c as usize,
                        ) by {
                            if c < n {
                                let t = choose|t: int| 0 <= t < before.len() && before[t] == c as usize;
                                assert(roots@[t] == c as usize);
                            } else {
                                assert(roots@[before.len() as int] == c as usize);
                            }
                        }
                    }
                }
            }
            n = n + 1;
        }
        roots
    }

    /// Reports all the nodes of the roots, and returns the roots to remove:
    /// all of them with `recurse`, else those that hold no expected node.
    fn report_roots(
        &self,
        components: &Vec<Vec<usize>>,
        roots: &Vec<usize>,
        expected_unused: &Vec<usize>,
        unused_nodes: &mut Vec<usize>,
    ) -> (to_remove: Vec<usize>)
        requires
            forall|t: int| 0 <= t < roots@.len() ==> #[trigger] roots@[t] < components@.len(),
            forall|a: int, b: int| 0 <= a < b < roots@.len() ==> roots@[a] < roots@[b],
        ensures
            old(unused_nodes)@.len() <= final(unused_nodes)@.len(),
            forall|t: int| 0 <= t < old(unused_nodes)@.len() ==> final(unused_nodes)@[t] == old(unused_nodes)@[t],
            forall|x: usize|
                #[trigger] final(unused_nodes)@.contains(x) ==> old(unused_nodes)@.contains(x) || exists|t: int|
                    0 <= t < roots@.len() && #[trigger] components@[roots@[t] as int]@.contains(x),
            forall|t: int| 0 <= t < roots@.len() ==> reported_all(components@[#[trigger] roots@[t] as int]@, final(unused_nodes)@),
            forall|s: int| 0 <= s < to_remove@.len() ==> among(roots@, roots@.len() as int, #[trigger] to_remove@[s]),
            forall|a: int, b: int| 0 <= a < b < to_remove@.len() ==> to_remove@[a] < to_remove@[b],
            forall|s: int|
                0 <= s < to_remove@.len() ==> self.recurse || !holds_expected(
                    components@[#[trigger] to_remove@[s] as int]@,
                    expected_unused@,
                ),
            forall|t: int|
                0 <= t < roots@.len() && (self.recurse || !holds_expected(components@[#[trigger] roots@[t] as int]@, expected_unused@))
                    ==> to_remove@.contains(roots@[t]),
    {
        let ghost u0 = unused_nodes@;
        let mut to_remove: Vec<usize> = Vec::new();
        let mut k: usize = 0;
        while k < roots.len()
            invariant
                forall|t: int| 0 <= t < roots@.len() ==> #[trigger] roots@[t] < components@.len(),
                forall|a: int, b: int| 0 <= a < b < roots@.len() ==> roots@[a] < roots@[b],
                u0.len() <= unused_nodes@.len(),
                forall|t: int| 0 <= t < u0.len() ==> unused_nodes@[t] == u0[t],
                forall|x: usize|
                    #[trigger] unused_nodes@.contains(x) ==> u0.contains(x) || exists|t: int|
                        0 <= t < roots@.len() && #[trigger] components@[roots@[t] as int]@.contains(x),
                forall|t: int| 0 <= t < k ==> reported_all(components@[#[trigger] roots@[t] as int]@, unused_nodes@),
                forall|t: int| 0 <= t < to_remove@.len() ==> among(roots@, k as int, #[trigger] to_remove@[t]),
                forall|a: int, b: int| 0 <= a < b < to_remove@.len() ==> to_remove@[a] < to_remove@[b],
                forall|t: int|
                    0 <= t < to_remove@.len() ==> self.recurse || !holds_expected(
                        components@[#[trigger] to_remove@[t] as int]@,
                        expected_unused@,
                    ),
                forall|t: int|
                    0 <= t < k && (self.recurse || !holds_expected(components@[#[trigger] roots@[t] as int]@, expected_unused@))
                        ==> to_remove@.contains(roots@[t]),
                k <= roots@.len(),
            decreases roots.len() - k,
        {
            let root = roots[k];
            let ghost start = unused_nodes@;
            let mut must_remove = true;
            let mut w: usize = 0;
            while w < components[root].len()
                invariant
                    root < components@.len(),
                    k < roots@.len(),
                    root == roots@[k as int],
                    w <= components@[root as int]@.len(),
                    start.len() <= unused_nodes@.len(),
                    forall|t: int| 0 <= t < start.len() ==> unused_nodes@[t] == start[t],
                    forall|x: usize|
                        #[trigger] unused_nodes@.contains(x) ==> start.contains(x) || components@[root as int]@.contains(x),
                    forall|v: int| 0 <= v < w ==> unused_nodes@.contains(#[trigger] components@[root as int]@[v]),
                    must_remove <==> (self.recurse || forall|v: int|
                        0 <= v < w ==> !expected_unused@.contains(#[trigger] components@[root as int]@[v])),
                decreases components@[root as int]@.len() - w,
            {
                let orig = components[root][w];
                let ghost before = unused_nodes@;
                unused_nodes.push(orig);
                proof {
                    assert(components@[root as int]@[w as int] == orig);
                    assert forall|x: usize| #[trigger] unused_nodes@.contains(x) implies start.contains(x)
                        || components@[root as int]@.contains(x) by {
                        if x != orig {
                            let t = choose|t: int| 0 <= t < unused_nodes@.len() && unused_nodes@[t] == x;
                            assert(before[t] == x);
                            assert(before.contains(x));
                        }
                    }
                    assert forall|v: int| 0 <= v < w + 1 implies unused_nodes@.contains(
                        #[trigger] components@[root as int]@[v],
                    ) by {
                        if v < w {
                            let t = choose|t: int| 0 <= t < before.len() && before[t] == components@[root as int]@[v];
                            assert(unused_nodes@[t] == before[t]);
                        } else {
                            assert(unused_nodes@[before.len() as int] == orig);
                        }
                    }
                }
                if !self.recurse && contains_usize(expected_unused, orig) {
                    must_remove = false;
                }
                w = w + 1;
            }
            proof {
                assert(reported_all(components@[root as int]@, unused_nodes@));
                assert forall|t: int| 0 <= t < k implies reported_all(
                    components@[#[trigger] roots@[t] as int]@,
                    unused_nodes@,
                ) by {
                    lemma_reported_grows(components@[roots@[t] as int]@, start, unused_nodes@);
                }
                assert forall|x: usize| #[trigger] unused_nodes@.contains(x) implies u0.contains(x) || exists|t: int|
                    0 <= t < roots@.len() && #[trigger] components@[roots@[t] as int]@.contains(x) by {
                    if !start.contains(x) {
                        assert(components@[roots@[k as int] as int]@.contains(x));
                    }
                }
                if !must_remove {
                    let v = choose|v: int|
                        0 <= v < w && expected_unused@.contains(#[trigger] components@[root as int]@[v]);
                    assert(holds_expected(components@[root as int]@, expected_unused@));
                }
            }
            if must_remove {
                let ghost before = to_remove@;
                to_remove.push(root);
                proof {
                    assert forall|a: int, b: int| 0 <= a < b < to_remove@.len() implies to_remove@[a] < to_remove@[b] by {
                        if b == to_remove@.len() - 1 && a < b {
                            assert(among(roots@, k as int, before[a]));
                            let s = choose|s: int| 0 <= s < k && roots@[s] == before[a];
                            assert(to_remove@[a] == before[a]);
                        }
                    }
                    assert forall|t: int| 0 <= t < to_remove@.len() implies among(roots@, k + 1, #[trigger] to_remove@[t]) by {
                        if t < before.len() {
                            assert(to_remove@[t] == before[t]);
                            assert(among(roots@, k as int, before[t]));
                            let s = choose|s: int| 0 <= s < k && roots@[s] == before[t];
                            assert(roots@[s] == to_remove@[t]);
                        } else {
                            assert(roots@[k as int] == to_remove@[t]);
                        }
                    }
                    assert forall|t: int|
                        0 <= t < k + 1 && (self.recurse || !holds_expected(components@[#[trigger] roots@[t] as int]@, expected_unused@))
                            implies to_remove@.contains(roots@[t]) by {
                        if t < k {
                            let s = choose|s: int| 0 <= s < before.len() && before[s] == roots@[t];
                            assert(to_remove@[s] == roots@[t]);
                        } else {
                            assert(to_remove@[before.len() as int] == roots@[t]);
                        }
                    }
                    assert forall|t: int|
                        0 <= t < to_remove@.len() implies self.recurse || !holds_expected(
                            components@[#[trigger] to_remove@[t] as int]@,
                            expected_unused@,
                        ) by {
                        if t < before.len() {
                            assert(to_remove@[t] == before[t]);
                        }
                    }
                }
            }
            k = k + 1;
        }
        proof {
            assert forall|s: int| 0 <= s < to_remove@.len() implies among(roots@, roots@.len() as int, #[trigger] to_remove@[s]) by {
                assert(among(roots@, k as int, to_remove@[s]));
            }
        }
        to_remove
    }

    /// Find unused nodes in a condensed graph, whose nodes are given as the
    /// list of the nodes they group.
    /// This is done recursively: we first find unused root nodes (without
    /// incoming edges), then remove those, and keep searching recursively.
    /// Without `recurse`, a root that holds an expected unused node stays
    /// in the graph.
    ///
    /// None of the nodes in keepers will be removed.
    pub fn find_unused(
        &self,
        components: &Vec<Vec<usize>>,
        edges: &Vec<(usize, usize)>,
        keepers: &Vec<usize>,
        expected_unused: &Vec<usize>,
    ) -> (r: Vec<usize>)
        requires
            forall|k: int| 0 <= k < edges@.len() ==> #[trigger] edges@[k].0 < components@.len() && edges@[k].1
                < components@.len(),
        ensures
            exists|gone: Set<int>|
                unused_outcome(components@, edges@, keepers@, expected_unused@, self.recurse, gone, r@),
    {
        let mut alive: Vec<bool> = Vec::new();
        let mut c: usize = 0;
        while c < components.len()
            invariant
                c <= components@.len(),
                alive@.len() == c,
                forall|t: int| 0 <= t < c ==> alive@[t],
            decreases components.len() - c,
        {
            alive.push(true);
            c = c + 1;
        }
        let mut unused_nodes: Vec<usize> = Vec::new();
        let ncomps = components.len();
        loop
            invariant
                components@.len() == ncomps,
                forall|k: int| 0 <= k < edges@.len() ==> #[trigger] edges@[k].0 < components@.len() && edges@[k].1
                    < components@.len(),
                alive@.len() == components@.len(),
                dead_ok(components@, edges@, keepers@, expected_unused@, self.recurse, alive@),
                forall|c: int|
                    0 <= c < alive@.len() && !alive@[c] ==> reported_all(#[trigger] components@[c]@, unused_nodes@),
                reported_ok(components@, edges@, keepers@, gone_of(alive@), unused_nodes@),
            decreases count_alive(alive@),
        {
            let ghost gone = gone_of(alive@);
            let roots = ActionSourceUnused::find_roots(components, edges, keepers, &alive);
            let ghost u0 = unused_nodes@;
            let to_remove = self.report_roots(components, &roots, expected_unused, &mut unused_nodes);
            proof {
                assert forall|c: int| 0 <= c < alive@.len() && !alive@[c] implies reported_all(
                    #[trigger] components@[c]@,
                    unused_nodes@,
                ) by {
                    lemma_reported_grows(components@[c]@, u0, unused_nodes@);
                }
                assert forall|x: usize| #[trigger] unused_nodes@.contains(x) implies exists|c: int|
                    reportable(components@, edges@, keepers@, gone, c) && #[trigger] components@[c]@.contains(x) by {
                    if !u0.contains(x) {
                        let t = choose|t: int| 0 <= t < roots@.len() && #[trigger] components@[roots@[t] as int]@.contains(x);
                        assert(reportable(components@, edges@, keepers@, gone, roots@[t] as int));
                    }
                }
            }
            if to_remove.len() == 0 {
                proof {
                    lemma_last_round(
                        components@,
                        edges@,
                        keepers@,
                        expected_unused@,
                        self.recurse,
                        alive@,
                        roots@,
                        to_remove@,
                        unused_nodes@,
                    );
                }
                return unused_nodes;
            }
            let ghost alive0 = alive@;
            ActionSourceUnused::remove_roots(&mut alive, &to_remove, &roots);
            proof {
                lemma_round_done(
                    components@,
                    edges@,
                    keepers@,
                    expected_unused@,
                    self.recurse,
                    alive0,
                    alive@,
                    roots@,
                    to_remove@,
                    unused_nodes@,
                );
            }
        }
    }

    /// Marks the roots to remove as no longer alive.
    fn remove_roots(alive: &mut Vec<bool>, to_remove: &Vec<usize>, roots: &Vec<usize>)
        requires
            to_remove@.len() > 0,
            forall|s: int| 0 <= s < to_remove@.len() ==> among(roots@, roots@.len() as int, #[trigger] to_remove@[s]),
            forall|q: int| 0 <= q < roots@.len() ==> #[trigger] roots@[q] < old(alive)@.len() && old(alive)@[roots@[q] as int],
            forall|a: int, b: int| 0 <= a < b < to_remove@.len() ==> to_remove@[a] < to_remove@[b],
        ensures
            final(alive)@.len() == old(alive)@.len(),
            forall|c: int|
                0 <= c < final(alive)@.len() ==> (#[trigger] final(alive)@[c] <==> old(alive)@[c] && !among(
                    to_remove@,
                    to_remove@.len() as int,
                    c as usize,
                )),
            count_alive(final(alive)@) < count_alive(old(alive)@),
    {
        let ghost alive0 = alive@;
        let ghost start = count_alive(alive@);
        let nalive = alive.len();
        proof {
            assert forall|s: int| 0 <= s < to_remove@.len() implies #[trigger] to_remove@[s] < alive0.len() && alive0[to_remove@[s] as int] by {
                assert(among(roots@, roots@.len() as int, to_remove@[s]));
                let q = choose|q: int| 0 <= q < roots@.len() && roots@[q] == to_remove@[s];
                assert(roots@[q] < alive0.len());
            }
        }
        let mut t: usize = 0;
        while t < to_remove.len()
            invariant
                alive@.len() == alive0.len(),
                alive0.len() == nalive,
                t <= to_remove@.len(),
                to_remove@.len() > 0,
                forall|s: int| 0 <= s < to_remove@.len() ==> #[trigger] to_remove@[s] < alive0.len() && alive0[to_remove@[s] as int],
                forall|a: int, b: int| 0 <= a < b < to_remove@.len() ==> to_remove@[a] < to_remove@[b],
                forall|c: int|
                    0 <= c < alive@.len() ==> (#[trigger] alive@[c] <==> alive0[c] && !among(to_remove@, t as int, c as usize)),
                t == 0 ==> count_alive(alive@) == start,
                t > 0 ==> count_alive(alive@) < start,
            decreases to_remove.len() - t,
        {
            let idx = to_remove[t];
            proof {
                assert(alive@[idx as int]) by {
                    if among(to_remove@, t as int, idx) {
                        let s = choose|s: int| 0 <= s < t && to_remove@[s] == idx;
                        assert(to_remove@[s] < to_remove@[t as int]);
                    }
                }
                lemma_count_alive_update(alive@, idx as int);
            }
            alive.set(idx, false);
            proof {
                assert forall|c: int|
                    0 <= c < alive@.len() implies (#[trigger] alive@[c] <==> alive0[c] && !among(to_remove@, t + 1, c as usize)) by {
                    if among(to_remove@, t + 1, c as usize) && c != idx {
                        let s = choose|s: int| 0 <= s < t + 1 && to_remove@[s] == c as usize;
                        assert(among(to_remove@, t as int, c as usize));
                    }
                    if among(to_remove@, t as int, c as usize) {
                        let s = choose|s: int| 0 <= s < t && to_remove@[s] == c as usize;
                        assert(among(to_remove@, t + 1, c as usize));
                    }
                    if c == idx {
                        assert(to_remove@[t as int] == idx);
                    }
                }
            }
            t = t + 1;
        }
    }

    /// The source files that are never imported, computed on the units of
    /// Ada files: `expected` lists the files known to be unused.  Returns
    /// the unused files that are not listed, and the listed files that are
    /// used, both sorted as paths compare: the files of the units found unused (none of
    /// which is the unit of a file to keep), outside and inside the list.
    pub fn perform(&self, env: &Environment, expected: &Vec<String>) -> (r: Result<(Vec<String>, Vec<String>), Error>)
        requires
            env.wf(),
        ensures
            r matches Err(e) ==> e is TooManyNodes,
            r matches Ok((unused, used)) ==> paths_ascending(unused@) && paths_ascending(used@),
            r matches Ok((unused, used)) ==> exists|unodes: Seq<usize>|
                #[trigger] unused_report(
                    env.files@,
                    self.ignore@,
                    env.graph.nodes(),
                    env.graph.edges(),
                    views(expected@),
                    unodes,
                    views(unused@),
                    views(used@),
                ),
    {
        let count = env.graph.node_count();
        // The unit nodes of the expected files, of the Ada files and of
        // the files to keep.
        let mut expected_nodes: Vec<usize> = Vec::new();
        let mut ada_units: Vec<usize> = Vec::new();
        let mut i: usize = 0;
        while i < env.files.len()
            invariant
                env.wf(),
                count == env.graph.nodes().len(),
                forall|k: int| 0 <= k < ada_units@.len() ==> #[trigger] ada_units@[k] < count,
                forall|k: int| 0 <= k < ada_units@.len() ==> ada_unit(env.files@, #[trigger] ada_units@[k]),
            decreases env.files.len() - i,
        {
            let f = &env.files[i];
            assert(env.files@[i as int].file_node < count);
            if let Some(u) = f.unit_node {
                if contains_string(expected, &f.path) {
                    expected_nodes.push(u);
                }
                if crate::strings::str_eq(f.lang.as_str(), "ada") && !contains_usize(&ada_units, u) {
                    ada_units.push(u);
                    proof {
                        assert(env.files@[i as int].unit_node == Some(u));
                        assert(ada_unit(env.files@, u));
                    }
                }
            }
            i = i + 1;
        }
        let keeper_files = self.keepers(env);
        let mut keepers: Vec<usize> = Vec::new();
        let mut k: usize = 0;
        while k < keeper_files.len()
            invariant
                forall|t: int| 0 <= t < keeper_files@.len() ==> #[trigger] keeper_files@[t] < env.files@.len(),
                k <= keeper_files@.len(),
                forall|t: int|
                    0 <= t < k ==> (env.files@[#[trigger] keeper_files@[t] as int].unit_node matches Some(u)
                        ==> keepers@.contains(u)),
            decreases keeper_files.len() - k,
        {
            let ghost before = keepers@;
            if let Some(u) = env.files[keeper_files[k]].unit_node {
                keepers.push(u);
                proof {
                    assert(keepers@[before.len() as int] == u);
                }
            }
            proof {
                assert forall|t: int|
                    0 <= t < k + 1 implies (env.files@[#[trigger] keeper_files@[t] as int].unit_node matches Some(u)
                        ==> keepers@.contains(u)) by {
                    if t < k {
                        if let Some(u) = env.files@[keeper_files@[t] as int].unit_node {
                            let w = choose|w: int| 0 <= w < before.len() && before[w] == u;
                            assert(keepers@[w] == u);
                        }
                    }
                }
            }
            k = k + 1;
        }
        proof {
            assert forall|u: usize| keeper_unit(env.files@, self.ignore@, u) implies keepers@.contains(u) by {
                let f = choose|f: int|
                    0 <= f < env.files@.len() && #[trigger] env.files@[f].unit_node == Some(u) && is_keeper_file(
                        env.files@[f],
                        self.ignore@,
                    );
                assert(keeper_files@.contains(f as usize));
                let t = choose|t: int| 0 <= t < keeper_files@.len() && keeper_files@[t] == f as usize;
                assert(env.files@[keeper_files@[t] as int].unit_node == Some(u));
            }
        }
        // A subset of the dependency graph which only includes the Ada
        // units.
        let deps = env.iter_unit_deps(&ada_units);
        let mut edges: Vec<(usize, usize)> = Vec::new();
        let mut d: usize = 0;
        while d < deps.len()
            invariant
                forall|t: int| 0 <= t < edges@.len() ==> #[trigger] edges@[t].0 < ada_units@.len() && edges@[t].1 < ada_units@.len(),
            decreases deps.len() - d,
        {
            match (position(&ada_units, deps[d].0), position(&ada_units, deps[d].1)) {
                (Some(p), Some(c)) => {
                    edges.push((p, c));
                },
                _ => {},
            }
            d = d + 1;
        }
        if ada_units.len() >= u32::MAX as usize || edges.len() >= u32::MAX as usize {
            return Err(Error::TooManyNodes);
        }
        // Strongly connected components are grouped, so that units that
        // depend on each other are reported together.
        let (comps, cedges) = condense(ada_units.len(), &edges);
        let mut components: Vec<Vec<usize>> = Vec::new();
        let mut c: usize = 0;
        while c < comps.len()
            invariant
                forall|a: int, b: int| 0 <= a < comps@.len() && 0 <= b < comps@[a]@.len() ==> #[trigger] comps@[a]@[b] < ada_units@.len(),
                forall|k: int| 0 <= k < cedges@.len() ==> #[trigger] cedges@[k].0 < comps@.len() && cedges@[k].1 < comps@.len(),
                c <= comps@.len(),
                components@.len() == c,
                forall|a: int|
                    0 <= a < c ==> #[trigger] components@[a]@ == comps@[a]@.map_values(|u: usize| ada_units@[u as int]),
            decreases comps.len() - c,
        {
            let mut nodes: Vec<usize> = Vec::new();
            let mut w: usize = 0;
            while w < comps[c].len()
                invariant
                    c < comps@.len(),
                    forall|a: int, b: int| 0 <= a < comps@.len() && 0 <= b < comps@[a]@.len() ==> #[trigger] comps@[a]@[b] < ada_units@.len(),
                    w <= comps@[c as int]@.len(),
                    nodes@ == comps@[c as int]@.take(w as int).map_values(|u: usize| ada_units@[u as int]),
                decreases comps@[c as int]@.len() - w,
            {
                proof {
                    assert(comps@[c as int]@.take(w + 1) =~= comps@[c as int]@.take(w as int).push(comps@[c as int]@[w as int]));
                }
                nodes.push(ada_units[comps[c][w]]);
                proof {
                    assert(nodes@ =~= comps@[c as int]@.take(w + 1).map_values(|u: usize| ada_units@[u as int]));
                }
                w = w + 1;
            }
            proof {
                assert(comps@[c as int]@.take(comps@[c as int]@.len() as int) =~= comps@[c as int]@);
            }
            components.push(nodes);
            c = c + 1;
        }
        let unused_nodes = self.find_unused(&components, &cedges, &keepers, &expected_nodes);
        proof {
            let gone = choose|gone: Set<int>|
                unused_outcome(components@, cedges@, keepers@, expected_nodes@, self.recurse, gone, unused_nodes@);
            assert forall|k: int| 0 <= k < unused_nodes@.len() implies ada_unit(env.files@, #[trigger] unused_nodes@[k])
                && !keeper_unit(env.files@, self.ignore@, unused_nodes@[k]) by {
                let x = unused_nodes@[k];
                assert(unused_nodes@.contains(x));
                let c = choose|c: int| reportable(components@, cedges@, keepers@, gone, c) && #[trigger] components@[c]@.contains(x);
                let b = choose|b: int| 0 <= b < components@[c]@.len() && components@[c]@[b] == x;
                assert(components@[c]@[b] == ada_units@[comps@[c]@[b] as int]);
                assert(!keepers@.contains(components@[c]@[b]));
            }
        }
        let paths = env.file_paths_from_units(&unused_nodes);
        let ghost nodes = env.graph.nodes();
        let ghost gedges = env.graph.edges();
        let mut unused: Vec<String> = Vec::new();
        let mut p: usize = 0;
        while p < paths.len()
            invariant
                p <= paths@.len(),
                forall|x: Seq<char>|
                    #[trigger] views(unused@).contains(x) <==> (exists|q: int| 0 <= q < p && #[trigger] paths@[q]@ == x)
                        && !views(expected@).contains(x),
            decreases paths.len() - p,
        {
            let ghost before = unused@;
            if !contains_string(expected, &paths[p]) {
                unused.push(paths[p].clone());
                proof {
                    lemma_views_push(before, unused@[unused@.len() - 1]);
                }
            }
            proof {
                assert forall|x: Seq<char>|
                    #[trigger] views(unused@).contains(x) <==> (exists|q: int| 0 <= q < p + 1 && #[trigger] paths@[q]@ == x)
                        && !views(expected@).contains(x) by {
                    if views(before).contains(x) {
                        let a = choose|a: int| 0 <= a < views(before).len() && views(before)[a] == x;
                        assert(views(unused@)[a] == x);
                    }
                    if views(unused@).contains(x) && !views(before).contains(x) {
                        assert(views(unused@)[before.len() as int] == x);
                    }
                    if paths@[p as int]@ == x && !views(expected@).contains(x) {
                        assert(views(unused@)[before.len() as int] == x);
                    }
                }
            }
            p = p + 1;
        }
        let mut used: Vec<String> = Vec::new();
        let mut e: usize = 0;
        while e < expected.len()
            invariant
                e <= expected@.len(),
                forall|x: Seq<char>|
                    #[trigger] views(used@).contains(x) <==> (exists|q: int| 0 <= q < e && #[trigger] expected@[q]@ == x)
                        && !views(paths@).contains(x),
            decreases expected.len() - e,
        {
            let ghost before = used@;
            if !contains_string(&paths, &expected[e]) {
                used.push(expected[e].clone());
                proof {
                    lemma_views_push(before, used@[used@.len() - 1]);
                }
            }
            proof {
                assert forall|x: Seq<char>|
                    #[trigger] views(used@).contains(x) <==> (exists|q: int| 0 <= q < e + 1 && #[trigger] expected@[q]@ == x)
                        && !views(paths@).contains(x) by {
                    if views(before).contains(x) {
                        let a = choose|a: int| 0 <= a < views(before).len() && views(before)[a] == x;
                        assert(views(used@)[a] == x);
                    }
                    if views(used@).contains(x) && !views(before).contains(x) {
                        assert(views(used@)[before.len() as int] == x);
                    }
                    if expected@[e as int]@ == x && !views(paths@).contains(x) {
                        assert(views(used@)[before.len() as int] == x);
                    }
                }
            }
            e = e + 1;
        }
        let ghost u0 = unused@;
        let ghost s0 = used@;
        sort_by_path(&mut unused);
        sort_by_path(&mut used);
        proof {
            lemma_perm_views(unused@, u0);
            lemma_perm_views(used@, s0);
            assert forall|x: Seq<char>|
                #[trigger] views(paths@).contains(x) <==> unit_paths(nodes, gedges, unused_nodes@, x) by {}
            assert forall|x: Seq<char>| #[trigger] views(expected@).contains(x) <==> exists|q: int|
                0 <= q < expected@.len() && #[trigger] expected@[q]@ == x by {
                if views(expected@).contains(x) {
                    let a = choose|a: int| 0 <= a < views(expected@).len() && views(expected@)[a] == x;
                    assert(expected@[a]@ == x);
                }
                if exists|q: int| 0 <= q < expected@.len() && #[trigger] expected@[q]@ == x {
                    let q = choose|q: int| 0 <= q < expected@.len() && #[trigger] expected@[q]@ == x;
                    assert(views(expected@)[q] == x);
                }
            }
            assert forall|x: Seq<char>| #[trigger] views(paths@).contains(x) <==> exists|q: int|
                0 <= q < paths@.len() && #[trigger] paths@[q]@ == x by {
                if views(paths@).contains(x) {
                    let a = choose|a: int| 0 <= a < views(paths@).len() && views(paths@)[a] == x;
                    assert(paths@[a]@ == x);
                }
                if exists|q: int| 0 <= q < paths@.len() && #[trigger] paths@[q]@ == x {
                    let q = choose|q: int| 0 <= q < paths@.len() && #[trigger] paths@[q]@ == x;
                    assert(views(paths@)[q] == x);
                }
            }
        }
        proof {
            assert(forall|k: int|
                0 <= k < unused_nodes@.len() ==> ada_unit(env.files@, #[trigger] unused_nodes@[k]) && !keeper_unit(env.files@, self.ignore@, unused_nodes@[k]));
            assert forall|x: Seq<char>| #[trigger] views(unused@).contains(x) <==> unit_paths(nodes, gedges, unused_nodes@, x) && !views(expected@).contains(x) by {
                assert(views(paths@).contains(x) <==> unit_paths(nodes, gedges, unused_nodes@, x));
                assert(views(paths@).contains(x) <==> exists|q: int| 0 <= q < paths@.len() && #[trigger] paths@[q]@ == x);
            }
            assert(forall|x: Seq<char>| #[trigger] views(used@).contains(x) <==> views(expected@).contains(x) && !unit_paths(nodes, gedges, unused_nodes@, x));
            assert(unused_report(
                env.files@,
                self.ignore@,
                env.graph.nodes(),
                env.graph.edges(),
                views(expected@),
                unused_nodes@,
                views(unused@),
                views(used@),
            ));
        }
        let r: Result<(Vec<String>, Vec<String>), Error> = Ok((unused, used));
        proof {
            assert(r matches Ok((u, s)) && unused_report(
                env.files@,
                self.ignore@,
                env.graph.nodes(),
                env.graph.edges(),
                views(expected@),
                unused_nodes@,
                views(u@),
                views(s@),
            ));
        }
        r
    }
}

/// The position of a value in the list.
fn position(v: &Vec<usize>, x: usize) -> (r: Option<usize>)
    ensures
        r matches Some(i) ==> i < v@.len() && v@[i as int] == x && forall|k: int| 0 <= k < i ==> v@[k] != x,
        r is None ==> !v@.contains(x),
{
    let mut i: usize = 0;
    while i < v.len()
        invariant
            i <= v@.len(),
            forall|k: int| 0 <= k < i ==> v@[k] != x,
        decreases v.len() - i,
    {
        if v[i] == x {
            return Some(i);
        }
        i = i + 1;
    }
    None
}

/// Whether a string is in the list.
fn contains_string(v: &Vec<String>, s: &String) -> (r: bool)
    ensures
        r == views(v@).contains(s@),
{
    let mut i: usize = 0;
    while i < v.len()
        invariant
            i <= v@.len(),
            forall|k: int| 0 <= k < i ==> #[trigger] v@[k]@ != s@,
        decreases v.len() - i,
    {
        if v[i] == *s {
            assert(views(v@)[i as int] == s@);
            return true;
        }
        i = i + 1;
    }
    false
}

} // verus!
