//! A unified dependency graph, for both projects and source files, stored
//! in a `petgraph` graph.
use crate::allscenarios::AllScenarios;
use crate::errors::Error;
use crate::qnames::QName;
use crate::scenarios::Scenario;
use crate::sourcefile::SourceKind;
use crate::strings::{lemma_views_push, views};
use petgraph::graph::{Graph, NodeIndex};
use petgraph::visit::{Bfs, Dfs, EdgeRef, Walker};
use petgraph::{Directed, Direction};
use vstd::prelude::*;

verus! {

/// The nodes of a graph
#[derive(Debug)]
pub enum Node {
    Project(String),
    Unit(QName),
    Source(String),
}

/// The edges of a graph
///  - A project might depend on other projects, to import source files
///  - A project includes zero or more source files
///  - Source files are grouped into logical units (Ada: packages), though a
///    whole unit is not necessary contained in the same project, though that is
///    a rare case in practice.
///  - A given source file could in theory be part of two different projects,
///    though for two non-overlapping scenarios.
///  - Source files import zero or more units (in C, we import a source file
///    directly, but then a unit is the same as a source file in this case).
///  - A source file depends on the parent unit implicitly.
#[derive(Debug, Clone, Copy)]
pub enum Edge {
    /// between project files
    GPRExtends,
    /// between project files
    GPRImports,
    /// from project to owned source file
    ProjectSource(Scenario),
    /// from unit to owned source files
    UnitSource((SourceKind, Scenario)),
    /// from source file to imported unit
    SourceImports,
}

#[verifier::external_type_specification]
#[verifier::external_body]
#[verifier::reject_recursive_types(N)]
#[verifier::reject_recursive_types(E)]
#[verifier::reject_recursive_types(Ty)]
#[verifier::reject_recursive_types(Ix)]
pub struct ExGraph<N, E, Ty, Ix>(Graph<N, E, Ty, Ix>);

#[verifier::external_type_specification]
#[verifier::external_body]
pub struct ExDirected(Directed);

/// The nodes of a graph, by index.
pub uninterp spec fn graph_nodes(g: Graph<Node, Edge, Directed, u32>) -> Seq<Node>;

/// The edges of a graph (source, target and weight), by index.
pub uninterp spec fn graph_edges(g: Graph<Node, Edge, Directed, u32>) -> Seq<(nat, nat, Edge)>;

/// The edges attached to node `a` (leaving it when `outgoing`, else reaching
/// it), from the most recent: the other end of each, and its weight.
pub open spec fn edges_of(edges: Seq<(nat, nat, Edge)>, a: nat, outgoing: bool) -> Seq<(nat, Edge)>
    decreases edges.len(),
{
    if edges.len() == 0 {
        Seq::empty()
    } else {
        let e = edges.last();
        let rest = edges_of(edges.drop_last(), a, outgoing);
        if outgoing && e.0 == a {
            seq![(e.1, e.2)] + rest
        } else if !outgoing && e.1 == a {
            seq![(e.0, e.2)] + rest
        } else {
            rest
        }
    }
}

/// Whether an edge that satisfies `keep` goes from `a` to `b` (or from `b`
/// to `a`, when `reversed`).
pub open spec fn step(edges: Seq<(nat, nat, Edge)>, keep: spec_fn(Edge) -> bool, reversed: bool, a: nat, b: nat) -> bool {
    exists|k: int|
        0 <= k < edges.len() && keep(#[trigger] edges[k].2) && (if reversed {
            edges[k].1 == a && edges[k].0 == b
        } else {
            edges[k].0 == a && edges[k].1 == b
        })
}

/// Whether the nodes of `p` are a path along edges that satisfy `keep`,
/// followed in their direction or, when `reversed`, backwards.
pub open spec fn path_along(
    edges: Seq<(nat, nat, Edge)>,
    keep: spec_fn(Edge) -> bool,
    reversed: bool,
    p: Seq<nat>,
) -> bool {
    forall|i: int| 0 <= i < p.len() - 1 ==> #[trigger] step(edges, keep, reversed, p[i], p[i + 1])
}

/// Every node of a path along edges between nodes below `n`, when it ends
/// below `n`, is below `n`.
pub proof fn lemma_path_nodes_in(
    edges: Seq<(nat, nat, Edge)>,
    keep: spec_fn(Edge) -> bool,
    reversed: bool,
    p: Seq<nat>,
    n: nat,
)
    requires
        forall|k: int| 0 <= k < edges.len() ==> #[trigger] edges[k].0 < n && edges[k].1 < n,
        path_along(edges, keep, reversed, p),
        p.len() >= 1,
        p.last() < n,
    ensures
        forall|i: int| 0 <= i < p.len() ==> #[trigger] p[i] < n,
{
    assert forall|i: int| 0 <= i < p.len() implies #[trigger] p[i] < n by {
        if i < p.len() - 1 {
            assert(step(edges, keep, reversed, p[i], p[i + 1]));
            let k = choose|k: int|
                0 <= k < edges.len() && keep(#[trigger] edges[k].2) && (if reversed {
                    edges[k].1 == p[i] && edges[k].0 == p[i + 1]
                } else {
                    edges[k].0 == p[i] && edges[k].1 == p[i + 1]
                });
            assert(edges[k].0 < n && edges[k].1 < n);
        }
    }
}

/// Whether `b` can be reached from `a`.
pub open spec fn reaches(
    edges: Seq<(nat, nat, Edge)>,
    keep: spec_fn(Edge) -> bool,
    reversed: bool,
    a: nat,
    b: nat,
) -> bool {
    exists|p: Seq<nat>| p.len() >= 1 && p[0] == a && p.last() == b && #[trigger] path_along(edges, keep, reversed, p)
}

/// `b` can be reached from `a` along at most `k` edges.
pub open spec fn reaches_within(edges: Seq<(nat, nat, Edge)>, a: nat, b: nat, k: nat) -> bool {
    exists|p: Seq<nat>|
        1 <= p.len() <= k + 1 && p[0] == a && p.last() == b && #[trigger] path_along(edges, any_edge(), false, p)
}

/// The nodes come in breadth-first order from `start`: a node that can be
/// reached along at most `k` edges comes after every node that can.
pub open spec fn breadth_first(edges: Seq<(nat, nat, Edge)>, start: nat, v: Seq<usize>) -> bool {
    forall|i: int, j: int, k: nat|
        #![trigger reaches_within(edges, start, v[j] as nat, k), v[i]]
        0 <= i < j < v.len() && reaches_within(edges, start, v[j] as nat, k) ==> reaches_within(edges, start, v[i] as nat, k)
}

/// `p` is a path from `s` to `t` along edges that satisfy `keep`, with the
/// fewest edges.
pub open spec fn shortest_between(
    edges: Seq<(nat, nat, Edge)>,
    keep: spec_fn(Edge) -> bool,
    s: nat,
    t: nat,
    p: Seq<nat>,
) -> bool {
    &&& p.len() >= 1
    &&& p[0] == s
    &&& p.last() == t
    &&& path_along(edges, keep, false, p)
    &&& forall|q: Seq<nat>|
        q.len() >= 1 && q[0] == s && q.last() == t && #[trigger] path_along(edges, keep, false, q) ==> p.len()
            <= q.len()
}

/// Whether some path of at least one edge leads from a node back to
/// itself.
pub open spec fn has_cycle(edges: Seq<(nat, nat, Edge)>) -> bool {
    exists|p: Seq<nat>| p.len() >= 2 && p[0] == p.last() && #[trigger] path_along(edges, any_edge(), false, p)
}

/// The position of a node in an order.
pub open spec fn pos_of(order: Seq<usize>, x: nat) -> int {
    choose|i: int| 0 <= i < order.len() && order[i] as nat == x
}

/// A list of `n` distinct indices below `n` holds each of them.
proof fn lemma_permutation_holds_all(order: Seq<usize>, n: nat)
    requires
        order.len() == n,
        all_distinct(order),
        forall|i: int| 0 <= i < order.len() ==> #[trigger] order[i] < n,
    ensures
        forall|x: nat| x < n ==> 0 <= #[trigger] pos_of(order, x) < order.len() && order[pos_of(order, x)] as nat == x,
{
    let si = order.map_values(|x: usize| x as int);
    assert(si.no_duplicates()) by {
        assert forall|i: int, j: int| 0 <= i < si.len() && 0 <= j < si.len() && i != j implies si[i] != si[j] by {
            assert(order[i] != order[j]);
        }
    }
    si.unique_seq_to_set();
    vstd::set_lib::lemma_int_range(0, n as int);
    let r = vstd::set_lib::set_int_range(0, n as int);
    assert(si.to_set().subset_of(r)) by {
        assert forall|x: int| si.to_set().contains(x) implies r.contains(x) by {
            let i = choose|i: int| 0 <= i < si.len() && si[i] == x;
            assert(order[i] < n);
        }
    }
    vstd::seq_lib::seq_to_set_is_finite(si);
    vstd::set_lib::lemma_subset_equality(si.to_set(), r);
    assert forall|x: nat| x < n implies 0 <= #[trigger] pos_of(order, x) < order.len() && order[pos_of(order, x)] as nat == x by {
        assert(r.contains(x as int));
        assert(si.to_set().contains(x as int));
        let i = choose|i: int| 0 <= i < si.len() && si[i] == x as int;
        assert(order[i] as nat == x);
    }
}

/// Along a path, the positions of the nodes in a topological order grow.
proof fn lemma_path_moves_forward(n: nat, edges: Seq<(nat, nat, Edge)>, order: Seq<usize>, p: Seq<nat>, t: int)
    requires
        forall|x: nat| x < n ==> 0 <= #[trigger] pos_of(order, x) < order.len() && order[pos_of(order, x)] as nat == x,
        forall|k: int| 0 <= k < edges.len() ==> #[trigger] edges[k].0 < n && edges[k].1 < n,
        forall|k: int, i: int, j: int|
            #![trigger edges[k], order[i], order[j]]
            0 <= k < edges.len() && 0 <= i < order.len() && 0 <= j < order.len() && order[i] as nat == edges[k].0
                && order[j] as nat == edges[k].1 ==> i < j,
        path_along(edges, any_edge(), false, p),
        1 <= t < p.len(),
    ensures
        p[0] < n,
        p[t] < n,
        pos_of(order, p[0]) < pos_of(order, p[t]),
    decreases t,
{
    let q = t - 1;
    assert(step(edges, any_edge(), false, p[q], p[q + 1]));
    assert(q + 1 == t);
    let k = choose|k: int| 0 <= k < edges.len() && any_edge()(#[trigger] edges[k].2) && edges[k].0 == p[t - 1] && edges[k].1 == p[t];
    assert(edges[k].0 < n && edges[k].1 < n);
    let a = pos_of(order, p[t - 1]);
    let b = pos_of(order, p[t]);
    assert(order[a] as nat == edges[k].0 && order[b] as nat == edges[k].1);
    assert(a < b);
    if t > 1 {
        lemma_path_moves_forward(n, edges, order, p, t - 1);
    }
}

/// Nodes can be listed so that every edge goes forward (as `toposort` does
/// when it succeeds) only when the graph has no cycle: together with
/// `toposort` failing only on a cycle, it succeeds exactly on graphs without
/// a cycle.
pub proof fn lemma_topological_order_acyclic(n: nat, edges: Seq<(nat, nat, Edge)>, order: Seq<usize>)
    requires
        forall|k: int| 0 <= k < edges.len() ==> #[trigger] edges[k].0 < n && edges[k].1 < n,
        order.len() == n,
        all_distinct(order),
        forall|i: int| 0 <= i < order.len() ==> #[trigger] order[i] < n,
        forall|k: int, i: int, j: int|
            #![trigger edges[k], order[i], order[j]]
            0 <= k < edges.len() && 0 <= i < order.len() && 0 <= j < order.len() && order[i] as nat == edges[k].0
                && order[j] as nat == edges[k].1 ==> i < j,
    ensures
        !has_cycle(edges),
{
    lemma_permutation_holds_all(order, n);
    if has_cycle(edges) {
        let p = choose|p: Seq<nat>| p.len() >= 2 && p[0] == p.last() && #[trigger] path_along(edges, any_edge(), false, p);
        lemma_path_moves_forward(n, edges, order, p, p.len() - 1);
    }
}

/// The paths of the source files that edges from a project lead to (given
/// by their other end and weight), in order.
pub open spec fn source_paths(out: Seq<(nat, Edge)>, nodes: Seq<Node>) -> Seq<Seq<char>>
    decreases out.len(),
{
    if out.len() == 0 {
        Seq::empty()
    } else {
        let prev = source_paths(out.drop_last(), nodes);
        let t = out.last().0;
        if out.last().1 is ProjectSource && t < nodes.len() && nodes[t as int] is Source {
            prev.push(nodes[t as int]->Source_0@)
        } else {
            prev
        }
    }
}

/// The project nodes, in order, with their paths.
pub open spec fn project_nodes(nodes: Seq<Node>) -> Seq<(nat, Seq<char>)>
    decreases nodes.len(),
{
    if nodes.len() == 0 {
        Seq::empty()
    } else {
        let prev = project_nodes(nodes.drop_last());
        match nodes.last() {
            Node::Project(p) => prev.push(((nodes.len() - 1) as nat, p@)),
            _ => prev,
        }
    }
}

/// The index and path of each project, as values.
pub open spec fn project_views(r: Seq<(usize, String)>) -> Seq<(nat, Seq<char>)> {
    r.map_values(|x: (usize, String)| (x.0 as nat, x.1@))
}

/// No index appears twice.
pub open spec fn all_distinct(v: Seq<usize>) -> bool {
    forall|i: int, j: int| 0 <= i < v.len() && 0 <= j < v.len() && i != j ==> v[i] != v[j]
}

/// The edges followed when looking for the files a file depends on, or
/// that depend on it: imports, and the files of units in the scenario.
pub open spec fn spec_import_edge(w: Edge, scenarios: AllScenarios, for_scenario: Scenario) -> bool {
    match w {
        Edge::SourceImports => true,
        Edge::UnitSource((_, s)) => !scenarios.spec_never_matches(Scenario(s.0 & for_scenario.0)),
        _ => false,
    }
}

/// The file of a unit is followed, when limited to scenario `f`, exactly
/// when some choice of values of the scenario variables lies both in the
/// scenario of the file and in `f`: no file of a scenario that cannot occur
/// together with `f` is followed.
pub proof fn law_unit_source_in_scenario(scenarios: AllScenarios, f: Scenario, k: SourceKind, s: Scenario)
    requires
        scenarios.wf(),
    ensures
        spec_import_edge(Edge::UnitSource((k, s)), scenarios, f) <==> exists|c: Seq<int>|
            scenarios.is_point(c) && #[trigger] scenarios.covers(s, c) && scenarios.covers(f, c),
{
    scenarios.lemma_never_matches_exact(Scenario(s.0 & f.0));
    let sf = Scenario(s.0 & f.0);
    if exists|c: Seq<int>| scenarios.is_point(c) && #[trigger] scenarios.covers(s, c) && scenarios.covers(f, c) {
        let c = choose|c: Seq<int>| scenarios.is_point(c) && #[trigger] scenarios.covers(s, c) && scenarios.covers(f, c);
        scenarios.lemma_covers_and(s, f, c);
        assert(scenarios.is_point(c) && scenarios.covers(sf, c));
    }
    if exists|c: Seq<int>| scenarios.is_point(c) && #[trigger] scenarios.covers(sf, c) {
        let c = choose|c: Seq<int>| scenarios.is_point(c) && #[trigger] scenarios.covers(sf, c);
        scenarios.lemma_covers_and(s, f, c);
        assert(scenarios.covers(s, c));
    }
}

/// The edges followed when looking for the files a file depends on.
pub open spec fn import_keep(scenarios: AllScenarios, for_scenario: Scenario) -> spec_fn(Edge) -> bool {
    |w: Edge| spec_import_edge(w, scenarios, for_scenario)
}

/// Whether an edge is followed when looking for the files a file depends on.
pub fn import_edge(w: &Edge, scenarios: &AllScenarios, for_scenario: Scenario) -> (r: bool)
    ensures
        r == spec_import_edge(*w, *scenarios, for_scenario),
{
    match w {
        Edge::SourceImports => true,
        Edge::UnitSource((_, s)) => !scenarios.never_matches(*s & for_scenario),
        _ => false,
    }
}

/// A new graph, without nodes or edges, with `Graph::new`.
#[verifier::external_body]
fn graph_new() -> (r: Graph<Node, Edge, Directed, u32>)
    ensures
        graph_nodes(r) == Seq::<Node>::empty(),
        graph_edges(r) == Seq::<(nat, nat, Edge)>::empty(),
{
    Graph::new()
}

/// Adds a node with `Graph::add_node`, which returns the index of the new
/// node (the number of nodes before the call); it panics when the index would
/// be the largest `u32`.
#[verifier::external_body]
fn graph_add_node(g: &mut Graph<Node, Edge, Directed, u32>, n: Node) -> (r: usize)
    requires
        graph_nodes(*old(g)).len() < u32::MAX,
    ensures
        graph_nodes(*final(g)) == graph_nodes(*old(g)).push(n),
        graph_edges(*final(g)) == graph_edges(*old(g)),
        r == graph_nodes(*old(g)).len(),
{
    g.add_node(n).index()
}

/// Adds an edge with `Graph::add_edge`; it panics when a node does not
/// exist or when the index of the edge would be the largest `u32`.
#[verifier::external_body]
fn graph_add_edge(g: &mut Graph<Node, Edge, Directed, u32>, a: usize, b: usize, w: Edge)
    requires
        a < graph_nodes(*old(g)).len(),
        b < graph_nodes(*old(g)).len(),
        graph_edges(*old(g)).len() < u32::MAX,
    ensures
        graph_nodes(*final(g)) == graph_nodes(*old(g)),
        graph_edges(*final(g)) == graph_edges(*old(g)).push((a as nat, b as nat, w)),
{
    g.add_edge(NodeIndex::new(a), NodeIndex::new(b), w);
}

/// The number of nodes, with `Graph::node_count`.
#[verifier::external_body]
fn graph_node_count(g: &Graph<Node, Edge, Directed, u32>) -> (r: usize)
    ensures
        r == graph_nodes(*g).len(),
{
    g.node_count()
}

/// The number of edges, with `Graph::edge_count`.
#[verifier::external_body]
fn graph_edge_count(g: &Graph<Node, Edge, Directed, u32>) -> (r: usize)
    ensures
        r == graph_edges(*g).len(),
{
    g.edge_count()
}

/// The weight of a node, by indexing the graph (which panics when the node
/// does not exist).
#[verifier::external_body]
fn graph_node<'a>(g: &'a Graph<Node, Edge, Directed, u32>, i: usize) -> (r: &'a Node)
    requires
        i < graph_nodes(*g).len(),
    ensures
        *r == graph_nodes(*g)[i as int],
{
    &g[NodeIndex::new(i)]
}

/// The edges leaving (or reaching) a node, with `Graph::edges_directed`:
/// `petgraph` keeps them in a list where the most recent edge comes first.
#[verifier::external_body]
fn graph_edges_directed(g: &Graph<Node, Edge, Directed, u32>, a: usize, outgoing: bool) -> (r: Vec<(usize, Edge)>)
    requires
        a < graph_nodes(*g).len(),
    ensures
        r@.len() == edges_of(graph_edges(*g), a as nat, outgoing).len(),
        forall|i: int|
            0 <= i < r@.len() ==> #[trigger] r@[i].0 as nat == edges_of(graph_edges(*g), a as nat, outgoing)[i].0
                && r@[i].1 == edges_of(graph_edges(*g), a as nat, outgoing)[i].1,
{
    let dir = if outgoing { Direction::Outgoing } else { Direction::Incoming };
    g.edges_directed(NodeIndex::new(a), dir).map(
        |e| (if outgoing { e.target() } else { e.source() }.index(), *e.weight()),
    ).collect()
}

/// The nodes in topological order, with `petgraph::algo::toposort`: for
/// every edge, its source comes before its target.  When the graph has a
/// cycle (`petgraph` documents that it fails exactly then), a node of the
/// graph is returned as error.
#[verifier::external_body]
fn graph_toposort(g: &Graph<Node, Edge, Directed, u32>) -> (r: Result<Vec<usize>, usize>)
    ensures
        r matches Ok(order) ==> {
            &&& order@.len() == graph_nodes(*g).len()
            &&& all_distinct(order@)
            &&& forall|i: int| 0 <= i < order@.len() ==> #[trigger] order@[i] < graph_nodes(*g).len()
            &&& forall|k: int, i: int, j: int|
                #![trigger graph_edges(*g)[k], order@[i], order@[j]]
                0 <= k < graph_edges(*g).len() && 0 <= i < order@.len() && 0 <= j < order@.len()
                    && order@[i] as nat == graph_edges(*g)[k].0 && order@[j] as nat
                    == graph_edges(*g)[k].1 ==> i < j
        },
        r matches Err(c) ==> c < graph_nodes(*g).len() && has_cycle(graph_edges(*g)),
{
    match petgraph::algo::toposort(g, None) {
        Ok(v) => Ok(v.iter().map(|n| n.index()).collect()),
        Err(c) => Err(c.node_id().index()),
    }
}

/// All the nodes reachable from `start` (itself first), each once, with a
/// `petgraph::visit::Bfs` walk: the walk visits the nodes in the order in
/// which it discovers them, so those nearer to `start` come first.
#[verifier::external_body]
fn graph_bfs(g: &Graph<Node, Edge, Directed, u32>, start: usize) -> (r: Vec<usize>)
    requires
        start < graph_nodes(*g).len(),
    ensures
        r@.len() >= 1,
        r@[0] == start,
        all_distinct(r@),
        forall|x: usize| r@.contains(x) <==> reaches(graph_edges(*g), any_edge(), false, start as nat, x as nat),
        breadth_first(graph_edges(*g), start as nat, r@),
{
    Bfs::new(g, NodeIndex::new(start)).iter(g).map(|n| n.index()).collect()
}

/// All the nodes reachable from `start` (itself first), each once, along
/// the edges followed by `import_edge`, in their direction or backwards:
/// a `petgraph::visit::Dfs` walk on the filtered (and maybe reversed) graph.
#[verifier::external_body]
fn graph_import_dfs(
    g: &Graph<Node, Edge, Directed, u32>,
    start: usize,
    reversed: bool,
    scenarios: &AllScenarios,
    for_scenario: Scenario,
) -> (r: Vec<usize>)
    requires
        start < graph_nodes(*g).len(),
    ensures
        r@.len() >= 1,
        r@[0] == start,
        all_distinct(r@),
        forall|x: usize|
            r@.contains(x) <==> reaches(
                graph_edges(*g),
                import_keep(*scenarios, for_scenario),
                reversed,
                start as nat,
                x as nat,
            ),
{
    let filtered = petgraph::visit::EdgeFiltered::from_fn(g, |e| import_edge(e.weight(), scenarios, for_scenario));
    if reversed {
        let r = petgraph::visit::Reversed(&filtered);
        Dfs::new(r, NodeIndex::new(start)).iter(r).map(|n| n.index()).collect()
    } else {
        Dfs::new(&filtered, NodeIndex::new(start)).iter(&filtered).map(|n| n.index()).collect()
    }
}

/// Whether an edge is followed by paths between files: imports, and the
/// files of units.
pub open spec fn spec_import_path_edge(w: Edge) -> bool {
    w is SourceImports || w is UnitSource
}

/// The edges followed by paths between files.
pub open spec fn import_path_keep() -> spec_fn(Edge) -> bool {
    |w: Edge| spec_import_path_edge(w)
}

/// The edges that a path follows: all of them, or with `only_imports`
/// those between files and units.
pub open spec fn path_keep(only_imports: bool) -> spec_fn(Edge) -> bool {
    if only_imports {
        import_path_keep()
    } else {
        any_edge()
    }
}

/// Any edge.
pub open spec fn any_edge() -> spec_fn(Edge) -> bool {
    |w: Edge| true
}

/// Whether an edge is followed by paths between files.
pub fn import_path_edge(w: &Edge) -> (r: bool)
    ensures
        r == spec_import_path_edge(*w),
{
    matches!(w, Edge::SourceImports | Edge::UnitSource(_))
}

/// A shortest path from `start` to `goal` (every edge costs 1), with
/// `petgraph::algo::astar`, along all edges or, with `only_imports`, along
/// those that `import_path_edge` follows.  There is none when `goal` cannot
/// be reached; with a zero estimate, which never overestimates, the path
/// found has the fewest edges, as the documentation of `astar` states.
#[verifier::external_body]
fn graph_shortest_path(g: &Graph<Node, Edge, Directed, u32>, start: usize, goal: usize, only_imports: bool) -> (r: Option<Vec<usize>>)
    requires
        start < graph_nodes(*g).len(),
        goal < graph_nodes(*g).len(),
    ensures
        r matches Some(p) ==> p@.len() >= 1 && p@[0] == start && p@.last() == goal && path_along(
            graph_edges(*g),
            if only_imports { import_path_keep() } else { any_edge() },
            false,
            p@.map_values(|x: usize| x as nat),
        ),
        r is None ==> !reaches(
            graph_edges(*g),
            if only_imports { import_path_keep() } else { any_edge() },
            false,
            start as nat,
            goal as nat,
        ),
        r matches Some(p) ==> forall|q: Seq<nat>|
            q.len() >= 1 && q[0] == start && q.last() == goal && #[trigger] path_along(
                graph_edges(*g),
                path_keep(only_imports),
                false,
                q,
            ) ==> p@.len() <= q.len(),
{
    let goal_node = NodeIndex::new(goal);
    let found = if only_imports {
        let filtered = petgraph::visit::EdgeFiltered::from_fn(g, |e| import_path_edge(e.weight()));
        petgraph::algo::astar(&filtered, NodeIndex::new(start), |n| n == goal_node, |_| 1, |_| 0)
    } else {
        petgraph::algo::astar(g, NodeIndex::new(start), |n| n == goal_node, |_| 1, |_| 0)
    };
    found.map(|(_, path)| path.iter().map(|n| n.index()).collect())
}

/// A unified dependency graph, for both projects and source files
pub struct DepGraph(pub Graph<Node, Edge, Directed, u32>);

impl DepGraph {
    /// The nodes of the graph.
    pub open spec fn nodes(&self) -> Seq<Node> {
        graph_nodes(self.0)
    }

    /// The edges of the graph.
    pub open spec fn edges(&self) -> Seq<(nat, nat, Edge)> {
        graph_edges(self.0)
    }

    /// Every edge joins two nodes of the graph.
    pub open spec fn wf(&self) -> bool {
        forall|k: int| 0 <= k < self.edges().len() ==> #[trigger] self.edges()[k].0 < self.nodes().len()
            && self.edges()[k].1 < self.nodes().len()
    }

    /// An empty graph.
    pub fn new() -> (r: Self)
        ensures
            r.wf(),
            r.nodes().len() == 0,
            r.edges().len() == 0,
    {
        DepGraph(graph_new())
    }

    /// The path of a project node.
    pub fn get_project(&self, idx: usize) -> (r: Result<&String, Error>)
        requires
            idx < self.nodes().len(),
        ensures
            match self.nodes()[idx as int] {
                Node::Project(p) => r == Ok::<&String, Error>(&p),
                _ => r matches Err(Error::InvalidGraphNode(_)),
            },
    {
        match graph_node(&self.0, idx) {
            Node::Project(g) => Ok(g),
            Node::Unit(u) => Err(Error::InvalidGraphNode(u.describe())),
            Node::Source(s) => Err(Error::InvalidGraphNode(s.clone())),
        }
    }

    /// The number of nodes.
    pub fn node_count(&self) -> (r: usize)
        ensures
            r == self.nodes().len(),
    {
        graph_node_count(&self.0)
    }

    /// The number of edges.
    pub fn edge_count(&self) -> (r: usize)
        ensures
            r == self.edges().len(),
    {
        graph_edge_count(&self.0)
    }

    /// Adds a node, and returns its index.
    pub fn add_node(&mut self, node: Node) -> (r: usize)
        requires
            old(self).wf(),
            old(self).nodes().len() < u32::MAX,
        ensures
            final(self).wf(),
            final(self).nodes() == old(self).nodes().push(node),
            final(self).edges() == old(self).edges(),
            r == old(self).nodes().len(),
    {
        let r = graph_add_node(&mut self.0, node);
        assert(forall|k: int| 0 <= k < self.edges().len() ==> #[trigger] self.edges()[k] == old(self).edges()[k]);
        r
    }

    /// Adds an edge between two nodes.
    pub fn add_edge(&mut self, from: usize, to: usize, data: Edge)
        requires
            old(self).wf(),
            from < old(self).nodes().len(),
            to < old(self).nodes().len(),
            old(self).edges().len() < u32::MAX,
        ensures
            final(self).wf(),
            final(self).nodes() == old(self).nodes(),
            final(self).edges() == old(self).edges().push((from as nat, to as nat, data)),
    {
        graph_add_edge(&mut self.0, from, to, data);
        assert(forall|k: int| 0 <= k < old(self).edges().len() ==> #[trigger] self.edges()[k] == old(self).edges()[k]);
    }

    /// Return all nodes in the graph, sorted topologically (a node appears
    /// before all the ones it points to), or `None` when the graph has a
    /// cycle.
    pub fn toposort(&self) -> (r: Option<Vec<usize>>)
        ensures
            r matches Some(order) ==> {
                &&& order@.len() == self.nodes().len()
                &&& all_distinct(order@)
                &&& forall|i: int| 0 <= i < order@.len() ==> #[trigger] order@[i] < self.nodes().len()
                &&& forall|k: int, i: int, j: int|
                    #![trigger self.edges()[k], order@[i], order@[j]]
                    0 <= k < self.edges().len() && 0 <= i < order@.len() && 0 <= j < order@.len()
                        && order@[i] as nat == self.edges()[k].0 && order@[j] as nat
                        == self.edges()[k].1 ==> i < j
            },
            r is None ==> has_cycle(self.edges()),
    {
        match graph_toposort(&self.0) {
            Ok(v) => Some(v),
            Err(_) => None,
        }
    }

    /// Return the list of dependencies for a node.
    /// Each dependency is reported only once (so if a project imports both A
    /// and B, which both import a common C, then C is only returned once).
    /// The returned value does not include start itself.
    pub fn gpr_dependencies(&self, start: usize) -> (r: Vec<usize>)
        requires
            start < self.nodes().len(),
        ensures
            all_distinct(r@),
            forall|x: usize|
                r@.contains(x) <==> x != start && reaches(self.edges(), any_edge(), false, start as nat, x as nat),
            // In breadth-first order: the nearer ones first.
            breadth_first(self.edges(), start as nat, r@),
    {
        let all = graph_bfs(&self.0, start);
        let mut result: Vec<usize> = Vec::new();
        let ghost mut pos: Seq<int> = Seq::empty();
        let mut i: usize = 0;
        while i < all.len()
            invariant
                breadth_first(self.edges(), start as nat, all@),
                pos.len() == result@.len(),
                forall|a: int| 0 <= a < pos.len() ==> 0 <= #[trigger] pos[a] < i && result@[a] == all@[pos[a]],
                forall|a: int, b: int| 0 <= a < b < pos.len() ==> #[trigger] pos[a] < #[trigger] pos[b],
                i <= all@.len(),
                all_distinct(all@),
                all@[0] == start,
                all@.len() >= 1,
                all_distinct(result@),
                forall|x: usize| result@.contains(x) <==> x != start && exists|j: int| 0 <= j < i && #[trigger] all@[j] == x,
            decreases all.len() - i,
        {
            let node = all[i];
            let ghost before = result@;
            if node != start {
                proof {
                    if before.contains(node) {
                        let j = choose|j: int| 0 <= j < i && #[trigger] all@[j] == node;
                        assert(all@[j] == all@[i as int]);
                    }
                }
                result.push(node);
                proof {
                    pos = pos.push(i as int);
                    assert forall|a: int, b: int|
                        0 <= a < result@.len() && 0 <= b < result@.len() && a != b implies result@[a] != result@[b] by {
                        if a < before.len() && b < before.len() {
                        } else if a < before.len() {
                            assert(before.contains(result@[a]));
                        } else if b < before.len() {
                            assert(before.contains(result@[b]));
                        }
                    }
                }
            }
            proof {
                assert forall|x: usize| result@.contains(x) <==> x != start && exists|j: int| 0 <= j < i + 1 && #[trigger] all@[j] == x by {
                    if result@.contains(x) {
                        let k = choose|k: int| 0 <= k < result@.len() && result@[k] == x;
                        if k < before.len() {
                            assert(before.contains(x));
                        } else {
                            assert(all@[i as int] == x);
                        }
                    }
                    if x != start && exists|j: int| 0 <= j < i + 1 && #[trigger] all@[j] == x {
                        let j = choose|j: int| 0 <= j < i + 1 && #[trigger] all@[j] == x;
                        if j < i {
                            assert(before.contains(x));
                            let k = choose|k: int| 0 <= k < before.len() && before[k] == x;
                            assert(result@[k] == x);
                        } else {
                            assert(result@[result@.len() - 1] == x);
                        }
                    }
                }
            }
            i = i + 1;
        }
        proof {
            assert forall|x: usize| result@.contains(x) <==> x != start && all@.contains(x) by {
                if all@.contains(x) {
                    let j = choose|j: int| 0 <= j < all@.len() && all@[j] == x;
                    assert(all@[j] == x);
                }
            }
            assert forall|a: int, b: int, k: nat|
                #![trigger reaches_within(self.edges(), start as nat, result@[b] as nat, k), result@[a]]
                0 <= a < b < result@.len() && reaches_within(self.edges(), start as nat, result@[b] as nat, k)
                implies reaches_within(self.edges(), start as nat, result@[a] as nat, k) by {
                assert(pos[a] < pos[b]);
                assert(all@[pos[b]] == result@[b]);
                assert(all@[pos[a]] == result@[a]);
            }
        }
        result
    }

    /// The source files of a project.
    pub fn iter_source_nodes_of_project(&self, project: usize) -> (r: Vec<String>)
        requires
            self.wf(),
            project < self.nodes().len(),
        ensures
            views(r@) == source_paths(edges_of(self.edges(), project as nat, true), self.nodes()),
    {
        let out = graph_edges_directed(&self.0, project, true);
        let ghost e = edges_of(self.edges(), project as nat, true);
        let mut r: Vec<String> = Vec::new();
        let mut i: usize = 0;
        while i < out.len()
            invariant
                self.wf(),
                i <= out@.len(),
                out@.len() == e.len(),
                e == edges_of(self.edges(), project as nat, true),
                forall|k: int|
                    0 <= k < out@.len() ==> #[trigger] out@[k].0 as nat == e[k].0 && out@[k].1 == e[k].1,
                views(r@) == source_paths(e.take(i as int), self.nodes()),
            decreases out.len() - i,
        {
            let ghost before = r@;
            proof {
                assert(e.take(i + 1).drop_last() =~= e.take(i as int));
                assert(e.take(i + 1).last() == e[i as int]);
            }
            let ghost t = e[i as int].0;
            let ghost sp = source_paths(e.take(i + 1), self.nodes());
            proof {
                assert(out@[i as int].0 as nat == e[i as int].0 && out@[i as int].1 == e[i as int].1);
            }
            if let Edge::ProjectSource(_) = out[i].1 {
                let target = out[i].0;
                if target < self.node_count() {
                    if let Node::Source(path) = graph_node(&self.0, target) {
                        r.push(path.clone());
                        proof {
                            lemma_views_push(before, r@.last());
                            assert(r@ =~= before.push(r@.last()));
                            assert(sp == views(before).push(path@));
                        }
                    } else {
                        proof {
                            assert(!(self.nodes()[t as int] is Source));
                            assert(sp == views(before));
                        }
                    }
                } else {
                    proof {
                        assert(sp == views(before));
                    }
                }
            } else {
                proof {
                    assert(!(e[i as int].1 is ProjectSource));
                    assert(sp == views(before));
                }
            }
            i = i + 1;
        }
        proof {
            assert(e.take(e.len() as int) =~= e);
        }
        r
    }

    /// The project nodes, with their paths.
    pub fn iter_project_nodes(&self) -> (r: Vec<(usize, String)>)
        ensures
            forall|i: int| 0 <= i < r@.len() ==> #[trigger] r@[i].0 < self.nodes().len()
                && self.nodes()[r@[i].0 as int] == Node::Project(r@[i].1),
            forall|n: int| 0 <= n < self.nodes().len() && self.nodes()[n] is Project ==> exists|i: int|
                0 <= i < r@.len() && #[trigger] r@[i].0 == n,
            project_views(r@) == project_nodes(self.nodes()),
    {
        let mut r: Vec<(usize, String)> = Vec::new();
        let count = graph_node_count(&self.0);
        let mut n: usize = 0;
        while n < count
            invariant
                n <= count,
                count == self.nodes().len(),
                forall|i: int| 0 <= i < r@.len() ==> #[trigger] r@[i].0 < self.nodes().len()
                    && self.nodes()[r@[i].0 as int] == Node::Project(r@[i].1),
                forall|m: int| 0 <= m < n && self.nodes()[m] is Project ==> exists|i: int|
                    0 <= i < r@.len() && #[trigger] r@[i].0 == m,
                project_views(r@) == project_nodes(self.nodes().take(n as int)),
            decreases count - n,
        {
            let ghost before = r@;
            proof {
                assert(self.nodes().take(n + 1).drop_last() =~= self.nodes().take(n as int));
            }
            if let Node::Project(path) = graph_node(&self.0, n) {
                r.push((n, path.clone()));
                assert(r@[r@.len() - 1].0 == n);
                proof {
                    assert(project_views(r@) =~= project_views(before).push((n as nat, path@)));
                }
            } else {
                proof {
                    assert(project_views(r@) =~= project_views(before));
                }
            }
            proof {
                assert forall|m: int| 0 <= m < n + 1 && self.nodes()[m] is Project implies exists|i: int|
                    0 <= i < r@.len() && #[trigger] r@[i].0 == m by {
                    if m < n {
                        let i = choose|i: int| 0 <= i < before.len() && #[trigger] before[i].0 == m;
                        assert(r@[i] == before[i]);
                    } else {
                        assert(r@[r@.len() - 1].0 == n);
                    }
                }
            }
            n = n + 1;
        }
        proof {
            assert(self.nodes().take(count as int) =~= self.nodes());
        }
        r
    }

    /// All the nodes reachable from `start` (itself first), each once,
    /// along the edges that `import_edge` follows, in their direction or
    /// backwards.
    pub fn import_dfs(&self, start: usize, reversed: bool, scenarios: &AllScenarios, for_scenario: Scenario) -> (r:
        Vec<usize>)
        requires
            start < self.nodes().len(),
        ensures
            r@.len() >= 1,
            r@[0] == start,
            all_distinct(r@),
            forall|x: usize|
                r@.contains(x) <==> reaches(
                    self.edges(),
                    import_keep(*scenarios, for_scenario),
                    reversed,
                    start as nat,
                    x as nat,
                ),
    {
        graph_import_dfs(&self.0, start, reversed, scenarios, for_scenario)
    }

    /// A shortest path between two nodes, along all edges or only those
    /// between files and units.
    pub fn shortest_path(&self, start: usize, goal: usize, only_imports: bool) -> (r: Option<Vec<usize>>)
        requires
            start < self.nodes().len(),
            goal < self.nodes().len(),
        ensures
            r matches Some(p) ==> p@.len() >= 1 && p@[0] == start && p@.last() == goal && path_along(
                self.edges(),
                if only_imports { import_path_keep() } else { any_edge() },
                false,
                p@.map_values(|x: usize| x as nat),
            ),
            r is None ==> !reaches(
                self.edges(),
                if only_imports { import_path_keep() } else { any_edge() },
                false,
                start as nat,
                goal as nat,
            ),
            r matches Some(p) ==> forall|q: Seq<nat>|
                q.len() >= 1 && q[0] == start && q.last() == goal && #[trigger] path_along(
                    self.edges(),
                    path_keep(only_imports),
                    false,
                    q,
                ) ==> p@.len() <= q.len(),
    {
        graph_shortest_path(&self.0, start, goal, only_imports)
    }

    /// The weight of a node.
    pub fn node(&self, i: usize) -> (r: &Node)
        requires
            i < self.nodes().len(),
        ensures
            *r == self.nodes()[i as int],
    {
        graph_node(&self.0, i)
    }

    /// The edges leaving a node, from the most recent: their target and
    /// weight.
    pub fn out_edges(&self, a: usize) -> (r: Vec<(usize, Edge)>)
        requires
            self.wf(),
            a < self.nodes().len(),
        ensures
            r@.len() == edges_of(self.edges(), a as nat, true).len(),
            forall|i: int|
                0 <= i < r@.len() ==> #[trigger] r@[i].0 as nat == edges_of(self.edges(), a as nat, true)[i].0
                    && r@[i].1 == edges_of(self.edges(), a as nat, true)[i].1,
            forall|i: int| 0 <= i < r@.len() ==> #[trigger] r@[i].0 < self.nodes().len(),
    {
        let r = graph_edges_directed(&self.0, a, true);
        proof {
            lemma_edges_of_in(self.edges(), a as nat, true, self.nodes().len());
        }
        r
    }

    /// The edges reaching a node, from the most recent: their source and
    /// weight.
    pub fn in_edges(&self, a: usize) -> (r: Vec<(usize, Edge)>)
        requires
            self.wf(),
            a < self.nodes().len(),
        ensures
            r@.len() == edges_of(self.edges(), a as nat, false).len(),
            forall|i: int|
                0 <= i < r@.len() ==> #[trigger] r@[i].0 as nat == edges_of(self.edges(), a as nat, false)[i].0
                    && r@[i].1 == edges_of(self.edges(), a as nat, false)[i].1,
            forall|i: int| 0 <= i < r@.len() ==> #[trigger] r@[i].0 < self.nodes().len(),
    {
        let r = graph_edges_directed(&self.0, a, false);
        proof {
            lemma_edges_of_in(self.edges(), a as nat, false, self.nodes().len());
        }
        r
    }
}

/// The other ends of the edges of a node are nodes of the graph.
proof fn lemma_edges_of_in(edges: Seq<(nat, nat, Edge)>, a: nat, outgoing: bool, n: nat)
    requires
        forall|k: int| 0 <= k < edges.len() ==> #[trigger] edges[k].0 < n && edges[k].1 < n,
    ensures
        forall|i: int| 0 <= i < edges_of(edges, a, outgoing).len() ==> #[trigger] edges_of(edges, a, outgoing)[i].0 < n,
    decreases edges.len(),
{
    if edges.len() > 0 {
        let d = edges.drop_last();
        assert forall|k: int| 0 <= k < d.len() implies #[trigger] d[k].0 < n && d[k].1 < n by {
            assert(d[k] == edges[k]);
            assert(edges[k].0 < n && edges[k].1 < n);
        }
        lemma_edges_of_in(d, a, outgoing, n);
        let rest = edges_of(d, a, outgoing);
        let e = edges.last();
        assert(e == edges[edges.len() - 1]);
        if outgoing && e.0 == a || !outgoing && e.1 == a {
            let all = edges_of(edges, a, outgoing);
            assert forall|i: int| 0 <= i < all.len() implies #[trigger] all[i].0 < n by {
                if i > 0 {
                    assert(all[i] == rest[i - 1]);
                }
            }
        }
    }
}

} // verus!
