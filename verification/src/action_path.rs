//! A shortest dependency path between two files or projects.
use crate::environment::{file_from, gpr_from, Environment};
use crate::errors::Error;
use crate::graph::{any_edge, lemma_path_nodes_in, path_along, path_keep, reaches, shortest_between, Edge, Node};
use crate::settings::Settings;
use crate::strings::{owned, push_str, seq_join, views};
use vstd::prelude::*;

verus! {

/// Show a dependency path between two files or projects.
pub struct ActionPath {
    pub source: String,
    pub target: String,
    pub show_units: bool,
}

/// The node of the first source file with that path, or else of the first
/// project with that path.
pub open spec fn node_of(env: &Environment, path: Seq<char>) -> Option<nat> {
    match file_from(env.files@, path, 0) {
        Some(i) => Some(env.files@[i].file_node as nat),
        None => match gpr_from(env.gprs@, path, 0) {
            Some(i) => Some(env.gprs@[i].1.node as nat),
            None => None,
        },
    }
}

/// The line that shows a node of a path, if any.
pub open spec fn node_line(node: Node, show_units: bool, settings: Settings) -> Option<Seq<char>> {
    match node {
        Node::Source(p) => Some("file: "@ + settings.spec_display_path(p@)),
        Node::Unit(q) => if show_units {
            Some("unit: "@ + seq_join(q@, "."@))
        } else {
            None
        },
        Node::Project(p) => Some("gpr: "@ + settings.spec_display_path(p@)),
    }
}

/// The lines that show the nodes of a path, in order.
pub open spec fn path_lines(p: Seq<nat>, nodes: Seq<Node>, show_units: bool, settings: Settings) -> Seq<
    Seq<char>,
>
    decreases p.len(),
{
    if p.len() == 0 {
        Seq::empty()
    } else {
        let prev = path_lines(p.drop_last(), nodes, show_units, settings);
        match node_line(nodes[p.last() as int], show_units, settings) {
            Some(l) => prev.push(l),
            None => prev,
        }
    }
}

/// The report on the paths from `s` to `t`: the lines of a shortest one, or
/// a single line when there is none.
pub open spec fn path_report(
    edges: Seq<(nat, nat, Edge)>,
    nodes: Seq<Node>,
    s: nat,
    t: nat,
    show_units: bool,
    settings: Settings,
    lines: Seq<Seq<char>>,
) -> bool {
    ||| lines == seq!["There was no path"@] && !reaches(edges, any_edge(), false, s, t)
    ||| exists|p: Seq<nat>| #[trigger]
        shortest_between(edges, any_edge(), s, t, p) && lines == path_lines(p, nodes, show_units, settings)
}

impl ActionPath {
    /// The node of a source file, or else of a project.
    fn find_node(env: &Environment, path: &String) -> (r: Result<usize, Error>)
        ensures
            node_of(env, path@) matches Some(n) ==> (r matches Ok(k) && k as nat == n),
            node_of(env, path@) is None ==> (r matches Err(e) && e is NotFound),
    {
        match env.find_file(path) {
            Some(f) => {
                Ok(env.files[f].file_node)
            },
            None => match env.get_gpr(path) {
                Some(gpr) => {
                    let ghost i = gpr_from(env.gprs@, path@, 0)->0;
                    assert(*gpr == env.gprs@[i].1);
                    Ok(gpr.node)
                },
                None => {
                    let mut msg = owned("Not found in graph ");
                    push_str(&mut msg, path.as_str());
                    Err(Error::NotFound(msg))
                },
            },
        }
    }

    /// The lines describing a shortest path from the source to the target:
    /// one line per file ("file: ...") or project ("gpr: ..."), and per unit
    /// when `show_units` ("unit: ..."), or "There was no path" when the
    /// target cannot be reached.
    pub fn perform(&self, env: &Environment, settings: &Settings) -> (r: Result<Vec<String>, Error>)
        requires
            env.wf(),
        ensures
            r is Ok <==> ((node_of(env, self.source@), node_of(env, self.target@)) matches (Some(s), Some(t))
                && s < env.graph.nodes().len() && t < env.graph.nodes().len()),
            r matches Err(e) ==> if node_of(env, self.source@) is None || node_of(env, self.target@) is None {
                e is NotFound
            } else {
                e is InvalidGraphNode
            },
            r matches Ok(lines) ==> path_report(
                env.graph.edges(),
                env.graph.nodes(),
                node_of(env, self.source@)->0,
                node_of(env, self.target@)->0,
                self.show_units,
                *settings,
                views(lines@),
            ),
    {
        let source = ActionPath::find_node(env, &self.source)?;
        let target = ActionPath::find_node(env, &self.target)?;
        if source >= env.graph.node_count() || target >= env.graph.node_count() {
            return Err(Error::InvalidGraphNode(owned("project without a node")));
        }
        let ghost nodes = env.graph.nodes();
        let ghost edges = env.graph.edges();
        let mut lines: Vec<String> = Vec::new();
        match env.graph.shortest_path(source, target, false) {
            Some(path) => {
                let ghost pv = path@.map_values(|x: usize| x as nat);
                proof {
                    lemma_path_nodes_in(edges, any_edge(), false, pv, nodes.len());
                    assert(views(lines@) =~= path_lines(pv.take(0), nodes, self.show_units, *settings));
                }
                let mut i: usize = 0;
                while i < path.len()
                    invariant
                        nodes == env.graph.nodes(),
                        pv == path@.map_values(|x: usize| x as nat),
                        forall|j: int| 0 <= j < pv.len() ==> #[trigger] pv[j] < nodes.len(),
                        i <= path@.len(),
                        views(lines@) == path_lines(pv.take(i as int), nodes, self.show_units, *settings),
                    decreases path.len() - i,
                {
                    let ghost before = views(lines@);
                    proof {
                        assert(pv[i as int] == path@[i as int] as nat);
                        assert(pv.take(i + 1).drop_last() =~= pv.take(i as int));
                        assert(pv.take(i + 1).last() == pv[i as int]);
                    }
                    match env.graph.node(path[i]) {
                        Node::Source(p) => {
                            let mut l = owned("file: ");
                            push_str(&mut l, settings.display_path(p.as_str()).as_str());
                            lines.push(l);
                            proof {
                                assert(views(lines@) =~= before.push(lines@.last()@));
                            }
                        },
                        Node::Unit(qname) => {
                            if self.show_units {
                                let mut l = owned("unit: ");
                                push_str(&mut l, qname.describe().as_str());
                                lines.push(l);
                                proof {
                                    assert(views(lines@) =~= before.push(lines@.last()@));
                                }
                            }
                        },
                        Node::Project(p) => {
                            let mut l = owned("gpr: ");
                            push_str(&mut l, settings.display_path(p.as_str()).as_str());
                            lines.push(l);
                            proof {
                                assert(views(lines@) =~= before.push(lines@.last()@));
                            }
                        },
                    }
                    i = i + 1;
                }
                proof {
                    assert(pv.take(pv.len() as int) =~= pv);
                    assert(forall|q: Seq<nat>|
                        q.len() >= 1 && q[0] == source && q.last() == target && #[trigger] path_along(
                            edges,
                            path_keep(false),
                            false,
                            q,
                        ) ==> path@.len() <= q.len());
                    assert(path_keep(false) == any_edge());
                    assert(shortest_between(edges, any_edge(), source as nat, target as nat, pv));
                }
            },
            None => {
                lines.push(owned("There was no path"));
                proof {
                    assert(views(lines@) =~= seq!["There was no path"@]);
                }
            },
        }
        Ok(lines)
    }
}

} // verus!
