//! A shortest import path between two source files.
use crate::environment::{file_from, Environment};
use crate::errors::Error;
use crate::graph::{import_path_keep, lemma_path_nodes_in, path_along, path_keep, reaches, shortest_between, Edge, Node};
use crate::settings::Settings;
use crate::strings::{owned, views};
use vstd::prelude::*;

verus! {

/// Show how a source file depends on another one, through imports.
pub struct ActionImportPath {
    pub source: String,
    pub target: String,
}

/// The displayed paths of the source files of a path, in order.
pub open spec fn import_lines(p: Seq<nat>, nodes: Seq<Node>, settings: Settings) -> Seq<Seq<char>>
    decreases p.len(),
{
    if p.len() == 0 {
        Seq::empty()
    } else {
        let prev = import_lines(p.drop_last(), nodes, settings);
        match nodes[p.last() as int] {
            Node::Source(f) => prev.push(settings.spec_display_path(f@)),
            _ => prev,
        }
    }
}

/// The report on the import paths from `s` to `t`: the files of a shortest
/// one, or a single line when there is none.
pub open spec fn import_report(
    edges: Seq<(nat, nat, Edge)>,
    nodes: Seq<Node>,
    s: nat,
    t: nat,
    settings: Settings,
    lines: Seq<Seq<char>>,
) -> bool {
    ||| lines == seq!["There was no path"@] && !reaches(edges, import_path_keep(), false, s, t)
    ||| exists|p: Seq<nat>| #[trigger]
        shortest_between(edges, import_path_keep(), s, t, p) && lines == import_lines(p, nodes, settings)
}

impl ActionImportPath {
    /// The files along a shortest import path from the source to the
    /// target (units are not shown), or "There was no path".  Both files
    /// must be known.
    pub fn perform(&self, env: &Environment, settings: &Settings) -> (r: Result<Vec<String>, Error>)
        requires
            env.wf(),
        ensures
            r is Err <==> file_from(env.files@, self.source@, 0) is None || file_from(env.files@, self.target@, 0) is None,
            r matches Err(e) ==> e is NotFound,
            r matches Ok(lines) ==> import_report(
                env.graph.edges(),
                env.graph.nodes(),
                env.files@[file_from(env.files@, self.source@, 0)->0].file_node as nat,
                env.files@[file_from(env.files@, self.target@, 0)->0].file_node as nat,
                *settings,
                views(lines@),
            ),
    {
        let source = match env.find_file(&self.source) {
            Some(f) => env.files[f].file_node,
            None => {
                return Err(Error::NotFound(owned("File not found in graph")));
            },
        };
        let target = match env.find_file(&self.target) {
            Some(f) => env.files[f].file_node,
            None => {
                return Err(Error::NotFound(owned("File not found in graph")));
            },
        };
        let ghost nodes = env.graph.nodes();
        let ghost edges = env.graph.edges();
        let mut lines: Vec<String> = Vec::new();
        match env.graph.shortest_path(source, target, true) {
            Some(path) => {
                let ghost pv = path@.map_values(|x: usize| x as nat);
                proof {
                    lemma_path_nodes_in(edges, import_path_keep(), false, pv, nodes.len());
                    assert(views(lines@) =~= import_lines(pv.take(0), nodes, *settings));
                }
                let mut i: usize = 0;
                while i < path.len()
                    invariant
                        nodes == env.graph.nodes(),
                        pv == path@.map_values(|x: usize| x as nat),
                        forall|j: int| 0 <= j < pv.len() ==> #[trigger] pv[j] < nodes.len(),
                        i <= path@.len(),
                        views(lines@) == import_lines(pv.take(i as int), nodes, *settings),
                    decreases path.len() - i,
                {
                    let ghost before = views(lines@);
                    proof {
                        assert(pv[i as int] == path@[i as int] as nat);
                        assert(pv.take(i + 1).drop_last() =~= pv.take(i as int));
                        assert(pv.take(i + 1).last() == pv[i as int]);
                    }
                    if let Node::Source(p) = env.graph.node(path[i]) {
                        lines.push(settings.display_path(p.as_str()));
                        proof {
                            assert(views(lines@) =~= before.push(lines@.last()@));
                        }
                    }
                    i = i + 1;
                }
                proof {
                    assert(pv.take(pv.len() as int) =~= pv);
                    assert(forall|q: Seq<nat>|
                        q.len() >= 1 && q[0] == source && q.last() == target && #[trigger] path_along(
                            edges,
                            path_keep(true),
                            false,
                            q,
                        ) ==> path@.len() <= q.len());
                    assert(path_keep(true) == import_path_keep());
                    assert(shortest_between(edges, import_path_keep(), source as nat, target as nat, pv));
                }
            },
            None => {
                lines.push(owned("There was no path"));
                proof {
                    assert(views(lines@) =~= seq!["There was no path"@]);
                }
            },
        }
        Ok(lines)
    }
}

} // verus!
