//! The source files that a file imports, or that import it.
use crate::environment::Environment;
use crate::errors::Error;
use crate::allscenarios::AllScenarios;
use crate::environment::file_from;
use crate::graph::{edges_of, import_keep, reaches, Edge, Node};
use crate::scenarios::Scenario;
use crate::paths::{covers_path, path_lt, sort_paths};
use crate::strings::{owned, views};
use vstd::prelude::*;

verus! {

/// Which way dependencies are followed.
#[derive(Debug, Clone, Copy, PartialEq, Eq, Structural)]
pub enum Kind {
    /// The files imported by the file.
    ImportedBy,
    /// The files that import the file.
    Import,
}

/// Report the list of units directly imported by the given file
pub struct ActionImported {
    pub path: String,
    pub recurse: bool,
    pub kind: Kind,
}

/// Whether `x` is the path of a source file reached from `start` along the
/// import edges of the scenario.
pub open spec fn reached_file(env: &Environment, start: nat, reversed: bool, for_scenario: Scenario, x: Seq<char>) -> bool {
    exists|n: nat|
        #[trigger] reaches(
            env.graph.edges(),
            import_keep(env.scenarios, for_scenario),
            reversed,
            start,
            n,
        ) && n < env.graph.nodes().len() && env.graph.nodes()[n as int] is Source && env.graph.nodes()[n as int]->Source_0@
            == x
}

/// Whether dependencies are followed along the edges (files imported by
/// the file) rather than backwards.
pub open spec fn imports_out(kind: Kind) -> bool {
    kind == Kind::ImportedBy
}

/// Whether dependencies are followed backwards (files that import the
/// file).
pub open spec fn imports_in(kind: Kind) -> bool {
    kind == Kind::Import
}

/// Whether the first step of a direct dependency follows an edge: from the
/// file to a unit that it imports, or (backwards) to a unit that owns it in
/// the scenario.
pub open spec fn first_step(w: Edge, outgoing: bool, scenarios: AllScenarios, for_scenario: Scenario) -> bool {
    match w {
        Edge::SourceImports => outgoing,
        Edge::UnitSource((_, s)) => !outgoing && !scenarios.spec_never_matches(Scenario(s.0 & for_scenario.0)),
        _ => false,
    }
}

/// Whether the second step of a direct dependency follows an edge: from the
/// unit to a file that it owns in the scenario, or (backwards) to a file
/// that imports it.
pub open spec fn second_step(w: Edge, outgoing: bool, scenarios: AllScenarios, for_scenario: Scenario) -> bool {
    match w {
        Edge::UnitSource((_, s)) => outgoing && !scenarios.spec_never_matches(Scenario(s.0 & for_scenario.0)),
        Edge::SourceImports => !outgoing,
        _ => false,
    }
}

/// The source file with path `x` is a direct dependency of node `start`,
/// through the `i`-th edge of `start` and the `j`-th edge of the unit it
/// leads to.
pub open spec fn direct_at(
    env: &Environment,
    start: nat,
    outgoing: bool,
    for_scenario: Scenario,
    i: int,
    j: int,
    x: Seq<char>,
) -> bool {
    let first = edges_of(env.graph.edges(), start, outgoing);
    let second = edges_of(env.graph.edges(), first[i].0, outgoing);
    &&& 0 <= i < first.len()
    &&& first_step(first[i].1, outgoing, env.scenarios, for_scenario)
    &&& 0 <= j < second.len()
    &&& second_step(second[j].1, outgoing, env.scenarios, for_scenario)
    &&& second[j].0 < env.graph.nodes().len()
    &&& env.graph.nodes()[second[j].0 as int] matches Node::Source(p) && p@ == x
}

/// The source file with path `x` is a direct dependency of node `start`.
pub open spec fn is_direct(env: &Environment, start: nat, outgoing: bool, for_scenario: Scenario, x: Seq<char>) -> bool {
    exists|i: int, j: int| #[trigger] direct_at(env, start, outgoing, for_scenario, i, j, x)
}

/// Adds a string unless it is already there.
fn add_unique(v: &mut Vec<String>, s: &String)
    ensures
        forall|y: Seq<char>| views(final(v)@).contains(y) <==> views(old(v)@).contains(y) || y == s@,
{
    let mut i: usize = 0;
    while i < v.len()
        invariant
            i <= v@.len(),
            v@ == old(v)@,
            forall|k: int| 0 <= k < i ==> #[trigger] v@[k]@ != s@,
        decreases v.len() - i,
    {
        if v[i] == *s {
            proof {
                assert(views(v@)[i as int] == s@);
            }
            return;
        }
        i = i + 1;
    }
    let ghost before = v@;
    let c = s.clone();
    v.push(c);
    proof {
        crate::strings::lemma_views_push(before, c);
        assert forall|y: Seq<char>| views(v@).contains(y) <==> views(before).contains(y) || y == s@ by {
            if views(v@).contains(y) {
                let k = choose|k: int| 0 <= k < views(v@).len() && views(v@)[k] == y;
                if k < before.len() {
                    assert(views(before)[k] == y);
                }
            }
            if views(before).contains(y) {
                let k = choose|k: int| 0 <= k < views(before).len() && views(before)[k] == y;
                assert(views(v@)[k] == y);
            }
            if y == s@ {
                assert(views(v@)[before.len() as int] == y);
            }
        }
    }
}

impl ActionImported {
    /// The source files that the file imports (`Kind::ImportedBy`), or that
    /// import it (`Kind::Import`), directly or, with `recurse`, through
    /// other files; units only bring their files of the given scenario.
    /// The result is sorted as paths compare (component by component),
    /// with each path once.
    pub fn perform(&self, env: &Environment, for_scenario: Scenario) -> (r: Result<Vec<String>, Error>)
        requires
            env.wf(),
        ensures
            r is Err <==> forall|i: int| 0 <= i < env.files@.len() ==> #[trigger] env.files@[i].path@ != self.path@,
            r matches Err(e) ==> e is NotFound,
            // The paths come in ascending order, as paths compare (component
            // by component), each once.
            r matches Ok(v) ==> forall|i: int, j: int| 0 <= i < j < v@.len() ==> path_lt(#[trigger] v@[i]@, #[trigger] v@[j]@),
            // Each is a dependency, and each dependency is there (with the
            // same components).
            r matches Ok(v) ==> self.recurse ==> forall|x: Seq<char>|
                #[trigger] reached_file(
                    env,
                    env.files@[file_from(env.files@, self.path@, 0)->0].file_node as nat,
                    imports_in(self.kind),
                    for_scenario,
                    x,
                ) ==> covers_path(v@, x),
            r matches Ok(v) ==> self.recurse ==> forall|x: Seq<char>|
                #[trigger] views(v@).contains(x) ==> reached_file(
                    env,
                    env.files@[file_from(env.files@, self.path@, 0)->0].file_node as nat,
                    imports_in(self.kind),
                    for_scenario,
                    x,
                ),
            r matches Ok(v) ==> !self.recurse ==> forall|x: Seq<char>|
                #[trigger] views(v@).contains(x) ==> is_direct(
                    env,
                    env.files@[file_from(env.files@, self.path@, 0)->0].file_node as nat,
                    imports_out(self.kind),
                    for_scenario,
                    x,
                ),
            r matches Ok(v) ==> !self.recurse ==> forall|x: Seq<char>|
                #[trigger] is_direct(
                    env,
                    env.files@[file_from(env.files@, self.path@, 0)->0].file_node as nat,
                    imports_out(self.kind),
                    for_scenario,
                    x,
                ) ==> covers_path(v@, x),
    {
        let fidx = match env.find_file(&self.path) {
            Some(f) => f,
            None => {
                return Err(Error::NotFound(owned("File not found in graph")));
            },
        };
        let file_node = env.files[fidx].file_node;
        let mut deps: Vec<String> = Vec::new();
        if self.recurse {
            let reversed = match self.kind {
                Kind::Import => true,
                Kind::ImportedBy => false,
            };
            let nodes = env.graph.import_dfs(file_node, reversed, &env.scenarios, for_scenario);
            let count = env.graph.node_count();
            let ghost keep = import_keep(env.scenarios, for_scenario);
            let mut i: usize = 0;
            while i < nodes.len()
                invariant
                    env.wf(),
                    i <= nodes@.len(),
                    forall|x: usize| nodes@.contains(x) <==> reaches(env.graph.edges(), keep, reversed, file_node as nat, x as nat),
                    keep == import_keep(env.scenarios, for_scenario),
                    forall|y: Seq<char>| views(deps@).contains(y) <==> exists|k: int|
                        0 <= k < i && nodes@[k] < env.graph.nodes().len() && #[trigger] env.graph.nodes()[nodes@[k] as int] is Source
                            && env.graph.nodes()[nodes@[k] as int]->Source_0@ == y,
                decreases nodes.len() - i,
            {
                let n = nodes[i];
                let ghost before = deps@;
                if n < env.graph.node_count() {
                    if let Node::Source(path) = env.graph.node(n) {
                        add_unique(&mut deps, path);
                    }
                }
                proof {
                    assert forall|y: Seq<char>| views(deps@).contains(y) <==> exists|k: int|
                        0 <= k < i + 1 && nodes@[k] < env.graph.nodes().len() && #[trigger] env.graph.nodes()[nodes@[k] as int] is Source
                            && env.graph.nodes()[nodes@[k] as int]->Source_0@ == y by {
                        if views(deps@).contains(y) && !views(before).contains(y) {
                            assert(nodes@[i as int] == n);
                        }
                    }
                }
                i = i + 1;
            }
            proof {
                assert forall|x: Seq<char>| views(deps@).contains(x) <==> reached_file(env, file_node as nat, reversed, for_scenario, x) by {
                    if views(deps@).contains(x) {
                        let k = choose|k: int|
                            0 <= k < nodes@.len() && nodes@[k] < env.graph.nodes().len() && #[trigger] env.graph.nodes()[nodes@[k] as int] is Source
                                && env.graph.nodes()[nodes@[k] as int]->Source_0@ == x;
                        assert(nodes@.contains(nodes@[k]));
                        assert(reaches(env.graph.edges(), keep, reversed, file_node as nat, nodes@[k] as nat));
                    }
                    if reached_file(env, file_node as nat, reversed, for_scenario, x) {
                        let n = choose|n: nat|
                            #[trigger] reaches(env.graph.edges(), keep, reversed, file_node as nat, n) && n < env.graph.nodes().len()
                                && env.graph.nodes()[n as int] is Source && env.graph.nodes()[n as int]->Source_0@ == x;
                        assert(n < count);
                        let nu = n as usize;
                        assert(nu as nat == n);
                        assert(nodes@.contains(nu));
                        let k = choose|k: int| 0 <= k < nodes@.len() && nodes@[k] == nu;
                        assert(env.graph.nodes()[nodes@[k] as int] is Source);
                    }
                }
            }
        } else {
            let outgoing = match self.kind {
                Kind::ImportedBy => true,
                Kind::Import => false,
            };
            // From the file to its units (imported, or owning it), then to
            // the files on the other side.
            let first = if outgoing { env.graph.out_edges(file_node) } else { env.graph.in_edges(file_node) };
            let ghost efirst = edges_of(env.graph.edges(), file_node as nat, outgoing);
            let mut i: usize = 0;
            while i < first.len()
                invariant
                    env.wf(),
                    outgoing == (self.kind == Kind::ImportedBy),
                    i <= first@.len(),
                    efirst == edges_of(env.graph.edges(), file_node as nat, outgoing),
                    first@.len() == efirst.len(),
                    forall|t: int|
                        0 <= t < first@.len() ==> #[trigger] first@[t].0 as nat == efirst[t].0 && first@[t].1 == efirst[t].1,
                    forall|t: int| 0 <= t < first@.len() ==> #[trigger] first@[t].0 < env.graph.nodes().len(),
                    forall|x: Seq<char>|
                        #[trigger] views(deps@).contains(x) <==> exists|i2: int, j2: int|
                            0 <= i2 < i && #[trigger] direct_at(env, file_node as nat, outgoing, for_scenario, i2, j2, x),
                decreases first.len() - i,
            {
                proof {
                    assert(first@[i as int].0 as nat == efirst[i as int].0 && first@[i as int].1 == efirst[i as int].1);
                }
                let step_ok = match first[i].1 {
                    Edge::SourceImports => outgoing,
                    Edge::UnitSource((_, s)) => !outgoing && !env.scenarios.never_matches(s & for_scenario),
                    _ => false,
                };
                proof {
                    assert(step_ok == first_step(efirst[i as int].1, outgoing, env.scenarios, for_scenario));
                }
                let ghost d0 = deps@;
                if step_ok {
                    let unit = first[i].0;
                    let second = if outgoing { env.graph.out_edges(unit) } else { env.graph.in_edges(unit) };
                    let ghost esecond = edges_of(env.graph.edges(), unit as nat, outgoing);
                    let mut j: usize = 0;
                    while j < second.len()
                        invariant
                            env.wf(),
                            i < first@.len(),
                            first@.len() == efirst.len(),
                            unit == first@[i as int].0,
                            unit as nat == efirst[i as int].0,
                            first_step(efirst[i as int].1, outgoing, env.scenarios, for_scenario),
                            efirst == edges_of(env.graph.edges(), file_node as nat, outgoing),
                            j <= second@.len(),
                            esecond == edges_of(env.graph.edges(), unit as nat, outgoing),
                            second@.len() == esecond.len(),
                            forall|t: int|
                                0 <= t < second@.len() ==> #[trigger] second@[t].0 as nat == esecond[t].0 && second@[t].1 == esecond[t].1,
                            forall|t: int| 0 <= t < second@.len() ==> #[trigger] second@[t].0 < env.graph.nodes().len(),
                            forall|x: Seq<char>|
                                #[trigger] views(deps@).contains(x) <==> views(d0).contains(x) || exists|j2: int|
                                    0 <= j2 < j && #[trigger] direct_at(env, file_node as nat, outgoing, for_scenario, i as int, j2, x),
                        decreases second.len() - j,
                    {
                        proof {
                            assert(second@[j as int].0 as nat == esecond[j as int].0 && second@[j as int].1 == esecond[j as int].1);
                        }
                        let keep = match second[j].1 {
                            Edge::UnitSource((_, s)) => outgoing && !env.scenarios.never_matches(s & for_scenario),
                            Edge::SourceImports => !outgoing,
                            _ => false,
                        };
                        proof {
                            assert(keep == second_step(esecond[j as int].1, outgoing, env.scenarios, for_scenario));
                            assert(esecond == edges_of(env.graph.edges(), efirst[i as int].0, outgoing));
                        }
                        let ghost d1 = deps@;
                        let ghost mut hit: Option<Seq<char>> = None;
                        if keep {
                            if let Node::Source(path) = env.graph.node(second[j].0) {
                                add_unique(&mut deps, path);
                                proof {
                                    hit = Some(path@);
                                }
                            }
                        }
                        proof {
                            assert forall|x: Seq<char>|
                                direct_at(env, file_node as nat, outgoing, for_scenario, i as int, j as int, x) <==> hit == Some(x) by {
                                let n = esecond[j as int].0;
                                assert(n == second@[j as int].0 as nat);
                                assert(n < env.graph.nodes().len());
                                if keep {
                                    match env.graph.nodes()[n as int] {
                                        Node::Source(p) => {
                                            assert(hit == Some(p@));
                                        },
                                        _ => {
                                            assert(hit is None);
                                        },
                                    }
                                }
                            }
                            assert forall|x: Seq<char>|
                                #[trigger] views(deps@).contains(x) <==> views(d0).contains(x) || exists|j2: int|
                                    0 <= j2 < j + 1 && #[trigger] direct_at(env, file_node as nat, outgoing, for_scenario, i as int, j2, x) by {
                                if hit == Some(x) {
                                    assert(direct_at(env, file_node as nat, outgoing, for_scenario, i as int, j as int, x));
                                }
                                if hit is None {
                                    assert(deps@ == d1);
                                }
                            }
                        }
                        j = j + 1;
                    }
                    proof {
                        assert forall|x: Seq<char>|
                            #[trigger] views(deps@).contains(x) <==> exists|i2: int, j2: int|
                                0 <= i2 < i + 1 && #[trigger] direct_at(env, file_node as nat, outgoing, for_scenario, i2, j2, x) by {
                            if exists|j2: int| #[trigger] direct_at(env, file_node as nat, outgoing, for_scenario, i as int, j2, x) {
                                let j2 = choose|j2: int| #[trigger] direct_at(env, file_node as nat, outgoing, for_scenario, i as int, j2, x);
                                assert(j2 < j);
                            }
                        }
                    }
                } else {
                    proof {
                        assert forall|x: Seq<char>, j2: int| !direct_at(env, file_node as nat, outgoing, for_scenario, i as int, j2, x) by {}
                    }
                }
                i = i + 1;
            }
            proof {
                assert(imports_out(self.kind) == outgoing);
                assert forall|x: Seq<char>|
                    #[trigger] views(deps@).contains(x) <==> exists|i2: int, j2: int|
                        #[trigger] direct_at(env, file_node as nat, imports_out(self.kind), for_scenario, i2, j2, x) by {
                    if exists|i2: int, j2: int| #[trigger] direct_at(env, file_node as nat, outgoing, for_scenario, i2, j2, x) {
                        let (i2, j2) = choose|i2: int, j2: int| #[trigger] direct_at(env, file_node as nat, outgoing, for_scenario, i2, j2, x);
                        assert(i2 < first@.len());
                    }
                }
            }
        }
        let sorted = sort_paths(&deps);
        proof {
            assert forall|x: Seq<char>| #[trigger] views(deps@).contains(x) implies covers_path(sorted@, x) by {
                let i = choose|i: int| 0 <= i < views(deps@).len() && views(deps@)[i] == x;
                assert(covers_path(sorted@, deps@[i]@));
            }
            let start = env.files@[file_from(env.files@, self.path@, 0)->0].file_node as nat;
            if self.recurse {
                assert forall|x: Seq<char>| #[trigger]
                    reached_file(env, start, imports_in(self.kind), for_scenario, x) implies covers_path(sorted@, x) by {
                    assert(views(deps@).contains(x));
                }
            } else {
                assert forall|x: Seq<char>| #[trigger]
                    is_direct(env, start, imports_out(self.kind), for_scenario, x) implies covers_path(sorted@, x) by {
                    assert(views(deps@).contains(x));
                }
            }
        }
        Ok(sorted)
    }
}

} // verus!
