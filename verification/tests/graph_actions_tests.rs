use gprdeps::action_duplicates::ActionDuplicates;
use gprdeps::action_imported::{ActionImported, Kind};
use gprdeps::action_importpath::ActionImportPath;
use gprdeps::action_path::ActionPath;
use gprdeps::action_stats::ActionStats;
use gprdeps::action_unused::ActionSourceUnused;
use gprdeps::environment::Environment;
use gprdeps::errors::Error;
use gprdeps::gpr::GprFile;
use gprdeps::graph::{DepGraph, Edge, Node};
use gprdeps::qnames::QName;
use gprdeps::scenarios::Scenario;
use gprdeps::settings::Settings;
use gprdeps::sourcefile::{SourceFile, SourceKind};

fn source(path: &str, lang: &str, file_node: usize, unit_node: Option<usize>) -> SourceFile {
    SourceFile {
        path: path.to_string(),
        lang: lang.to_string(),
        unitname: QName(vec![]),
        kind: SourceKind::Spec,
        file_node,
        unit_node,
        deps: vec![],
        is_library_interface: false,
        is_ever_main: false,
    }
}

fn settings(relto: &str) -> Settings {
    Settings { relto: relto.to_string(), ..Default::default() }
}

/// A project owning a.adb, which imports unit `b`, which owns b.ads; c.adb
/// is not reachable from b.ads.
fn small_env() -> Environment {
    let mut env = Environment::new();
    let gpr = env.graph.add_node(Node::Project("/r/p.gpr".to_string()));
    let a = env.graph.add_node(Node::Source("/r/a.adb".to_string()));
    let b = env.graph.add_node(Node::Unit(QName(vec!["b".to_string()])));
    let bs = env.graph.add_node(Node::Source("/r/b.ads".to_string()));
    let c = env.graph.add_node(Node::Source("/r/c.adb".to_string()));
    env.graph.add_edge(gpr, a, Edge::ProjectSource(Scenario::default()));
    env.graph.add_edge(gpr, bs, Edge::ProjectSource(Scenario::default()));
    env.graph.add_edge(gpr, c, Edge::ProjectSource(Scenario::default()));
    env.graph.add_edge(a, b, Edge::SourceImports);
    env.graph.add_edge(b, bs, Edge::UnitSource((SourceKind::Spec, Scenario::default())));
    env.files.push(source("/r/a.adb", "ada", a, None));
    env.files.push(source("/r/b.ads", "ada", bs, Some(b)));
    env.files.push(source("/r/c.adb", "ada", c, None));
    env.gprs.push(("/r/p.gpr".to_string(), GprFile::new("/r/p.gpr".to_string(), false, false, false, gpr)));
    env
}

#[test]
fn toposort_follows_edges() {
    let mut g = DepGraph::new();
    let n0 = g.add_node(Node::Project("a".to_string()));
    let n1 = g.add_node(Node::Project("b".to_string()));
    let n2 = g.add_node(Node::Project("c".to_string()));
    g.add_edge(n1, n2, Edge::GPRImports);
    g.add_edge(n0, n1, Edge::GPRImports);
    let order = g.toposort().expect("acyclic");
    assert_eq!(order.len(), 3);
    let pos = |n: usize| order.iter().position(|x| *x == n).unwrap();
    assert!(pos(n0) < pos(n1));
    assert!(pos(n1) < pos(n2));
}

#[test]
fn toposort_refuses_cycle() {
    let mut g = DepGraph::new();
    let n0 = g.add_node(Node::Project("a".to_string()));
    let n1 = g.add_node(Node::Project("b".to_string()));
    g.add_edge(n0, n1, Edge::GPRImports);
    g.add_edge(n1, n0, Edge::GPRExtends);
    assert!(g.toposort().is_none());
}

#[test]
fn shortest_path_takes_fewest_edges() {
    let mut g = DepGraph::new();
    let n: Vec<usize> = (0..4).map(|i| g.add_node(Node::Project(format!("{}", i)))).collect();
    g.add_edge(n[0], n[1], Edge::GPRImports);
    g.add_edge(n[1], n[2], Edge::GPRImports);
    g.add_edge(n[2], n[3], Edge::GPRImports);
    g.add_edge(n[0], n[3], Edge::GPRImports);
    assert_eq!(g.shortest_path(n[0], n[3], false), Some(vec![n[0], n[3]]));
    assert_eq!(g.shortest_path(n[3], n[0], false), None);
    assert_eq!(g.shortest_path(n[2], n[2], false), Some(vec![n[2]]));
    // Only imports between files and units count with `only_imports`.
    assert_eq!(g.shortest_path(n[0], n[3], true), None);
}

#[test]
fn path_shows_files_and_units() {
    let env = small_env();
    let act = ActionPath { source: "/r/a.adb".to_string(), target: "/r/b.ads".to_string(), show_units: true };
    assert_eq!(
        act.perform(&env, &settings("/r")).unwrap(),
        vec!["file: a.adb".to_string(), "unit: b".to_string(), "file: b.ads".to_string()],
    );
    let act = ActionPath { source: "/r/a.adb".to_string(), target: "/r/b.ads".to_string(), show_units: false };
    assert_eq!(act.perform(&env, &settings("/other")).unwrap(), vec!["file: /r/a.adb".to_string(), "file: /r/b.ads".to_string()]);
    let act = ActionPath { source: "/r/p.gpr".to_string(), target: "/r/c.adb".to_string(), show_units: false };
    assert_eq!(act.perform(&env, &settings("/r")).unwrap(), vec!["gpr: p.gpr".to_string(), "file: c.adb".to_string()]);
}

#[test]
fn path_without_route_or_node() {
    let env = small_env();
    let act = ActionPath { source: "/r/b.ads".to_string(), target: "/r/a.adb".to_string(), show_units: true };
    assert_eq!(act.perform(&env, &settings("/r")).unwrap(), vec!["There was no path".to_string()]);
    let act = ActionPath { source: "/r/x.adb".to_string(), target: "/r/a.adb".to_string(), show_units: true };
    assert!(matches!(act.perform(&env, &settings("/r")), Err(Error::NotFound(_))));
}

#[test]
fn import_path_shows_files_only() {
    let env = small_env();
    let act = ActionImportPath { source: "/r/a.adb".to_string(), target: "/r/b.ads".to_string() };
    assert_eq!(act.perform(&env, &settings("/r")).unwrap(), vec!["a.adb".to_string(), "b.ads".to_string()]);
    // The project edges are not import edges.
    let act = ActionImportPath { source: "/r/a.adb".to_string(), target: "/r/c.adb".to_string() };
    assert_eq!(act.perform(&env, &settings("/r")).unwrap(), vec!["There was no path".to_string()]);
    let act = ActionImportPath { source: "/r/p.gpr".to_string(), target: "/r/a.adb".to_string() };
    assert!(matches!(act.perform(&env, &settings("/r")), Err(Error::NotFound(_))));
}

#[test]
fn duplicates_in_different_projects() {
    let mut env = Environment::new();
    let p1 = env.graph.add_node(Node::Project("/r/p1.gpr".to_string()));
    let p2 = env.graph.add_node(Node::Project("/r/p2.gpr".to_string()));
    let f1 = env.graph.add_node(Node::Source("/r/x/foo.adb".to_string()));
    let f2 = env.graph.add_node(Node::Source("/r/y/foo.adb".to_string()));
    let f3 = env.graph.add_node(Node::Source("/r/y/foo.c".to_string()));
    let f4 = env.graph.add_node(Node::Source("/r/z/foo.c".to_string()));
    env.graph.add_edge(p1, f1, Edge::ProjectSource(Scenario::default()));
    env.graph.add_edge(p1, f3, Edge::ProjectSource(Scenario::default()));
    env.graph.add_edge(p2, f2, Edge::ProjectSource(Scenario::default()));
    env.graph.add_edge(p2, f4, Edge::ProjectSource(Scenario::default()));
    env.files.push(source("/r/x/foo.adb", "ada", f1, None));
    env.files.push(source("/r/y/foo.adb", "ada", f2, None));
    env.files.push(source("/r/y/foo.c", "c", f3, None));
    env.files.push(source("/r/z/foo.c", "c", f4, None));
    let dups = (ActionDuplicates {}).perform(&env);
    assert_eq!(dups, vec![("foo.adb".to_string(), "/r/p1.gpr".to_string(), "/r/p2.gpr".to_string())]);
}

#[test]
fn duplicates_in_same_project_are_ignored() {
    let mut env = Environment::new();
    let p1 = env.graph.add_node(Node::Project("/r/p1.gpr".to_string()));
    let f1 = env.graph.add_node(Node::Source("/r/x/foo.adb".to_string()));
    let f2 = env.graph.add_node(Node::Source("/r/y/foo.adb".to_string()));
    env.graph.add_edge(p1, f1, Edge::ProjectSource(Scenario::default()));
    env.graph.add_edge(p1, f2, Edge::ProjectSource(Scenario::default()));
    env.files.push(source("/r/x/foo.adb", "ada", f1, None));
    env.files.push(source("/r/y/foo.adb", "ada", f2, None));
    assert!((ActionDuplicates {}).perform(&env).is_empty());
}

#[test]
fn stats_count_graph() {
    let env = small_env();
    let stats = ActionStats::new().perform(&env);
    assert_eq!(stats.nodes, 5);
    assert_eq!(stats.edges, 5);
    assert_eq!(stats.files, 3);
    assert_eq!(stats.projects, 1);
    assert_eq!(stats.units, 0);
    assert_eq!(stats.scenario_vars, 0);
    assert_eq!(stats.values, 0);
    // The default attributes of the project apply in all scenarios.
    assert_eq!(stats.distinct_scenarios, 1);
}

fn unused_action(recurse: bool) -> ActionSourceUnused {
    ActionSourceUnused { unused: vec![], ignore: vec![], recurse }
}

#[test]
fn find_unused_recurses_through_roots() {
    let comps = vec![vec![10], vec![11, 12], vec![13]];
    let edges = vec![(0, 1), (1, 2)];
    let mut r = unused_action(true).find_unused(&comps, &edges, &vec![], &vec![]);
    r.sort();
    assert_eq!(r, vec![10, 11, 12, 13]);
}

#[test]
fn find_unused_never_reports_keepers() {
    let comps = vec![vec![10], vec![11, 12], vec![13]];
    let edges = vec![(0, 1), (1, 2)];
    // The keeper's component stays, and so does what it imports.
    let r = unused_action(true).find_unused(&comps, &edges, &vec![12], &vec![]);
    assert_eq!(r, vec![10]);
}

#[test]
fn find_unused_stops_at_expected_without_recurse() {
    let comps = vec![vec![10], vec![11], vec![13]];
    let edges = vec![(0, 1), (1, 2)];
    let r = unused_action(false).find_unused(&comps, &edges, &vec![], &vec![10]);
    assert_eq!(r, vec![10]);
    let mut r = unused_action(true).find_unused(&comps, &edges, &vec![], &vec![10]);
    r.sort();
    assert_eq!(r, vec![10, 11, 13]);
}

#[test]
fn unused_files_from_lines() {
    let lines = vec!["a.adb".to_string(), "".to_string(), "# comment".to_string(), "sub/b.ads".to_string()];
    assert_eq!(
        ActionSourceUnused::unused_from_lines(&lines, "/root"),
        vec!["/root/a.adb".to_string(), "/root/sub/b.ads".to_string()],
    );
}

#[test]
fn unused_files_reported() {
    let env = small_env();
    // Unit `b` is imported by a.adb, which is not in any unit: with no
    // incoming edge in the unit graph, b is unused.
    let (unused, used) = unused_action(true).perform(&env, &vec!["/r/x.adb".to_string()]).unwrap();
    assert_eq!(unused, vec!["/r/b.ads".to_string()]);
    assert_eq!(used, vec!["/r/x.adb".to_string()]);
    let (unused, used) = unused_action(true).perform(&env, &vec!["/r/b.ads".to_string()]).unwrap();
    assert!(unused.is_empty());
    assert!(used.is_empty());
}

#[test]
fn display_path_relative() {
    let s = settings("/r");
    assert_eq!(s.display_path("/r/a/b.adb"), "a/b.adb");
    assert_eq!(s.display_path("/other/b.adb"), "/other/b.adb");
}

#[test]
fn imported_direct_and_reverse() {
    let env = small_env();
    let act = ActionImported { path: "/r/a.adb".to_string(), recurse: false, kind: Kind::ImportedBy };
    assert_eq!(act.perform(&env, Scenario::default()).unwrap(), vec!["/r/b.ads".to_string()]);
    let act = ActionImported { path: "/r/b.ads".to_string(), recurse: false, kind: Kind::Import };
    assert_eq!(act.perform(&env, Scenario::default()).unwrap(), vec!["/r/a.adb".to_string()]);
    let act = ActionImported { path: "/r/c.adb".to_string(), recurse: false, kind: Kind::ImportedBy };
    assert!(act.perform(&env, Scenario::default()).unwrap().is_empty());
    let act = ActionImported { path: "/r/none.adb".to_string(), recurse: false, kind: Kind::ImportedBy };
    assert!(matches!(act.perform(&env, Scenario::default()), Err(Error::NotFound(_))));
}

#[test]
fn add_unit_reuses_known_unit() {
    let mut env = Environment::new();
    let q = QName(vec!["pkg".to_string(), "child".to_string()]);
    let u1 = env.add_unit(&q).unwrap();
    let u2 = env.add_unit(&QName(vec!["pkg".to_string(), "child".to_string()])).unwrap();
    assert_eq!(u1, u2);
    assert_eq!(env.graph.node_count(), 1);
    let u3 = env.add_unit(&QName(vec!["other".to_string()])).unwrap();
    assert_eq!(u3, 1);
    let f = env.graph.add_node(Node::Source("/r/x.adb".to_string()));
    env.add_source_import(f, &q).unwrap();
    assert_eq!(env.graph.edge_count(), 1);
    assert_eq!(env.graph.node_count(), 3);
}

#[test]
fn register_source_once_per_path() {
    let mut env = Environment::new();
    let f = gprdeps::files::File::from_parts("/r/a.ads".to_string(), "package A is end A;".to_string());
    let i = env.register_source(&f, "ada").unwrap();
    assert_eq!(i, 0);
    assert_eq!(env.register_source(&f, "ada").unwrap(), 0);
    assert_eq!(env.files.len(), 1);
    assert!(matches!(env.register_source(&f, "c"), Err(Error::InconsistentFileLang(_))));
    assert_eq!(env.files[0].file_node, 0);
    assert!(env.files[0].unit_node.is_some());
}
