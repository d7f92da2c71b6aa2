//! Looking for source files with the same name in different projects.
use crate::environment::Environment;
use crate::graph::{edges_of, project_nodes, project_views, source_paths, DepGraph};
use crate::paths::{path_file_name, spec_path_file_name};
use crate::sourcefile::SourceFile;
use crate::strings::{str_eq, views};
use vstd::prelude::*;

verus! {

/// Look for duplicate filenames.
pub struct ActionDuplicates {}

/// Whether the first file with that path is an Ada file.
pub open spec fn is_ada_file(files: Seq<SourceFile>, path: Seq<char>) -> bool {
    exists|i: int|
        0 <= i < files.len() && #[trigger] files[i].path@ == path && (forall|k: int|
            0 <= k < i ==> files[k].path@ != path) && files[i].lang@ == "ada"@
}

/// The file names of the Ada files among `srcs`, each with the project
/// `gpr`.
pub open spec fn named_ada_files(srcs: Seq<Seq<char>>, files: Seq<SourceFile>, gpr: Seq<char>) -> Seq<
    (Seq<char>, Seq<char>),
>
    decreases srcs.len(),
{
    if srcs.len() == 0 {
        Seq::empty()
    } else {
        let prev = named_ada_files(srcs.drop_last(), files, gpr);
        let f = srcs.last();
        if is_ada_file(files, f) && spec_path_file_name(f) is Some {
            prev.push((spec_path_file_name(f)->0, gpr))
        } else {
            prev
        }
    }
}

/// The file names of the Ada files of the projects `projs`, each with its
/// project, projects in order and files in the order of their edges.
pub open spec fn project_ada_files(projs: Seq<(nat, Seq<char>)>, graph: DepGraph, files: Seq<SourceFile>) -> Seq<
    (Seq<char>, Seq<char>),
>
    decreases projs.len(),
{
    if projs.len() == 0 {
        Seq::empty()
    } else {
        project_ada_files(projs.drop_last(), graph, files) + named_ada_files(
            source_paths(edges_of(graph.edges(), projs.last().0, true), graph.nodes()),
            files,
            projs.last().1,
        )
    }
}

/// The position of a file name among those seen, looking from the end.
pub open spec fn seen_index(seen: Seq<(Seq<char>, Seq<char>)>, name: Seq<char>) -> Option<int>
    decreases seen.len(),
{
    if seen.len() == 0 {
        None
    } else if seen.last().0 == name {
        Some(seen.len() - 1)
    } else {
        seen_index(seen.drop_last(), name)
    }
}

/// For the file names with their projects, in order: the first project of
/// each name, and the duplicates found (name, first project, other project)
/// when a name comes again with another project.
pub open spec fn duplicates(items: Seq<(Seq<char>, Seq<char>)>) -> (
    Seq<(Seq<char>, Seq<char>)>,
    Seq<(Seq<char>, Seq<char>, Seq<char>)>,
)
    decreases items.len(),
{
    if items.len() == 0 {
        (Seq::empty(), Seq::empty())
    } else {
        let (seen, res) = duplicates(items.drop_last());
        let (name, gpr) = items.last();
        match seen_index(seen, name) {
            None => (seen.push((name, gpr)), res),
            Some(k) => if seen[k].1 != gpr {
                (seen, res.push((name, seen[k].1, gpr)))
            } else {
                (seen, res)
            },
        }
    }
}

/// The values of pairs of strings.
pub open spec fn pair_views(v: Seq<(String, String)>) -> Seq<(Seq<char>, Seq<char>)> {
    v.map_values(|x: (String, String)| (x.0@, x.1@))
}

/// The values of triples of strings.
pub open spec fn triple_views(v: Seq<(String, String, String)>) -> Seq<(Seq<char>, Seq<char>, Seq<char>)> {
    v.map_values(|x: (String, String, String)| (x.0@, x.1@, x.2@))
}

/// The names seen have distinct values.
pub open spec fn names_distinct(seen: Seq<(Seq<char>, Seq<char>)>) -> bool {
    forall|i: int, j: int| 0 <= i < seen.len() && 0 <= j < seen.len() && i != j ==> seen[i].0 != seen[j].0
}

/// The position of a name among distinct names, from the start or the end,
/// is the same.
proof fn lemma_seen_index(seen: Seq<(Seq<char>, Seq<char>)>, name: Seq<char>)
    requires
        names_distinct(seen),
    ensures
        seen_index(seen, name) matches Some(k) ==> 0 <= k < seen.len() && seen[k].0 == name,
        seen_index(seen, name) is None ==> forall|i: int| 0 <= i < seen.len() ==> #[trigger] seen[i].0 != name,
        forall|i: int| 0 <= i < seen.len() && #[trigger] seen[i].0 == name ==> seen_index(seen, name) == Some(i),
    decreases seen.len(),
{
    if seen.len() > 0 {
        let d = seen.drop_last();
        assert forall|i: int, j: int| 0 <= i < d.len() && 0 <= j < d.len() && i != j implies d[i].0 != d[j].0 by {
            assert(d[i] == seen[i] && d[j] == seen[j]);
        }
        lemma_seen_index(d, name);
        let last = seen.len() - 1;
        if seen.last().0 == name {
            assert forall|i: int| 0 <= i < seen.len() && #[trigger] seen[i].0 == name implies seen_index(seen, name)
                == Some(i) by {
                if i != last {
                    assert(seen[i].0 != seen[last].0);
                }
            }
        } else {
            assert forall|i: int| 0 <= i < seen.len() && #[trigger] seen[i].0 == name implies seen_index(seen, name)
                == Some(i) by {
                assert(i != last);
                assert(d[i] == seen[i]);
            }
            if seen_index(seen, name) is None {
                assert forall|i: int| 0 <= i < seen.len() implies #[trigger] seen[i].0 != name by {
                    if i != last {
                        assert(d[i] == seen[i]);
                    }
                }
            }
            match seen_index(d, name) {
                Some(k) => {
                    assert(d[k] == seen[k]);
                },
                None => {},
            }
        }
    }
}

/// The distinct names stay distinct after the next item.
proof fn lemma_duplicates_distinct(items: Seq<(Seq<char>, Seq<char>)>)
    ensures
        names_distinct(duplicates(items).0),
    decreases items.len(),
{
    if items.len() > 0 {
        lemma_duplicates_distinct(items.drop_last());
        let (seen, res) = duplicates(items.drop_last());
        let (name, gpr) = items.last();
        lemma_seen_index(seen, name);
        if seen_index(seen, name) is None {
            let s2 = seen.push((name, gpr));
            assert forall|i: int, j: int| 0 <= i < s2.len() && 0 <= j < s2.len() && i != j implies s2[i].0
                != s2[j].0 by {
                if i < seen.len() && j < seen.len() {
                    assert(s2[i] == seen[i] && s2[j] == seen[j]);
                } else if i < seen.len() {
                    assert(s2[i] == seen[i]);
                } else {
                    assert(s2[j] == seen[j]);
                }
            }
        }
    }
}

impl ActionDuplicates {
    /// Look for duplicate filenames.
    /// In general, those create ambiguities, so are better avoided.
    /// However, it is sometimes necessary, for instance when the body of an
    /// Ada unit is implemented in different files depending on the scenario.
    /// This function tries to take that into account to avoid false
    /// positives, by only reporting files from different projects.
    /// Returns the name of each duplicate Ada file, with the project that
    /// first had it and the project that has it again.
    pub fn perform(&self, env: &Environment) -> (r: Vec<(String, String, String)>)
        requires
            env.wf(),
        ensures
            triple_views(r@) == duplicates(project_ada_files(project_nodes(env.graph.nodes()), env.graph, env.files@)).1,
    {
        let mut seen: Vec<(String, String)> = Vec::new();
        let mut result: Vec<(String, String, String)> = Vec::new();
        let projects = env.graph.iter_project_nodes();
        let ghost projs = project_views(projects@);
        let ghost files = env.files@;
        let mut p: usize = 0;
        proof {
            assert(projs.take(0) =~= Seq::<(nat, Seq<char>)>::empty());
            assert(pair_views(seen@) =~= Seq::<(Seq<char>, Seq<char>)>::empty());
            assert(triple_views(result@) =~= Seq::<(Seq<char>, Seq<char>, Seq<char>)>::empty());
        }
        while p < projects.len()
            invariant
                env.wf(),
                files == env.files@,
                projs == project_views(projects@),
                projs == project_nodes(env.graph.nodes()),
                p <= projects@.len(),
                forall|i: int| 0 <= i < projects@.len() ==> #[trigger] projects@[i].0 < env.graph.nodes().len(),
                (pair_views(seen@), triple_views(result@)) == duplicates(
                    project_ada_files(projs.take(p as int), env.graph, files),
                ),
            decreases projects.len() - p,
        {
            let gprnode = projects[p].0;
            let gprpath = &projects[p].1;
            let sources = env.graph.iter_source_nodes_of_project(gprnode);
            let ghost before = project_ada_files(projs.take(p as int), env.graph, files);
            let ghost srcs = views(sources@);
            proof {
                assert(projs[p as int] == (gprnode as nat, gprpath@));
                assert(srcs.take(0) =~= Seq::<Seq<char>>::empty());
                assert(before + named_ada_files(srcs.take(0), files, gprpath@) =~= before);
            }
            let mut s: usize = 0;
            while s < sources.len()
                invariant
                    env.wf(),
                    files == env.files@,
                    srcs == views(sources@),
                    s <= sources@.len(),
                    (pair_views(seen@), triple_views(result@)) == duplicates(
                        before + named_ada_files(srcs.take(s as int), files, gprpath@),
                    ),
                decreases sources.len() - s,
            {
                let filepath = &sources[s];
                let ghost items0 = before + named_ada_files(srcs.take(s as int), files, gprpath@);
                let ghost items1 = before + named_ada_files(srcs.take(s + 1), files, gprpath@);
                proof {
                    assert(srcs.take(s + 1).drop_last() =~= srcs.take(s as int));
                    assert(srcs.take(s + 1).last() == filepath@);
                }
                let is_ada = match env.find_file(filepath) {
                    Some(f) => str_eq(env.files[f].lang.as_str(), "ada"),
                    None => false,
                };
                proof {
                    if is_ada {
                        assert(is_ada_file(files, filepath@));
                    } else if is_ada_file(files, filepath@) {
                        let i = choose|i: int|
                            0 <= i < files.len() && #[trigger] files[i].path@ == filepath@ && (forall|k: int|
                                0 <= k < i ==> files[k].path@ != filepath@) && files[i].lang@ == "ada"@;
                        assert(false);
                    }
                }
                let name = if is_ada {
                    path_file_name(filepath.as_str())
                } else {
                    None
                };
                match name {
                    Some(base) => {
                        proof {
                            assert(named_ada_files(srcs.take(s + 1), files, gprpath@) == named_ada_files(
                                srcs.take(s as int),
                                files,
                                gprpath@,
                            ).push((base@, gprpath@)));
                            assert(items1 =~= items0.push((base@, gprpath@)));
                            assert(items1.drop_last() =~= items0);
                            lemma_duplicates_distinct(items0);
                            lemma_seen_index(pair_views(seen@), base@);
                        }
                        // Do not report when in same project (we could detect
                        // whether scenarios overlap, but for now this is
                        // detected by the builder)
                        match find_seen(&seen, &base) {
                            None => {
                                let ghost sv = pair_views(seen@);
                                seen.push((base, gprpath.clone()));
                                proof {
                                    assert(pair_views(seen@) =~= sv.push((base@, gprpath@)));
                                    assert(seen_index(sv, base@) is None);
                                    assert(duplicates(items1) == (sv.push((base@, gprpath@)), triple_views(result@)));
                                }
                            },
                            Some(k) => {
                                let ghost sv = pair_views(seen@);
                                proof {
                                    assert(sv[k as int] == (seen@[k as int].0@, seen@[k as int].1@));
                                    assert(seen_index(sv, base@) == Some(k as int));
                                }
                                if seen[k].1 != *gprpath {
                                    let ghost tv = triple_views(result@);
                                    result.push((base, seen[k].1.clone(), gprpath.clone()));
                                    proof {
                                        assert(triple_views(result@) =~= tv.push((base@, seen@[k as int].1@, gprpath@)));
                                    }
                                }
                            },
                        }
                    },
                    None => {
                        proof {
                            assert(named_ada_files(srcs.take(s + 1), files, gprpath@) == named_ada_files(
                                srcs.take(s as int),
                                files,
                                gprpath@,
                            ));
                            assert(items1 =~= items0);
                        }
                    },
                }
                s = s + 1;
            }
            proof {
                assert(projs.take(p + 1).drop_last() =~= projs.take(p as int));
                assert(projs.take(p + 1).last() == projs[p as int]);
                assert(srcs.take(srcs.len() as int) =~= srcs);
            }
            p = p + 1;
        }
        proof {
            assert(projs.take(projs.len() as int) =~= projs);
        }
        result
    }
}

/// The position of a file name among those seen.
fn find_seen(seen: &Vec<(String, String)>, base: &String) -> (r: Option<usize>)
    ensures
        r matches Some(i) ==> i < seen@.len() && seen@[i as int].0@ == base@,
        r is None ==> forall|i: int| 0 <= i < seen@.len() ==> #[trigger] seen@[i].0@ != base@,
{
    let mut i: usize = 0;
    while i < seen.len()
        invariant
            i <= seen@.len(),
            forall|k: int| 0 <= k < i ==> #[trigger] seen@[k].0@ != base@,
        decreases seen.len() - i,
    {
        if str_eq(seen[i].0.as_str(), base.as_str()) {
            return Some(i);
        }
        i = i + 1;
    }
    None
}

} // verus!
