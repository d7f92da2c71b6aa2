//! Operations on file paths, which are kept as strings in the library.
use path_clean::PathClean;
use crate::strings::{lemma_seq_le_antisym, lemma_seq_le_total, lemma_seq_le_trans, seq_le, str_eq, str_le, views};
use std::path::{Component, Path, PathBuf};
use vstd::prelude::*;

verus! {

/// The parent of a path, as computed by `Path::parent`.
pub uninterp spec fn spec_path_parent(p: Seq<char>) -> Option<Seq<char>>;

/// The concatenation of two paths, as computed by `Path::join`.
pub uninterp spec fn spec_path_join(base: Seq<char>, p: Seq<char>) -> Seq<char>;

/// A path with its extension replaced, as computed by `PathBuf::set_extension`.
pub uninterp spec fn spec_path_set_extension(p: Seq<char>, ext: Seq<char>) -> Seq<char>;

/// The extension of the file name of a path, as computed by
/// `Path::extension`.
pub uninterp spec fn spec_path_extension(p: Seq<char>) -> Option<Seq<char>>;

/// The file name of a path, as computed by `Path::file_name`.
pub uninterp spec fn spec_path_file_name(p: Seq<char>) -> Option<Seq<char>>;

/// Whether a path starts with another one, component by component, as
/// computed by `Path::starts_with`.
pub uninterp spec fn spec_path_starts_with(p: Seq<char>, base: Seq<char>) -> bool;

/// The lexically cleaned form of a path, as computed by `path_clean::clean`.
pub uninterp spec fn spec_path_clean(p: Seq<char>) -> Seq<char>;

/// The path relative to `base`, as computed by `Path::strip_prefix`.
pub uninterp spec fn spec_path_strip_prefix(p: Seq<char>, base: Seq<char>) -> Option<Seq<char>>;

/// The components of a path, as computed by `Path::components`: each with
/// the rank of its kind (prefix, root, `.`, `..`, name, in the order in
/// which `Component` compares them) and its text.
pub uninterp spec fn spec_path_components(p: Seq<char>) -> Seq<(u8, Seq<char>)>;

/// The components with their texts as character sequences.
pub open spec fn comp_views(v: Seq<(u8, String)>) -> Seq<(u8, Seq<char>)> {
    v.map_values(|x: (u8, String)| (x.0, x.1@))
}

/// `Path::components`: the result is the named components of the argument.
#[verifier::external_body]
pub(crate) fn path_components(p: &str) -> (r: Vec<(u8, String)>)
    ensures
        comp_views(r@) == spec_path_components(p@),
{
    Path::new(p).components().map(|c| {
        let k: u8 = match c {
            Component::Prefix(_) => 0,
            Component::RootDir => 1,
            Component::CurDir => 2,
            Component::ParentDir => 3,
            Component::Normal(_) => 4,
        };
        (k, c.as_os_str().to_string_lossy().into_owned())
    }).collect()
}

/// Whether component `a` comes before component `b`: by kind, then by text.
pub open spec fn component_lt(a: (u8, Seq<char>), b: (u8, Seq<char>)) -> bool {
    a.0 < b.0 || (a.0 == b.0 && seq_le(a.1, b.1) && a.1 != b.1)
}

/// Whether the components `a` come before the components `b`, in
/// lexicographic order.
pub open spec fn components_lt(a: Seq<(u8, Seq<char>)>, b: Seq<(u8, Seq<char>)>) -> bool
    decreases a.len(),
{
    if b.len() == 0 {
        false
    } else if a.len() == 0 {
        true
    } else if a[0] == b[0] {
        components_lt(a.drop_first(), b.drop_first())
    } else {
        component_lt(a[0], b[0])
    }
}

/// Whether path `a` comes before path `b`, as paths compare: component by
/// component.
pub open spec fn path_lt(a: Seq<char>, b: Seq<char>) -> bool {
    components_lt(spec_path_components(a), spec_path_components(b))
}

/// Of two components, one comes first unless they are the same.
proof fn lemma_component_order(a: (u8, Seq<char>), b: (u8, Seq<char>), c: (u8, Seq<char>))
    ensures
        a == b || component_lt(a, b) || component_lt(b, a),
        !(component_lt(a, b) && component_lt(b, a)),
        component_lt(a, b) && component_lt(b, c) ==> component_lt(a, c),
{
    lemma_seq_le_total(a.1, b.1);
    if seq_le(a.1, b.1) && seq_le(b.1, a.1) {
        lemma_seq_le_antisym(a.1, b.1);
    }
    if component_lt(a, b) && component_lt(b, c) && a.0 == b.0 && b.0 == c.0 {
        lemma_seq_le_trans(a.1, b.1, c.1);
        if a.1 == c.1 {
            lemma_seq_le_antisym(a.1, b.1);
        }
    }
}

/// The order of components is strict and total.
pub proof fn lemma_components_order(a: Seq<(u8, Seq<char>)>, b: Seq<(u8, Seq<char>)>, c: Seq<(u8, Seq<char>)>)
    ensures
        a == b || components_lt(a, b) || components_lt(b, a),
        !(components_lt(a, b) && components_lt(b, a)),
        !components_lt(a, a),
        components_lt(a, b) && components_lt(b, c) ==> components_lt(a, c),
    decreases a.len(),
{
    if a.len() > 0 && b.len() > 0 && c.len() > 0 {
        lemma_components_order(a.drop_first(), b.drop_first(), c.drop_first());
        lemma_component_order(a[0], b[0], c[0]);
        if a[0] == b[0] && a.drop_first() == b.drop_first() {
            assert(a =~= seq![a[0]] + a.drop_first());
            assert(b =~= seq![b[0]] + b.drop_first());
        }
    } else if a.len() > 0 && b.len() > 0 {
        lemma_components_order(a.drop_first(), b.drop_first(), c);
        lemma_component_order(a[0], b[0], a[0]);
        if a[0] == b[0] && a.drop_first() == b.drop_first() {
            assert(a =~= seq![a[0]] + a.drop_first());
            assert(b =~= seq![b[0]] + b.drop_first());
        }
    } else if a.len() > 0 && c.len() > 0 {
        lemma_components_order(a.drop_first(), a.drop_first(), c.drop_first());
    } else if a.len() > 0 {
        lemma_components_order(a.drop_first(), a.drop_first(), a.drop_first());
    }
}

/// Compares the components of two paths.
pub fn components_less(a: &Vec<(u8, String)>, b: &Vec<(u8, String)>) -> (r: bool)
    ensures
        r == components_lt(comp_views(a@), comp_views(b@)),
{
    let ghost va = comp_views(a@);
    let ghost vb = comp_views(b@);
    let mut i: usize = 0;
    assert(va.skip(0) =~= va);
    assert(vb.skip(0) =~= vb);
    while i < a.len() && i < b.len()
        invariant
            va == comp_views(a@),
            vb == comp_views(b@),
            i <= a.len(),
            i <= b.len(),
            components_lt(va, vb) == components_lt(va.skip(i as int), vb.skip(i as int)),
        decreases a.len() - i,
    {
        let x = &a[i];
        let y = &b[i];
        proof {
            assert(va.skip(i as int)[0] == va[i as int]);
            assert(vb.skip(i as int)[0] == vb[i as int]);
            assert(va[i as int] == (x.0, x.1@));
            assert(vb[i as int] == (y.0, y.1@));
        }
        if x.0 == y.0 && str_eq(x.1.as_str(), y.1.as_str()) {
            proof {
                assert(va.skip(i as int).drop_first() =~= va.skip(i + 1));
                assert(vb.skip(i as int).drop_first() =~= vb.skip(i + 1));
            }
            i = i + 1;
        } else {
            if x.0 != y.0 {
                return x.0 < y.0;
            }
            let le = str_le(x.1.as_str(), y.1.as_str());
            return le;
        }
    }
    i < b.len()
}

/// One of the paths `r` has the components of path `x`.
pub open spec fn covers_path(r: Seq<String>, x: Seq<char>) -> bool {
    exists|k: int| 0 <= k < r.len() && #[trigger] spec_path_components(r[k]@) == spec_path_components(x)
}

/// Sorts paths as paths compare, component by component, keeping one of
/// those with the same components.
pub fn sort_paths(v: &Vec<String>) -> (r: Vec<String>)
    ensures
        forall|x: Seq<char>| #[trigger] views(r@).contains(x) ==> views(v@).contains(x),
        forall|i: int| 0 <= i < v@.len() ==> covers_path(r@, #[trigger] v@[i]@),
        forall|i: int, j: int| 0 <= i < j < r@.len() ==> path_lt(#[trigger] r@[i]@, #[trigger] r@[j]@),
{
    let mut out: Vec<String> = Vec::new();
    let mut keys: Vec<Vec<(u8, String)>> = Vec::new();
    let mut n: usize = 0;
    while n < v.len()
        invariant
            n <= v@.len(),
            keys@.len() == out@.len(),
            forall|t: int| 0 <= t < out@.len() ==> comp_views(#[trigger] keys@[t]@) == spec_path_components(out@[t]@),
            forall|x: Seq<char>| #[trigger] views(out@).contains(x) ==> views(v@).contains(x),
            forall|i: int|
                0 <= i < n ==> exists|k: int|
                    0 <= k < out@.len() && #[trigger] spec_path_components(out@[k]@) == spec_path_components(
                        #[trigger] v@[i]@,
                    ),
            forall|i: int, j: int| 0 <= i < j < out@.len() ==> path_lt(#[trigger] out@[i]@, #[trigger] out@[j]@),
        decreases v.len() - n,
    {
        let s = &v[n];
        let k = path_components(s.as_str());
        let ghost ks = spec_path_components(s@);
        let mut p: usize = 0;
        while p < out.len() && components_less(&keys[p], &k)
            invariant
                p <= out@.len(),
                keys@.len() == out@.len(),
                comp_views(k@) == ks,
                forall|t: int| 0 <= t < out@.len() ==> comp_views(#[trigger] keys@[t]@) == spec_path_components(out@[t]@),
                forall|a: int| 0 <= a < p ==> components_lt(spec_path_components(#[trigger] out@[a]@), ks),
            decreases out.len() - p,
        {
            p = p + 1;
        }
        let ghost o0 = out@;
        let ghost ky0 = keys@;
        let dup = p < out.len() && !components_less(&k, &keys[p]);
        if dup {
            proof {
                lemma_components_order(spec_path_components(out@[p as int]@), ks, ks);
                assert(spec_path_components(out@[p as int]@) == spec_path_components(v@[n as int]@));
            }
        } else {
            out.insert(p, s.clone());
            keys.insert(p, k);
            proof {
                assert(out@[p as int]@ == s@);
                assert forall|t: int| 0 <= t < out@.len() implies comp_views(#[trigger] keys@[t]@) == spec_path_components(
                    out@[t]@,
                ) by {
                    if t < p {
                        assert(keys@[t] == ky0[t] && out@[t] == o0[t]);
                    } else if t > p {
                        assert(keys@[t] == ky0[t - 1] && out@[t] == o0[t - 1]);
                    }
                }
                assert forall|x: Seq<char>| #[trigger] views(out@).contains(x) implies views(v@).contains(x) by {
                    let t = choose|t: int| 0 <= t < views(out@).len() && views(out@)[t] == x;
                    if t < p {
                        assert(views(o0)[t] == x);
                        assert(views(o0).contains(x));
                    } else if t > p {
                        assert(views(o0)[t - 1] == x);
                        assert(views(o0).contains(x));
                    } else {
                        assert(views(v@)[n as int] == x);
                    }
                }
                assert forall|i: int, j: int| 0 <= i < j < out@.len() implies path_lt(#[trigger] out@[i]@, #[trigger] out@[j]@) by {
                    if j == p {
                        assert(out@[i] == o0[i]);
                    } else if i == p {
                        assert(out@[j] == o0[j - 1]);
                        assert(j - 1 >= p);
                        if j - 1 > p {
                            assert(path_lt(o0[p as int]@, o0[j - 1]@));
                            lemma_components_order(ks, spec_path_components(o0[p as int]@), spec_path_components(o0[j - 1]@));
                        }
                    } else {
                        let i0 = if i < p { i } else { i - 1 };
                        let j0 = if j < p { j } else { j - 1 };
                        assert(out@[i] == o0[i0]);
                        assert(out@[j] == o0[j0]);
                        assert(path_lt(o0[i0]@, o0[j0]@));
                    }
                }
            }
        }
        proof {
            assert forall|i: int| 0 <= i < n + 1 implies exists|kk: int|
                0 <= kk < out@.len() && #[trigger] spec_path_components(out@[kk]@) == spec_path_components(
                    #[trigger] v@[i]@,
                ) by {
                if i == n {
                    assert(spec_path_components(out@[p as int]@) == spec_path_components(v@[i]@));
                } else if !dup {
                    let kk = choose|kk: int|
                        0 <= kk < o0.len() && #[trigger] spec_path_components(o0[kk]@) == spec_path_components(v@[i]@);
                    let k2 = if kk < p { kk } else { kk + 1 };
                    assert(out@[k2] == o0[kk]);
                }
            }
        }
        n = n + 1;
    }
    assert forall|i: int| 0 <= i < v@.len() implies covers_path(out@, #[trigger] v@[i]@) by {
        assert(i < n);
        let kk = choose|kk: int|
            0 <= kk < out@.len() && #[trigger] spec_path_components(out@[kk]@) == spec_path_components(v@[i]@);
        assert(0 <= kk < out@.len());
    }
    out
}

/// The paths are in ascending order, as paths compare.
pub open spec fn paths_ascending(v: Seq<String>) -> bool {
    forall|a: int, b: int| 0 <= a < b < v.len() ==> !path_lt(#[trigger] v[b]@, #[trigger] v[a]@)
}

/// Sorts paths in ascending order, as paths compare: component by
/// component.
pub fn sort_by_path(v: &mut Vec<String>)
    ensures
        paths_ascending(final(v)@),
        final(v)@.to_multiset() == old(v)@.to_multiset(),
{
    broadcast use vstd::multiset::group_multiset_axioms;
    let mut i: usize = 1;
    if v.len() == 0 {
        return;
    }
    while i < v.len()
        invariant
            1 <= i <= v@.len(),
            v@.to_multiset() == old(v)@.to_multiset(),
            forall|a: int, b: int| 0 <= a < b < i ==> !path_lt(#[trigger] v@[b]@, #[trigger] v@[a]@),
        decreases v.len() - i,
    {
        let ghost before = v@;
        let x = v.remove(i);
        let kx = path_components(x.as_str());
        let mut p: usize = 0;
        while p < i && !components_less(&kx, &path_components(v[p].as_str()))
            invariant
                p <= i,
                i < before.len(),
                v@ == before.remove(i as int),
                x == before[i as int],
                comp_views(kx@) == spec_path_components(x@),
                forall|k: int| 0 <= k < p ==> !path_lt(x@, #[trigger] v@[k]@),
            decreases i - p,
        {
            p = p + 1;
        }
        let ghost mid = v@;
        v.insert(p, x);
        proof {
            vstd::seq_lib::to_multiset_remove(before, i as int);
            vstd::seq_lib::to_multiset_insert(mid, p as int, x);
            assert(v@ == mid.insert(p as int, x));
            assert(before[i as int] == x);
            assert(before.contains(x));
            vstd::seq_lib::to_multiset_contains(before, x);
            assert(v@.to_multiset() =~= before.to_multiset());
            assert forall|a: int, b: int| 0 <= a < b < i + 1 implies !path_lt(#[trigger] v@[b]@, #[trigger] v@[a]@) by {
                if a < p && b < p {
                    assert(v@[a] == mid[a] && v@[b] == mid[b]);
                    assert(mid[a] == before[a] && mid[b] == before[b]);
                } else if a < p && b == p {
                    assert(v@[a] == mid[a]);
                } else if a < p {
                    assert(v@[a] == mid[a] && v@[b] == mid[b - 1]);
                    assert(mid[a] == before[a] && mid[b - 1] == before[b - 1]);
                } else if a == p {
                    assert(v@[b] == mid[b - 1]);
                    assert(p < i);
                    assert(path_lt(x@, mid[p as int]@));
                    let kp = spec_path_components(mid[p as int]@);
                    let kb = spec_path_components(mid[b - 1]@);
                    lemma_components_order(kb, spec_path_components(x@), kp);
                    if b - 1 > p {
                        assert(mid[p as int] == before[p as int] && mid[b - 1] == before[b - 1]);
                        assert(!path_lt(mid[b - 1]@, mid[p as int]@));
                    }
                } else {
                    assert(v@[a] == mid[a - 1] && v@[b] == mid[b - 1]);
                    assert(mid[a - 1] == before[a - 1] && mid[b - 1] == before[b - 1]);
                }
            }
        }
        i = i + 1;
    }
}

/// `Path::parent`: the result is the named parent of the argument.
#[verifier::external_body]
pub(crate) fn path_parent(p: &str) -> (r: Option<String>)
    ensures
        match (r, spec_path_parent(p@)) {
            (Some(a), Some(b)) => a@ == b,
            (None, None) => true,
            _ => false,
        },
{
    Path::new(p).parent().map(|x| x.to_string_lossy().into_owned())
}

/// `Path::join`: the result is the named concatenation of the arguments.
#[verifier::external_body]
pub(crate) fn path_join(base: &str, p: &str) -> (r: String)
    ensures
        r@ == spec_path_join(base@, p@),
{
    Path::new(base).join(p).to_string_lossy().into_owned()
}

/// `PathBuf::set_extension`: the result is the named path with the new
/// extension. The extension holds no path separator, on which the call
/// panics.
#[verifier::external_body]
pub(crate) fn path_set_extension(p: &str, ext: &str) -> (r: String)
    requires
        !ext@.contains('/'),
        !ext@.contains('\\'),
    ensures
        r@ == spec_path_set_extension(p@, ext@),
{
    let mut b = PathBuf::from(p);
    b.set_extension(ext);
    b.to_string_lossy().into_owned()
}

/// `Path::extension`: the result is the named extension.
#[verifier::external_body]
pub(crate) fn path_extension(p: &str) -> (r: Option<String>)
    ensures
        match (r, spec_path_extension(p@)) {
            (Some(a), Some(b)) => a@ == b,
            (None, None) => true,
            _ => false,
        },
{
    Path::new(p).extension().map(|x| x.to_string_lossy().into_owned())
}

/// `Path::file_name`: the result is the named file name.
#[verifier::external_body]
pub(crate) fn path_file_name(p: &str) -> (r: Option<String>)
    ensures
        match (r, spec_path_file_name(p@)) {
            (Some(a), Some(b)) => a@ == b,
            (None, None) => true,
            _ => false,
        },
{
    Path::new(p).file_name().map(|x| x.to_string_lossy().into_owned())
}

/// `Path::starts_with`: the result is the named test.
#[verifier::external_body]
pub(crate) fn path_starts_with(p: &str, base: &str) -> (r: bool)
    ensures
        r == spec_path_starts_with(p@, base@),
{
    Path::new(p).starts_with(base)
}

/// `path_clean::PathClean::clean`: the result is the named clean form of
/// the argument.
#[verifier::external_body]
pub(crate) fn path_clean(p: &str) -> (r: String)
    ensures
        r@ == spec_path_clean(p@),
{
    PathBuf::from(p).clean().to_string_lossy().into_owned()
}

/// `Path::strip_prefix`: the result is the named relative path.
#[verifier::external_body]
pub(crate) fn path_strip_prefix(p: &str, base: &str) -> (r: Option<String>)
    ensures
        match (r, spec_path_strip_prefix(p@, base@)) {
            (Some(a), Some(b)) => a@ == b,
            (None, None) => true,
            _ => false,
        },
{
    Path::new(p).strip_prefix(base).ok().map(|x| x.to_string_lossy().into_owned())
}

} // verus!
