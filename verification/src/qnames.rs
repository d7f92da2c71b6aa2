//! Source files are grouped into units.
//! Those units describe at which level the dependencies occur in each
//! particular language.
//!
//! For Ada, one unit will include the spec (.ads), the body (.adb), and any
//! number of separates, since a `with` statement mentions a unit name.
//!
//! For C, each file is its own unit, since a `#include` mentions a file path.
use crate::strings::{join, seq_join, str_eq, views};
use vstd::prelude::*;

verus! {

/// A fully qualified name, like "parent.child.name".
#[derive(Clone, Debug, Default, Hash, Eq, PartialEq)]
pub struct QName(pub Vec<String>);

impl View for QName {
    type V = Seq<Seq<char>>;

    open spec fn view(&self) -> Seq<Seq<char>> {
        views(self.0@)
    }
}

/// A copy of a list of strings.
pub fn copy_strings(v: &[String]) -> (r: Vec<String>)
    ensures
        r@ == v@,
{
    let mut r: Vec<String> = Vec::new();
    let mut i: usize = 0;
    while i < v.len()
        invariant
            i <= v@.len(),
            r@ == v@.take(i as int),
        decreases v.len() - i,
    {
        r.push(v[i].clone());
        i = i + 1;
        assert(r@ =~= v@.take(i as int));
    }
    assert(v@.take(v@.len() as int) =~= v@);
    r
}

/// Whether two lists of strings have the same characters.
pub fn strings_eq(a: &[String], b: &[String]) -> (r: bool)
    ensures
        r == (views(a@) == views(b@)),
{
    if a.len() != b.len() {
        assert(views(a@).len() != views(b@).len());
        return false;
    }
    let mut i: usize = 0;
    while i < a.len()
        invariant
            a.len() == b.len(),
            i <= a.len(),
            forall|j: int| 0 <= j < i ==> a@[j]@ == b@[j]@,
        decreases a.len() - i,
    {
        if !str_eq(a[i].as_str(), b[i].as_str()) {
            assert(views(a@)[i as int] != views(b@)[i as int]);
            return false;
        }
        i = i + 1;
    }
    assert(views(a@) =~= views(b@));
    true
}

impl QName {
    /// Builds a qualified name from its components.
    pub fn new(qname: Vec<String>) -> (r: Self)
        ensures
            r.0 == qname,
    {
        QName(qname)
    }

    /// Builds a qualified name from a copy of its components.
    pub fn from_slice(qname: &[String]) -> (r: Self)
        ensures
            r.0@ == qname@,
    {
        QName(copy_strings(qname))
    }

    /// Appends the components of `child`.
    pub fn join(&mut self, child: QName)
        ensures
            final(self).0@ == old(self).0@ + child.0@,
    {
        let mut child = child;
        self.0.append(&mut child.0);
    }

    /// The parent name (all components but the last one), if any.
    pub fn parent(&self) -> (r: Option<QName>)
        ensures
            self.0@.len() == 0 ==> r is None,
            self.0@.len() > 0 ==> (r matches Some(p) && p.0@ == self.0@.drop_last()),
    {
        let s = self.0.len();
        if s == 0 {
            None
        } else {
            Some(QName::from_slice(slice_prefix(&self.0, s - 1)))
        }
    }

    /// Whether two names have the same components.
    pub fn same(&self, other: &QName) -> (r: bool)
        ensures
            r == (self@ == other@),
    {
        strings_eq(self.0.as_slice(), other.0.as_slice())
    }

    /// Displays the name, with components separated by dots.
    pub fn describe(&self) -> (r: String)
        ensures
            r@ == seq_join(self@, "."@),
    {
        join(&self.0, ".")
    }
}

/// The first `n` elements of a slice.
pub fn slice_prefix<T>(v: &[T], n: usize) -> (r: &[T])
    requires
        n <= v@.len(),
    ensures
        r@ == v@.take(n as int),
{
    vstd::slice::slice_subrange(v, 0, n)
}

} // verus!
