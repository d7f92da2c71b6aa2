//! A fully qualified name in the scanner.
//! The scanner itself cannot distinguish between attributes, variables and
//! function names, this requires access to the symbol table.  For instance:
//!     for Source_Files use Source_Files & (..);  --  an attribute
//!     for Source_Files use My_List & (..);       --  a variable
//!
//!     Switches ("Ada")   --  an attribute
//!     external ("Ada")   --  a function call
//!
//! We know the depth of the names hierarchy, but again the parser is not able
//! to distinguish between packages and projects (though it does have a list
//! of hard-coded package names).
use crate::packagename::{spec_package_name, PackageName};
use crate::simplename::SimpleName;
use crate::strings::push_str;
use vstd::prelude::*;

verus! {

/// A name, qualified by an optional project and an optional package.
#[derive(Clone, Debug, PartialEq)]
pub struct QualifiedName {
    /// None for current project or "Project'"
    pub project: Option<String>,
    pub package: PackageName,
    pub name: SimpleName,
}

/// Whether two optional strings are the same.
pub open spec fn same_opt_string(a: Option<String>, b: Option<String>) -> bool {
    match (a, b) {
        (Some(x), Some(y)) => x@ == y@,
        (None, None) => true,
        _ => false,
    }
}

/// A copy of an optional string.
pub fn dup_opt_string(a: &Option<String>) -> (r: Option<String>)
    ensures
        r == *a,
{
    match a {
        Some(s) => Some(s.clone()),
        None => None,
    }
}

/// Whether two optional strings are the same.
pub fn is_same_opt_string(a: &Option<String>, b: &Option<String>) -> (r: bool)
    ensures
        r == same_opt_string(*a, *b),
{
    match (a, b) {
        (Some(x), Some(y)) => *x == *y,
        (None, None) => true,
        _ => false,
    }
}

impl QualifiedName {
    /// When we find a name in the source with an optional leading identifier,
    /// the latter could be either a project or a package.  This function will
    /// guess as needed.
    pub fn from_two(prj_or_pkg: Option<String>, name: SimpleName) -> (r: Self)
        ensures
            r.name == name,
            prj_or_pkg is None ==> r.project is None && r.package == PackageName::Top,
            prj_or_pkg matches Some(n1) ==> match spec_package_name(n1@) {
                Some(p) => r.project is None && r.package == p,
                None => r.project == Some(n1) && r.package == PackageName::Top,
            },
    {
        match prj_or_pkg {
            None => QualifiedName { project: None, package: PackageName::Top, name },
            Some(n1) => match PackageName::new(n1.as_str()) {
                Ok(p) => QualifiedName { project: None, package: p, name },
                Err(_) => QualifiedName { project: Some(n1), package: PackageName::Top, name },
            },
        }
    }

    /// Whether both names are the same.
    pub open spec fn same(&self, other: &QualifiedName) -> bool {
        &&& same_opt_string(self.project, other.project)
        &&& self.package == other.package
        &&& self.name.same(&other.name)
    }

    /// Whether both names are the same.
    pub fn is_same(&self, other: &QualifiedName) -> (r: bool)
        ensures
            r == self.same(other),
    {
        is_same_opt_string(&self.project, &other.project) && self.package == other.package
            && self.name.is_same(&other.name)
    }

    /// A copy of the name.
    pub fn dup(&self) -> (r: QualifiedName)
        ensures
            r == *self,
    {
        QualifiedName {
            project: dup_opt_string(&self.project),
            package: self.package,
            name: self.name.dup(),
        }
    }

    /// How the name is displayed.
    pub open spec fn description(&self) -> Seq<char> {
        (match self.project {
            Some(p) => p@ + "."@,
            None => Seq::empty(),
        }) + self.package.description() + self.name.description()
    }

    /// Displays the name.
    pub fn describe(&self) -> (r: String)
        ensures
            r@ == self.description(),
    {
        let mut r = String::new();
        if let Some(p) = &self.project {
            push_str(&mut r, p.as_str());
            push_str(&mut r, ".");
        }
        let pkg = self.package.describe();
        push_str(&mut r, pkg.as_str());
        let n = self.name.describe();
        push_str(&mut r, n.as_str());
        r
    }
}

} // verus!
