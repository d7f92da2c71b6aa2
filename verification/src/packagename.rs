//! The packages that can appear in a project file.
use crate::errors::Error;
use crate::strings::{owned, str_eq};
use vstd::prelude::*;

verus! {

/// The packages known in project files (`Top` stands for the top-level of
/// the project).
#[derive(Clone, Copy, Debug, PartialEq, Eq, Structural)]
pub enum PackageName {
    Top,
    Binder,
    Builder,
    Compiler,
    Ide,
    Linker,
    Naming,
}

/// Number of variants in `PackageName`.
pub const PACKAGE_NAME_VARIANTS: usize = 7;

/// The package named by a lower-cased identifier, if any.
pub open spec fn spec_package_name(lower: Seq<char>) -> Option<PackageName> {
    if lower == "binder"@ {
        Some(PackageName::Binder)
    } else if lower == "builder"@ {
        Some(PackageName::Builder)
    } else if lower == "compiler"@ {
        Some(PackageName::Compiler)
    } else if lower == "ide"@ {
        Some(PackageName::Ide)
    } else if lower == "linker"@ {
        Some(PackageName::Linker)
    } else if lower == "naming"@ {
        Some(PackageName::Naming)
    } else {
        None
    }
}

impl PackageName {
    /// The package named by a lower-cased identifier.
    pub fn new(lower: &str) -> (r: Result<Self, Error>)
        ensures
            spec_package_name(lower@) matches Some(p) ==> r == Ok::<PackageName, Error>(p),
            spec_package_name(lower@) is None ==> (r matches Err(Error::InvalidPackageName(n))
                && n@ == lower@),
    {
        if str_eq(lower, "binder") {
            Ok(PackageName::Binder)
        } else if str_eq(lower, "builder") {
            Ok(PackageName::Builder)
        } else if str_eq(lower, "compiler") {
            Ok(PackageName::Compiler)
        } else if str_eq(lower, "ide") {
            Ok(PackageName::Ide)
        } else if str_eq(lower, "linker") {
            Ok(PackageName::Linker)
        } else if str_eq(lower, "naming") {
            Ok(PackageName::Naming)
        } else {
            Err(Error::InvalidPackageName(owned(lower)))
        }
    }

    /// The position of the package in arrays indexed by packages.
    pub open spec fn spec_index(&self) -> int {
        match self {
            PackageName::Top => 0,
            PackageName::Binder => 1,
            PackageName::Builder => 2,
            PackageName::Compiler => 3,
            PackageName::Ide => 4,
            PackageName::Linker => 5,
            PackageName::Naming => 6,
        }
    }

    /// The position of the package in arrays indexed by packages.
    pub fn index(&self) -> (r: usize)
        ensures
            r == self.spec_index(),
            r < PACKAGE_NAME_VARIANTS,
    {
        match self {
            PackageName::Top => 0,
            PackageName::Binder => 1,
            PackageName::Builder => 2,
            PackageName::Compiler => 3,
            PackageName::Ide => 4,
            PackageName::Linker => 5,
            PackageName::Naming => 6,
        }
    }

    /// The package at a given position.
    pub fn from_index(idx: usize) -> (r: Self)
        requires
            idx < PACKAGE_NAME_VARIANTS,
        ensures
            r.spec_index() == idx,
    {
        if idx == 0 {
            PackageName::Top
        } else if idx == 1 {
            PackageName::Binder
        } else if idx == 2 {
            PackageName::Builder
        } else if idx == 3 {
            PackageName::Compiler
        } else if idx == 4 {
            PackageName::Ide
        } else if idx == 5 {
            PackageName::Linker
        } else {
            PackageName::Naming
        }
    }

    /// How the package is displayed.
    pub open spec fn description(&self) -> Seq<char> {
        match self {
            PackageName::Top => "<top>"@,
            PackageName::Binder => "binder"@,
            PackageName::Builder => "builder"@,
            PackageName::Compiler => "compiler"@,
            PackageName::Ide => "ide"@,
            PackageName::Linker => "linker"@,
            PackageName::Naming => "naming"@,
        }
    }

    /// Displays the package name.
    pub fn describe(&self) -> (r: String)
        ensures
            r@ == self.description(),
    {
        match self {
            PackageName::Top => owned("<top>"),
            PackageName::Binder => owned("binder"),
            PackageName::Builder => owned("builder"),
            PackageName::Compiler => owned("compiler"),
            PackageName::Ide => owned("ide"),
            PackageName::Linker => owned("linker"),
            PackageName::Naming => owned("naming"),
        }
    }
}

} // verus!
