//! Source files are grouped into units.
//! Those units describe at which level the dependencies occur in each
//! particular language.
//!
//! For Ada, one unit will include the spec (.ads), the body (.adb), and any
//! number of separates, since a `with` statement mentions a unit name.
//!
//! For C, each file is its own unit, since a `#include` mentions a file path.
use crate::qnames::QName;
pub use crate::sourcefile::SourceKind;
use vstd::prelude::*;

verus! {

/// A source file of a unit.
#[derive(Debug)]
pub struct UnitSource {
    pub path: String,
    pub kind: SourceKind,
}

/// A unit: its source files, and the units it depends on.
#[derive(Debug, Default)]
pub struct Unit {
    pub sources: Vec<UnitSource>,
    /// The list of dependencies as fully qualified names
    pub deps: Vec<QName>,
}

/// The data structure returned when parsing one source file.
/// All SourceInfo with the same unitname will be merged.
#[derive(Debug)]
pub struct SourceInfo {
    pub unitname: QName,
    pub kind: SourceKind,
    pub deps: Vec<QName>,
}

} // verus!
