//! Source files of the projects, and what parsing them tells about their
//! unit and dependencies.
use crate::ada_lexer::{AdaLexer, AdaLexerOptions};
use crate::ada_scanner::AdaScanner;
use crate::cpp_lexer::CppLexer;
use crate::cpp_scanner::CppScanner;
use crate::base_lexer::lexable;
use crate::errors::Error;
use crate::files::File;
use crate::qnames::QName;
use crate::strings::str_eq;
use vstd::prelude::*;

verus! {

/// What is the semantic of a source file within a unit.
/// In C, units are made up of a single file, so this is always the
/// implementation.
#[derive(Debug, Copy, Clone, PartialEq, Eq, Structural)]
pub enum SourceKind {
    Spec,
    Implementation,
    Separate,
}

/// No two dependencies have the same name.
pub open spec fn deps_distinct(d: Seq<QName>) -> bool {
    forall|i: int, j: int| 0 <= i < d.len() && 0 <= j < d.len() && i != j ==> #[trigger] d[i]@ != #[trigger] d[j]@
}

/// Whether the name is one of the dependencies.
pub open spec fn has_dep(d: Seq<QName>, name: Seq<Seq<char>>) -> bool {
    exists|i: int| 0 <= i < d.len() && #[trigger] d[i]@ == name
}

/// Adds a dependency, unless it is already known.
pub fn add_dep(deps: &mut Vec<QName>, d: QName)
    requires
        deps_distinct(old(deps)@),
    ensures
        deps_distinct(final(deps)@),
        has_dep(old(deps)@, d@) ==> final(deps)@ == old(deps)@,
        !has_dep(old(deps)@, d@) ==> final(deps)@ == old(deps)@.push(d),
{
    let mut i: usize = 0;
    while i < deps.len()
        invariant
            i <= deps@.len(),
            deps@ == old(deps)@,
            deps_distinct(deps@),
            forall|k: int| 0 <= k < i ==> #[trigger] deps@[k]@ != d@,
        decreases deps.len() - i,
    {
        if deps[i].same(&d) {
            return;
        }
        i = i + 1;
    }
    let ghost before = deps@;
    deps.push(d);
    proof {
        assert forall|a: int, b: int|
            0 <= a < deps@.len() && 0 <= b < deps@.len() && a != b implies #[trigger] deps@[a]@ != #[trigger] deps@[b]@ by {
            if a < before.len() && b < before.len() {
                assert(deps@[a] == before[a] && deps@[b] == before[b]);
            } else if a < before.len() {
                assert(deps@[a] == before[a]);
            } else {
                assert(deps@[b] == before[b]);
            }
        }
    }
}

/// What parsing a source file tells: the unit it belongs to, its role in
/// the unit, and the units it depends on.
#[derive(Debug)]
pub struct ParseResult {
    pub unitname: QName,
    pub kind: SourceKind,
    pub deps: Vec<QName>,
}

impl ParseResult {
    /// The dependencies are distinct.
    pub open spec fn wf(&self) -> bool {
        deps_distinct(self.deps@)
    }
}

/// A source file of a project, once parsed.
#[derive(Debug)]
pub struct SourceFile {
    pub path: String,
    /// Lower-case
    pub lang: String,
    pub unitname: QName,
    pub kind: SourceKind,
    /// Node for the source file
    pub file_node: usize,
    /// The node for the unit in the graph
    pub unit_node: Option<usize>,
    pub deps: Vec<QName>,
    /// Is this file ever marked as a Library_Interface for one project in
    /// one scenario ?
    pub is_library_interface: bool,
    /// Is this file ever a main unit for one project in one scenario ?
    pub is_ever_main: bool,
}

/// Whether the language is one whose files can be parsed.
pub open spec fn parsed_language(lang: Seq<char>) -> bool {
    lang == "ada"@ || lang == "c"@ || lang == "c++"@
}

impl SourceFile {
    /// Parse the source file to extract the unit name and the dependencies.
    /// It returns an empty unit name if the file should be ignored (for
    /// instance in Ada there is a `pragma no_body`).
    /// The contents of the file were read by the caller.
    pub fn new(file: &File, lang: &str, file_node: usize) -> (r: Result<Self, Error>)
        requires
            lexable(file.buffer@),
        ensures
            !parsed_language(lang@) ==> (r matches Err(Error::CannotParse { path, lang: l }) && path@
                == file.path@ && l@ == lang@),
            r matches Ok(s) ==> {
                &&& parsed_language(lang@)
                &&& s.path == file.path
                &&& s.lang@ == lang@
                &&& s.file_node == file_node
                &&& s.unit_node is None
                &&& !s.is_library_interface
                &&& !s.is_ever_main
                &&& deps_distinct(s.deps@)
                &&& (lang@ != "ada"@ ==> s.unitname@ == seq![file.path@] && s.kind == SourceKind::Implementation)
            },
    {
        let info = if str_eq(lang, "ada") {
            let lex = AdaLexer::new(file, AdaLexerOptions { kw_aggregate: false, kw_body: true });
            match AdaScanner::parse(lex) {
                Ok(i) => i,
                Err(e) => return Err(e),
            }
        } else if str_eq(lang, "c") || str_eq(lang, "c++") {
            match CppScanner::parse(CppLexer::new(file), &file.path) {
                Ok(i) => i,
                Err(e) => return Err(e),
            }
        } else {
            return Err(Error::CannotParse { path: file.path.clone(), lang: crate::strings::owned(lang) });
        };
        Ok(SourceFile {
            path: file.path.clone(),
            lang: crate::strings::owned(lang),
            file_node,
            unit_node: None,
            unitname: info.unitname,
            kind: info.kind,
            deps: info.deps,
            is_library_interface: false,
            is_ever_main: false,
        })
    }
}

} // verus!
