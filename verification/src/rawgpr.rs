//! A GPR file that hasn't been processed yet.  All we store here is the info
//! we extracted from the file itself.
use crate::rawexpr::StatementList;
use vstd::prelude::*;

verus! {

/// The contents of a project file, as parsed.
#[derive(Debug, Default)]
pub struct RawGPR {
    pub path: String,
    /// The (normalized) paths of the imported projects
    pub imported: Vec<String>,
    pub name: String,
    pub is_abstract: bool,
    pub is_aggregate: bool,
    pub is_library: bool,
    /// The (normalized) path of the extended project
    pub extends: Option<String>,
    pub body: StatementList,
}

impl RawGPR {
    /// Create a new, mostly unset, GPR file.
    pub fn new(path: &String) -> (r: Self)
        ensures
            r.path@ == path@,
            r.imported@.len() == 0,
            r.name@.len() == 0,
            !r.is_abstract,
            !r.is_aggregate,
            !r.is_library,
            r.extends is None,
            r.body@.len() == 0,
    {
        Self {
            path: path.clone(),
            imported: Vec::new(),
            name: String::new(),
            is_abstract: false,
            is_aggregate: false,
            is_library: false,
            extends: None,
            body: Vec::new(),
        }
    }
}

} // verus!
