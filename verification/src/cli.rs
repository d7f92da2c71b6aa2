//! The actions that can be requested on the command line.
use crate::action_imported::ActionImported;
use crate::action_path::ActionPath;
use crate::action_stats::ActionStats;
use crate::strings::{chars_of, string_from_chars};
use vstd::prelude::*;

verus! {

/// Check the source files: unused files and duplicate names.
pub struct ActionCheck {
    /// Files that list known unused files, with the directory their
    /// entries are relative to.
    pub unused: Vec<(String, String)>,
    /// Directories whose files are never reported as unused.
    pub ignore: Vec<String>,
    /// Whether to also report files only used by unused files.
    pub recurse: bool,
    /// Whether to hide empty sections.
    pub quiet: bool,
}

impl ActionCheck {
    /// The check, with its options.
    pub fn new(unused: Vec<(String, String)>, ignore: Vec<String>, recurse: bool, quiet: bool) -> (r: Self)
        ensures
            r.unused == unused,
            r.ignore == ignore,
            r.recurse == recurse,
            r.quiet == quiet,
    {
        ActionCheck { unused, ignore, recurse, quiet }
    }
}

/// The action requested on the command line.
pub enum Action {
    Check(ActionCheck),
    Dependencies(ActionImported),
    GprShow { gprpath: String, print_vars: bool },
    ImportPath(ActionPath),
    Stats(ActionStats),
}

/// The position of the first ':' in the text, if any.
pub open spec fn first_colon(s: Seq<char>) -> Option<int> {
    if exists|i: int| 0 <= i < s.len() && s[i] == ':' {
        Some(choose|i: int| 0 <= i < s.len() && s[i] == ':' && forall|j: int| 0 <= j < i ==> s[j] != ':')
    } else {
        None
    }
}

/// Splits "file:root" at the first ':' into the file and its root (when
/// there is no ':', the root is `None`).
pub fn split_file_root(p: &str) -> (r: (String, Option<String>))
    ensures
        match first_colon(p@) {
            None => r.0@ == p@ && r.1 is None,
            Some(i) => r.0@ == p@.subrange(0, i) && (r.1 matches Some(root) && root@ == p@.subrange(i + 1, p@.len() as int)),
        },
{
    let chars = chars_of(p);
    let mut i: usize = 0;
    while i < chars.len()
        invariant
            chars@ == p@,
            i <= chars@.len(),
            forall|j: int| 0 <= j < i ==> chars@[j] != ':',
        decreases chars.len() - i,
    {
        if chars[i] == ':' {
            proof {
                let k = choose|k: int| 0 <= k < p@.len() && p@[k] == ':' && forall|j: int| 0 <= j < k ==> p@[j] != ':';
                if k < i {
                } else if k > i {
                    assert(p@[i as int] == ':');
                }
                assert(k == i);
            }
            let file = string_from_chars(chars.as_slice(), 0, i);
            let root = string_from_chars(chars.as_slice(), i + 1, chars.len());
            return (file, Some(root));
        }
        i = i + 1;
    }
    (string_from_chars(chars.as_slice(), 0, chars.len()), None)
}

} // verus!
