//! Recursive search for project files.  The directories themselves are
//! read by the caller, which asks for each entry what to do with it.
use crate::paths::{path_extension, spec_path_extension};
use crate::strings::{ends_with, spec_ends_with};
use vstd::prelude::*;

verus! {

/// Whether a directory is traversed: all but a few well-known directories.
pub open spec fn spec_should_traverse_dir(n: Seq<char>) -> bool {
    !spec_ends_with(n, "External/Ada_Web_Server/aws-dev"@) && !spec_ends_with(n, "External/GNATCOLL/gnatcoll-dev"@)
        && !spec_ends_with(n, "Examples/Elektron/Ema/Training"@) && !spec_ends_with(n, "Packaging"@)
        && !spec_ends_with(n, "Compiler"@) && !spec_ends_with(n, ".dbc"@) && !spec_ends_with(n, ".git"@)
        && !spec_ends_with(n, "__pycache__"@) && !spec_ends_with(n, "objects"@)
}

/// The entry will always be a directory, and this should return True
/// if we should also traverse children.
pub fn should_traverse_dir(path: &str) -> (r: bool)
    ensures
        r == spec_should_traverse_dir(path@),
{
    !ends_with(path, "External/Ada_Web_Server/aws-dev") && !ends_with(path, "External/GNATCOLL/gnatcoll-dev")
        && !ends_with(path, "Examples/Elektron/Ema/Training") && !ends_with(path, "Packaging")
        && !ends_with(path, "Compiler") && !ends_with(path, ".dbc") && !ends_with(path, ".git")
        && !ends_with(path, "__pycache__") && !ends_with(path, "objects")
}

/// What to do with an entry of a directory.
#[derive(Debug, Clone, Copy, PartialEq, Eq, Structural)]
pub enum EntryAction {
    /// Neither a project file nor a directory to traverse.
    Ignore,
    /// A directory whose entries are searched too.
    Traverse,
    /// A project file.
    Found,
}

/// Symbolic links are ignored, directories are traversed unless they are
/// well-known exceptions, and files with the `gpr` extension are project
/// files.
pub fn entry_action(path: &str, is_symlink: bool, is_dir: bool, is_file: bool) -> (r: EntryAction)
    ensures
        r == if is_symlink {
            EntryAction::Ignore
        } else if is_dir {
            if spec_should_traverse_dir(path@) {
                EntryAction::Traverse
            } else {
                EntryAction::Ignore
            }
        } else if is_file && spec_path_extension(path@) == Some("gpr"@) {
            EntryAction::Found
        } else {
            EntryAction::Ignore
        },
{
    if is_symlink {
        EntryAction::Ignore
    } else if is_dir {
        if should_traverse_dir(path) {
            EntryAction::Traverse
        } else {
            EntryAction::Ignore
        }
    } else if is_file {
        match path_extension(path) {
            Some(ext) => {
                if crate::strings::str_eq(ext.as_str(), "gpr") {
                    EntryAction::Found
                } else {
                    EntryAction::Ignore
                }
            },
            None => EntryAction::Ignore,
        }
    } else {
        EntryAction::Ignore
    }
}

/// The directories that remain to be searched.
#[derive(Debug, Default)]
pub struct FileFind {
    pub stack: Vec<String>,
}

impl FileFind {
    /// Start searching for files in path, recursively
    pub fn new(path: String) -> (r: FileFind)
        ensures
            r.stack@ == seq![path],
    {
        let mut f = FileFind { stack: Vec::new() };
        f.pushdir(path);
        f
    }

    /// Push a new directory to traverse (we will first return the entries
    /// from that directory, then the remaining ones from the parent
    /// directory, and so on).
    pub fn pushdir(&mut self, path: String)
        ensures
            final(self).stack@ == old(self).stack@.push(path),
    {
        self.stack.push(path);
    }

    /// The next directory to read, the last one pushed.
    pub fn next_dir(&mut self) -> (r: Option<String>)
        ensures
            old(self).stack@.len() == 0 ==> r is None && final(self).stack@.len() == 0,
            old(self).stack@.len() > 0 ==> r == Some(old(self).stack@.last()) && final(self).stack@
                == old(self).stack@.drop_last(),
    {
        self.stack.pop()
    }
}

} // verus!
