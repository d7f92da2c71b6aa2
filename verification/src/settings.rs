//! The settings given on the command line.
use crate::paths::{path_parent, path_strip_prefix, spec_path_parent, spec_path_strip_prefix};
use vstd::prelude::*;

verus! {

/// The settings given on the command line.
#[derive(Debug, Default)]
pub struct Settings {
    /// Whether to display error messages when source directories referenced
    /// in project files do not actually exist on the disk.
    pub report_missing_source_dirs: bool,
    /// Whether to resolve symbol links in paths.
    pub resolve_symbolic_links: bool,
    /// List of project files implicitly imported by all others.
    pub runtime_gpr: Vec<String>,
    /// The root directories, underneath which we look for all project files
    pub root: Vec<String>,
    /// Whether to remove some attributes from projects.
    pub trim: bool,
    /// All output paths are displayed relative to this directory.
    pub relto: String,
}

impl Settings {
    /// How a path is displayed: relative to `relto` where it lies below it.
    pub open spec fn spec_display_path(&self, path: Seq<char>) -> Seq<char> {
        match spec_path_strip_prefix(path, self.relto@) {
            Some(rel) => rel,
            None => path,
        }
    }

    /// Format a path for display.  We prefer to display relative file names,
    /// since those are shorter and will stay the same on different machines.
    pub fn display_path(&self, path: &str) -> (r: String)
        ensures
            r@ == self.spec_display_path(path@),
    {
        match path_strip_prefix(path, self.relto.as_str()) {
            Some(rel) => rel,
            None => crate::strings::owned(path),
        }
    }

    /// Return the list of root directories (computed from --root): each root
    /// which is a directory, or the parent directory of a root project file.
    /// `root_is_dir[i]` tells whether `self.root[i]` is a directory on the disk.
    pub fn iter_root_dirs(&self, root_is_dir: &Vec<bool>) -> (r: Vec<String>)
        requires
            root_is_dir@.len() == self.root@.len(),
            forall|i: int|
                0 <= i < self.root@.len() && !root_is_dir@[i] ==> spec_path_parent(
                    #[trigger] self.root@[i]@,
                ) is Some,
        ensures
            r@.len() == self.root@.len(),
            forall|i: int|
                0 <= i < self.root@.len() ==> #[trigger] r@[i]@ == if root_is_dir@[i] {
                    self.root@[i]@
                } else {
                    spec_path_parent(self.root@[i]@)->0
                },
    {
        let mut r: Vec<String> = Vec::new();
        let mut i: usize = 0;
        while i < self.root.len()
            invariant
                i <= self.root@.len(),
                root_is_dir@.len() == self.root@.len(),
                forall|k: int|
                    0 <= k < self.root@.len() && !root_is_dir@[k] ==> spec_path_parent(
                        #[trigger] self.root@[k]@,
                    ) is Some,
                r@.len() == i,
                forall|k: int|
                    0 <= k < i ==> #[trigger] r@[k]@ == if root_is_dir@[k] {
                        self.root@[k]@
                    } else {
                        spec_path_parent(self.root@[k]@)->0
                    },
            decreases self.root.len() - i,
        {
            if root_is_dir[i] {
                r.push(self.root[i].clone());
            } else {
                match path_parent(self.root[i].as_str()) {
                    Some(p) => r.push(p),
                    None => {
                        assert(false);
                    },
                }
            }
            i = i + 1;
        }
        r
    }

    /// Whether every root that is not a directory has a parent directory.
    pub fn roots_have_parents(&self, root_is_dir: &Vec<bool>) -> (r: bool)
        requires
            root_is_dir@.len() == self.root@.len(),
        ensures
            r == forall|i: int|
                0 <= i < self.root@.len() && !root_is_dir@[i] ==> spec_path_parent(#[trigger] self.root@[i]@) is Some,
    {
        let mut i: usize = 0;
        while i < self.root.len()
            invariant
                i <= self.root@.len(),
                root_is_dir@.len() == self.root@.len(),
                forall|k: int|
                    0 <= k < i && !root_is_dir@[k] ==> spec_path_parent(#[trigger] self.root@[k]@) is Some,
            decreases self.root.len() - i,
        {
            if !root_is_dir[i] && path_parent(self.root[i].as_str()).is_none() {
                return false;
            }
            i = i + 1;
        }
        true
    }

    /// The root directories, or `None` when a root project file has no
    /// parent directory.
    pub fn root_dirs(&self, root_is_dir: &Vec<bool>) -> (r: Option<Vec<String>>)
        requires
            root_is_dir@.len() == self.root@.len(),
        ensures
            match r {
                None => exists|i: int|
                    0 <= i < self.root@.len() && !root_is_dir@[i] && spec_path_parent(#[trigger] self.root@[i]@) is None,
                Some(dirs) => dirs@.len() == self.root@.len() && forall|i: int|
                    0 <= i < self.root@.len() ==> #[trigger] dirs@[i]@ == if root_is_dir@[i] {
                        self.root@[i]@
                    } else {
                        spec_path_parent(self.root@[i]@)->0
                    },
            },
    {
        if self.roots_have_parents(root_is_dir) {
            Some(self.iter_root_dirs(root_is_dir))
        } else {
            None
        }
    }
}

} // verus!
