//! Files loaded in memory.
use crate::strings::owned;
use vstd::prelude::*;

verus! {

/// A file loaded in memory: its path, and its contents.
pub struct File {
    pub path: String,
    pub buffer: String,
}

impl File {
    /// A file whose contents were read from the disk by the caller.
    pub fn from_parts(path: String, buffer: String) -> (r: Self)
        ensures
            r.path == path,
            r.buffer == buffer,
    {
        Self { path, buffer }
    }

    /// An in-memory file, with the given contents.
    pub fn new_from_str(s: &str) -> (r: Self)
        ensures
            r.path@ == ":memory:"@,
            r.buffer@ == s@,
    {
        Self { path: owned(":memory:"), buffer: owned(s) }
    }

    /// Mutable access to the contents of the file.
    pub fn as_mut_str(&mut self) -> (r: &mut String)
        ensures
            *r == old(self).buffer,
            final(self).buffer == *final(r),
            final(self).path == old(self).path,
    {
        &mut self.buffer
    }

    /// The path of the file.
    pub fn path(&self) -> (r: &String)
        ensures
            *r == self.path,
    {
        &self.path
    }
}

} // verus!
