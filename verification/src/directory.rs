//! The files of a source directory.  The directory is read by the caller.
use crate::strings::{ends_with, spec_ends_with};
use vstd::prelude::*;

verus! {

/// A source directory and its files.
#[derive(Debug)]
pub struct Directory {
    pub path: String,
    /// basename -> full path
    pub files: Vec<(String, String)>,
}

/// The files of the directory whose name ends with the suffix, with the
/// given language.
pub open spec fn with_suffix(files: Seq<(String, String)>, suffix: Seq<char>, lang: Seq<char>) -> Seq<(Seq<char>, Seq<char>)>
    decreases files.len(),
{
    if files.len() == 0 {
        Seq::empty()
    } else {
        let rest = with_suffix(files.drop_last(), suffix, lang);
        if spec_ends_with(files.last().0@, suffix) {
            rest.push((files.last().1@, lang))
        } else {
            rest
        }
    }
}

/// The paths and languages of a list of files.
pub open spec fn file_views(v: Seq<(String, String)>) -> Seq<(Seq<char>, Seq<char>)> {
    v.map_values(|p: (String, String)| (p.0@, p.1@))
}

proof fn lemma_file_views_push(v: Seq<(String, String)>, e: (String, String))
    ensures
        file_views(v.push(e)) == file_views(v).push((e.0@, e.1@)),
{
    assert(file_views(v.push(e)) =~= file_views(v).push((e.0@, e.1@))) by {
        assert forall|k: int| 0 <= k < v.len() + 1 implies file_views(v.push(e))[k] == file_views(v).push((e.0@, e.1@))[k] by {
            if k < v.len() {
                assert(v.push(e)[k] == v[k]);
            }
        }
    }
}

impl Directory {
    /// A directory and the files it holds (name and full path), as read
    /// from the disk.
    pub fn new(path: String, entries: Vec<(String, String)>) -> (r: Self)
        ensures
            r.path == path,
            r.files == entries,
    {
        Directory { path, files: entries }
    }

    /// Find all files matching the given suffix, and add them (with the
    /// language) to `files`.
    pub fn filter_suffix(&self, suffix: &str, lang: &String, files: &mut Vec<(String, String)>)
        ensures
            file_views(final(files)@) == file_views(old(files)@) + with_suffix(self.files@, suffix@, lang@),
    {
        let mut i: usize = 0;
        let ghost start = file_views(files@);
        while i < self.files.len()
            invariant
                i <= self.files@.len(),
                file_views(files@) == start + with_suffix(self.files@.take(i as int), suffix@, lang@),
                start == file_views(old(files)@),
            decreases self.files.len() - i,
        {
            proof {
                assert(self.files@.take(i + 1).drop_last() =~= self.files@.take(i as int));
            }
            let ghost before = files@;
            if ends_with(self.files[i].0.as_str(), suffix) {
                let e = (self.files[i].1.clone(), lang.clone());
                files.push(e);
                proof {
                    lemma_file_views_push(before, e);
                }
            }
            i = i + 1;
        }
        assert(self.files@.take(self.files@.len() as int) =~= self.files@);
    }

    /// If the given basename matches a file from the directory, add its full
    /// path to the list of files in `files`.
    /// Return true if the file was found
    pub fn add_if_found(&self, basename: &String, lang: &String, files: &mut Vec<(String, String)>) -> (r: bool)
        ensures
            r == exists|i: int| 0 <= i < self.files@.len() && #[trigger] self.files@[i].0@ == basename@,
            !r ==> final(files)@ == old(files)@,
            r ==> exists|i: int|
                0 <= i < self.files@.len() && #[trigger] self.files@[i].0@ == basename@ && file_views(final(files)@)
                    == file_views(old(files)@).push((self.files@[i].1@, lang@)),
    {
        let mut i: usize = 0;
        while i < self.files.len()
            invariant
                i <= self.files@.len(),
                files@ == old(files)@,
                forall|k: int| 0 <= k < i ==> #[trigger] self.files@[k].0@ != basename@,
            decreases self.files.len() - i,
        {
            if self.files[i].0 == *basename {
                let ghost before = files@;
                files.push((self.files[i].1.clone(), lang.clone()));
                assert(file_views(files@) =~= file_views(before).push((self.files@[i as int].1@, lang@)));
                return true;
            }
            i = i + 1;
        }
        false
    }
}

} // verus!
