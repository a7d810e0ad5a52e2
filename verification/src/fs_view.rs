//! A plain view of the parts of the filesystem the planner reads: which
//! paths are regular files and which are directories. The surrounding
//! program fills it by probing; the engine's decisions are verified against
//! it.

use vstd::prelude::*;
use crate::paths::{lemma_parent_shorter, path_join, path_parent, spec_parent, spec_path_join};
use crate::strutil::str_eq;

verus! {

/// The filesystem facts a run decides on: the set of paths known to be
/// regular files and the set known to be directories.
pub struct FsView {
    files: Vec<String>,
    dirs: Vec<String>,
}

impl FsView {
    /// The set of paths known to be regular files.
    pub closed spec fn file_set(&self) -> Set<Seq<char>> {
        self.files.deep_view().to_set()
    }

    /// The set of paths known to be directories.
    pub closed spec fn dir_set(&self) -> Set<Seq<char>> {
        self.dirs.deep_view().to_set()
    }

    /// A view with no facts at all.
    pub fn new() -> (r: FsView)
        ensures
            r.file_set() == Set::<Seq<char>>::empty(),
            r.dir_set() == Set::<Seq<char>>::empty(),
    {
        let r = FsView { files: Vec::new(), dirs: Vec::new() };
        proof {
            assert(r.file_set() =~= Set::<Seq<char>>::empty());
            assert(r.dir_set() =~= Set::<Seq<char>>::empty());
        }
        r
    }

    /// Records that a regular file exists at `p`.
    pub fn add_file(&mut self, p: String)
        ensures
            final(self).file_set() == old(self).file_set().insert(p@),
            final(self).dir_set() == old(self).dir_set(),
    {
        let ghost orig = self.files.deep_view();
        self.files.push(p);
        proof {
            assert(self.files.deep_view() =~~= orig.push(p@));
            crate::strutil::lemma_insert_to_set(orig, orig.len() as int, p@);
            assert(orig.insert(orig.len() as int, p@) =~~= orig.push(p@));
        }
    }

    /// Records that a directory exists at `p`.
    pub fn add_dir(&mut self, p: String)
        ensures
            final(self).dir_set() == old(self).dir_set().insert(p@),
            final(self).file_set() == old(self).file_set(),
    {
        let ghost orig = self.dirs.deep_view();
        self.dirs.push(p);
        proof {
            assert(self.dirs.deep_view() =~~= orig.push(p@));
            crate::strutil::lemma_insert_to_set(orig, orig.len() as int, p@);
            assert(orig.insert(orig.len() as int, p@) =~~= orig.push(p@));
        }
    }

    /// Whether `p` is known to be a regular file.
    pub fn is_file(&self, p: &str) -> (r: bool)
        ensures
            r == self.file_set().contains(p@),
    {
        contains_str(&self.files, p)
    }

    /// Whether `p` is known to be a directory.
    pub fn is_dir(&self, p: &str) -> (r: bool)
        ensures
            r == self.dir_set().contains(p@),
    {
        contains_str(&self.dirs, p)
    }
}

/// Whether some entry of `v` equals `p`, character for character.
pub fn contains_str(v: &Vec<String>, p: &str) -> (r: bool)
    ensures
        r == v.deep_view().to_set().contains(p@),
{
    let ghost view = v.deep_view();
    let mut k: usize = 0;
    while k < v.len()
        invariant
            v.deep_view() == view,
            k <= v@.len(),
            forall|m: int| 0 <= m < k ==> view[m] != p@,
        decreases v@.len() - k,
    {
        if str_eq(v[k].as_str(), p) {
            proof {
                assert(view[k as int] == p@);
                assert(view.contains(p@));
            }
            return true;
        }
        k = k + 1;
    }
    proof {
        if view.contains(p@) {
            let m = choose|m: int| 0 <= m < view.len() && view[m] == p@;
            assert(view[m] != p@);
        }
    }
    false
}

/// The directory at or above `dir` that directly holds a file called
/// `name`, walking parents upward.
pub open spec fn spec_find_up(name: Seq<char>, dir: Seq<char>, files: Set<Seq<char>>) -> Option<
    Seq<char>,
>
    decreases dir.len(),
{
    if files.contains(spec_path_join(dir, name)) {
        Some(dir)
    } else {
        match spec_parent(dir) {
            Some(p) => {
                proof {
                    lemma_parent_shorter(dir);
                }
                spec_find_up(name, p, files)
            },
            None => None,
        }
    }
}

/// Walks upward from `start_dir` looking for a directory that directly
/// holds a file called `name`; the exact counterpart of `spec_find_up`.
pub fn find_dir_upwards_containing(name: &str, start_dir: &str, fs: &FsView) -> (r: Option<String>)
    ensures
        r is Some <==> spec_find_up(name@, start_dir@, fs.file_set()) is Some,
        r is Some ==> r->Some_0@ == spec_find_up(name@, start_dir@, fs.file_set())->Some_0,
{
    let mut dir = start_dir.to_owned();
    loop
        invariant
            spec_find_up(name@, dir@, fs.file_set()) == spec_find_up(
                name@,
                start_dir@,
                fs.file_set(),
            ),
        decreases dir@.len(),
    {
        let candidate = path_join(dir.as_str(), name);
        if fs.is_file(candidate.as_str()) {
            return Some(dir);
        }
        match path_parent(dir.as_str()) {
            Some(p) => {
                proof {
                    lemma_parent_shorter(dir@);
                }
                dir = p;
            },
            None => {
                return None;
            },
        }
    }
}

} // verus!
