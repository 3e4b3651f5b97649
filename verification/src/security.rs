//! Path validation for file operations: a deletion may only touch paths
//! inside the allowed music directories.  The list is set once from the
//! store's music folders; all paths handled here are already canonical,
//! with components separated by a slash.

use vstd::prelude::*;
use crate::strings::str_chars;

verus! {

/// The directories file operations are confined to; `None` until the
/// music folders have been loaded.
pub struct AllowedDirs {
    pub dirs: Option<Vec<String>>,
}

/// The canonical path lies within the directory: the directory is a
/// prefix that ends on a component boundary.
pub open spec fn spec_path_within(path: Seq<char>, dir: Seq<char>) -> bool {
    &&& dir.len() <= path.len()
    &&& path.take(dir.len() as int) == dir
    &&& (dir.len() == path.len() || path[dir.len() as int] == '/' || (dir.len() > 0 && dir.last()
        == '/'))
}

/// Whether the path is within one of the allowed directories; an
/// uninitialized list allows everything, as the transition fallback.
pub open spec fn spec_safe_path(dirs: Option<Vec<String>>, path: Seq<char>) -> bool {
    match dirs {
        None => true,
        Some(ds) => exists|i: int|
            0 <= i < ds@.len() && spec_path_within(path, (#[trigger] ds@[i])@),
    }
}

fn path_within(path: &String, dir: &String) -> (r: bool)
    ensures
        r == spec_path_within(path@, dir@),
{
    let pc = str_chars(path.as_str());
    let dc = str_chars(dir.as_str());
    if dc.len() > pc.len() {
        return false;
    }
    let mut i: usize = 0;
    while i < dc.len()
        invariant
            i <= dc@.len() <= pc@.len(),
            pc@ == path@,
            dc@ == dir@,
            forall|j: int| 0 <= j < i ==> path@[j] == dir@[j],
        decreases dc@.len() - i,
    {
        if pc[i] != dc[i] {
            proof {
                assert(path@.take(dir@.len() as int)[i as int] != dir@[i as int]);
            }
            return false;
        }
        i = i + 1;
    }
    proof {
        assert(path@.take(dir@.len() as int) =~= dir@);
    }
    if dc.len() == pc.len() {
        return true;
    }
    if pc[dc.len()] == '/' {
        return true;
    }
    if dc.len() > 0 && dc[dc.len() - 1] == '/' {
        return true;
    }
    false
}

impl AllowedDirs {
    /// No directories loaded yet.
    pub fn new() -> (r: AllowedDirs)
        ensures
            r.dirs is None,
    {
        AllowedDirs { dirs: None }
    }

    /// Load the allowed directories from the music folders; once set, the
    /// list cannot be replaced.
    pub fn init_allowed_dirs(&mut self, dirs: Vec<String>)
        ensures
            match old(self).dirs {
                None => final(self).dirs == Some(dirs),
                Some(_) => *final(self) == *old(self),
            },
    {
        if self.dirs.is_none() {
            self.dirs = Some(dirs);
        }
    }

    /// Adding a music folder is validated against the store, not this
    /// list, so the list itself is unchanged.
    pub fn add_allowed_dir(&mut self, dir: String)
        ensures
            *final(self) == *old(self),
    {
        let _ = dir;
    }

    /// Whether a canonical path is safe to operate on: it lies within an
    /// allowed directory, or no list has been loaded yet.
    pub fn is_safe_path(&self, path: &String) -> (r: bool)
        ensures
            r == spec_safe_path(self.dirs, path@),
    {
        match &self.dirs {
            None => true,
            Some(ds) => {
                let mut i: usize = 0;
                while i < ds.len()
                    invariant
                        i <= ds@.len(),
                        self.dirs is Some && self.dirs->0 == *ds,
                        forall|j: int|
                            0 <= j < i ==> !spec_path_within(path@, (#[trigger] ds@[j])@),
                    decreases ds@.len() - i,
                {
                    if path_within(path, &ds[i]) {
                        proof {
                            assert(spec_safe_path(self.dirs, path@)) by {
                                assert(self.dirs->0 == *ds);
                                assert(spec_path_within(path@, ((self.dirs->0)@[i as int])@));
                            }
                        }
                        return true;
                    }
                    i = i + 1;
                }
                false
            },
        }
    }

    /// Validate a batch of canonical paths, reporting the first one that
    /// falls outside the allowed directories; everything before it is
    /// safe.
    pub fn validate_paths(&self, paths: &Vec<String>) -> (r: Result<(), String>)
        ensures
            match r {
                Ok(_) => forall|i: int|
                    0 <= i < paths@.len() ==> spec_safe_path(self.dirs, (#[trigger] paths@[i])@),
                Err(p) => exists|i: int|
                    0 <= i < paths@.len() && (#[trigger] paths@[i])@ == p@ && !spec_safe_path(
                        self.dirs,
                        paths@[i]@,
                    ) && (forall|k: int|
                        0 <= k < i ==> spec_safe_path(self.dirs, (#[trigger] paths@[k])@)),
            },
    {
        let mut i: usize = 0;
        while i < paths.len()
            invariant
                i <= paths@.len(),
                forall|j: int| 0 <= j < i ==> spec_safe_path(self.dirs, (#[trigger] paths@[j])@),
            decreases paths@.len() - i,
        {
            if !self.is_safe_path(&paths[i]) {
                let offending = paths[i].clone();
                proof {
                    assert(paths@[i as int]@ == offending@);
                }
                return Err(offending);
            }
            i = i + 1;
        }
        Ok(())
    }
}

} // verus!
