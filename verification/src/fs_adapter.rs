use vstd::prelude::*;

verus! {

/// Reads directories on Unix-like systems.
#[derive(Clone, Copy, Debug)]
pub struct UnixFsAdapter;

/// Reads directories on Windows.
#[derive(Clone, Copy, Debug)]
pub struct WindowsFsAdapter;

impl UnixFsAdapter {
    /// Whether an entry of this file type is safe to descend into: a
    /// directory, but not a symbolic link to one, which could lead in a circle.
    pub fn is_traversable_dir(&self, is_dir: bool, is_symlink: bool) -> (b: bool)
        ensures
            b == (is_dir && !is_symlink),
    {
        is_dir && !is_symlink
    }
}

impl WindowsFsAdapter {
    /// Whether an entry of this file type is safe to descend into: a
    /// directory, but not a symbolic link to one. Reparse points that are not
    /// symbolic links are descended into.
    pub fn is_traversable_dir(&self, is_dir: bool, is_symlink: bool) -> (b: bool)
        ensures
            b == (is_dir && !is_symlink),
    {
        is_dir && !is_symlink
    }
}

} // verus!
