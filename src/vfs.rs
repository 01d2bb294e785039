//! The write side of the file system facade. Both container formats are
//! read-only by nature, so every mutation is refused.
use crate::arc::ArcFs;
use crate::bytesource::ByteSource;
use crate::wbfs::WbfsFs;
use vstd::prelude::*;

verus! {

/// Mutations of a file system view, refused by default.
pub trait ReadOnlyFs {
    /// Creates a directory; refused.
    fn create_dir(&self, path: &str) -> (r: bool)
        ensures
            !r,
    {
        false
    }

    /// Creates an empty file; refused.
    fn create_file(&self, path: &str) -> (r: bool)
        ensures
            !r,
    {
        false
    }

    /// Removes a file; refused.
    fn remove_file(&self, path: &str) -> (r: bool)
        ensures
            !r,
    {
        false
    }

    /// Removes a directory; refused.
    fn remove_dir(&self, path: &str) -> (r: bool)
        ensures
            !r,
    {
        false
    }

    /// Renames a path; refused.
    fn rename_path(&self, from: &str, to: &str) -> (r: bool)
        ensures
            !r,
    {
        false
    }
}

impl<S: ByteSource> ReadOnlyFs for ArcFs<S> {}

impl<S: ByteSource> ReadOnlyFs for WbfsFs<S> {}

} // verus!
