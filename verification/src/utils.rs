//! The directory part of a file name.
use vstd::prelude::*;
use crate::paths::{parent, spec_parent};

verus! {

/// Why a file name has no directory part to give.
#[derive(Debug, PartialEq, Eq, Structural)]
pub enum DirError {
    /// The name is a directory itself.
    IsADirectory,
    /// The name has no parent (it is empty, or ends in the root).
    NotFound,
}

/// The parent directory of `fname`, which the caller has found to be a directory
/// (`is_dir`) or not: refused for a directory, and for a name without a parent.
pub fn extract_directory<'a>(fname: &'a str, is_dir: bool) -> (r: Result<&'a str, DirError>)
    ensures
        is_dir ==> r == Err::<&str, DirError>(DirError::IsADirectory),
        !is_dir ==> match spec_parent(fname@) {
            Some(p) => r matches Ok(s) && s@ == p,
            None => r == Err::<&str, DirError>(DirError::NotFound),
        },
{
    if is_dir {
        return Err(DirError::IsADirectory);
    }
    match parent(fname) {
        Some(p) => Ok(p),
        None => Err(DirError::NotFound),
    }
}

} // verus!
