//! Watching a directory for changes.
use vstd::prelude::*;
use crate::components::Directory;

verus! {

/// Whether a watch covers the subdirectories of the watched directory.
#[derive(Debug, Clone, Copy, PartialEq, Eq)]
pub enum DirmonWatchMode {
    Recursive,
    NonRecursive,
}

/// Something that can watch a directory and report its changes; an error
/// is described as text.
pub trait Watchable {
    fn watch(&self, directory: &Directory, watch_mode: DirmonWatchMode) -> Result<(), String>;
}

} // verus!
