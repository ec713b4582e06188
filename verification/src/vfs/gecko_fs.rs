//! The file system as a whole: its two trees.

use vstd::prelude::*;

use super::tree::empty_dir;
use super::{Directory, FsView, GeckoFS};

verus! {

/// A file system without files.
pub open spec fn empty_fs<R>() -> FsView<R> {
    FsView { root: empty_dir(""@), system: empty_dir("&&systemdata"@) }
}

impl<R> GeckoFS<R> {
    /// A file system without files.
    pub fn new() -> (fs: GeckoFS<R>)
        ensures
            fs@ == empty_fs::<R>(),
            fs@.root.name == ""@,
            fs@.root.children.len() == 0,
            fs@.system.name == "&&systemdata"@,
            fs@.system.children.len() == 0,
    {
        GeckoFS { root: Directory::new(""), system: Directory::new("&&systemdata") }
    }

    /// The directory of the system's own files.
    pub fn sys(&self) -> (dir: &Directory<R>)
        ensures
            dir@ == self@.system,
    {
        &self.system
    }

    /// The directory of the system's own files, for changes.
    pub fn sys_mut(&mut self) -> (dir: &mut Directory<R>)
        ensures
            dir@ == old(self)@.system,
            final(self)@ == (FsView { system: (*final(dir))@, ..old(self)@ }),
    {
        &mut self.system
    }

    /// The directory at the root of the tree.
    pub fn root(&self) -> (dir: &Directory<R>)
        ensures
            dir@ == self@.root,
    {
        &self.root
    }

    /// The directory at the root of the tree, for changes.
    pub fn root_mut(&mut self) -> (dir: &mut Directory<R>)
        ensures
            dir@ == old(self)@.root,
            final(self)@ == (FsView { root: (*final(dir))@, ..old(self)@ }),
    {
        &mut self.root
    }
}

impl<R> Default for GeckoFS<R> {
    /// A file system without files.
    fn default() -> (fs: GeckoFS<R>)
        ensures
            fs@ == empty_fs::<R>(),
    {
        GeckoFS::new()
    }
}

} // verus!
