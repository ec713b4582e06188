//! What files, directories and file systems have in common.

use vstd::prelude::*;

use super::{Directory, File, GeckoFS, NodeEnum, NodeEnumMut, NodeEnumRef, NodeType, NodeView};

verus! {

/// A node of the tree, or what stands for one.
pub trait Node<R> {
    /// The node as a value.
    spec fn node_view(&self) -> NodeView<R>;

    /// The name of the node.
    fn name(&self) -> (name: &str)
        ensures
            name@ == self.node_view().name(),
    ;

    /// Whether the node is a file or a directory.
    fn get_type(&self) -> (kind: NodeType)
        ensures
            kind == self.node_view().kind(),
    ;

    /// The directory that the node is, if it is one.
    fn into_directory(self) -> (dir: Option<Directory<R>>) where Self: Sized
        ensures
            match self.node_view() {
                NodeView::Directory(d) => dir is Some && dir->0@ == d,
                NodeView::File(_) => dir is None,
            },
    ;

    /// The directory that the node is, if it is one.
    fn as_directory_ref(&self) -> (dir: Option<&Directory<R>>)
        ensures
            match self.node_view() {
                NodeView::Directory(d) => dir is Some && dir->0@ == d,
                NodeView::File(_) => dir is None,
            },
    ;

    /// The directory that the node is, if it is one. What is done to it is done to
    /// the node.
    fn as_directory_mut(&mut self) -> (dir: Option<&mut Directory<R>>)
        ensures
            match old(self).node_view() {
                NodeView::Directory(d) => dir is Some && dir->0@ == d
                    && final(self).node_view() == NodeView::Directory((*final(dir->0))@),
                NodeView::File(_) => dir is None && final(self).node_view()
                    == old(self).node_view(),
            },
    ;

    /// The file that the node is, if it is one.
    fn into_file(self) -> (file: Option<File<R>>) where Self: Sized
        ensures
            match self.node_view() {
                NodeView::File(f) => file is Some && file->0@ == f,
                NodeView::Directory(_) => file is None,
            },
    ;

    /// The file that the node is, if it is one.
    fn as_file_ref(&self) -> (file: Option<&File<R>>)
        ensures
            match self.node_view() {
                NodeView::File(f) => file is Some && file->0@ == f,
                NodeView::Directory(_) => file is None,
            },
    ;

    /// The file that the node is, if it is one. What is done to it is done to the
    /// node.
    fn as_file_mut(&mut self) -> (file: Option<&mut File<R>>)
        ensures
            match old(self).node_view() {
                NodeView::File(f) => file is Some && file->0@ == f
                    && final(self).node_view() == NodeView::File((*final(file->0))@),
                NodeView::Directory(_) => file is None && final(self).node_view()
                    == old(self).node_view(),
            },
    ;

    /// The node as one of its two kinds.
    fn as_enum_ref(&self) -> (node: NodeEnumRef<'_, R>)
        ensures
            match node {
                NodeEnumRef::File(f) => self.node_view() == NodeView::File(f@),
                NodeEnumRef::Directory(d) => self.node_view() == NodeView::Directory(d@),
            },
    {
        match self.get_type() {
            NodeType::File => NodeEnumRef::File(self.as_file_ref().unwrap()),
            NodeType::Directory => NodeEnumRef::Directory(self.as_directory_ref().unwrap()),
        }
    }

    /// The node as one of its two kinds. What is done to that is done to the node.
    fn as_enum_mut(&mut self) -> (node: NodeEnumMut<'_, R>)
        ensures
            match node {
                NodeEnumMut::File(f) => old(self).node_view() == NodeView::File(f@)
                    && final(self).node_view() == NodeView::File((*final(f))@),
                NodeEnumMut::Directory(d) => old(self).node_view() == NodeView::Directory(d@)
                    && final(self).node_view() == NodeView::Directory((*final(d))@),
            },
    {
        match self.get_type() {
            NodeType::File => NodeEnumMut::File(self.as_file_mut().unwrap()),
            NodeType::Directory => NodeEnumMut::Directory(self.as_directory_mut().unwrap()),
        }
    }

    /// The node as one of its two kinds.
    fn into_enum(self) -> (node: NodeEnum<R>) where Self: Sized
        ensures
            node@ == self.node_view(),
    {
        match self.get_type() {
            NodeType::File => NodeEnum::File(self.into_file().unwrap()),
            NodeType::Directory => NodeEnum::Directory(self.into_directory().unwrap()),
        }
    }
}

impl<R> Node<R> for File<R> {
    open spec fn node_view(&self) -> NodeView<R> {
        NodeView::File(self@)
    }

    fn name(&self) -> (name: &str) {
        self.fst.relative_file_name.as_str()
    }

    fn get_type(&self) -> (kind: NodeType) {
        NodeType::File
    }

    fn into_directory(self) -> (dir: Option<Directory<R>>) {
        None
    }

    fn as_directory_ref(&self) -> (dir: Option<&Directory<R>>) {
        None
    }

    fn as_directory_mut(&mut self) -> (dir: Option<&mut Directory<R>>) {
        None
    }

    fn into_file(self) -> (file: Option<File<R>>) {
        Some(self)
    }

    fn as_file_ref(&self) -> (file: Option<&File<R>>) {
        Some(self)
    }

    fn as_file_mut(&mut self) -> (file: Option<&mut File<R>>) {
        Some(self)
    }
}

impl<R> Node<R> for Directory<R> {
    open spec fn node_view(&self) -> NodeView<R> {
        NodeView::Directory(self@)
    }

    fn name(&self) -> (name: &str) {
        self.name.as_str()
    }

    fn get_type(&self) -> (kind: NodeType) {
        NodeType::Directory
    }

    fn into_directory(self) -> (dir: Option<Directory<R>>) {
        Some(self)
    }

    fn as_directory_ref(&self) -> (dir: Option<&Directory<R>>) {
        Some(self)
    }

    fn as_directory_mut(&mut self) -> (dir: Option<&mut Directory<R>>) {
        Some(self)
    }

    fn into_file(self) -> (file: Option<File<R>>) {
        None
    }

    fn as_file_ref(&self) -> (file: Option<&File<R>>) {
        None
    }

    fn as_file_mut(&mut self) -> (file: Option<&mut File<R>>) {
        None
    }
}

impl<R> Node<R> for NodeEnum<R> {
    open spec fn node_view(&self) -> NodeView<R> {
        self@
    }

    fn name(&self) -> (name: &str) {
        match self {
            NodeEnum::File(f) => f.name(),
            NodeEnum::Directory(d) => d.name(),
        }
    }

    fn get_type(&self) -> (kind: NodeType) {
        match self {
            NodeEnum::File(_) => NodeType::File,
            NodeEnum::Directory(_) => NodeType::Directory,
        }
    }

    fn into_directory(self) -> (dir: Option<Directory<R>>) {
        match self {
            NodeEnum::File(_) => None,
            NodeEnum::Directory(d) => Some(d),
        }
    }

    fn as_directory_ref(&self) -> (dir: Option<&Directory<R>>) {
        match self {
            NodeEnum::File(_) => None,
            NodeEnum::Directory(d) => Some(d),
        }
    }

    fn as_directory_mut(&mut self) -> (dir: Option<&mut Directory<R>>) {
        match self {
            NodeEnum::File(_) => None,
            NodeEnum::Directory(d) => Some(d),
        }
    }

    fn into_file(self) -> (file: Option<File<R>>) {
        match self {
            NodeEnum::File(f) => Some(f),
            NodeEnum::Directory(_) => None,
        }
    }

    fn as_file_ref(&self) -> (file: Option<&File<R>>) {
        match self {
            NodeEnum::File(f) => Some(f),
            NodeEnum::Directory(_) => None,
        }
    }

    fn as_file_mut(&mut self) -> (file: Option<&mut File<R>>) {
        match self {
            NodeEnum::File(f) => Some(f),
            NodeEnum::Directory(_) => None,
        }
    }
}

/// A file system stands for its root.
impl<R> Node<R> for GeckoFS<R> {
    open spec fn node_view(&self) -> NodeView<R> {
        NodeView::Directory(self@.root)
    }

    fn name(&self) -> (name: &str) {
        self.root.name()
    }

    fn get_type(&self) -> (kind: NodeType) {
        NodeType::Directory
    }

    fn into_directory(self) -> (dir: Option<Directory<R>>) {
        Some(self.root)
    }

    fn as_directory_ref(&self) -> (dir: Option<&Directory<R>>) {
        Some(&self.root)
    }

    fn as_directory_mut(&mut self) -> (dir: Option<&mut Directory<R>>)
        ensures
            final(self)@.system == old(self)@.system,
    {
        Some(&mut self.root)
    }

    fn into_file(self) -> (file: Option<File<R>>) {
        None
    }

    fn as_file_ref(&self) -> (file: Option<&File<R>>) {
        None
    }

    fn as_file_mut(&mut self) -> (file: Option<&mut File<R>>)
        ensures
            final(self)@ == old(self)@,
    {
        None
    }

    fn as_enum_mut(&mut self) -> (node: NodeEnumMut<'_, R>)
        ensures
            final(self)@.system == old(self)@.system,
    {
        NodeEnumMut::Directory(&mut self.root)
    }
}

} // verus!
