//! The virtual file system: files, directories and the tree that they form.

pub mod assemble;
pub mod directory;
pub mod disc_kinds;
pub mod disc_laws;
pub mod error;
pub mod file;
pub mod gecko_fs;
pub mod growth;
pub mod image;
pub mod image_laws;
pub mod lock;
pub mod node;
pub mod parse;
pub mod parse_laws;
pub mod progress;
pub mod read_laws;
pub mod reread;
pub mod rewrite;
pub mod round_trip;
pub mod search_laws;
pub mod serialize;
pub mod table;
pub mod table_laws;
pub mod tree;
pub mod tree_laws;
pub mod writer_laws;

use async_std::sync::Mutex;
use std::sync::Arc;
use vstd::prelude::*;

use crate::iso::{FstEntry, FstEntryView};

pub use error::{FsError, FsErrorView};
pub use file::{DiscReply, FileError, FilePoll, FileStep, SeekFrom};
pub use node::Node;

verus! {

/// Whether a node is a file or a directory.
#[derive(Debug, Clone, Copy, PartialEq, Eq, PartialOrd, Structural)]
pub enum NodeType {
    File,
    Directory,
}

/// Where a read from a file stands: before the seek to its position, or after.
#[derive(Debug, Clone, Copy, PartialEq, Eq, Structural)]
pub enum FileReadState {
    Seeking,
    Reading,
}

/// The position of a file's reader and the progress of the current read.
#[derive(Debug, Clone, Copy)]
pub(crate) struct FileState {
    pub(crate) cursor: u64,
    pub(crate) state: FileReadState,
}

/// Where the data of a file comes from: a shared handle to the disc that holds
/// it, or bytes in memory behind a lock. Who else has the lock can replace them.
#[derive(Debug)]
pub enum FileDataSource<R> {
    Reader(Arc<R>),
    Box(Arc<Mutex<Box<[u8]>>>),
}

/// The data of a file: what its source gives, or bytes of its own, which only the
/// file and its clones have, with the lock that a read of them takes.
#[derive(Debug)]
pub(crate) enum FileData<R> {
    Reader(Arc<R>),
    Shared(Arc<Mutex<Box<[u8]>>>),
    Own(Arc<Box<[u8]>>, Arc<Mutex<()>>),
}

/// A file: its entry in the file system table, the place it is given in a new
/// image, its read position and its data.
#[derive(Debug)]
pub struct File<R> {
    fst: FstEntry,
    new_offset: u64,
    state: FileState,
    data: FileData<R>,
}

/// A directory: a name and the nodes in it, in order.
pub struct Directory<R> {
    name: String,
    children: Vec<NodeEnum<R>>,
}

/// A node of the tree.
pub enum NodeEnum<R> {
    File(File<R>),
    Directory(Directory<R>),
}

/// A node of the tree, borrowed.
pub enum NodeEnumRef<'a, R> {
    File(&'a File<R>),
    Directory(&'a Directory<R>),
}

/// A node of the tree, borrowed for changes.
pub enum NodeEnumMut<'a, R> {
    File(&'a mut File<R>),
    Directory(&'a mut Directory<R>),
}

/// A file system: the tree of files and the files that the system itself needs.
pub struct GeckoFS<R> {
    root: Directory<R>,
    system: Directory<R>,
}

/// The data of a file as a value: the disc handle; the lock that the bytes stand
/// behind; or the bytes and their lock.
pub enum DataView<R> {
    Reader(R),
    Shared(Arc<Mutex<Box<[u8]>>>),
    Own(Seq<u8>, Arc<Mutex<()>>),
}

/// A file as a value.
pub struct FileView<R> {
    pub fst: FstEntryView,
    pub new_offset: u64,
    pub cursor: u64,
    pub state: FileReadState,
    pub data: DataView<R>,
}

/// A directory as a value.
pub struct DirView<R> {
    pub name: Seq<char>,
    pub children: Seq<NodeView<R>>,
}

/// A node as a value.
pub enum NodeView<R> {
    File(FileView<R>),
    Directory(DirView<R>),
}

/// A file system as a value.
pub struct FsView<R> {
    pub root: DirView<R>,
    pub system: DirView<R>,
}

impl<R> View for FileDataSource<R> {
    type V = DataView<R>;

    open spec fn view(&self) -> DataView<R> {
        match *self {
            FileDataSource::Reader(r) => DataView::Reader(*r),
            FileDataSource::Box(shared) => DataView::Shared(shared),
        }
    }
}

impl<R> View for FileData<R> {
    type V = DataView<R>;

    closed spec fn view(&self) -> DataView<R> {
        match *self {
            FileData::Reader(r) => DataView::Reader(*r),
            FileData::Shared(shared) => DataView::Shared(shared),
            FileData::Own(d, lock) => DataView::Own(d@, lock),
        }
    }
}

impl<R> View for File<R> {
    type V = FileView<R>;

    closed spec fn view(&self) -> FileView<R> {
        FileView {
            fst: self.fst@,
            new_offset: self.new_offset,
            cursor: self.state.cursor,
            state: self.state.state,
            data: self.data@,
        }
    }
}

spec fn dir_view<R>(d: Directory<R>) -> DirView<R>
    decreases d,
{
    DirView {
        name: d.name@,
        children: Seq::new(
            d.children@.len(),
            |i: int|
                if 0 <= i < d.children@.len() {
                    node_view(d.children@[i])
                } else {
                    arbitrary()
                },
        ),
    }
}

spec fn node_view<R>(n: NodeEnum<R>) -> NodeView<R>
    decreases n,
{
    match n {
        NodeEnum::File(f) => NodeView::File(f@),
        NodeEnum::Directory(d) => NodeView::Directory(dir_view(d)),
    }
}

impl<R> View for Directory<R> {
    type V = DirView<R>;

    closed spec fn view(&self) -> DirView<R> {
        dir_view(*self)
    }
}

impl<R> View for NodeEnum<R> {
    type V = NodeView<R>;

    closed spec fn view(&self) -> NodeView<R> {
        node_view(*self)
    }
}

impl<R> View for GeckoFS<R> {
    type V = FsView<R>;

    closed spec fn view(&self) -> FsView<R> {
        FsView { root: self.root@, system: self.system@ }
    }
}

/// The nodes of a sequence as values.
pub open spec fn nodes_view<R>(nodes: Seq<NodeEnum<R>>) -> Seq<NodeView<R>> {
    Seq::new(nodes.len(), |i: int| nodes[i]@)
}

/// The view of a node, variant by variant.
pub broadcast proof fn lemma_node_view<R>(n: NodeEnum<R>)
    ensures
        #[trigger] n@ == match n {
            NodeEnum::File(f) => NodeView::File(f@),
            NodeEnum::Directory(d) => NodeView::Directory(d@),
        },
{
}

/// The view of a directory, field by field.
broadcast proof fn lemma_dir_view<R>(d: Directory<R>)
    ensures
        #[trigger] d@ == (DirView { name: d.name@, children: nodes_view(d.children@) }),
{
    assert(d@.children =~= nodes_view(d.children@));
}

/// The view of a directory that differs from `d` in one node at most.
proof fn lemma_dir_update<R>(d: Directory<R>, index: int)
    requires
        0 <= index < d.children@.len(),
    ensures
        d@.children.update(index, d@.children[index]) == d@.children,
        forall|e: Directory<R>|
            e.name == d.name && e.children@ == d.children@.update(index, e.children@[index])
                ==> (#[trigger] e@) == (DirView {
                name: d@.name,
                children: d@.children.update(
                    index,
                    match e.children@[index] {
                        NodeEnum::File(f) => NodeView::File(f@),
                        NodeEnum::Directory(c) => NodeView::Directory(c@),
                    },
                ),
            }),
{
    lemma_dir_view(d);
    assert(d@.children.update(index, d@.children[index]) =~= d@.children);
    assert forall|e: Directory<R>|
        e.name == d.name && e.children@ == d.children@.update(
            index,
            e.children@[index],
        ) implies (#[trigger] e@) == (DirView {
        name: d@.name,
        children: d@.children.update(
            index,
            match e.children@[index] {
                NodeEnum::File(f) => NodeView::File(f@),
                NodeEnum::Directory(c) => NodeView::Directory(c@),
            },
        ),
    }) by {
        lemma_node_view(e.children@[index]);
        lemma_dir_view(e);
        assert(nodes_view(e.children@) =~= nodes_view(d.children@).update(
            index,
            e.children@[index]@,
        ));
    }
}

impl<R> NodeView<R> {
    /// The name of the node.
    pub open spec fn name(self) -> Seq<char> {
        match self {
            NodeView::File(f) => f.fst.relative_file_name,
            NodeView::Directory(d) => d.name,
        }
    }

    /// Whether the node is a file or a directory.
    pub open spec fn kind(self) -> NodeType {
        match self {
            NodeView::File(_) => NodeType::File,
            NodeView::Directory(_) => NodeType::Directory,
        }
    }
}

} // verus!
