//! What it means to search, extend and walk a tree, on trees as values.

use vstd::prelude::*;
use vstd::utf8::encode_utf8;

use crate::text::{lemma_segment_end_bounds, segment_end};
use super::{DirView, FileView, NodeType, NodeView};

verus! {

/// Whether a search for a node named `name`, of the given kind if one is given,
/// stops at `n`.
pub open spec fn is_match<R>(n: NodeView<R>, name: Seq<char>, kind: Option<NodeType>) -> bool {
    n.name() == name && (kind is Some ==> kind == Some(n.kind()))
}

/// The first node at or after `from` at which the search stops, or the number of
/// nodes.
pub open spec fn find_from<R>(
    nodes: Seq<NodeView<R>>,
    name: Seq<char>,
    kind: Option<NodeType>,
    from: int,
) -> int
    decreases nodes.len() - from,
{
    if from >= nodes.len() {
        nodes.len() as int
    } else if is_match(nodes[from], name, kind) {
        from
    } else {
        find_from(nodes, name, kind, from + 1)
    }
}

/// The first node at which the search stops, or the number of nodes.
pub open spec fn find<R>(nodes: Seq<NodeView<R>>, name: Seq<char>, kind: Option<NodeType>) -> int {
    find_from(nodes, name, kind, 0)
}

pub(crate) proof fn lemma_find_from<R>(
    nodes: Seq<NodeView<R>>,
    name: Seq<char>,
    kind: Option<NodeType>,
    from: int,
)
    requires
        0 <= from <= nodes.len(),
    ensures
        from <= find_from(nodes, name, kind, from) <= nodes.len(),
        forall|i: int|
            from <= i < find_from(nodes, name, kind, from) ==> !is_match(
                #[trigger] nodes[i],
                name,
                kind,
            ),
        find_from(nodes, name, kind, from) < nodes.len() ==> is_match(
            nodes[find_from(nodes, name, kind, from)],
            name,
            kind,
        ),
    decreases nodes.len() - from,
{
    if from < nodes.len() && !is_match(nodes[from], name, kind) {
        lemma_find_from(nodes, name, kind, from + 1);
    }
}

/// The file that `path` leads to from `dir`: every segment but the last names a
/// directory, the last one a file. Where several nodes fit, the first one counts.
pub open spec fn resolve<R>(dir: DirView<R>, path: Seq<char>) -> Option<FileView<R>>
    decreases path.len(),
{
    let end = segment_end(path);
    if end >= path.len() {
        let i = find(dir.children, path, Some(NodeType::File));
        if i < dir.children.len() {
            Some(dir.children[i]->File_0)
        } else {
            None
        }
    } else {
        proof {
            lemma_segment_end_bounds(path);
        }
        let i = find(dir.children, path.take(end), Some(NodeType::Directory));
        if i < dir.children.len() {
            resolve(dir.children[i]->Directory_0, path.skip(end + 1))
        } else {
            None
        }
    }
}

/// `dir` with the file that `path` leads to replaced by `file`.
pub open spec fn put_file<R>(dir: DirView<R>, path: Seq<char>, file: FileView<R>) -> DirView<R>
    decreases path.len(),
{
    let end = segment_end(path);
    if end >= path.len() {
        let i = find(dir.children, path, Some(NodeType::File));
        DirView { children: dir.children.update(i, NodeView::File(file)), ..dir }
    } else {
        proof {
            lemma_segment_end_bounds(path);
        }
        let i = find(dir.children, path.take(end), Some(NodeType::Directory));
        let child = put_file(dir.children[i]->Directory_0, path.skip(end + 1), file);
        DirView { children: dir.children.update(i, NodeView::Directory(child)), ..dir }
    }
}

/// An empty directory.
pub open spec fn empty_dir<R>(name: Seq<char>) -> DirView<R> {
    DirView { name, children: Seq::empty() }
}

/// Whether `dir` can have a directory named `name`: no other kind of node comes
/// first under that name.
pub open spec fn can_mkdir<R>(dir: DirView<R>, name: Seq<char>) -> bool {
    let i = find(dir.children, name, None);
    i < dir.children.len() ==> dir.children[i] is Directory
}

/// `dir` with a directory named `name`: the one that is there, or a new one at the
/// end.
pub open spec fn mkdir<R>(dir: DirView<R>, name: Seq<char>) -> DirView<R> {
    if find(dir.children, name, None) < dir.children.len() {
        dir
    } else {
        DirView { children: dir.children.push(NodeView::Directory(empty_dir(name))), ..dir }
    }
}

/// Whether `dir` can have a file named `name`: no other kind of node comes first
/// under that name.
pub open spec fn can_add_file<R>(dir: DirView<R>, name: Seq<char>) -> bool {
    let i = find(dir.children, name, None);
    i < dir.children.len() ==> dir.children[i] is File
}

/// `dir` with a file of `file`'s name: the one that is there, or `file` at the end.
pub open spec fn add_file<R>(dir: DirView<R>, file: FileView<R>) -> DirView<R> {
    if find(dir.children, file.fst.relative_file_name, None) < dir.children.len() {
        dir
    } else {
        DirView { children: dir.children.push(NodeView::File(file)), ..dir }
    }
}

/// The files of a node, depth first.
pub open spec fn node_files<R>(node: NodeView<R>) -> Seq<FileView<R>>
    decreases node, 0nat,
{
    match node {
        NodeView::File(f) => seq![f],
        NodeView::Directory(d) => all_files(d.children),
    }
}

/// The files of a sequence of nodes, depth first.
pub open spec fn all_files<R>(nodes: Seq<NodeView<R>>) -> Seq<FileView<R>>
    decreases nodes, nodes.len(),
{
    if nodes.len() == 0 {
        Seq::empty()
    } else {
        all_files(nodes.drop_last()) + node_files(nodes.last())
    }
}

pub(crate) proof fn lemma_all_files_concat<R>(a: Seq<NodeView<R>>, b: Seq<NodeView<R>>)
    ensures
        all_files(a + b) == all_files(a) + all_files(b),
    decreases b.len(),
{
    if b.len() == 0 {
        assert(a + b =~= a);
        assert(all_files(a) + all_files(b) =~= all_files(a));
    } else {
        lemma_all_files_concat(a, b.drop_last());
        assert((a + b).drop_last() =~= a + b.drop_last());
        assert((a + b).last() == b.last());
        assert(all_files(a + b) =~= all_files(a) + all_files(b));
    }
}

pub(crate) proof fn lemma_all_files_one<R>(nodes: Seq<NodeView<R>>)
    requires
        nodes.len() == 1,
    ensures
        all_files(nodes) == node_files(nodes[0]),
{
    assert(nodes.drop_last() =~= Seq::empty());
    assert(all_files(Seq::<NodeView<R>>::empty()) =~= Seq::empty());
    assert(all_files(nodes) =~= node_files(nodes[0]));
}

/// Whether two nodes differ in nothing but what their files are.
pub open spec fn same_shape<R>(a: NodeView<R>, b: NodeView<R>) -> bool
    decreases a,
{
    match (a, b) {
        (NodeView::File(_), NodeView::File(_)) => true,
        (NodeView::Directory(x), NodeView::Directory(y)) => {
            &&& x.name == y.name
            &&& x.children.len() == y.children.len()
            &&& forall|i: int|
                0 <= i < x.children.len() ==> same_shape(#[trigger] x.children[i], y.children[i])
        },
        _ => false,
    }
}

/// Whether no two nodes have the same name.
pub open spec fn distinct_names<R>(nodes: Seq<NodeView<R>>) -> bool {
    forall|i: int, j: int|
        0 <= i < j < nodes.len() ==> (#[trigger] nodes[i]).name() != (#[trigger] nodes[j]).name()
}

/// Whether no two nodes of any one directory in `node` have the same name.
pub open spec fn node_wf<R>(node: NodeView<R>) -> bool
    decreases node,
{
    match node {
        NodeView::File(_) => true,
        NodeView::Directory(d) => {
            &&& distinct_names(d.children)
            &&& forall|i: int| 0 <= i < d.children.len() ==> node_wf(#[trigger] d.children[i])
        },
    }
}

/// Whether no two nodes of any one directory in the tree have the same name.
pub open spec fn dir_wf<R>(dir: DirView<R>) -> bool {
    node_wf(NodeView::Directory(dir))
}

/// The bytes that an entry and its terminated name take in the file system table.
pub open spec fn own_fst_len(name: Seq<char>) -> nat {
    12 + encode_utf8(name).len() + 1
}

/// The bytes that a node takes in the file system table: for itself and for every
/// node in it.
pub open spec fn node_fst_len<R>(node: NodeView<R>) -> nat
    decreases node, 0nat,
{
    own_fst_len(node.name()) + match node {
        NodeView::File(_) => 0,
        NodeView::Directory(d) => all_fst_len(d.children),
    }
}

/// The bytes that a sequence of nodes takes in the file system table.
pub open spec fn all_fst_len<R>(nodes: Seq<NodeView<R>>) -> nat
    decreases nodes, nodes.len(),
{
    if nodes.len() == 0 {
        0
    } else {
        all_fst_len(nodes.drop_last()) + node_fst_len(nodes.last())
    }
}

} // verus!
