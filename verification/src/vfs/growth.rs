//! What stays in place while a tree grows.

use vstd::prelude::*;

use crate::text::{lemma_segment_end_bounds, segment_end, SEPARATOR};
use super::tree::{
    add_file, can_add_file, can_mkdir, empty_dir, find, is_match, lemma_find_from, mkdir,
    resolve,
};
use super::tree_laws::{law_resolve_inside, lemma_find_is, lemma_find_push, lemma_find_update};
use super::{DirView, FileView, NodeType, NodeView};

verus! {

/// One way for a tree to grow: a directory is made, a file is added, or a directory
/// is made and then grows itself.
pub enum Growth<R> {
    Mkdir(Seq<char>),
    AddFile(FileView<R>),
    Inside(Seq<char>, Box<Growth<R>>),
}

/// Whether a directory can grow in this way.
pub open spec fn can_grow<R>(dir: DirView<R>, g: Growth<R>) -> bool
    decreases g,
{
    match g {
        Growth::Mkdir(name) => can_mkdir(dir, name),
        Growth::AddFile(file) => can_add_file(dir, file.fst.relative_file_name),
        Growth::Inside(name, inner) => can_mkdir(dir, name) && can_grow(
            made_dir(dir, name),
            *inner,
        ),
    }
}

/// The directory that making a directory gives.
pub open spec fn made_dir<R>(dir: DirView<R>, name: Seq<char>) -> DirView<R> {
    mkdir(dir, name).children[find(dir.children, name, None)]->Directory_0
}

/// The directory after it has grown.
pub open spec fn grow<R>(dir: DirView<R>, g: Growth<R>) -> DirView<R>
    decreases g,
{
    match g {
        Growth::Mkdir(name) => mkdir(dir, name),
        Growth::AddFile(file) => add_file(dir, file),
        Growth::Inside(name, inner) => {
            let made = mkdir(dir, name);
            let child = NodeView::Directory(grow(made_dir(dir, name), *inner));
            let at = find(dir.children, name, None);
            DirView { children: made.children.update(at, child), ..made }
        },
    }
}

/// Whether a directory can grow in these ways, one after the other.
pub open spec fn can_grow_all<R>(dir: DirView<R>, gs: Seq<Growth<R>>) -> bool
    decreases gs.len(),
{
    gs.len() > 0 ==> can_grow_all(dir, gs.drop_last()) && can_grow(
        grow_all(dir, gs.drop_last()),
        gs.last(),
    )
}

/// The directory after it has grown in these ways, one after the other.
pub open spec fn grow_all<R>(dir: DirView<R>, gs: Seq<Growth<R>>) -> DirView<R>
    decreases gs.len(),
{
    if gs.len() == 0 {
        dir
    } else {
        grow(grow_all(dir, gs.drop_last()), gs.last())
    }
}

/// A search that succeeds is not changed by a node at the end.
proof fn lemma_find_kept<R>(
    nodes: Seq<NodeView<R>>,
    node: NodeView<R>,
    name: Seq<char>,
    kind: Option<NodeType>,
)
    requires
        find(nodes, name, kind) < nodes.len(),
    ensures
        find(nodes.push(node), name, kind) == find(nodes, name, kind),
{
    let i = find(nodes, name, kind);
    let after = nodes.push(node);
    lemma_find_from(nodes, name, kind, 0);
    assert forall|j: int| 0 <= j < i implies !is_match(#[trigger] after[j], name, kind) by {
        assert(!is_match(nodes[j], name, kind));
    }
    lemma_find_is(after, name, kind, i);
}

/// A path leads to the same file after a node is put at the end.
proof fn lemma_push_keeps<R>(dir: DirView<R>, node: NodeView<R>, path: Seq<char>)
    requires
        resolve(dir, path) is Some,
    ensures
        resolve(DirView { children: dir.children.push(node), ..dir }, path) == resolve(dir, path),
{
    let end = segment_end(path);
    lemma_segment_end_bounds(path);
    if end >= path.len() {
        lemma_find_from(dir.children, path, Some(NodeType::File), 0);
        lemma_find_kept(dir.children, node, path, Some(NodeType::File));
    } else {
        let name = path.take(end);
        lemma_find_from(dir.children, name, Some(NodeType::Directory), 0);
        lemma_find_kept(dir.children, node, name, Some(NodeType::Directory));
    }
}

/// A path that leads to a file leads to it after a file is added.
pub proof fn law_add_file_keeps<R>(dir: DirView<R>, file: FileView<R>, path: Seq<char>)
    requires
        resolve(dir, path) is Some,
    ensures
        resolve(add_file(dir, file), path) == resolve(dir, path),
{
    lemma_push_keeps(dir, NodeView::File(file), path);
}

/// A path that leads to a file leads to it after a directory is made.
pub proof fn law_mkdir_keeps<R>(dir: DirView<R>, name: Seq<char>, path: Seq<char>)
    requires
        resolve(dir, path) is Some,
    ensures
        resolve(mkdir(dir, name), path) == resolve(dir, path),
{
    lemma_push_keeps(dir, NodeView::Directory(empty_dir(name)), path);
}

/// A directory keeps its name while it grows.
proof fn lemma_grow_name<R>(dir: DirView<R>, g: Growth<R>)
    ensures
        grow(dir, g).name == dir.name,
    decreases g,
{
}

/// Where a directory is made, it is a directory of that name.
proof fn lemma_made<R>(dir: DirView<R>, name: Seq<char>)
    requires
        can_mkdir(dir, name),
    ensures
        ({
            let at = find(dir.children, name, None);
            &&& 0 <= at < mkdir(dir, name).children.len()
            &&& mkdir(dir, name).children[at] == NodeView::Directory(made_dir(dir, name))
            &&& made_dir(dir, name).name == name
        }),
{
    lemma_find_from(dir.children, name, None, 0);
}

/// A path that leads to a file leads to it after the tree has grown, at the root or
/// in any directory.
pub proof fn law_grow_keeps<R>(dir: DirView<R>, g: Growth<R>, path: Seq<char>)
    requires
        can_grow(dir, g),
        resolve(dir, path) is Some,
    ensures
        resolve(grow(dir, g), path) == resolve(dir, path),
    decreases g,
{
    match g {
        Growth::Mkdir(name) => law_mkdir_keeps(dir, name, path),
        Growth::AddFile(file) => law_add_file_keeps(dir, file, path),
        Growth::Inside(name, inner) => {
            let made = mkdir(dir, name);
            let at = find(dir.children, name, None);
            let child = made_dir(dir, name);
            let node = NodeView::Directory(grow(child, *inner));
            law_mkdir_keeps(dir, name, path);
            lemma_made(dir, name);
            lemma_grow_name(child, *inner);
            let end = segment_end(path);
            lemma_segment_end_bounds(path);
            if end >= path.len() {
                lemma_find_from(made.children, path, Some(NodeType::File), 0);
                lemma_find_update(made.children, at, node, path, Some(NodeType::File));
            } else {
                let first = path.take(end);
                let kind = Some(NodeType::Directory);
                lemma_find_from(made.children, first, kind, 0);
                lemma_find_update(made.children, at, node, first, kind);
                if find(made.children, first, kind) == at {
                    law_grow_keeps(child, *inner, path.skip(end + 1));
                }
            }
        },
    }
}

/// A path that leads to a file leads to it however the tree has grown since.
pub proof fn law_growths_keep<R>(dir: DirView<R>, gs: Seq<Growth<R>>, path: Seq<char>)
    requires
        can_grow_all(dir, gs),
        resolve(dir, path) is Some,
    ensures
        resolve(grow_all(dir, gs), path) == resolve(dir, path),
    decreases gs.len(),
{
    if gs.len() > 0 {
        law_growths_keep(dir, gs.drop_last(), path);
        law_grow_keeps(grow_all(dir, gs.drop_last()), gs.last(), path);
    }
}

/// A file that is added to a new directory is what its path leads to, however the
/// tree has grown since.
pub proof fn law_added_stays<R>(
    dir: DirView<R>,
    name: Seq<char>,
    file: FileView<R>,
    gs: Seq<Growth<R>>,
)
    requires
        find(dir.children, name, None) >= dir.children.len(),
        forall|i: int| 0 <= i < name.len() ==> name[i] != SEPARATOR,
        segment_end(file.fst.relative_file_name) == file.fst.relative_file_name.len(),
        can_grow_all(grow(dir, Growth::Inside(name, Box::new(Growth::AddFile(file)))), gs),
    ensures
        can_grow(dir, Growth::Inside(name, Box::new(Growth::AddFile(file)))),
        resolve(
            grow_all(grow(dir, Growth::Inside(name, Box::new(Growth::AddFile(file)))), gs),
            name.push(SEPARATOR) + file.fst.relative_file_name,
        ) == Some(file),
{
    let g = Growth::Inside(name, Box::new(Growth::AddFile(file)));
    let own = file.fst.relative_file_name;
    let path = name.push(SEPARATOR) + own;
    let made = mkdir(dir, name);
    let at = find(dir.children, name, None);
    let kind = Some(NodeType::Directory);
    lemma_find_from(dir.children, name, None, 0);
    let fresh = NodeView::Directory(empty_dir::<R>(name));
    lemma_find_push(dir.children, fresh);
    let child = empty_dir::<R>(name);
    assert(made_dir(dir, name) == child);
    let filled = add_file(child, file);
    assert(can_grow(child, Growth::AddFile(file)));
    assert(grow(child, Growth::AddFile(file)) == filled);
    lemma_find_push(child.children, NodeView::File(file));
    assert(resolve(filled, own) == Some(file));
    lemma_find_update(made.children, at, NodeView::Directory(filled), name, kind);
    let after = grow(dir, g);
    assert(after.children[at] == NodeView::Directory(filled));
    law_resolve_inside(after, name, own);
    law_growths_keep(after, gs, path);
}

} // verus!
