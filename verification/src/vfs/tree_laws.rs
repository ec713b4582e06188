//! What searching and extending a tree guarantee together.

use vstd::prelude::*;

use crate::iso::{FstEntryView, FstNodeType};
use crate::text::{lemma_segment_end_bounds, lemma_segment_end_unique, segment_end, SEPARATOR};
use super::assemble::{build_entry, build_range, entry_file};
use super::parse::{assemble, lemma_system_names, system_dir};
use super::tree::{
    add_file, all_files, can_add_file, can_mkdir, dir_wf, distinct_names, empty_dir, find,
    is_match, lemma_find_from, mkdir, node_files, node_wf, put_file, resolve, same_shape,
};
use super::{DirView, FileView, NodeType, NodeView};

verus! {

/// A search finds the node at `i` where that node fits and none before it does.
pub(crate) proof fn lemma_find_is<R>(
    nodes: Seq<NodeView<R>>,
    name: Seq<char>,
    kind: Option<NodeType>,
    i: int,
)
    requires
        0 <= i <= nodes.len(),
        i < nodes.len() ==> is_match(nodes[i], name, kind),
        forall|j: int| 0 <= j < i ==> !is_match(#[trigger] nodes[j], name, kind),
    ensures
        find(nodes, name, kind) == i,
{
    lemma_find_from(nodes, name, kind, 0);
}

/// Replacing a node by one of the same name and kind changes no search.
pub(crate) proof fn lemma_find_update<R>(
    nodes: Seq<NodeView<R>>,
    at: int,
    node: NodeView<R>,
    name: Seq<char>,
    kind: Option<NodeType>,
)
    requires
        0 <= at < nodes.len(),
        node.name() == nodes[at].name(),
        node.kind() == nodes[at].kind(),
    ensures
        find(nodes.update(at, node), name, kind) == find(nodes, name, kind),
{
    let i = find(nodes, name, kind);
    let after = nodes.update(at, node);
    lemma_find_from(nodes, name, kind, 0);
    assert forall|j: int| 0 <= j < i implies !is_match(#[trigger] after[j], name, kind) by {
        assert(!is_match(nodes[j], name, kind));
    }
    lemma_find_is(after, name, kind, i);
}

/// A path through a directory leads to where the rest of it leads in that directory.
pub proof fn law_resolve_inside<R>(dir: DirView<R>, name: Seq<char>, rest: Seq<char>)
    requires
        forall|i: int| 0 <= i < name.len() ==> name[i] != SEPARATOR,
    ensures
        resolve(dir, name.push(SEPARATOR) + rest) == {
            let i = find(dir.children, name, Some(NodeType::Directory));
            if i < dir.children.len() {
                resolve(dir.children[i]->Directory_0, rest)
            } else {
                None
            }
        },
{
    let path = name.push(SEPARATOR) + rest;
    lemma_segment_end_unique(path, name.len() as int);
    assert(path.take(name.len() as int) =~= name);
    assert(path.skip((name.len() + 1) as int) =~= rest);
}

/// Putting back the file that a path leads to changes nothing.
pub proof fn law_put_back<R>(dir: DirView<R>, path: Seq<char>)
    requires
        resolve(dir, path) is Some,
    ensures
        put_file(dir, path, resolve(dir, path)->0) == dir,
    decreases path.len(),
{
    let end = segment_end(path);
    lemma_segment_end_bounds(path);
    if end >= path.len() {
        let i = find(dir.children, path, Some(NodeType::File));
        lemma_find_from(dir.children, path, Some(NodeType::File), 0);
        assert(dir.children.update(i, dir.children[i]) =~= dir.children);
    } else {
        let i = find(dir.children, path.take(end), Some(NodeType::Directory));
        lemma_find_from(dir.children, path.take(end), Some(NodeType::Directory), 0);
        law_put_back(dir.children[i]->Directory_0, path.skip(end + 1));
        assert(dir.children.update(i, dir.children[i]) =~= dir.children);
    }
}

/// A file that is put in the place of another one of the same name is what the
/// path leads to from then on.
pub proof fn law_put_resolve<R>(dir: DirView<R>, path: Seq<char>, file: FileView<R>)
    requires
        resolve(dir, path) is Some,
        file.fst.relative_file_name == resolve(dir, path)->0.fst.relative_file_name,
    ensures
        resolve(put_file(dir, path, file), path) == Some(file),
    decreases path.len(),
{
    let end = segment_end(path);
    lemma_segment_end_bounds(path);
    if end >= path.len() {
        let i = find(dir.children, path, Some(NodeType::File));
        lemma_find_from(dir.children, path, Some(NodeType::File), 0);
        lemma_find_update(dir.children, i, NodeView::File(file), path, Some(NodeType::File));
    } else {
        let name = path.take(end);
        let i = find(dir.children, name, Some(NodeType::Directory));
        lemma_find_from(dir.children, name, Some(NodeType::Directory), 0);
        let child = dir.children[i]->Directory_0;
        let rest = path.skip(end + 1);
        law_put_resolve(child, rest, file);
        let node = NodeView::Directory(put_file(child, rest, file));
        lemma_find_update(dir.children, i, node, name, Some(NodeType::Directory));
    }
}

/// A path leads to the same place whatever is put, under the same name, where
/// another path leads.
pub proof fn law_put_other<R>(
    dir: DirView<R>,
    path: Seq<char>,
    file: FileView<R>,
    other: Seq<char>,
)
    requires
        resolve(dir, path) is Some,
        file.fst.relative_file_name == resolve(dir, path)->0.fst.relative_file_name,
        other != path,
    ensures
        resolve(put_file(dir, path, file), other) == resolve(dir, other),
    decreases path.len(),
{
    let end = segment_end(path);
    lemma_segment_end_bounds(path);
    let other_end = segment_end(other);
    lemma_segment_end_bounds(other);
    let kind = if end >= path.len() {
        NodeType::File
    } else {
        NodeType::Directory
    };
    let name = path.take(end);
    if end >= path.len() {
        assert(name =~= path);
    }
    let other_kind = if other_end >= other.len() {
        NodeType::File
    } else {
        NodeType::Directory
    };
    let other_name = other.take(other_end);
    if other_end >= other.len() {
        assert(other_name =~= other);
    }
    let i = find(dir.children, name, Some(kind));
    lemma_find_from(dir.children, name, Some(kind), 0);
    let k = find(dir.children, other_name, Some(other_kind));
    lemma_find_from(dir.children, other_name, Some(other_kind), 0);
    if end >= path.len() {
        let node = NodeView::File(file);
        lemma_find_update(dir.children, i, node, other_name, Some(other_kind));
    } else {
        let child = dir.children[i]->Directory_0;
        let rest = path.skip(end + 1);
        let node = NodeView::Directory(put_file(child, rest, file));
        lemma_find_update(dir.children, i, node, other_name, Some(other_kind));
        if other_kind == NodeType::Directory && k == i {
            let other_rest = other.skip(other_end + 1);
            assert(path =~= name.push(path[end]) + rest);
            assert(other =~= other_name.push(other[other_end]) + other_rest);
            law_put_other(child, rest, file, other_rest);
        }
    }
}

/// Putting a file in the place of another one of the same name keeps the names
/// of every directory distinct.
pub proof fn law_put_keeps_wf<R>(dir: DirView<R>, path: Seq<char>, file: FileView<R>)
    requires
        dir_wf(dir),
        resolve(dir, path) is Some,
        file.fst.relative_file_name == resolve(dir, path)->0.fst.relative_file_name,
    ensures
        dir_wf(put_file(dir, path, file)),
    decreases path.len(),
{
    let end = segment_end(path);
    lemma_segment_end_bounds(path);
    if end >= path.len() {
        lemma_find_from(dir.children, path, Some(NodeType::File), 0);
        let i = find(dir.children, path, Some(NodeType::File));
        lemma_wf_update(dir, i, NodeView::File(file));
    } else {
        let name = path.take(end);
        let i = find(dir.children, name, Some(NodeType::Directory));
        lemma_find_from(dir.children, name, Some(NodeType::Directory), 0);
        let child = dir.children[i]->Directory_0;
        assert(node_wf(dir.children[i]));
        law_put_keeps_wf(child, path.skip(end + 1), file);
        lemma_wf_update(dir, i, NodeView::Directory(put_file(child, path.skip(end + 1), file)));
    }
}

pub(crate) proof fn lemma_wf_update<R>(dir: DirView<R>, i: int, node: NodeView<R>)
    requires
        dir_wf(dir),
        0 <= i < dir.children.len(),
        node_wf(node),
        node.name() == dir.children[i].name(),
    ensures
        dir_wf(DirView { children: dir.children.update(i, node), ..dir }),
{
    let after = dir.children.update(i, node);
    assert forall|a: int, b: int| 0 <= a < b < after.len() implies (#[trigger] after[a]).name() != (
    #[trigger] after[b]).name() by {
        assert(dir.children[a].name() != dir.children[b].name());
    }
    assert forall|a: int| 0 <= a < after.len() implies node_wf(#[trigger] after[a]) by {
        if a != i {
            assert(node_wf(dir.children[a]));
        }
    }
}

proof fn lemma_wf_push<R>(dir: DirView<R>, node: NodeView<R>)
    requires
        dir_wf(dir),
        node_wf(node),
        find(dir.children, node.name(), None) >= dir.children.len(),
    ensures
        dir_wf(DirView { children: dir.children.push(node), ..dir }),
{
    let after = dir.children.push(node);
    lemma_find_from(dir.children, node.name(), None, 0);
    assert forall|a: int, b: int| 0 <= a < b < after.len() implies (#[trigger] after[a]).name() != (
    #[trigger] after[b]).name() by {
        assert(!is_match(dir.children[a], node.name(), None));
        if b < dir.children.len() {
            assert(dir.children[a].name() != dir.children[b].name());
        }
    }
    assert forall|a: int| 0 <= a < after.len() implies node_wf(#[trigger] after[a]) by {
        if a < dir.children.len() {
            assert(node_wf(dir.children[a]));
        }
    }
}

/// Making a directory keeps the names of every directory distinct.
pub proof fn law_mkdir_keeps_wf<R>(dir: DirView<R>, name: Seq<char>)
    requires
        dir_wf(dir),
    ensures
        dir_wf(mkdir(dir, name)),
{
    if find(dir.children, name, None) >= dir.children.len() {
        lemma_wf_push(dir, NodeView::Directory(empty_dir(name)));
    }
}

/// Adding a file keeps the names of every directory distinct.
pub proof fn law_add_file_keeps_wf<R>(dir: DirView<R>, file: FileView<R>)
    requires
        dir_wf(dir),
    ensures
        dir_wf(add_file(dir, file)),
{
    if find(dir.children, file.fst.relative_file_name, None) >= dir.children.len() {
        lemma_wf_push(dir, NodeView::File(file));
    }
}

pub(crate) proof fn lemma_find_push<R>(nodes: Seq<NodeView<R>>, node: NodeView<R>)
    requires
        find(nodes, node.name(), None) >= nodes.len(),
    ensures
        find(nodes.push(node), node.name(), None) == nodes.len(),
        find(nodes.push(node), node.name(), Some(node.kind())) == nodes.len(),
{
    lemma_find_from(nodes, node.name(), None, 0);
    let after = nodes.push(node);
    assert forall|j: int| 0 <= j < nodes.len() implies !is_match(
        #[trigger] after[j],
        node.name(),
        None,
    ) by {
        assert(!is_match(nodes[j], node.name(), None));
    }
    lemma_find_is(after, node.name(), None, nodes.len() as int);
    lemma_find_is(after, node.name(), Some(node.kind()), nodes.len() as int);
}

/// Making a directory twice is making it once: the second time it is there.
pub proof fn law_mkdir_again<R>(dir: DirView<R>, name: Seq<char>)
    requires
        can_mkdir(dir, name),
    ensures
        can_mkdir(mkdir(dir, name), name),
        mkdir(mkdir(dir, name), name) == mkdir(dir, name),
{
    if find(dir.children, name, None) >= dir.children.len() {
        lemma_find_push(dir.children, NodeView::Directory(empty_dir(name)));
    }
}

/// A file that is added under a name that nothing has is what its name leads to.
/// Where the name is taken by a file, adding changes nothing.
pub proof fn law_add_file_resolve<R>(dir: DirView<R>, file: FileView<R>)
    requires
        can_add_file(dir, file.fst.relative_file_name),
        segment_end(file.fst.relative_file_name) == file.fst.relative_file_name.len(),
    ensures
        resolve(add_file(dir, file), file.fst.relative_file_name) == match resolve(
            dir,
            file.fst.relative_file_name,
        ) {
            Some(f) => Some(f),
            None => Some(file),
        },
        resolve(dir, file.fst.relative_file_name) is Some ==> add_file(dir, file) == dir,
{
    let name = file.fst.relative_file_name;
    let i = find(dir.children, name, None);
    lemma_find_from(dir.children, name, None, 0);
    lemma_find_from(dir.children, name, Some(NodeType::File), 0);
    if i >= dir.children.len() {
        lemma_find_push(dir.children, NodeView::File(file));
        if resolve(dir, name) is Some {
            let k = find(dir.children, name, Some(NodeType::File));
            assert(!is_match(dir.children[k], name, None));
        }
    } else {
        assert forall|j: int| 0 <= j < i implies !is_match(
            #[trigger] dir.children[j],
            name,
            Some(NodeType::File),
        ) by {
            assert(!is_match(dir.children[j], name, None));
        }
        lemma_find_is(dir.children, name, Some(NodeType::File), i);
    }
}

/// A file that a path leads to is one of the files of the tree.
pub proof fn law_resolved_is_listed<R>(dir: DirView<R>, path: Seq<char>)
    requires
        resolve(dir, path) is Some,
    ensures
        all_files(dir.children).contains(resolve(dir, path)->0),
    decreases path.len(),
{
    let end = segment_end(path);
    lemma_segment_end_bounds(path);
    if end >= path.len() {
        let i = find(dir.children, path, Some(NodeType::File));
        lemma_find_from(dir.children, path, Some(NodeType::File), 0);
        let f = dir.children[i]->File_0;
        assert(node_files(dir.children[i])[0] == f);
        lemma_listed(dir.children, i, f);
    } else {
        let i = find(dir.children, path.take(end), Some(NodeType::Directory));
        lemma_find_from(dir.children, path.take(end), Some(NodeType::Directory), 0);
        law_resolved_is_listed(dir.children[i]->Directory_0, path.skip(end + 1));
        lemma_listed(dir.children, i, resolve(dir, path)->0);
    }
}

/// The files of a node are among those of a sequence that it belongs to.
proof fn lemma_listed<R>(nodes: Seq<NodeView<R>>, i: int, f: FileView<R>)
    requires
        0 <= i < nodes.len(),
        node_files(nodes[i]).contains(f),
    ensures
        all_files(nodes).contains(f),
    decreases nodes.len(),
{
    let front = all_files(nodes.drop_last());
    let back = node_files(nodes.last());
    if i == nodes.len() - 1 {
        let k = choose|k: int| 0 <= k < back.len() && back[k] == f;
        assert(all_files(nodes)[front.len() + k] == f);
    } else {
        lemma_listed(nodes.drop_last(), i, f);
        let k = choose|k: int| 0 <= k < front.len() && front[k] == f;
        assert(all_files(nodes)[k] == f);
    }
}

/// Assembling a node keeps the names of every directory distinct, and the name of
/// the directory that it goes to.
pub proof fn law_build_keeps_wf<R>(
    entries: Seq<FstEntryView>,
    cur: int,
    parent: DirView<R>,
    reader: R,
)
    requires
        dir_wf(parent),
    ensures
        build_entry(entries, cur, parent, reader) matches Some((_, dir)) ==> dir_wf(dir)
            && dir.name == parent.name,
    decreases entries.len() - cur, 1nat,
{
    if 0 <= cur < entries.len() {
        let e = entries[cur];
        let name = e.relative_file_name;
        if e.kind == FstNodeType::File {
            law_add_file_keeps_wf(parent, entry_file(e, reader));
        } else if can_mkdir(parent, name) && e.file_size_next_dir_index > 0 {
            let at = find(parent.children, name, None);
            lemma_find_from(parent.children, name, None, 0);
            let made = mkdir(parent, name);
            law_mkdir_keeps_wf(parent, name);
            assert(node_wf(made.children[at]));
            let inner = made.children[at]->Directory_0;
            let last = e.file_size_next_dir_index - 1;
            lemma_build_range_keeps_wf(entries, cur, last, inner, reader);
            if let Some((_, dir)) = build_range(entries, cur, last, inner, reader) {
                lemma_wf_update(made, at, NodeView::Directory(dir));
            }
        }
    }
}

pub(crate) proof fn lemma_build_range_keeps_wf<R>(
    entries: Seq<FstEntryView>,
    cur: int,
    last: int,
    dir: DirView<R>,
    reader: R,
)
    requires
        dir_wf(dir),
    ensures
        build_range(entries, cur, last, dir, reader) matches Some((_, built)) ==> dir_wf(built)
            && built.name == dir.name,
    decreases entries.len() - cur, 0nat,
{
    if cur < last && 0 <= cur && cur + 1 < entries.len() {
        law_build_keeps_wf(entries, cur + 1, dir, reader);
        if let Some((end, next)) = build_entry(entries, cur + 1, dir, reader) {
            if cur < end < entries.len() {
                lemma_build_range_keeps_wf(entries, end, last, next, reader);
            }
        }
    }
}

/// A file system that is read from a disc has no two nodes of one name in any
/// directory, and its two trees have the names of an empty file system.
pub proof fn law_parsed_wf<R>(
    entries: Seq<FstEntryView>,
    dol_offset: int,
    fst_offset: int,
    fst_size: int,
    reader: R,
)
    ensures
        assemble(entries, dol_offset, fst_offset, fst_size, reader) matches Some(fs) ==> {
            &&& dir_wf(fs.root)
            &&& dir_wf(fs.system)
            &&& fs.root.name == ""@
            &&& fs.system.name == "&&systemdata"@
        },
{
    let empty = empty_dir::<R>(""@);
    assert(dir_wf(empty));
    lemma_build_range_keeps_wf(entries, 0, entries.len() - 1, empty, reader);
    let system = system_dir(dol_offset, fst_offset, fst_size, reader);
    lemma_system_names();
    assert(distinct_names(system.children));
    assert forall|i: int| 0 <= i < system.children.len() implies node_wf(
        #[trigger] system.children[i],
    ) by {
        assert(system.children[i] is File);
    }
    assert(dir_wf(system));
}

/// Nodes of the same shape have as many files.
proof fn lemma_shape_count<R>(a: NodeView<R>, b: NodeView<R>)
    requires
        same_shape(a, b),
    ensures
        node_files(a).len() == node_files(b).len(),
    decreases a, 0nat,
{
    if let NodeView::Directory(x) = a {
        lemma_shape_count_all(x.children, b->Directory_0.children);
    }
}

proof fn lemma_shape_count_all<R>(a: Seq<NodeView<R>>, b: Seq<NodeView<R>>)
    requires
        a.len() == b.len(),
        forall|i: int| 0 <= i < a.len() ==> same_shape(#[trigger] a[i], b[i]),
    ensures
        all_files(a).len() == all_files(b).len(),
    decreases a, a.len(),
{
    if a.len() > 0 {
        let x = a.drop_last();
        let y = b.drop_last();
        assert forall|i: int| 0 <= i < x.len() implies same_shape(#[trigger] x[i], y[i]) by {
            assert(same_shape(a[i], b[i]));
        }
        lemma_shape_count_all(x, y);
        assert(same_shape(a[a.len() - 1], b[b.len() - 1]));
        lemma_shape_count(a.last(), b.last());
        assert(all_files(b) == all_files(y) + node_files(b.last()));
    }
}

proof fn lemma_same_node<R>(a: NodeView<R>, b: NodeView<R>)
    requires
        same_shape(a, b),
        node_files(a) == node_files(b),
    ensures
        a == b,
    decreases a, 0nat,
{
    match a {
        NodeView::File(f) => {
            assert(node_files(a)[0] == f);
            assert(node_files(b)[0] == b->File_0);
        },
        NodeView::Directory(x) => {
            lemma_same_nodes(x.children, b->Directory_0.children);
        },
    }
}

proof fn lemma_same_nodes<R>(a: Seq<NodeView<R>>, b: Seq<NodeView<R>>)
    requires
        a.len() == b.len(),
        forall|i: int| 0 <= i < a.len() ==> same_shape(#[trigger] a[i], b[i]),
        all_files(a) == all_files(b),
    ensures
        a == b,
    decreases a, a.len(),
{
    if a.len() > 0 {
        let x = a.drop_last();
        let y = b.drop_last();
        assert forall|i: int| 0 <= i < x.len() implies same_shape(#[trigger] x[i], y[i]) by {
            assert(same_shape(a[i], b[i]));
        }
        assert(same_shape(a[a.len() - 1], b[b.len() - 1]));
        lemma_shape_count_all(x, y);
        lemma_shape_count(a.last(), b.last());
        let n = all_files(x).len() as int;
        assert(all_files(a) == all_files(x) + node_files(a.last()));
        assert(all_files(b) == all_files(y) + node_files(b.last()));
        assert(all_files(x) =~= all_files(a).take(n));
        assert(all_files(y) =~= all_files(b).take(n));
        assert(node_files(a.last()) =~= all_files(a).skip(n));
        assert(node_files(b.last()) =~= all_files(b).skip(n));
        lemma_same_nodes(x, y);
        lemma_same_node(a.last(), b.last());
        assert(a =~= x.push(a.last()));
        assert(b =~= y.push(b.last()));
    } else {
        assert(a =~= b);
    }
}

/// Directories of the same shape with the same files in order are the same: a walk
/// over the files of a tree that leaves the files alone changes nothing.
pub proof fn law_same_tree<R>(a: DirView<R>, b: DirView<R>)
    requires
        same_shape(NodeView::Directory(a), NodeView::Directory(b)),
        all_files(a.children) == all_files(b.children),
    ensures
        a == b,
{
    lemma_same_node(NodeView::Directory(a), NodeView::Directory(b));
}

} // verus!
