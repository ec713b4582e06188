//! What searches find and what additions add, on the nodes of a directory.

use vstd::prelude::*;
use vstd::utf8::encode_utf8;

use crate::text::{lemma_segment_end_bounds, lemma_segment_end_unique, segment_end};
use super::parse_laws::{first_named, name_is_free};
use super::serialize::total_len;
use super::tree::{
    add_file, all_files, all_fst_len, can_add_file, can_mkdir, find, is_match,
    lemma_all_files_concat, lemma_all_files_one, lemma_find_from, mkdir, node_files,
    node_fst_len, put_file, resolve, same_shape,
};
use super::tree_laws::{law_resolve_inside, lemma_find_is};
use super::{DirView, FileView, NodeType, NodeView};

verus! {

/// Whether the first node of this name and kind is at `at`.
pub open spec fn first_of_kind<R>(
    nodes: Seq<NodeView<R>>,
    name: Seq<char>,
    wants_file: bool,
    at: int,
) -> bool {
    &&& 0 <= at < nodes.len()
    &&& nodes[at].name() == name
    &&& (nodes[at] is File) == wants_file
    &&& forall|j: int|
        0 <= j < at && ((#[trigger] nodes[j]) is File) == wants_file ==> nodes[j].name() != name
}

/// Whether no node has this name and kind.
pub open spec fn none_of_kind<R>(
    nodes: Seq<NodeView<R>>,
    name: Seq<char>,
    wants_file: bool,
) -> bool {
    forall|j: int|
        0 <= j < nodes.len() && ((#[trigger] nodes[j]) is File) == wants_file ==> nodes[j].name()
            != name
}

/// A search finds the first node of the name, and of the kind if one is given; where
/// there is none, it gives the number of nodes.
pub proof fn law_find<R>(nodes: Seq<NodeView<R>>, name: Seq<char>, at: int)
    ensures
        first_named(nodes, name, at) ==> find(nodes, name, None) == at,
        name_is_free(nodes, name) ==> find(nodes, name, None) == nodes.len(),
        first_of_kind(nodes, name, true, at) ==> find(nodes, name, Some(NodeType::File)) == at,
        none_of_kind(nodes, name, true) ==> find(nodes, name, Some(NodeType::File)) == nodes.len(),
        first_of_kind(nodes, name, false, at) ==> find(nodes, name, Some(NodeType::Directory))
            == at,
        none_of_kind(nodes, name, false) ==> find(nodes, name, Some(NodeType::Directory))
            == nodes.len(),
{
    let n = nodes.len() as int;
    let file = Some(NodeType::File);
    let directory = Some(NodeType::Directory);
    if first_named(nodes, name, at) {
        assert forall|j: int| 0 <= j < at implies !is_match(#[trigger] nodes[j], name, None) by {}
        lemma_find_is(nodes, name, None, at);
    }
    if name_is_free(nodes, name) {
        assert forall|j: int| 0 <= j < n implies !is_match(#[trigger] nodes[j], name, None) by {}
        lemma_find_is(nodes, name, None, n);
    }
    if first_of_kind(nodes, name, true, at) {
        assert forall|j: int| 0 <= j < at implies !is_match(#[trigger] nodes[j], name, file) by {}
        lemma_find_is(nodes, name, file, at);
    }
    if none_of_kind(nodes, name, true) {
        assert forall|j: int| 0 <= j < n implies !is_match(#[trigger] nodes[j], name, file) by {}
        lemma_find_is(nodes, name, file, n);
    }
    if first_of_kind(nodes, name, false, at) {
        assert forall|j: int| 0 <= j < at implies !is_match(
            #[trigger] nodes[j],
            name,
            directory,
        ) by {}
        lemma_find_is(nodes, name, directory, at);
    }
    if none_of_kind(nodes, name, false) {
        assert forall|j: int| 0 <= j < n implies !is_match(
            #[trigger] nodes[j],
            name,
            directory,
        ) by {}
        lemma_find_is(nodes, name, directory, n);
    }
}

/// A path without a separator leads to the first file of that name, and nowhere if
/// there is none; directories of that name do not count.
pub proof fn law_resolve_name<R>(dir: DirView<R>, name: Seq<char>, at: int)
    requires
        forall|i: int| 0 <= i < name.len() ==> name[i] != '/',
    ensures
        first_of_kind(dir.children, name, true, at) ==> resolve(dir, name) == Some(
            dir.children[at]->File_0,
        ),
        none_of_kind(dir.children, name, true) ==> resolve(dir, name) is None,
{
    lemma_segment_end_unique(name, name.len() as int);
    law_find(dir.children, name, at);
}

/// A path with a separator leads to where the rest of it leads in the first directory
/// that has the name before the separator, and nowhere if there is none; files of that
/// name do not count.
pub proof fn law_resolve_through<R>(
    dir: DirView<R>,
    name: Seq<char>,
    rest: Seq<char>,
    at: int,
)
    requires
        forall|i: int| 0 <= i < name.len() ==> name[i] != '/',
    ensures
        first_of_kind(dir.children, name, false, at) ==> resolve(dir, name.push('/') + rest)
            == resolve(dir.children[at]->Directory_0, rest),
        none_of_kind(dir.children, name, false) ==> resolve(dir, name.push('/') + rest) is None,
{
    law_resolve_inside(dir, name, rest);
    law_find(dir.children, name, at);
}

/// Making a directory puts an empty one of that name at the end, if nothing has the
/// name; else nothing changes. It can be done unless a file is the first of the name.
pub proof fn law_mkdir<R>(dir: DirView<R>, name: Seq<char>, at: int)
    ensures
        name_is_free(dir.children, name) ==> {
            let made = mkdir(dir, name);
            let n = dir.children.len() as int;
            &&& can_mkdir(dir, name)
            &&& made.name == dir.name
            &&& made.children.len() == n + 1
            &&& made.children.take(n) == dir.children
            &&& made.children[n] is Directory
            &&& made.children[n]->Directory_0.name == name
            &&& made.children[n]->Directory_0.children.len() == 0
        },
        first_named(dir.children, name, at) ==> {
            &&& mkdir(dir, name) == dir
            &&& can_mkdir(dir, name) == dir.children[at] is Directory
        },
{
    law_find(dir.children, name, at);
    assert(mkdir(dir, name).children.take(dir.children.len() as int) =~= dir.children);
}

/// Adding a file puts it at the end, if nothing has its name; else nothing changes. It
/// can be done unless a directory is the first of the name.
pub proof fn law_add_file<R>(dir: DirView<R>, file: FileView<R>, at: int)
    ensures
        name_is_free(dir.children, file.fst.relative_file_name) ==> {
            let after = add_file(dir, file);
            &&& can_add_file(dir, file.fst.relative_file_name)
            &&& after.name == dir.name
            &&& after.children == dir.children.push(NodeView::File(file))
        },
        first_named(dir.children, file.fst.relative_file_name, at) ==> {
            &&& add_file(dir, file) == dir
            &&& can_add_file(dir, file.fst.relative_file_name) == dir.children[at] is File
        },
{
    law_find(dir.children, file.fst.relative_file_name, at);
}

/// The files of nodes are those of the first ones and then those of the others; a file
/// is its own; and the files of a directory are those of what it holds.
pub proof fn law_all_files<R>(a: Seq<NodeView<R>>, b: Seq<NodeView<R>>, node: NodeView<R>)
    ensures
        all_files(a + b) == all_files(a) + all_files(b),
        all_files(seq![node]) == match node {
            NodeView::File(f) => seq![f],
            NodeView::Directory(d) => all_files(d.children),
        },
        all_files(Seq::<NodeView<R>>::empty()).len() == 0,
{
    lemma_all_files_concat(a, b);
    lemma_all_files_one(seq![node]);
}

/// The bytes that nodes take in a table are those of the first ones and of the others;
/// a node takes twelve for its entry, one for each byte of its name and one more, and a
/// directory as many again as what it holds takes.
pub proof fn law_fst_len<R>(a: Seq<NodeView<R>>, b: Seq<NodeView<R>>, node: NodeView<R>)
    ensures
        all_fst_len(a + b) == all_fst_len(a) + all_fst_len(b),
        all_fst_len(seq![node]) == node_fst_len(node),
        all_fst_len(Seq::<NodeView<R>>::empty()) == 0,
        node_fst_len(node) == 12 + encode_utf8(node.name()).len() + 1 + match node {
            NodeView::File(_) => 0,
            NodeView::Directory(d) => all_fst_len(d.children),
        },
    decreases b.len(),
{
    let one = seq![node];
    assert(one.drop_last() =~= Seq::empty());
    assert(all_fst_len(one.drop_last()) == 0);
    if b.len() == 0 {
        assert(a + b =~= a);
    } else {
        law_fst_len(a, b.drop_last(), node);
        assert((a + b).drop_last() =~= a + b.drop_last());
        assert((a + b).last() == b.last());
    }
}

/// The sum of the sizes of files grows by the size of each one.
pub proof fn law_total_len<R>(files: Seq<FileView<R>>, f: FileView<R>)
    ensures
        total_len(Seq::<FileView<R>>::empty()) == 0,
        total_len(files.push(f)) == total_len(files) + f.fst.file_size_next_dir_index,
{
    assert(files.push(f).drop_last() =~= files);
}

/// Whether `after` has the files of `before` but for one, which is `f` there and `g`
/// here.
pub open spec fn one_replaced<R>(
    before: Seq<FileView<R>>,
    after: Seq<FileView<R>>,
    f: FileView<R>,
    g: FileView<R>,
) -> bool {
    exists|k: int|
        0 <= k < before.len() && before[k] == f && after == #[trigger] before.update(k, g)
}

proof fn lemma_replace_in<R>(
    nodes: Seq<NodeView<R>>,
    at: int,
    node: NodeView<R>,
    f: FileView<R>,
    g: FileView<R>,
)
    requires
        0 <= at < nodes.len(),
        one_replaced(node_files(nodes[at]), node_files(node), f, g),
    ensures
        one_replaced(all_files(nodes), all_files(nodes.update(at, node)), f, g),
{
    let x = nodes.take(at);
    let y = nodes.skip(at + 1);
    let after = nodes.update(at, node);
    assert(nodes =~= x + seq![nodes[at]] + y);
    assert(after =~= x + seq![node] + y);
    lemma_all_files_concat(x + seq![nodes[at]], y);
    lemma_all_files_concat(x, seq![nodes[at]]);
    lemma_all_files_one(seq![nodes[at]]);
    lemma_all_files_concat(x + seq![node], y);
    lemma_all_files_concat(x, seq![node]);
    lemma_all_files_one(seq![node]);
    let old_files = node_files(nodes[at]);
    let k = choose|k: int|
        0 <= k < old_files.len() && old_files[k] == f && node_files(node)
            == #[trigger] old_files.update(k, g);
    let j = all_files(x).len() + k;
    assert(all_files(nodes)[j] == f);
    assert(all_files(after) =~= all_files(nodes).update(j, g));
}

/// Putting a file where a path leads replaces that one file and nothing else: every
/// other file stays in its place, and so does every directory.
pub proof fn law_put_one<R>(dir: DirView<R>, path: Seq<char>, file: FileView<R>)
    requires
        resolve(dir, path) is Some,
    ensures
        put_file(dir, path, file).name == dir.name,
        same_shape(NodeView::Directory(dir), NodeView::Directory(put_file(dir, path, file))),
        one_replaced(
            all_files(dir.children),
            all_files(put_file(dir, path, file).children),
            resolve(dir, path)->0,
            file,
        ),
    decreases path.len(),
{
    let end = segment_end(path);
    lemma_segment_end_bounds(path);
    let f = resolve(dir, path)->0;
    if end >= path.len() {
        let i = find(dir.children, path, Some(NodeType::File));
        lemma_find_from(dir.children, path, Some(NodeType::File), 0);
        let node = NodeView::File(file);
        assert(node_files(node) =~= node_files(dir.children[i]).update(0, file));
        assert(one_replaced(node_files(dir.children[i]), node_files(node), f, file));
        lemma_replace_in(dir.children, i, node, f, file);
        lemma_shape_update(dir, i, node);
    } else {
        let i = find(dir.children, path.take(end), Some(NodeType::Directory));
        lemma_find_from(dir.children, path.take(end), Some(NodeType::Directory), 0);
        let child = dir.children[i]->Directory_0;
        let rest = path.skip(end + 1);
        law_put_one(child, rest, file);
        let node = NodeView::Directory(put_file(child, rest, file));
        lemma_replace_in(dir.children, i, node, f, file);
        lemma_shape_update(dir, i, node);
    }
}

proof fn lemma_same_shape_self<R>(node: NodeView<R>)
    ensures
        same_shape(node, node),
    decreases node,
{
    if let NodeView::Directory(d) = node {
        assert forall|i: int| 0 <= i < d.children.len() implies same_shape(
            #[trigger] d.children[i],
            d.children[i],
        ) by {
            lemma_same_shape_self(d.children[i]);
        }
    }
}

proof fn lemma_shape_update<R>(dir: DirView<R>, i: int, node: NodeView<R>)
    requires
        0 <= i < dir.children.len(),
        same_shape(dir.children[i], node),
    ensures
        same_shape(
            NodeView::Directory(dir),
            NodeView::Directory(DirView { children: dir.children.update(i, node), ..dir }),
        ),
{
    let after = dir.children.update(i, node);
    assert forall|j: int| 0 <= j < dir.children.len() implies same_shape(
        #[trigger] dir.children[j],
        after[j],
    ) by {
        if j != i {
            lemma_same_shape_self(dir.children[j]);
        }
    }
}

} // verus!
