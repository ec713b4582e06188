//! From a tree to the file system table that describes it, and to the places that
//! its files get in an image.

use vstd::prelude::*;
use vstd::utf8::encode_utf8;

use crate::iso::consts::{FILE_END_BIT, FILE_START_BIT};
use crate::iso::{
    align_addr, align_up, checked_align_addr, law_align_up, lemma_alignments, FstEntry,
    FstEntryView, FstNodeType,
};
use super::assemble::entries_view;
use super::tree::{all_fst_len, node_fst_len, own_fst_len};
use super::{
    lemma_dir_view, lemma_node_view, nodes_view, DirView, Directory, File, FileView, GeckoFS,
    Node, NodeEnum, NodeEnumRef, NodeView,
};

verus! {

/// A file system table in the making: its entries, the names they refer to, the
/// files in the order in which they are stored, and where the next one may start.
pub struct TableView<R> {
    pub entries: Seq<FstEntryView>,
    pub names: Seq<u8>,
    pub files: Seq<FileView<R>>,
    pub offset: int,
}

/// A name as it stands among the names of a table: its bytes and a zero.
pub open spec fn stored_name(name: Seq<char>) -> Seq<u8> {
    encode_utf8(name).push(0)
}

/// Where a file starts that may start at `offset`.
pub open spec fn file_start(offset: int) -> int {
    align_up(offset, FILE_START_BIT)
}

/// Where the next file may start after one of `len` bytes that may start at
/// `offset`.
pub open spec fn file_end(offset: int, len: usize) -> int {
    align_up(file_start(offset) + len, FILE_END_BIT)
}

/// The entry of a file that starts at `pos`.
pub open spec fn file_entry<R>(f: FileView<R>, pos: int, name_offset: int) -> FstEntryView {
    FstEntryView {
        kind: FstNodeType::File,
        relative_file_name: f.fst.relative_file_name,
        file_offset_parent_dir: pos as usize,
        file_size_next_dir_index: f.len(),
        file_name_offset: name_offset as usize,
    }
}

/// The entry of a directory in the directory at entry `parent`, where `next` is the
/// first entry after everything in it. It has no name of its own.
pub open spec fn dir_entry(parent: int, next: int, name_offset: int) -> FstEntryView {
    FstEntryView {
        kind: FstNodeType::Directory,
        relative_file_name: Seq::empty(),
        file_offset_parent_dir: parent as usize,
        file_size_next_dir_index: next as usize,
        file_name_offset: name_offset as usize,
    }
}

/// A file with its place in the image.
pub open spec fn place_file<R>(f: FileView<R>, offset: int) -> FileView<R> {
    FileView { new_offset: file_start(offset) as u64, ..f }
}

/// The table `t` with the entry of a directory in the directory at entry `parent`,
/// before anything in it, and with its name.
pub open spec fn enter_dir<R>(t: TableView<R>, parent: int, name: Seq<char>) -> TableView<R> {
    TableView {
        entries: t.entries.push(dir_entry(parent, 0, t.names.len() as int)),
        names: t.names + stored_name(name),
        ..t
    }
}

/// The table `t` with a node of the directory at entry `parent`, and with
/// everything in the node.
pub open spec fn visit<R>(node: NodeView<R>, parent: int, t: TableView<R>) -> TableView<R>
    decreases node, 0nat,
{
    match node {
        NodeView::File(f) => TableView {
            entries: t.entries.push(file_entry(f, file_start(t.offset), t.names.len() as int)),
            names: t.names + stored_name(f.fst.relative_file_name),
            files: t.files.push(place_file(f, t.offset)),
            offset: file_end(t.offset, f.len()),
        },
        NodeView::Directory(d) => {
            let index = t.entries.len() as int;
            let inside = visit_all(d.children, index, enter_dir(t, parent, d.name));
            TableView {
                entries: inside.entries.update(
                    index,
                    dir_entry(parent, inside.entries.len() as int, t.names.len() as int),
                ),
                ..inside
            }
        },
    }
}

/// The table `t` with the nodes of the directory at entry `parent`, in order.
pub open spec fn visit_all<R>(nodes: Seq<NodeView<R>>, parent: int, t: TableView<R>) -> TableView<R>
    decreases nodes, nodes.len(),
{
    if nodes.len() == 0 {
        t
    } else {
        visit(nodes.last(), parent, visit_all(nodes.drop_last(), parent, t))
    }
}

/// Where the next file may start after the files of a node.
pub open spec fn end_of<R>(node: NodeView<R>, offset: int) -> int
    decreases node, 0nat,
{
    match node {
        NodeView::File(f) => file_end(offset, f.len()),
        NodeView::Directory(d) => end_of_all(d.children, offset),
    }
}

/// Where the next file may start after the files of a sequence of nodes.
pub open spec fn end_of_all<R>(nodes: Seq<NodeView<R>>, offset: int) -> int
    decreases nodes, nodes.len(),
{
    if nodes.len() == 0 {
        offset
    } else {
        end_of(nodes.last(), end_of_all(nodes.drop_last(), offset))
    }
}

/// A node with its files in their places, where the first one may start at
/// `offset`.
pub open spec fn place<R>(node: NodeView<R>, offset: int) -> NodeView<R>
    decreases node, 0nat,
{
    match node {
        NodeView::File(f) => NodeView::File(place_file(f, offset)),
        NodeView::Directory(d) => NodeView::Directory(
            DirView { children: place_all(d.children, offset), ..d },
        ),
    }
}

/// Nodes with their files in their places, where the first one may start at
/// `offset`.
pub open spec fn place_all<R>(nodes: Seq<NodeView<R>>, offset: int) -> Seq<NodeView<R>>
    decreases nodes, nodes.len(),
{
    if nodes.len() == 0 {
        Seq::empty()
    } else {
        place_all(nodes.drop_last(), offset).push(
            place(nodes.last(), end_of_all(nodes.drop_last(), offset)),
        )
    }
}

/// The parts of a table in the making, as one value.
pub open spec fn table_view<R>(
    entries: Seq<FstEntry>,
    names: Seq<u8>,
    files: Seq<File<R>>,
    offset: u64,
) -> TableView<R> {
    TableView {
        entries: entries_view(entries),
        names,
        files: Seq::new(files.len(), |i: int| files[i]@),
        offset: offset as int,
    }
}

/// What a node adds to a table: entries and names that fill the node's share of
/// the table, and files that end where the node's files end.
pub(crate) proof fn lemma_visit<R>(node: NodeView<R>, parent: int, t: TableView<R>)
    ensures
        ({
            let v = visit(node, parent, t);
            &&& v.entries.len() > t.entries.len()
            &&& v.entries.take(t.entries.len() as int) == t.entries
            &&& v.names.len() >= t.names.len()
            &&& v.names.take(t.names.len() as int) == t.names
            &&& v.files.len() >= t.files.len()
            &&& v.files.take(t.files.len() as int) == t.files
            &&& v.files.len() - t.files.len() <= v.entries.len() - t.entries.len()
            &&& v.offset == end_of(node, t.offset)
            &&& 12 * v.entries.len() + v.names.len() == 12 * t.entries.len() + t.names.len()
                + node_fst_len(node)
        }),
    decreases node, 0nat,
{
    match node {
        NodeView::File(f) => {
            let v = visit(node, parent, t);
            assert(v.entries.take(t.entries.len() as int) =~= t.entries);
            assert(v.names.take(t.names.len() as int) =~= t.names);
            assert(v.files.take(t.files.len() as int) =~= t.files);
        },
        NodeView::Directory(d) => {
            let v = visit(node, parent, t);
            let index = t.entries.len() as int;
            let start = enter_dir(t, parent, d.name);
            let inside = visit_all(d.children, index, start);
            lemma_visit_all(d.children, index, start);
            assert forall|i: int| 0 <= i < index implies v.entries[i] == t.entries[i] by {
                assert(v.entries[i] == inside.entries[i]);
                assert(inside.entries[i] == inside.entries.take(index + 1)[i]);
            }
            assert(v.entries.take(index) =~= t.entries);
            assert forall|i: int| 0 <= i < t.names.len() implies v.names[i] == t.names[i] by {
                assert(v.names[i] == inside.names.take(start.names.len() as int)[i]);
            }
            assert(v.names.take(t.names.len() as int) =~= t.names);
        },
    }
}

pub(crate) proof fn lemma_visit_all<R>(nodes: Seq<NodeView<R>>, parent: int, t: TableView<R>)
    ensures
        ({
            let v = visit_all(nodes, parent, t);
            &&& v.entries.len() >= t.entries.len()
            &&& v.entries.take(t.entries.len() as int) == t.entries
            &&& v.names.len() >= t.names.len()
            &&& v.names.take(t.names.len() as int) == t.names
            &&& v.files.len() >= t.files.len()
            &&& v.files.take(t.files.len() as int) == t.files
            &&& v.files.len() - t.files.len() <= v.entries.len() - t.entries.len()
            &&& v.offset == end_of_all(nodes, t.offset)
            &&& 12 * v.entries.len() + v.names.len() == 12 * t.entries.len() + t.names.len()
                + all_fst_len(nodes)
        }),
    decreases nodes, nodes.len(),
{
    let v = visit_all(nodes, parent, t);
    if nodes.len() == 0 {
        assert(v.entries.take(t.entries.len() as int) =~= t.entries);
        assert(v.names.take(t.names.len() as int) =~= t.names);
        assert(v.files.take(t.files.len() as int) =~= t.files);
    } else {
        let u = visit_all(nodes.drop_last(), parent, t);
        lemma_visit_all(nodes.drop_last(), parent, t);
        lemma_visit(nodes.last(), parent, u);
        assert(v.entries.take(t.entries.len() as int) =~= v.entries.take(
            u.entries.len() as int,
        ).take(t.entries.len() as int));
        assert(v.names.take(t.names.len() as int) =~= v.names.take(u.names.len() as int).take(
            t.names.len() as int,
        ));
        assert(v.files.take(t.files.len() as int) =~= v.files.take(u.files.len() as int).take(
            t.files.len() as int,
        ));
    }
}

/// The files of a node end after they start.
pub(crate) proof fn lemma_end_of<R>(node: NodeView<R>, offset: int)
    ensures
        offset <= end_of(node, offset),
        node matches NodeView::File(f) ==> offset <= file_start(offset) <= file_start(offset)
            + f.len() <= file_end(offset, f.len()),
    decreases node, 0nat,
{
    match node {
        NodeView::File(f) => {
            law_align_up(offset, FILE_START_BIT);
            law_align_up(file_start(offset) + f.len(), FILE_END_BIT);
        },
        NodeView::Directory(d) => {
            lemma_end_of_all(d.children, offset);
        },
    }
}

pub(crate) proof fn lemma_end_of_all<R>(nodes: Seq<NodeView<R>>, offset: int)
    ensures
        offset <= end_of_all(nodes, offset),
    decreases nodes, nodes.len(),
{
    if nodes.len() > 0 {
        lemma_end_of_all(nodes.drop_last(), offset);
        lemma_end_of(nodes.last(), end_of_all(nodes.drop_last(), offset));
    }
}

/// Where the first `n` files end that are stored from `from` on.
pub open spec fn stored_end<R>(files: Seq<FileView<R>>, n: int, from: int) -> int {
    if n <= 0 {
        from
    } else {
        files[n - 1].new_offset + files[n - 1].len()
    }
}

/// Whether files are stored one after the other from `from` on: each one starts at
/// the first multiple of 32 at or after the end of the one before.
pub open spec fn stored_in_order<R>(files: Seq<FileView<R>>, from: int) -> bool {
    forall|i: int|
        0 <= i < files.len() ==> (#[trigger] files[i]).new_offset == file_start(
            stored_end(files, i, from),
        )
}

/// Where a file starts that is stored in order.
pub(crate) proof fn lemma_stored_start<R>(files: Seq<FileView<R>>, i: int, from: int)
    requires
        stored_in_order(files, from),
        0 <= i < files.len(),
    ensures
        files[i].new_offset % 32 == 0,
        stored_end(files, i, from) <= files[i].new_offset < stored_end(files, i, from) + 32,
{
    lemma_alignments();
    law_align_up(stored_end(files, i, from), FILE_START_BIT);
    assert(files[i].new_offset == file_start(stored_end(files, i, from)));
}

/// Rounding up to the end of a file's space changes nothing of where the next file
/// starts.
proof fn lemma_start_after_end(n: int)
    requires
        0 <= n,
    ensures
        file_start(align_up(n, FILE_END_BIT)) == file_start(n),
{
    lemma_alignments();
    let up = (n + 3) / 4 * 4;
    assert(align_up(n, FILE_END_BIT) == up);
    let q = (n + 31) / 32;
    assert(n <= up < n + 4 && up % 4 == 0);
    assert(up <= 32 * q);
    assert((up + 31) / 32 == q);
}

/// Files that are stored in order end before the last one ends.
pub(crate) proof fn lemma_stored_end<R>(files: Seq<FileView<R>>, i: int, n: int, from: int)
    requires
        stored_in_order(files, from),
        0 <= i <= n <= files.len(),
    ensures
        stored_end(files, i, from) <= stored_end(files, n, from),
    decreases n - i,
{
    if i < n {
        lemma_stored_end(files, i, n - 1, from);
        lemma_stored_start(files, n - 1, from);
    }
}

/// A node's files are stored after those that the table has.
#[verifier::rlimit(40)]
pub(crate) proof fn lemma_visit_stores<R>(
    node: NodeView<R>,
    parent: int,
    t: TableView<R>,
    from: int,
)
    requires
        stored_in_order(t.files, from),
        0 <= stored_end(t.files, t.files.len() as int, from) <= t.offset,
        file_start(t.offset) == file_start(stored_end(t.files, t.files.len() as int, from)),
        end_of(node, t.offset) <= u64::MAX,
    ensures
        ({
            let v = visit(node, parent, t);
            &&& stored_in_order(v.files, from)
            &&& 0 <= stored_end(v.files, v.files.len() as int, from) <= v.offset
            &&& file_start(v.offset) == file_start(
                stored_end(v.files, v.files.len() as int, from),
            )
        }),
    decreases node, 0nat,
{
    match node {
        NodeView::File(f) => {
            let v = visit(node, parent, t);
            lemma_alignments();
            law_align_up(t.offset, FILE_START_BIT);
            law_align_up(file_start(t.offset) + f.len(), FILE_END_BIT);
            lemma_start_after_end(file_start(t.offset) + f.len());
            assert forall|i: int| 0 <= i < v.files.len() implies (
            #[trigger] v.files[i]).new_offset == file_start(stored_end(v.files, i, from)) by {
                assert(stored_end(v.files, i, from) == stored_end(t.files, i, from));
                if i < t.files.len() {
                    assert(v.files[i] == t.files[i]);
                }
            }
        },
        NodeView::Directory(d) => {
            let start = enter_dir(t, parent, d.name);
            lemma_visit_all_stores(d.children, t.entries.len() as int, start, from);
        },
    }
}

/// The files of nodes are stored after those that the table has.
pub(crate) proof fn lemma_visit_all_stores<R>(
    nodes: Seq<NodeView<R>>,
    parent: int,
    t: TableView<R>,
    from: int,
)
    requires
        stored_in_order(t.files, from),
        0 <= stored_end(t.files, t.files.len() as int, from) <= t.offset,
        file_start(t.offset) == file_start(stored_end(t.files, t.files.len() as int, from)),
        end_of_all(nodes, t.offset) <= u64::MAX,
    ensures
        ({
            let v = visit_all(nodes, parent, t);
            &&& stored_in_order(v.files, from)
            &&& 0 <= stored_end(v.files, v.files.len() as int, from) <= v.offset
            &&& file_start(v.offset) == file_start(
                stored_end(v.files, v.files.len() as int, from),
            )
        }),
    decreases nodes, nodes.len(),
{
    if nodes.len() > 0 {
        let u = visit_all(nodes.drop_last(), parent, t);
        lemma_end_of(nodes.last(), end_of_all(nodes.drop_last(), t.offset));
        lemma_visit_all_stores(nodes.drop_last(), parent, t, from);
        lemma_visit_all(nodes.drop_last(), parent, t);
        lemma_visit_stores(nodes.last(), parent, u, from);
    }
}

/// The files of the first nodes end before those of all.
pub(crate) proof fn lemma_end_of_prefix<R>(nodes: Seq<NodeView<R>>, k: int, offset: int)
    requires
        0 <= k <= nodes.len(),
    ensures
        end_of_all(nodes.take(k), offset) <= end_of_all(nodes, offset),
    decreases nodes.len(),
{
    if k == nodes.len() {
        assert(nodes.take(k) =~= nodes);
    } else {
        lemma_end_of_prefix(nodes.drop_last(), k, offset);
        assert(nodes.drop_last().take(k) =~= nodes.take(k));
        lemma_end_of(nodes.last(), end_of_all(nodes.drop_last(), offset));
    }
}

proof fn lemma_fst_len_prefix<R>(nodes: Seq<NodeView<R>>, k: int)
    requires
        0 <= k <= nodes.len(),
    ensures
        all_fst_len(nodes.take(k)) <= all_fst_len(nodes),
    decreases nodes.len(),
{
    if k == nodes.len() {
        assert(nodes.take(k) =~= nodes);
    } else {
        lemma_fst_len_prefix(nodes.drop_last(), k);
        assert(nodes.drop_last().take(k) =~= nodes.take(k));
    }
}

/// The bytes that an entry of this name takes in the file system table.
fn entry_fst_len(name: &str) -> (n: usize)
    requires
        own_fst_len(name@) <= usize::MAX,
    ensures
        n == own_fst_len(name@),
{
    12 + name.as_bytes().len() + 1
}

/// `acc` and the bytes that a directory takes in the file system table.
fn dir_fst_len<R>(acc: usize, dir: &Directory<R>) -> (total: usize)
    requires
        acc + node_fst_len(NodeView::Directory(dir@)) <= usize::MAX,
    ensures
        total == acc + node_fst_len(NodeView::Directory(dir@)),
    decreases dir@,
{
    let mut acc: usize = acc + entry_fst_len(dir.name());
    let mut i: usize = 0;
    proof {
        lemma_dir_view(*dir);
        assert(dir@.children.take(0) =~= Seq::empty());
    }
    let ghost start = acc;
    while i < dir.children.len()
        invariant
            dir@.children == nodes_view(dir.children@),
            i <= dir.children@.len(),
            start + all_fst_len(dir@.children) <= usize::MAX,
            acc == start + all_fst_len(dir@.children.take(i as int)),
        decreases dir.children@.len() - i,
    {
        let child = &dir.children[i];
        proof {
            let upto = dir@.children.take(i + 1);
            assert(upto.drop_last() =~= dir@.children.take(i as int));
            assert(upto.last() == child@);
            lemma_fst_len_prefix(dir@.children, i + 1);
        }
        let ghost c = dir@.children[i as int];
        assert(c == child.node_view());
        acc = match child.as_enum_ref() {
            NodeEnumRef::Directory(d) => {
                assert(c->Directory_0 == d@);
                assert(decreases_to!(dir@ => dir@.children));
                assert(decreases_to!(dir@.children => c));
                assert(decreases_to!(c => c->Directory_0));
                dir_fst_len(acc, d)
            },
            NodeEnumRef::File(f) => {
                assert(node_fst_len(c) == own_fst_len(f@.fst.relative_file_name));
                acc + entry_fst_len(f.name())
            },
        };
        i += 1;
    }
    assert(dir@.children.take(i as int) =~= dir@.children);
    acc
}

/// `acc` and the bytes that a node takes in the file system table, if that is a
/// number of this machine.
pub(crate) fn checked_fst_len<R>(acc: usize, node: &NodeEnum<R>) -> (total: Option<usize>)
    ensures
        match total {
            Some(n) => n == acc + node_fst_len(node@),
            None => acc + node_fst_len(node@) > usize::MAX,
        },
    decreases node, 0nat,
{
    broadcast use lemma_node_view;

    let name_len: usize = node.name().as_bytes().len();
    if name_len > usize::MAX - 13 || acc > usize::MAX - (name_len + 13) {
        return None;
    }
    let acc: usize = acc + (name_len + 13);
    match node {
        NodeEnum::File(_) => Some(acc),
        NodeEnum::Directory(dir) => {
            proof {
                lemma_dir_view(*dir);
            }
            checked_fst_len_all(acc, &dir.children)
        },
    }
}

/// `acc` and the bytes that nodes take in the file system table, if that is a
/// number of this machine.
pub(crate) fn checked_fst_len_all<R>(acc: usize, nodes: &Vec<NodeEnum<R>>) -> (total: Option<usize>)
    ensures
        match total {
            Some(n) => n == acc + all_fst_len(nodes_view(nodes@)),
            None => acc + all_fst_len(nodes_view(nodes@)) > usize::MAX,
        },
    decreases nodes, 1nat,
{
    let ghost all = nodes_view(nodes@);
    let mut sum: usize = acc;
    let mut i: usize = 0;
    assert(all.take(0) =~= Seq::empty());
    while i < nodes.len()
        invariant
            all == nodes_view(nodes@),
            i <= nodes@.len(),
            sum == acc + all_fst_len(all.take(i as int)),
        decreases nodes@.len() - i,
    {
        proof {
            assert(all.take(i + 1).drop_last() =~= all.take(i as int));
            assert(all.take(i + 1).last() == nodes@[i as int]@);
            lemma_fst_len_prefix(all, i + 1);
            assert(decreases_to!(nodes => nodes@[i as int]));
        }
        sum = match checked_fst_len(sum, &nodes[i]) {
            Some(n) => n,
            None => {
                return None;
            },
        };
        i += 1;
    }
    assert(all.take(i as int) =~= all);
    Some(sum)
}

/// Where the next file may start after the files of a node, if that is a number of
/// 64 bits.
pub(crate) fn checked_end_of<R>(node: &NodeEnum<R>, offset: u64) -> (end: Option<u64>)
    ensures
        match end {
            Some(n) => n == end_of(node@, offset as int),
            None => end_of(node@, offset as int) > u64::MAX,
        },
    decreases node, 0nat,
{
    broadcast use lemma_node_view;

    proof {
        lemma_end_of(node@, offset as int);
    }
    match node {
        NodeEnum::File(file) => {
            let len: u64 = file.len() as u64;
            match checked_align_addr(offset, FILE_START_BIT) {
                Some(pos) => if pos > u64::MAX - len {
                    None
                } else {
                    checked_align_addr(pos + len, FILE_END_BIT)
                },
                None => None,
            }
        },
        NodeEnum::Directory(dir) => {
            proof {
                lemma_dir_view(*dir);
            }
            checked_end_of_all(&dir.children, offset)
        },
    }
}

/// Where the next file may start after the files of nodes, if that is a number of
/// 64 bits.
pub(crate) fn checked_end_of_all<R>(nodes: &Vec<NodeEnum<R>>, offset: u64) -> (end: Option<u64>)
    ensures
        match end {
            Some(n) => n == end_of_all(nodes_view(nodes@), offset as int),
            None => end_of_all(nodes_view(nodes@), offset as int) > u64::MAX,
        },
    decreases nodes, 1nat,
{
    let ghost all = nodes_view(nodes@);
    let mut end: u64 = offset;
    let mut i: usize = 0;
    assert(all.take(0) =~= Seq::empty());
    while i < nodes.len()
        invariant
            all == nodes_view(nodes@),
            i <= nodes@.len(),
            end == end_of_all(all.take(i as int), offset as int),
        decreases nodes@.len() - i,
    {
        proof {
            assert(all.take(i + 1).drop_last() =~= all.take(i as int));
            assert(all.take(i + 1).last() == nodes@[i as int]@);
            lemma_end_of_prefix(all, i + 1, offset as int);
            assert(decreases_to!(nodes => nodes@[i as int]));
        }
        end = match checked_end_of(&nodes[i], end) {
            Some(n) => n,
            None => {
                return None;
            },
        };
        i += 1;
    }
    assert(all.take(i as int) =~= all);
    Some(end)
}

/// Adds the nodes of the directory at entry `parent` to a table, in order, and
/// gives their files their places.
pub(crate) fn visit_nodes<R>(
    nodes: &mut Vec<NodeEnum<R>>,
    output_fst: &mut Vec<FstEntry>,
    files: &mut Vec<File<R>>,
    fst_name_bank: &mut Vec<u8>,
    parent: usize,
    offset: &mut u64,
)
    requires
        end_of_all(nodes_view(old(nodes)@), *old(offset) as int) <= u64::MAX,
    ensures
        table_view(final(output_fst)@, final(fst_name_bank)@, final(files)@, *final(offset))
            == visit_all(
            nodes_view(old(nodes)@),
            parent as int,
            table_view(old(output_fst)@, old(fst_name_bank)@, old(files)@, *old(offset)),
        ),
        nodes_view(final(nodes)@) == place_all(nodes_view(old(nodes)@), *old(offset) as int),
    decreases *old(nodes), 1nat,
{
    let ghost before = nodes@;
    let ghost all = nodes_view(before);
    let ghost start = table_view(output_fst@, fst_name_bank@, files@, *offset);
    assert(all.take(0) =~= Seq::empty());
    let mut i: usize = 0;
    while i < nodes.len()
        invariant
            before == old(nodes)@,
            all == nodes_view(before),
            nodes@.len() == before.len(),
            i <= before.len(),
            forall|j: int| i <= j < before.len() ==> nodes@[j] == before[j],
            nodes_view(nodes@).take(i as int) == place_all(all.take(i as int), start.offset),
            table_view(output_fst@, fst_name_bank@, files@, *offset) == visit_all(
                all.take(i as int),
                parent as int,
                start,
            ),
            end_of_all(all, start.offset) <= u64::MAX,
        decreases before.len() - i,
    {
        proof {
            let upto = all.take(i + 1);
            assert(upto.drop_last() =~= all.take(i as int));
            assert(upto.last() == before[i as int]@);
            lemma_visit_all(all.take(i as int), parent as int, start);
            lemma_end_of_prefix(all, i + 1, start.offset);
            assert(decreases_to!(*old(nodes) => old(nodes)@[i as int]));
        }
        let ghost placed = nodes_view(nodes@);
        GeckoFS::visitor_fst_entries(
            &mut nodes[i],
            output_fst,
            files,
            fst_name_bank,
            parent,
            offset,
        );
        i += 1;
        assert(nodes_view(nodes@).take(i as int) =~= placed.take(i - 1).push(nodes@[i - 1]@));
    }
    assert(all.take(i as int) =~= all);
    assert(nodes_view(nodes@).take(i as int) =~= nodes_view(nodes@));
}

impl<R> GeckoFS<R> {
    /// `acc` and the bytes that a node takes in the file system table.
    pub fn visitor_fst_len<N: Node<R>>(acc: usize, node: &N) -> (total: usize)
        requires
            acc + node_fst_len(node.node_view()) <= usize::MAX,
        ensures
            total == acc + node_fst_len(node.node_view()),
    {
        match node.as_enum_ref() {
            NodeEnumRef::Directory(dir) => dir_fst_len(acc, dir),
            NodeEnumRef::File(file) => acc + entry_fst_len(file.name()),
        }
    }

    /// Adds a node of the directory at entry `cur_parent_dir_index`, and everything
    /// in it, to a table: entries, names, and files with their places from `*offset`
    /// on. The files in the node are given their places too.
    #[verifier::rlimit(40)]
    pub fn visitor_fst_entries(
        node: &mut NodeEnum<R>,
        output_fst: &mut Vec<FstEntry>,
        files: &mut Vec<File<R>>,
        fst_name_bank: &mut Vec<u8>,
        cur_parent_dir_index: usize,
        offset: &mut u64,
    )
        requires
            end_of(old(node)@, *old(offset) as int) <= u64::MAX,
        ensures
            table_view(final(output_fst)@, final(fst_name_bank)@, final(files)@, *final(offset))
                == visit(
                old(node)@,
                cur_parent_dir_index as int,
                table_view(old(output_fst)@, old(fst_name_bank)@, old(files)@, *old(offset)),
            ),
            final(node)@ == place(old(node)@, *old(offset) as int),
        decreases *old(node), 0nat,
    {
        let ghost t = table_view(output_fst@, fst_name_bank@, files@, *offset);
        let ghost whole = node@;
        proof {
            lemma_visit(whole, cur_parent_dir_index as int, t);
            lemma_end_of(whole, t.offset);
        }
        match node {
            NodeEnum::Directory(dir) => {
                let this_dir_index: usize = output_fst.len();
                let fst_entry = FstEntry {
                    kind: FstNodeType::Directory,
                    relative_file_name: String::new(),
                    file_offset_parent_dir: cur_parent_dir_index,
                    file_size_next_dir_index: 0,
                    file_name_offset: fst_name_bank.len(),
                };
                fst_name_bank.extend_from_slice(dir.name().as_bytes());
                fst_name_bank.push(0);
                output_fst.push(fst_entry);
                let ghost nodes = dir@.children;
                let ghost start = enter_dir(t, cur_parent_dir_index as int, dir@.name);
                proof {
                    lemma_dir_view(*dir);
                    let now = table_view(output_fst@, fst_name_bank@, files@, *offset);
                    assert(now.entries =~= start.entries);
                    assert(now.names =~= start.names);
                    lemma_visit_all(nodes, this_dir_index as int, start);
                    let d = old(node)->Directory_0;
                    assert(decreases_to!(*old(node) => d));
                    assert(decreases_to!(d => d.children));
                }
                visit_nodes(
                    &mut dir.children,
                    output_fst,
                    files,
                    fst_name_bank,
                    this_dir_index,
                    offset,
                );
                let ghost inside = table_view(output_fst@, fst_name_bank@, files@, *offset);
                let next: usize = output_fst.len();
                assert(inside.entries.take(this_dir_index + 1)[this_dir_index as int]
                    == start.entries[this_dir_index as int]);
                output_fst[this_dir_index].file_size_next_dir_index = next;
                proof {
                    lemma_dir_view(*dir);
                    assert(entries_view(output_fst@) =~= inside.entries.update(
                        this_dir_index as int,
                        dir_entry(
                            cur_parent_dir_index as int,
                            inside.entries.len() as int,
                            t.names.len() as int,
                        ),
                    ));
                }
            },
            NodeEnum::File(file) => {
                let pos: u64 = align_addr(*offset, FILE_START_BIT);
                let fst_entry = FstEntry {
                    kind: FstNodeType::File,
                    relative_file_name: file.fst.relative_file_name.clone(),
                    file_offset_parent_dir: pos as usize,
                    file_size_next_dir_index: file.len(),
                    file_name_offset: fst_name_bank.len(),
                };
                fst_name_bank.extend_from_slice(file.name().as_bytes());
                fst_name_bank.push(0);
                *offset = align_addr(pos + file.len() as u64, FILE_END_BIT);
                file.new_offset = pos;
                output_fst.push(fst_entry);
                files.push(file.clone());
                proof {
                    let v = visit(whole, cur_parent_dir_index as int, t);
                    let now = table_view(output_fst@, fst_name_bank@, files@, *offset);
                    assert(now.entries =~= v.entries);
                    assert(now.names =~= v.names);
                    assert(now.files =~= v.files);
                }
            },
        }
    }
}

} // verus!
