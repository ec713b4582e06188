//! What the entries of a table describe is what they are assembled to.

use vstd::prelude::*;
use vstd::utf8::{
    decode_utf8, encode_utf8, encode_utf8_decode_utf8, encode_utf8_valid_utf8, valid_utf8,
};

use crate::iso::fst::{entry_bytes, entry_fits, entry_of_bytes, law_entry_round_trip};
use crate::iso::{in_units, is_whole, FstEntryView, FstNodeType};
use super::assemble::{build_entry, build_range, entry_file};
use super::file::new_file;
use super::parse::{block, name_end, read_entries};
use super::serialize::fst_bytes;
use super::table::{
    dir_entry, end_of, end_of_all, enter_dir, file_entry, file_start, lemma_end_of,
    lemma_end_of_all, lemma_visit, lemma_visit_all, place, place_all, place_file, stored_name,
    visit, visit_all, TableView,
};
use super::tree::{
    all_files, distinct_names, empty_dir, find, is_match, lemma_find_from, mkdir, node_files,
    node_wf,
};
use super::tree_laws::lemma_find_is;
use super::{DataView, DirView, FileView, NodeView};

verus! {

/// The entries that a node takes: one for itself and one for every node in it.
pub open spec fn node_count<R>(node: NodeView<R>) -> nat
    decreases node, 0nat,
{
    match node {
        NodeView::File(_) => 1,
        NodeView::Directory(d) => 1 + all_count(d.children),
    }
}

/// The entries that a sequence of nodes takes.
pub open spec fn all_count<R>(nodes: Seq<NodeView<R>>) -> nat
    decreases nodes, nodes.len(),
{
    if nodes.len() == 0 {
        0
    } else {
        all_count(nodes.drop_last()) + node_count(nodes.last())
    }
}

/// Whether the entries from `a` on describe a node: for a file its name, its place
/// and its size; for a directory its name, the index after everything in it, and
/// everything in it.
pub open spec fn describes<R>(node: NodeView<R>, es: Seq<FstEntryView>, a: int) -> bool
    decreases node, 0nat,
{
    &&& 0 <= a < es.len()
    &&& es[a].relative_file_name == node.name()
    &&& match node {
        NodeView::File(f) => {
            &&& es[a].kind == FstNodeType::File
            &&& es[a].file_offset_parent_dir == f.new_offset as usize
            &&& es[a].file_size_next_dir_index == f.len()
        },
        NodeView::Directory(d) => {
            &&& es[a].kind == FstNodeType::Directory
            &&& es[a].file_size_next_dir_index == a + node_count(node)
            &&& describes_all(d.children, es, a + 1)
        },
    }
}

/// Whether the entries from `a` on describe a sequence of nodes, one after the
/// other.
pub open spec fn describes_all<R>(nodes: Seq<NodeView<R>>, es: Seq<FstEntryView>, a: int) -> bool
    decreases nodes, nodes.len(),
{
    if nodes.len() == 0 {
        true
    } else {
        &&& describes_all(nodes.drop_last(), es, a)
        &&& describes(nodes.last(), es, a + all_count(nodes.drop_last()))
    }
}

/// A node with its files on a disc, as the entries from `a` on place them.
pub open spec fn rebuilt<R>(
    node: NodeView<R>,
    es: Seq<FstEntryView>,
    a: int,
    reader: R,
) -> NodeView<R>
    decreases node, 0nat,
{
    match node {
        NodeView::File(_) => NodeView::File(entry_file(es[a], reader)),
        NodeView::Directory(d) => NodeView::Directory(
            DirView { name: d.name, children: rebuilt_all(d.children, es, a + 1, reader) },
        ),
    }
}

/// Nodes with their files on a disc, as the entries from `a` on place them.
pub open spec fn rebuilt_all<R>(
    nodes: Seq<NodeView<R>>,
    es: Seq<FstEntryView>,
    a: int,
    reader: R,
) -> Seq<NodeView<R>>
    decreases nodes, nodes.len(),
{
    if nodes.len() == 0 {
        Seq::empty()
    } else {
        rebuilt_all(nodes.drop_last(), es, a, reader).push(
            rebuilt(nodes.last(), es, a + all_count(nodes.drop_last()), reader),
        )
    }
}

/// The entries that describe nodes are all there.
pub(crate) proof fn lemma_describes_end<R>(node: NodeView<R>, es: Seq<FstEntryView>, a: int)
    requires
        describes(node, es, a),
    ensures
        node_count(node) >= 1,
        a + node_count(node) <= es.len(),
    decreases node, 0nat,
{
    if let NodeView::Directory(d) = node {
        lemma_describes_all_end(d.children, es, a + 1);
    }
}

pub(crate) proof fn lemma_describes_all_end<R>(
    nodes: Seq<NodeView<R>>,
    es: Seq<FstEntryView>,
    a: int,
)
    requires
        describes_all(nodes, es, a),
        0 <= a <= es.len(),
    ensures
        a + all_count(nodes) <= es.len(),
    decreases nodes, nodes.len(),
{
    if nodes.len() > 0 {
        lemma_describes_all_end(nodes.drop_last(), es, a);
        lemma_describes_end(nodes.last(), es, a + all_count(nodes.drop_last()));
    }
}

/// A rebuilt sequence has the names of the original one.
pub(crate) proof fn lemma_rebuilt_names<R>(
    nodes: Seq<NodeView<R>>,
    es: Seq<FstEntryView>,
    a: int,
    reader: R,
)
    requires
        describes_all(nodes, es, a),
    ensures
        rebuilt_all(nodes, es, a, reader).len() == nodes.len(),
        forall|i: int|
            0 <= i < nodes.len() ==> (#[trigger] rebuilt_all(nodes, es, a, reader)[i]).name()
                == nodes[i].name(),
    decreases nodes.len(),
{
    if nodes.len() > 0 {
        let front = nodes.drop_last();
        lemma_rebuilt_names(front, es, a, reader);
        let all = rebuilt_all(nodes, es, a, reader);
        assert forall|i: int| 0 <= i < nodes.len() implies (#[trigger] all[i]).name()
            == nodes[i].name() by {
            if i < front.len() {
                assert(all[i] == rebuilt_all(front, es, a, reader)[i]);
                assert(front[i] == nodes[i]);
            } else {
                let c = a + all_count(front);
                assert(describes(nodes.last(), es, c));
                assert(all[i] == rebuilt(nodes.last(), es, c, reader));
            }
        }
    }
}

/// A node that the entries describe is what is assembled from them, in a directory
/// that has nothing of its name.
pub proof fn law_build_described<R>(
    node: NodeView<R>,
    es: Seq<FstEntryView>,
    a: int,
    dir: DirView<R>,
    reader: R,
)
    requires
        describes(node, es, a),
        node_wf(node),
        find(dir.children, node.name(), None) >= dir.children.len(),
    ensures
        build_entry(es, a, dir, reader) == Some(
            (
                a + node_count(node) - 1,
                DirView { children: dir.children.push(rebuilt(node, es, a, reader)), ..dir },
            ),
        ),
    decreases node, 0nat,
{
    match node {
        NodeView::File(f) => {},
        NodeView::Directory(d) => {
            let inner = empty_dir::<R>(d.name);
            let made = mkdir(dir, d.name);
            let at = dir.children.len() as int;
            let b = a + node_count(node);
            lemma_find_from(dir.children, d.name, None, 0);
            assert(made.children[at] == NodeView::Directory(inner));
            law_build_described_all(d.children, es, a + 1, b - 1, inner, reader);
            let done = DirView { children: rebuilt_all(d.children, es, a + 1, reader), ..inner };
            assert(build_range(es, a, b - 1, inner, reader) == Some((b - 1, done)));
            assert(made.children.update(at, NodeView::Directory(done)) =~= dir.children.push(
                NodeView::Directory(done),
            ));
        },
    }
}

/// Nodes that the entries after `a - 1` describe are what is assembled from them
/// first, in an empty directory.
pub proof fn law_build_described_all<R>(
    nodes: Seq<NodeView<R>>,
    es: Seq<FstEntryView>,
    a: int,
    last: int,
    dir: DirView<R>,
    reader: R,
)
    requires
        0 < a <= es.len(),
        describes_all(nodes, es, a),
        distinct_names(nodes),
        forall|i: int| 0 <= i < nodes.len() ==> node_wf(#[trigger] nodes[i]),
        dir.children.len() == 0,
        a + all_count(nodes) - 1 <= last,
    ensures
        build_range(es, a - 1, last, dir, reader) == build_range(
            es,
            a + all_count(nodes) - 1,
            last,
            DirView { children: rebuilt_all(nodes, es, a, reader), ..dir },
            reader,
        ),
    decreases nodes, nodes.len(),
{
    if nodes.len() == 0 {
        assert(dir.children =~= rebuilt_all(nodes, es, a, reader));
    } else {
        let front = nodes.drop_last();
        let node = nodes.last();
        let c = a + all_count(front);
        assert forall|i: int| 0 <= i < front.len() implies node_wf(#[trigger] front[i]) by {
            assert(node_wf(nodes[i]));
        }
        assert(distinct_names(front)) by {
            assert forall|i: int, j: int| 0 <= i < j < front.len() implies (
            #[trigger] front[i]).name() != (#[trigger] front[j]).name() by {
                assert(nodes[i].name() != nodes[j].name());
            }
        }
        lemma_describes_end(node, es, c);
        law_build_described_all(front, es, a, last, dir, reader);
        lemma_rebuilt_names(front, es, a, reader);
        let so_far = DirView { children: rebuilt_all(front, es, a, reader), ..dir };
        assert forall|i: int| 0 <= i < so_far.children.len() implies !is_match(
            #[trigger] so_far.children[i],
            node.name(),
            None,
        ) by {
            assert(nodes[i].name() != nodes[nodes.len() - 1].name());
        }
        lemma_find_is(so_far.children, node.name(), None, so_far.children.len() as int);
        assert(node_wf(nodes[nodes.len() - 1]));
        law_build_described(node, es, c, so_far, reader);
    }
}

/// Whether a name can stand in a table of names: none of its bytes is the zero that
/// ends it there.
pub open spec fn plain_name(name: Seq<char>) -> bool {
    forall|i: int| 0 <= i < encode_utf8(name).len() ==> #[trigger] encode_utf8(name)[i] != 0
}

/// Whether all names in a node can stand in a table of names.
pub open spec fn plain_names<R>(node: NodeView<R>) -> bool
    decreases node,
{
    &&& plain_name(node.name())
    &&& node matches NodeView::Directory(d) ==> forall|i: int|
        0 <= i < d.children.len() ==> plain_names(#[trigger] d.children[i])
}

/// Whether `name` stands at `at` in a table of names.
pub open spec fn stored_at(bank: Seq<u8>, at: int, name: Seq<char>) -> bool {
    let bytes = stored_name(name);
    &&& 0 <= at
    &&& at + bytes.len() <= bank.len()
    &&& bank.subrange(at, at + bytes.len()) == bytes
    &&& plain_name(name)
}

/// Whether some name stands at `at` in a table of names.
pub open spec fn has_name(bank: Seq<u8>, at: int) -> bool {
    exists|name: Seq<char>| stored_at(bank, at, name)
}

/// Whether `e` is what `written` is read as, with the name that `bank` has for it.
pub open spec fn reads_as(e: FstEntryView, written: FstEntryView, bank: Seq<u8>) -> bool {
    &&& e.kind == written.kind
    &&& e.file_size_next_dir_index == written.file_size_next_dir_index
    &&& written.kind == FstNodeType::File ==> e.file_offset_parent_dir
        == written.file_offset_parent_dir
    &&& forall|name: Seq<char>| #[trigger]
        stored_at(bank, written.file_name_offset as int, name) ==> e.relative_file_name == name
}

/// The entries that a node adds to a table are those that it takes.
pub(crate) proof fn lemma_visit_count<R>(node: NodeView<R>, parent: int, t: TableView<R>)
    ensures
        visit(node, parent, t).entries.len() == t.entries.len() + node_count(node),
    decreases node, 0nat,
{
    if let NodeView::Directory(d) = node {
        let start = enter_dir(t, parent, d.name);
        lemma_visit_all_count(d.children, t.entries.len() as int, start);
    }
}

pub(crate) proof fn lemma_visit_all_count<R>(nodes: Seq<NodeView<R>>, parent: int, t: TableView<R>)
    ensures
        visit_all(nodes, parent, t).entries.len() == t.entries.len() + all_count(nodes),
    decreases nodes, nodes.len(),
{
    if nodes.len() > 0 {
        lemma_visit_all_count(nodes.drop_last(), parent, t);
        lemma_visit_count(nodes.last(), parent, visit_all(nodes.drop_last(), parent, t));
    }
}

/// Giving files their places changes no count.
pub(crate) proof fn lemma_place_count<R>(node: NodeView<R>, offset: int)
    ensures
        node_count(place(node, offset)) == node_count(node),
    decreases node, 0nat,
{
    if let NodeView::Directory(d) = node {
        lemma_place_all_count(d.children, offset);
    }
}

pub(crate) proof fn lemma_place_all_count<R>(nodes: Seq<NodeView<R>>, offset: int)
    ensures
        place_all(nodes, offset).len() == nodes.len(),
        all_count(place_all(nodes, offset)) == all_count(nodes),
    decreases nodes, nodes.len(),
{
    if nodes.len() > 0 {
        let front = nodes.drop_last();
        lemma_place_all_count(front, offset);
        lemma_place_count(nodes.last(), end_of_all(front, offset));
        assert(place_all(nodes, offset).drop_last() =~= place_all(front, offset));
    }
}

/// A name that is added to the names of a table stands there from then on.
proof fn lemma_stored_at(names: Seq<u8>, name: Seq<char>, more: Seq<u8>, bank: Seq<u8>)
    requires
        plain_name(name),
        names.len() + stored_name(name).len() <= more.len() <= bank.len(),
        more.take((names.len() + stored_name(name).len()) as int) == names + stored_name(name),
        bank.take(more.len() as int) == more,
    ensures
        stored_at(bank, names.len() as int, name),
{
    let n = names.len() as int;
    let bytes = stored_name(name);
    assert forall|i: int| 0 <= i < bytes.len() implies bank[n + i] == bytes[i] by {
        assert(bank.take(more.len() as int)[n + i] == more[n + i]);
        assert(more.take(n + bytes.len())[n + i] == (names + bytes)[n + i]);
    }
    assert(bank.subrange(n, n + bytes.len()) =~= bytes);
}

/// The entries that a node adds to a table have their names there.
pub(crate) proof fn lemma_visit_named<R>(
    node: NodeView<R>,
    parent: int,
    t: TableView<R>,
    bank: Seq<u8>,
)
    requires
        visit(node, parent, t).names.len() <= bank.len(),
        bank.take(visit(node, parent, t).names.len() as int) == visit(node, parent, t).names,
        visit(node, parent, t).names.len() <= usize::MAX,
        plain_names(node),
    ensures
        forall|i: int|
            t.entries.len() <= i < visit(node, parent, t).entries.len() ==> has_name(
                bank,
                (#[trigger] visit(node, parent, t).entries[i]).file_name_offset as int,
            ),
    decreases node, 0nat,
{
    let v = visit(node, parent, t);
    let a = t.entries.len() as int;
    lemma_visit(node, parent, t);
    match node {
        NodeView::File(f) => {
            let name = f.fst.relative_file_name;
            assert(v.names.take((t.names.len() + stored_name(name).len()) as int) =~= v.names);
            lemma_stored_at(t.names, name, v.names, bank);
        },
        NodeView::Directory(d) => {
            let start = enter_dir(t, parent, d.name);
            let inside = visit_all(d.children, a, start);
            lemma_visit_all(d.children, a, start);
            lemma_stored_at(t.names, d.name, v.names, bank);
            lemma_visit_all_named(d.children, a, start, bank);
            assert forall|i: int| a <= i < v.entries.len() implies has_name(
                bank,
                (#[trigger] v.entries[i]).file_name_offset as int,
            ) by {
                if i > a {
                    assert(v.entries[i] == inside.entries[i]);
                }
            }
        },
    }
}

pub(crate) proof fn lemma_visit_all_named<R>(
    nodes: Seq<NodeView<R>>,
    parent: int,
    t: TableView<R>,
    bank: Seq<u8>,
)
    requires
        visit_all(nodes, parent, t).names.len() <= bank.len(),
        bank.take(visit_all(nodes, parent, t).names.len() as int) == visit_all(
            nodes,
            parent,
            t,
        ).names,
        visit_all(nodes, parent, t).names.len() <= usize::MAX,
        forall|i: int| 0 <= i < nodes.len() ==> plain_names(#[trigger] nodes[i]),
    ensures
        forall|i: int|
            t.entries.len() <= i < visit_all(nodes, parent, t).entries.len() ==> has_name(
                bank,
                (#[trigger] visit_all(nodes, parent, t).entries[i]).file_name_offset as int,
            ),
    decreases nodes, nodes.len(),
{
    if nodes.len() > 0 {
        let front = nodes.drop_last();
        let u = visit_all(front, parent, t);
        let v = visit_all(nodes, parent, t);
        lemma_visit_all(front, parent, t);
        lemma_visit(nodes.last(), parent, u);
        assert forall|i: int| 0 <= i < front.len() implies plain_names(#[trigger] front[i]) by {
            assert(plain_names(nodes[i]));
        }
        assert(plain_names(nodes[nodes.len() - 1]));
        assert(bank.take(u.names.len() as int) =~= bank.take(v.names.len() as int).take(
            u.names.len() as int,
        ));
        lemma_visit_all_named(front, parent, t, bank);
        lemma_visit_named(nodes.last(), parent, u, bank);
        assert forall|i: int| t.entries.len() <= i < v.entries.len() implies has_name(
            bank,
            (#[trigger] v.entries[i]).file_name_offset as int,
        ) by {
            if i < u.entries.len() {
                assert(v.entries.take(u.entries.len() as int)[i] == v.entries[i]);
                assert(has_name(bank, u.entries[i].file_name_offset as int));
            }
        }
    }
}

/// The entries that a node adds to a table describe the node, with its files in
/// their places.
#[verifier::rlimit(40)]
pub(crate) proof fn lemma_visit_describes<R>(
    node: NodeView<R>,
    parent: int,
    t: TableView<R>,
    bank: Seq<u8>,
    es: Seq<FstEntryView>,
)
    requires
        ({
            let v = visit(node, parent, t);
            &&& v.names.len() <= bank.len()
            &&& bank.take(v.names.len() as int) == v.names
            &&& v.names.len() <= usize::MAX
            &&& v.entries.len() <= usize::MAX
            &&& v.entries.len() <= es.len()
            &&& forall|i: int|
                t.entries.len() <= i < v.entries.len() ==> reads_as(
                    #[trigger] es[i],
                    v.entries[i],
                    bank,
                )
        }),
        plain_names(node),
        0 <= t.offset,
        end_of(node, t.offset) <= u64::MAX,
    ensures
        describes(place(node, t.offset), es, t.entries.len() as int),
    decreases node, 0nat,
{
    let v = visit(node, parent, t);
    let a = t.entries.len() as int;
    lemma_visit(node, parent, t);
    lemma_visit_count(node, parent, t);
    lemma_place_count(node, t.offset);
    match node {
        NodeView::File(f) => {
            let name = f.fst.relative_file_name;
            assert(v.names.take((t.names.len() + stored_name(name).len()) as int) =~= v.names);
            lemma_stored_at(t.names, name, v.names, bank);
            lemma_end_of(node, t.offset);
            assert(reads_as(es[a], v.entries[a], bank));
            let g = place_file(f, t.offset);
            assert(v.entries[a] == file_entry(f, file_start(t.offset), t.names.len() as int));
            assert(stored_at(bank, v.entries[a].file_name_offset as int, name));
            assert(es[a].relative_file_name == name);
            assert(es[a].file_offset_parent_dir == g.new_offset as usize);
            assert(es[a].file_size_next_dir_index == g.len());
            assert(place(node, t.offset) == NodeView::File(g));
        },
        NodeView::Directory(d) => {
            let start = enter_dir(t, parent, d.name);
            let inside = visit_all(d.children, a, start);
            lemma_visit_all(d.children, a, start);
            lemma_stored_at(t.names, d.name, v.names, bank);
            assert(reads_as(es[a], v.entries[a], bank));
            assert forall|i: int| start.entries.len() <= i < inside.entries.len() implies reads_as(
                #[trigger] es[i],
                inside.entries[i],
                bank,
            ) by {
                assert(v.entries[i] == inside.entries[i]);
            }
            lemma_visit_all_describes(d.children, a, start, bank, es);
            let placed = DirView { children: place_all(d.children, t.offset), ..d };
            assert(place(node, t.offset) == NodeView::Directory(placed));
            assert(v.entries[a] == dir_entry(
                parent,
                inside.entries.len() as int,
                t.names.len() as int,
            ));
            assert(stored_at(bank, v.entries[a].file_name_offset as int, d.name));
            assert(es[a].relative_file_name == d.name);
            assert(es[a].file_size_next_dir_index == a + node_count(node));
            assert(describes_all(placed.children, es, a + 1));
            assert(describes(NodeView::Directory(placed), es, a));
        },
    }
}

#[verifier::rlimit(40)]
pub(crate) proof fn lemma_visit_all_describes<R>(
    nodes: Seq<NodeView<R>>,
    parent: int,
    t: TableView<R>,
    bank: Seq<u8>,
    es: Seq<FstEntryView>,
)
    requires
        ({
            let v = visit_all(nodes, parent, t);
            &&& v.names.len() <= bank.len()
            &&& bank.take(v.names.len() as int) == v.names
            &&& v.names.len() <= usize::MAX
            &&& v.entries.len() <= usize::MAX
            &&& v.entries.len() <= es.len()
            &&& forall|i: int|
                t.entries.len() <= i < v.entries.len() ==> reads_as(
                    #[trigger] es[i],
                    v.entries[i],
                    bank,
                )
        }),
        forall|i: int| 0 <= i < nodes.len() ==> plain_names(#[trigger] nodes[i]),
        0 <= t.offset,
        end_of_all(nodes, t.offset) <= u64::MAX,
    ensures
        describes_all(place_all(nodes, t.offset), es, t.entries.len() as int),
    decreases nodes, nodes.len(),
{
    if nodes.len() > 0 {
        let front = nodes.drop_last();
        let node = nodes.last();
        let u = visit_all(front, parent, t);
        let v = visit_all(nodes, parent, t);
        lemma_visit_all(front, parent, t);
        lemma_visit(node, parent, u);
        lemma_end_of_all(front, t.offset);
        lemma_end_of(node, u.offset);
        assert forall|i: int| 0 <= i < front.len() implies plain_names(#[trigger] front[i]) by {
            assert(plain_names(nodes[i]));
        }
        assert(plain_names(nodes[nodes.len() - 1]));
        assert forall|i: int| t.entries.len() <= i < u.entries.len() implies reads_as(
            #[trigger] es[i],
            u.entries[i],
            bank,
        ) by {
            assert(v.entries.take(u.entries.len() as int)[i] == v.entries[i]);
        }
        assert(bank.take(u.names.len() as int) =~= bank.take(v.names.len() as int).take(
            u.names.len() as int,
        ));
        lemma_visit_all_describes(front, parent, t, bank, es);
        lemma_visit_describes(node, parent, u, bank, es);
        lemma_visit_all_count(front, parent, t);
        lemma_place_all_count(front, t.offset);
        assert(place_all(nodes, t.offset).drop_last() =~= place_all(front, t.offset));
    }
}

/// A name that stands in a table of names is read from there.
pub(crate) proof fn lemma_stored_name_read(bank: Seq<u8>, at: int, name: Seq<char>)
    requires
        stored_at(bank, at, name),
    ensures
        name_end(bank, at) == Some((at + encode_utf8(name).len()) as int),
        bank.subrange(at, at + encode_utf8(name).len()) == encode_utf8(name),
        valid_utf8(encode_utf8(name)),
        decode_utf8(encode_utf8(name)) == name,
{
    let bytes = encode_utf8(name);
    let stored = stored_name(name);
    assert forall|i: int| 0 <= i < stored.len() implies bank[at + i] == stored[i] by {
        assert(bank.subrange(at, at + stored.len())[i] == stored[i]);
    }
    assert forall|i: int| at <= i < at + bytes.len() implies bank[i] != 0 by {
        assert(bank[at + (i - at)] == stored[i - at]);
        assert(bytes[i - at] != 0);
    }
    assert(bank[at + bytes.len()] == stored[bytes.len() as int]);
    lemma_name_end(bank, at, at + bytes.len());
    assert(bank.subrange(at, at + bytes.len()) =~= bytes);
    encode_utf8_valid_utf8(name);
    encode_utf8_decode_utf8(name);
}

/// A name ends at the first zero.
proof fn lemma_name_end(table: Seq<u8>, pos: int, end: int)
    requires
        0 <= pos <= end < table.len(),
        forall|i: int| pos <= i < end ==> table[i] != 0,
        table[end] == 0,
    ensures
        name_end(table, pos) == Some(end),
    decreases end - pos,
{
    if pos < end {
        lemma_name_end(table, pos + 1, end);
    }
}

/// Entry `i` of a table stands at its place among the bytes of the entries.
pub(crate) proof fn lemma_fst_bytes(entries: Seq<FstEntryView>, is_wii: bool)
    ensures
        fst_bytes(entries, is_wii).len() == 12 * entries.len(),
        forall|i: int|
            0 <= i < entries.len() ==> #[trigger] block(fst_bytes(entries, is_wii), i)
                == entry_bytes(entries[i], is_wii),
    decreases entries.len(),
{
    if entries.len() > 0 {
        let front = entries.drop_last();
        lemma_fst_bytes(front, is_wii);
        let all = fst_bytes(entries, is_wii);
        let before = fst_bytes(front, is_wii);
        assert forall|i: int| 0 <= i < entries.len() implies #[trigger] block(all, i)
            == entry_bytes(entries[i], is_wii) by {
            if i < front.len() {
                assert(block(all, i) =~= block(before, i));
                assert(front[i] == entries[i]);
            } else {
                assert(block(all, i) =~= entry_bytes(entries[i], is_wii));
            }
        }
    }
}

/// Whether the fields of a table can hold an entry, and its name stands in `bank`.
pub open spec fn entry_storable(e: FstEntryView, bank: Seq<u8>, is_wii: bool) -> bool {
    &&& entry_fits(e)
    &&& has_name(bank, e.file_name_offset as int)
    &&& e.kind == FstNodeType::File ==> {
        &&& is_whole(e.file_offset_parent_dir as int, is_wii)
        &&& in_units(e.file_offset_parent_dir as int, is_wii) <= u32::MAX
    }
}

/// The entries of a table are read as they were written.
pub(crate) proof fn lemma_read_written(
    list: Seq<u8>,
    bank: Seq<u8>,
    entries: Seq<FstEntryView>,
    n: nat,
    is_wii: bool,
)
    requires
        n <= entries.len(),
        forall|i: int|
            0 <= i < n ==> #[trigger] block(list, i) == entry_bytes(entries[i], is_wii),
        forall|i: int| 0 <= i < n ==> entry_storable(#[trigger] entries[i], bank, is_wii),
    ensures
        read_entries(list, bank, n, is_wii) is Entries,
        read_entries(list, bank, n, is_wii)->Entries_0.len() == n,
        forall|i: int|
            0 <= i < n ==> reads_as(
                #[trigger] read_entries(list, bank, n, is_wii)->Entries_0[i],
                entries[i],
                bank,
            ),
    decreases n,
{
    if n > 0 {
        let k = (n - 1) as nat;
        lemma_read_written(list, bank, entries, k, is_wii);
        let e = entries[k as int];
        let at = e.file_name_offset as int;
        let b = block(list, k as int);
        assert(entry_storable(e, bank, is_wii));
        let name = choose|name: Seq<char>| stored_at(bank, at, name);
        lemma_stored_name_read(bank, at, name);
        law_entry_round_trip(e, name, is_wii);
        let es = read_entries(list, bank, n, is_wii)->Entries_0;
        let back = entry_of_bytes(b, name, is_wii);
        assert(es == read_entries(list, bank, k, is_wii)->Entries_0.push(back));
        assert forall|other: Seq<char>| #[trigger] stored_at(bank, at, other) implies name
            == other by {
            lemma_stored_name_read(bank, at, other);
        }
        assert(reads_as(back, e, bank));
    }
}

/// Whether `g` is the file `f` on a disc, at the place that `f` was given: it has
/// the name and the size of `f`, and its reader is at the start.
pub open spec fn restored_file<R>(f: FileView<R>, g: FileView<R>, reader: R) -> bool {
    g == new_file(
        DataView::Reader(reader),
        f.fst.relative_file_name,
        f.new_offset as usize,
        f.len(),
        g.fst.file_name_offset,
    )
}

/// Whether `b` is the node `a` with its files on a disc, at the places that they
/// were given.
pub open spec fn restored<R>(a: NodeView<R>, b: NodeView<R>, reader: R) -> bool
    decreases a, 0nat,
{
    match (a, b) {
        (NodeView::File(f), NodeView::File(g)) => restored_file(f, g, reader),
        (NodeView::Directory(x), NodeView::Directory(y)) => {
            &&& x.name == y.name
            &&& restored_all(x.children, y.children, reader)
        },
        _ => false,
    }
}

/// Whether the nodes `b` are the nodes `a`, one by one, with their files on a disc.
pub open spec fn restored_all<R>(a: Seq<NodeView<R>>, b: Seq<NodeView<R>>, reader: R) -> bool
    decreases a, a.len(),
{
    &&& a.len() == b.len()
    &&& forall|i: int| 0 <= i < a.len() ==> restored(#[trigger] a[i], b[i], reader)
}

/// What is rebuilt from the entries that describe a node is the node.
pub(crate) proof fn lemma_rebuilt_restored<R>(
    node: NodeView<R>,
    es: Seq<FstEntryView>,
    a: int,
    reader: R,
)
    requires
        describes(node, es, a),
    ensures
        restored(node, rebuilt(node, es, a, reader), reader),
    decreases node, 0nat,
{
    if let NodeView::Directory(d) = node {
        lemma_rebuilt_all_restored(d.children, es, a + 1, reader);
    }
}

pub(crate) proof fn lemma_rebuilt_all_restored<R>(
    nodes: Seq<NodeView<R>>,
    es: Seq<FstEntryView>,
    a: int,
    reader: R,
)
    requires
        describes_all(nodes, es, a),
    ensures
        restored_all(nodes, rebuilt_all(nodes, es, a, reader), reader),
    decreases nodes, nodes.len(),
{
    if nodes.len() > 0 {
        let front = nodes.drop_last();
        let c = a + all_count(front);
        lemma_rebuilt_all_restored(front, es, a, reader);
        lemma_rebuilt_restored(nodes.last(), es, c, reader);
        let all = rebuilt_all(nodes, es, a, reader);
        assert forall|i: int| 0 <= i < nodes.len() implies restored(
            #[trigger] nodes[i],
            all[i],
            reader,
        ) by {
            if i < front.len() {
                assert(restored(front[i], rebuilt_all(front, es, a, reader)[i], reader));
            }
        }
    }
}

/// The files of restored nodes are the files of the nodes, one by one.
pub(crate) proof fn lemma_restored_files<R>(a: Seq<NodeView<R>>, b: Seq<NodeView<R>>, reader: R)
    requires
        restored_all(a, b, reader),
    ensures
        all_files(a).len() == all_files(b).len(),
        forall|i: int|
            0 <= i < all_files(a).len() ==> restored_file(
                #[trigger] all_files(a)[i],
                all_files(b)[i],
                reader,
            ),
    decreases a, a.len(),
{
    if a.len() > 0 {
        let fa = a.drop_last();
        let fb = b.drop_last();
        assert forall|i: int| 0 <= i < fa.len() implies restored(
            #[trigger] fa[i],
            fb[i],
            reader,
        ) by {
            assert(restored(a[i], b[i], reader));
        }
        lemma_restored_files(fa, fb, reader);
        assert(restored(a[a.len() - 1], b[b.len() - 1], reader));
        if let NodeView::Directory(x) = a.last() {
            let y = b.last()->Directory_0;
            lemma_restored_files(x.children, y.children, reader);
        }
        let n = all_files(fa).len() as int;
        assert(all_files(b) == all_files(fb) + node_files(b.last()));
        assert(node_files(a.last()).len() == node_files(b.last()).len());
        assert forall|i: int| 0 <= i < all_files(a).len() implies restored_file(
            #[trigger] all_files(a)[i],
            all_files(b)[i],
            reader,
        ) by {
            if i < n {
                assert(all_files(a)[i] == all_files(fa)[i]);
                assert(all_files(b)[i] == all_files(fb)[i]);
            } else {
                assert(all_files(a)[i] == node_files(a.last())[i - n]);
                assert(all_files(b)[i] == node_files(b.last())[i - n]);
            }
        }
    }
}

/// The files that a node adds to a table are those of the node in their places.
pub(crate) proof fn lemma_visit_files<R>(node: NodeView<R>, parent: int, t: TableView<R>)
    ensures
        visit(node, parent, t).files == t.files + node_files(place(node, t.offset)),
    decreases node, 0nat,
{
    match node {
        NodeView::File(f) => {
            assert(visit(node, parent, t).files =~= t.files + node_files(place(node, t.offset)));
        },
        NodeView::Directory(d) => {
            let start = enter_dir(t, parent, d.name);
            lemma_visit_all_files(d.children, t.entries.len() as int, start);
        },
    }
}

pub(crate) proof fn lemma_visit_all_files<R>(nodes: Seq<NodeView<R>>, parent: int, t: TableView<R>)
    ensures
        visit_all(nodes, parent, t).files == t.files + all_files(place_all(nodes, t.offset)),
    decreases nodes, nodes.len(),
{
    if nodes.len() == 0 {
        assert(t.files + all_files(place_all(nodes, t.offset)) =~= t.files);
    } else {
        let front = nodes.drop_last();
        let u = visit_all(front, parent, t);
        lemma_visit_all_files(front, parent, t);
        lemma_visit_all(front, parent, t);
        lemma_visit_files(nodes.last(), parent, u);
        let placed = place_all(nodes, t.offset);
        assert(placed.drop_last() =~= place_all(front, t.offset));
        assert(placed.last() == place(nodes.last(), u.offset));
        assert(all_files(placed) == all_files(placed.drop_last()) + node_files(placed.last()));
        assert(visit_all(nodes, parent, t).files =~= t.files + all_files(placed));
    }
}

/// Whether an entry's numbers come from a table with so many bytes of names, so
/// many entries, and these files.
pub open spec fn entry_bounds<R>(e: FstEntryView, t: TableView<R>) -> bool {
    &&& e.file_name_offset < t.names.len()
    &&& match e.kind {
        FstNodeType::Directory => e.file_size_next_dir_index <= t.entries.len(),
        FstNodeType::File => exists|j: int|
            0 <= j < t.files.len() && e.file_size_next_dir_index == (#[trigger] t.files[j]).len()
                && e.file_offset_parent_dir == t.files[j].new_offset as usize,
    }
}

/// An entry keeps its bounds while the table grows.
proof fn lemma_bounds_grow<R>(e: FstEntryView, t: TableView<R>, v: TableView<R>)
    requires
        entry_bounds(e, t),
        t.names.len() <= v.names.len(),
        t.entries.len() <= v.entries.len(),
        t.files.len() <= v.files.len(),
        v.files.take(t.files.len() as int) == t.files,
    ensures
        entry_bounds(e, v),
{
    if e.kind == FstNodeType::File {
        let j = choose|j: int|
            0 <= j < t.files.len() && e.file_size_next_dir_index == (#[trigger] t.files[j]).len()
                && e.file_offset_parent_dir == t.files[j].new_offset as usize;
        assert(v.files.take(t.files.len() as int)[j] == v.files[j]);
    }
}

/// The entries that a node adds to a table have their bounds there.
#[verifier::rlimit(40)]
pub(crate) proof fn lemma_visit_bounds<R>(node: NodeView<R>, parent: int, t: TableView<R>)
    requires
        visit(node, parent, t).names.len() <= usize::MAX,
        visit(node, parent, t).entries.len() <= usize::MAX,
        0 <= t.offset,
        end_of(node, t.offset) <= u64::MAX,
    ensures
        forall|i: int|
            t.entries.len() <= i < visit(node, parent, t).entries.len() ==> entry_bounds(
                #[trigger] visit(node, parent, t).entries[i],
                visit(node, parent, t),
            ),
    decreases node, 0nat,
{
    let v = visit(node, parent, t);
    let a = t.entries.len() as int;
    lemma_visit(node, parent, t);
    match node {
        NodeView::File(f) => {
            lemma_end_of(node, t.offset);
            let j = t.files.len() as int;
            assert(v.files[j] == place_file(f, t.offset));
            assert(entry_bounds(v.entries[a], v));
        },
        NodeView::Directory(d) => {
            let start = enter_dir(t, parent, d.name);
            let inside = visit_all(d.children, a, start);
            lemma_visit_all(d.children, a, start);
            lemma_visit_all_bounds(d.children, a, start);
            assert forall|i: int| a <= i < v.entries.len() implies entry_bounds(
                #[trigger] v.entries[i],
                v,
            ) by {
                if i > a {
                    assert(v.entries[i] == inside.entries[i]);
                    assert(entry_bounds(inside.entries[i], inside));
                    assert(inside.files.take(inside.files.len() as int) =~= inside.files);
                    lemma_bounds_grow(inside.entries[i], inside, v);
                }
            }
        },
    }
}

pub(crate) proof fn lemma_visit_all_bounds<R>(nodes: Seq<NodeView<R>>, parent: int, t: TableView<R>)
    requires
        visit_all(nodes, parent, t).names.len() <= usize::MAX,
        visit_all(nodes, parent, t).entries.len() <= usize::MAX,
        0 <= t.offset,
        end_of_all(nodes, t.offset) <= u64::MAX,
    ensures
        forall|i: int|
            t.entries.len() <= i < visit_all(nodes, parent, t).entries.len() ==> entry_bounds(
                #[trigger] visit_all(nodes, parent, t).entries[i],
                visit_all(nodes, parent, t),
            ),
    decreases nodes, nodes.len(),
{
    if nodes.len() > 0 {
        let front = nodes.drop_last();
        let u = visit_all(front, parent, t);
        let v = visit_all(nodes, parent, t);
        lemma_visit_all(front, parent, t);
        lemma_visit(nodes.last(), parent, u);
        lemma_end_of_all(front, t.offset);
        lemma_end_of(nodes.last(), u.offset);
        lemma_visit_all_bounds(front, parent, t);
        lemma_visit_bounds(nodes.last(), parent, u);
        assert forall|i: int| t.entries.len() <= i < v.entries.len() implies entry_bounds(
            #[trigger] v.entries[i],
            v,
        ) by {
            if i < u.entries.len() {
                assert(v.entries.take(u.entries.len() as int)[i] == v.entries[i]);
                lemma_bounds_grow(u.entries[i], u, v);
            }
        }
    }
}

/// The first entry that nodes add to a table has the first name that they add.
pub(crate) proof fn lemma_visit_all_first<R>(nodes: Seq<NodeView<R>>, parent: int, t: TableView<R>)
    requires
        nodes.len() > 0,
        t.names.len() <= usize::MAX,
    ensures
        ({
            let v = visit_all(nodes, parent, t);
            &&& v.entries.len() > t.entries.len()
            &&& v.entries[t.entries.len() as int].file_name_offset == t.names.len()
        }),
    decreases nodes.len(),
{
    let front = nodes.drop_last();
    let u = visit_all(front, parent, t);
    let v = visit_all(nodes, parent, t);
    let a = t.entries.len() as int;
    lemma_visit(nodes.last(), parent, u);
    if front.len() > 0 {
        lemma_visit_all_first(front, parent, t);
        assert(v.entries.take(u.entries.len() as int)[a] == v.entries[a]);
    } else {
        assert(u == t);
        if let NodeView::Directory(d) = nodes.last() {
            let start = enter_dir(t, parent, d.name);
            lemma_visit_all(d.children, a, start);
        }
    }
}

/// Giving files their places changes no name.
pub(crate) proof fn lemma_place_wf<R>(node: NodeView<R>, offset: int)
    requires
        node_wf(node),
    ensures
        node_wf(place(node, offset)),
        place(node, offset).name() == node.name(),
    decreases node, 0nat,
{
    if let NodeView::Directory(d) = node {
        lemma_place_all_wf(d.children, offset);
    }
}

pub(crate) proof fn lemma_place_all_wf<R>(nodes: Seq<NodeView<R>>, offset: int)
    requires
        distinct_names(nodes),
        forall|i: int| 0 <= i < nodes.len() ==> node_wf(#[trigger] nodes[i]),
    ensures
        place_all(nodes, offset).len() == nodes.len(),
        forall|i: int|
            0 <= i < nodes.len() ==> node_wf(#[trigger] place_all(nodes, offset)[i]) && place_all(
                nodes,
                offset,
            )[i].name() == nodes[i].name(),
        distinct_names(place_all(nodes, offset)),
    decreases nodes, nodes.len(),
{
    if nodes.len() > 0 {
        let front = nodes.drop_last();
        assert forall|i: int| 0 <= i < front.len() implies node_wf(#[trigger] front[i]) by {
            assert(node_wf(nodes[i]));
        }
        assert forall|i: int, j: int| 0 <= i < j < front.len() implies (
        #[trigger] front[i]).name() != (#[trigger] front[j]).name() by {
            assert(nodes[i].name() != nodes[j].name());
        }
        lemma_place_all_wf(front, offset);
        assert(node_wf(nodes[nodes.len() - 1]));
        lemma_place_wf(nodes.last(), end_of_all(front, offset));
        let placed = place_all(nodes, offset);
        assert forall|i: int| 0 <= i < nodes.len() implies node_wf(#[trigger] placed[i])
            && placed[i].name() == nodes[i].name() by {
            if i < front.len() {
                assert(placed[i] == place_all(front, offset)[i]);
                assert(front[i] == nodes[i]);
            }
        }
        assert forall|i: int, j: int| 0 <= i < j < placed.len() implies (
        #[trigger] placed[i]).name() != (#[trigger] placed[j]).name() by {
            assert(nodes[i].name() != nodes[j].name());
        }
    }
}

} // verus!
