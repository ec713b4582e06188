//! What the table of a tree says of the tree, entry by entry.

use vstd::prelude::*;
use vstd::utf8::encode_utf8;

use crate::iso::{law_align_up, lemma_alignments, FstEntry, FstEntryView, FstNodeType};
use super::assemble::entries_view;
use super::reread::{lemma_visit_all_files, lemma_visit_files};
use super::serialize::{first_table, fs_table, total_len};
use super::table::{
    end_of, end_of_all, enter_dir, file_end, file_start, lemma_end_of, lemma_end_of_all,
    lemma_stored_start, lemma_visit, lemma_visit_all, lemma_visit_all_stores, place, place_all,
    table_view, visit, visit_all, TableView,
};
use super::tree::{all_files, node_files, same_shape};
use super::{DirView, File, FileView, NodeView};

verus! {

/// Whether the directory entry at `i` has the index of the entry that holds it: the
/// entry at its parent index is a directory that starts before `i` and ends no
/// earlier than it, and no directory between the two contains `i`.
pub open spec fn held_by_parent(es: Seq<FstEntryView>, i: int) -> bool {
    let p = es[i].file_offset_parent_dir as int;
    &&& p < i < es[p].file_size_next_dir_index
    &&& es[p].kind == FstNodeType::Directory
    &&& es[i].file_size_next_dir_index <= es[p].file_size_next_dir_index
    &&& forall|q: int|
        p < q < i && (#[trigger] es[q]).kind == FstNodeType::Directory
            ==> es[q].file_size_next_dir_index <= i
}

/// Whether entry `i` of the entries from `a` on is one of the outermost: no directory
/// among them contains it.
spec fn outermost(es: Seq<FstEntryView>, a: int, i: int) -> bool {
    forall|q: int|
        a <= q < i && (#[trigger] es[q]).kind == FstNodeType::Directory
            ==> es[q].file_size_next_dir_index <= i
}

/// Whether the entries from `a` to `b` are those of nodes of the directory at entry
/// `parent`, as far as directories go: each one ends after itself and before `b`, and
/// has as its parent the directory that holds it, or `parent` if it is outermost.
spec fn nested(es: Seq<FstEntryView>, a: int, b: int, parent: int) -> bool {
    &&& 0 <= a <= b <= es.len()
    &&& forall|i: int|
        a <= i < b && (#[trigger] es[i]).kind == FstNodeType::Directory ==> {
            &&& i < es[i].file_size_next_dir_index <= b
            &&& if outermost(es, a, i) {
                es[i].file_offset_parent_dir == parent
            } else {
                a <= es[i].file_offset_parent_dir && held_by_parent(es, i)
            }
        }
}

/// Entries that are not touched stay nested.
proof fn lemma_nested_same(
    es: Seq<FstEntryView>,
    fs: Seq<FstEntryView>,
    a: int,
    b: int,
    parent: int,
)
    requires
        nested(es, a, b, parent),
        b <= fs.len(),
        forall|i: int| a <= i < b ==> es[i] == #[trigger] fs[i],
    ensures
        nested(fs, a, b, parent),
{
    assert forall|i: int|
        a <= i < b && (#[trigger] fs[i]).kind == FstNodeType::Directory implies {
        &&& i < fs[i].file_size_next_dir_index <= b
        &&& if outermost(fs, a, i) {
            fs[i].file_offset_parent_dir == parent
        } else {
            a <= fs[i].file_offset_parent_dir && held_by_parent(fs, i)
        }
    } by {
        assert(es[i] == fs[i]);
        if outermost(fs, a, i) {
            assert forall|q: int|
                a <= q < i && (#[trigger] es[q]).kind
                    == FstNodeType::Directory implies es[q].file_size_next_dir_index <= i by {
                assert(es[q] == fs[q]);
            }
            assert(outermost(es, a, i));
        } else {
            let k = choose|q: int|
                a <= q < i && (#[trigger] fs[q]).kind == FstNodeType::Directory && !(
                fs[q].file_size_next_dir_index <= i);
            assert(es[k] == fs[k]);
            assert(!outermost(es, a, i));
            let p = es[i].file_offset_parent_dir as int;
            assert(held_by_parent(es, i));
            assert(es[p] == fs[p]);
            assert forall|q: int|
                p < q < i && (#[trigger] fs[q]).kind
                    == FstNodeType::Directory implies fs[q].file_size_next_dir_index <= i by {
                assert(es[q] == fs[q]);
            }
        }
    }
}

/// Nested entries that follow each other are nested.
proof fn lemma_nested_join(es: Seq<FstEntryView>, a: int, m: int, b: int, parent: int)
    requires
        nested(es, a, m, parent),
        nested(es, m, b, parent),
    ensures
        nested(es, a, b, parent),
{
    assert forall|i: int|
        a <= i < b && (#[trigger] es[i]).kind == FstNodeType::Directory implies {
        &&& i < es[i].file_size_next_dir_index <= b
        &&& if outermost(es, a, i) {
            es[i].file_offset_parent_dir == parent
        } else {
            a <= es[i].file_offset_parent_dir && held_by_parent(es, i)
        }
    } by {
        if i >= m {
            assert forall|q: int|
                a <= q < m && (#[trigger] es[q]).kind
                    == FstNodeType::Directory implies es[q].file_size_next_dir_index <= i by {}
            if outermost(es, m, i) {
                assert(outermost(es, a, i));
            } else {
                let k = choose|q: int|
                    m <= q < i && (#[trigger] es[q]).kind == FstNodeType::Directory && !(
                    es[q].file_size_next_dir_index <= i);
                assert(es[k].kind == FstNodeType::Directory);
                assert(!outermost(es, a, i));
            }
        }
    }
}

/// A directory around nested entries is nested.
proof fn lemma_nested_dir(es: Seq<FstEntryView>, a: int, b: int, parent: int)
    requires
        a < b,
        nested(es, a + 1, b, a),
        0 <= a,
        es[a].kind == FstNodeType::Directory,
        es[a].file_size_next_dir_index == b,
        es[a].file_offset_parent_dir == parent,
    ensures
        nested(es, a, b, parent),
{
    assert forall|i: int|
        a <= i < b && (#[trigger] es[i]).kind == FstNodeType::Directory implies {
        &&& i < es[i].file_size_next_dir_index <= b
        &&& if outermost(es, a, i) {
            es[i].file_offset_parent_dir == parent
        } else {
            a <= es[i].file_offset_parent_dir && held_by_parent(es, i)
        }
    } by {
        if i == a {
            assert(outermost(es, a, i));
        } else {
            assert(es[a].kind == FstNodeType::Directory && es[a].file_size_next_dir_index > i);
            assert(!outermost(es, a, i));
            if outermost(es, a + 1, i) {
                assert forall|q: int|
                    a < q < i && (#[trigger] es[q]).kind
                        == FstNodeType::Directory implies es[q].file_size_next_dir_index <= i by {}
                assert(held_by_parent(es, i));
            }
        }
    }
}

proof fn lemma_visit_nested<R>(node: NodeView<R>, parent: int, t: TableView<R>)
    requires
        visit(node, parent, t).entries.len() <= usize::MAX,
        0 <= parent <= t.entries.len(),
    ensures
        nested(
            visit(node, parent, t).entries,
            t.entries.len() as int,
            visit(node, parent, t).entries.len() as int,
            parent,
        ),
    decreases node, 0nat,
{
    let v = visit(node, parent, t);
    let a = t.entries.len() as int;
    let b = v.entries.len() as int;
    lemma_visit(node, parent, t);
    match node {
        NodeView::File(f) => {
            assert(v.entries[a].kind == FstNodeType::File);
        },
        NodeView::Directory(d) => {
            let start = enter_dir(t, parent, d.name);
            let inside = visit_all(d.children, a, start);
            lemma_visit_all(d.children, a, start);
            lemma_visit_all_nested(d.children, a, start);
            lemma_nested_same(inside.entries, v.entries, a + 1, b, a);
            lemma_nested_dir(v.entries, a, b, parent);
        },
    }
}

proof fn lemma_visit_all_nested<R>(nodes: Seq<NodeView<R>>, parent: int, t: TableView<R>)
    requires
        visit_all(nodes, parent, t).entries.len() <= usize::MAX,
        0 <= parent <= t.entries.len(),
    ensures
        nested(
            visit_all(nodes, parent, t).entries,
            t.entries.len() as int,
            visit_all(nodes, parent, t).entries.len() as int,
            parent,
        ),
    decreases nodes, nodes.len(),
{
    if nodes.len() > 0 {
        let front = nodes.drop_last();
        let u = visit_all(front, parent, t);
        let v = visit_all(nodes, parent, t);
        let a = t.entries.len() as int;
        let m = u.entries.len() as int;
        let b = v.entries.len() as int;
        lemma_visit_all(front, parent, t);
        lemma_visit(nodes.last(), parent, u);
        lemma_visit_all_nested(front, parent, t);
        lemma_visit_nested(nodes.last(), parent, u);
        assert forall|i: int| a <= i < m implies u.entries[i] == #[trigger] v.entries[i] by {
            assert(v.entries.take(m)[i] == v.entries[i]);
        }
        lemma_nested_same(u.entries, v.entries, a, m, parent);
        lemma_nested_join(v.entries, a, m, b, parent);
    }
}

/// In the table of every tree, the middle word of a directory's entry is the index of
/// the entry of the directory that holds it. That entry is a directory that starts
/// before and ends after, and no directory between the two ends after. The first entry
/// is the root: it holds all others.
#[verifier::rlimit(40)]
pub proof fn law_table_parents<R>(root: DirView<R>, offset: int)
    requires
        fs_table(root, offset).entries.len() <= usize::MAX,
    ensures
        ({
            let es = fs_table(root, offset).entries;
            &&& es.len() > 0
            &&& es[0].kind == FstNodeType::Directory
            &&& es[0].file_size_next_dir_index == es.len()
            &&& forall|i: int|
                0 < i < es.len() && (#[trigger] es[i]).kind == FstNodeType::Directory ==> {
                    let p = es[i].file_offset_parent_dir as int;
                    &&& p < i < es[p].file_size_next_dir_index
                    &&& es[p].kind == FstNodeType::Directory
                    &&& i < es[i].file_size_next_dir_index <= es[p].file_size_next_dir_index
                    &&& forall|q: int|
                        p < q < i && (#[trigger] es[q]).kind == FstNodeType::Directory
                            ==> es[q].file_size_next_dir_index <= i
                }
        }),
{
    let first = first_table::<R>(offset);
    let v = visit_all(root.children, 0, first);
    let es = fs_table(root, offset).entries;
    let n = es.len() as int;
    lemma_visit_all(root.children, 0, first);
    lemma_visit_all_nested(root.children, 0, first);
    lemma_nested_same(v.entries, es, 1, n, 0);
    lemma_nested_dir(es, 0, n, 0);
    assert forall|i: int|
        0 < i < es.len() && (#[trigger] es[i]).kind == FstNodeType::Directory implies {
        let p = es[i].file_offset_parent_dir as int;
        &&& p < i < es[p].file_size_next_dir_index
        &&& es[p].kind == FstNodeType::Directory
        &&& i < es[i].file_size_next_dir_index <= es[p].file_size_next_dir_index
        &&& forall|q: int|
            p < q < i && (#[trigger] es[q]).kind == FstNodeType::Directory
                ==> es[q].file_size_next_dir_index <= i
    } by {
        assert(es[0].kind == FstNodeType::Directory && es[0].file_size_next_dir_index > i);
        assert(!outermost(es, 0, i));
        assert(held_by_parent(es, i));
    }
}

/// The node that is added to a table gets the next entry. For a directory it has the
/// index of the directory that it was added to, and ends where the table then ends.
pub proof fn law_visit_own_entry<R>(node: NodeView<R>, parent: int, t: TableView<R>)
    requires
        visit(node, parent, t).entries.len() <= usize::MAX,
        0 <= parent < t.entries.len(),
    ensures
        ({
            let es = visit(node, parent, t).entries;
            let a = t.entries.len() as int;
            &&& es.len() > a
            &&& es.take(a) == t.entries
            &&& node is Directory ==> {
                &&& es[a].kind == FstNodeType::Directory
                &&& es[a].file_offset_parent_dir == parent
                &&& es[a].file_size_next_dir_index == es.len()
            }
            &&& node is File ==> es.len() == a + 1 && es[a].kind == FstNodeType::File
        }),
{
    lemma_visit(node, parent, t);
    if let NodeView::Directory(d) = node {
        lemma_visit_all(d.children, t.entries.len() as int, enter_dir(t, parent, d.name));
    }
}

/// A node and everything in it, each directory before what it holds.
pub open spec fn preorder<R>(node: NodeView<R>) -> Seq<NodeView<R>>
    decreases node, 0nat,
{
    match node {
        NodeView::File(_) => seq![node],
        NodeView::Directory(d) => seq![node] + preorder_all(d.children),
    }
}

/// Nodes and everything in them, each directory before what it holds.
pub open spec fn preorder_all<R>(nodes: Seq<NodeView<R>>) -> Seq<NodeView<R>>
    decreases nodes, nodes.len(),
{
    if nodes.len() == 0 {
        Seq::empty()
    } else {
        preorder_all(nodes.drop_last()) + preorder(nodes.last())
    }
}

/// The names of nodes, each one as its bytes and a zero.
pub open spec fn names_bytes<R>(nodes: Seq<NodeView<R>>) -> Seq<u8>
    decreases nodes.len(),
{
    if nodes.len() == 0 {
        Seq::empty()
    } else {
        names_bytes(nodes.drop_last()) + encode_utf8(nodes.last().name()) + seq![0u8]
    }
}

/// Whether entry `e`, at index `i`, tells of the node `n`: for a file its name, place
/// and size; for a directory the index after everything in it.
pub open spec fn tells_of<R>(e: FstEntryView, n: NodeView<R>, i: int) -> bool {
    match n {
        NodeView::File(f) => {
            &&& e.kind == FstNodeType::File
            &&& e.relative_file_name == f.fst.relative_file_name
            &&& e.file_offset_parent_dir == f.new_offset as usize
            &&& e.file_size_next_dir_index == f.fst.file_size_next_dir_index
        },
        NodeView::Directory(d) => {
            &&& e.kind == FstNodeType::Directory
            &&& e.relative_file_name.len() == 0
            &&& e.file_size_next_dir_index == i + 1 + preorder_all(d.children).len()
        },
    }
}

/// Whether entry `e`, at index `i`, tells of node `k` of these nodes, whose names start
/// at `base`.
#[verifier::opaque]
spec fn row<R>(e: FstEntryView, pre: Seq<NodeView<R>>, k: int, i: int, base: int) -> bool {
    &&& tells_of(e, pre[k], i)
    &&& e.file_name_offset == base + names_bytes(pre.take(k)).len()
}

/// A row stays where nodes are added after it.
proof fn lemma_row_front<R>(
    e: FstEntryView,
    x: Seq<NodeView<R>>,
    y: Seq<NodeView<R>>,
    k: int,
    i: int,
    base: int,
)
    requires
        0 <= k < x.len(),
        row(e, x, k, i, base),
    ensures
        row(e, x + y, k, i, base),
{
    reveal(row);
    assert((x + y).take(k) =~= x.take(k));
    assert((x + y)[k] == x[k]);
}

/// A row stays where nodes are added before it.
proof fn lemma_row_back<R>(
    e: FstEntryView,
    x: Seq<NodeView<R>>,
    y: Seq<NodeView<R>>,
    k: int,
    i: int,
    base: int,
)
    requires
        0 <= k < y.len(),
        row(e, y, k, i, base + names_bytes(x).len()),
    ensures
        row(e, x + y, x.len() + k, i, base),
{
    reveal(row);
    assert((x + y).take(x.len() + k) =~= x + y.take(k));
    assert((x + y)[x.len() + k] == y[k]);
    lemma_names_concat(x, y.take(k));
}

/// The first row has the first name.
proof fn lemma_row_first<R>(e: FstEntryView, pre: Seq<NodeView<R>>, i: int, base: int)
    requires
        pre.len() > 0,
        tells_of(e, pre[0], i),
        e.file_name_offset == base,
    ensures
        row(e, pre, 0, i, base),
{
    reveal(row);
    assert(pre.take(0) =~= Seq::empty());
    assert(names_bytes(pre.take(0)).len() == 0);
}

/// Whether the table `v` is the table `t` with these nodes, an entry and a name each.
spec fn table_grown<R>(t: TableView<R>, v: TableView<R>, pre: Seq<NodeView<R>>) -> bool {
    let a = t.entries.len() as int;
    &&& v.entries.len() == a + pre.len()
    &&& v.names == t.names + names_bytes(pre)
    &&& forall|i: int|
        a <= i < v.entries.len() ==> row(
            #[trigger] v.entries[i],
            pre,
            i - a,
            i,
            t.names.len() as int,
        )
}

proof fn lemma_names_concat<R>(a: Seq<NodeView<R>>, b: Seq<NodeView<R>>)
    ensures
        names_bytes(a + b) == names_bytes(a) + names_bytes(b),
    decreases b.len(),
{
    if b.len() == 0 {
        assert(a + b =~= a);
        assert(names_bytes(a) + names_bytes(b) =~= names_bytes(a));
    } else {
        lemma_names_concat(a, b.drop_last());
        assert((a + b).drop_last() =~= a + b.drop_last());
        assert((a + b).last() == b.last());
        assert(names_bytes(a + b) =~= names_bytes(a) + names_bytes(b));
    }
}

proof fn lemma_names_one<R>(n: NodeView<R>)
    ensures
        names_bytes(seq![n]) == encode_utf8(n.name()).push(0),
{
    let one = seq![n];
    assert(one.drop_last() =~= Seq::empty());
    assert(names_bytes(one.drop_last()) =~= Seq::empty());
    assert(names_bytes(one) =~= encode_utf8(n.name()).push(0));
}

/// A table that has grown and grows again has grown by both.
proof fn lemma_grown_join<R>(
    t: TableView<R>,
    u: TableView<R>,
    v: TableView<R>,
    x: Seq<NodeView<R>>,
    y: Seq<NodeView<R>>,
)
    requires
        table_grown(t, u, x),
        table_grown(u, v, y),
        v.entries.take(u.entries.len() as int) == u.entries,
    ensures
        table_grown(t, v, x + y),
{
    let a = t.entries.len() as int;
    let pre = x + y;
    let base = t.names.len() as int;
    lemma_names_concat(x, y);
    assert(v.names =~= t.names + names_bytes(pre));
    assert forall|i: int| a <= i < v.entries.len() implies row(
        #[trigger] v.entries[i],
        pre,
        i - a,
        i,
        base,
    ) by {
        let m = u.entries.len() as int;
        if i < m {
            assert(v.entries.take(m)[i] == v.entries[i]);
            assert(row(u.entries[i], x, i - a, i, base));
            lemma_row_front(u.entries[i], x, y, i - a, i, base);
        } else {
            assert(row(v.entries[i], y, i - m, i, u.names.len() as int));
            lemma_row_back(v.entries[i], x, y, i - m, i, base);
        }
    }
}

#[verifier::rlimit(40)]
proof fn lemma_visit_grows<R>(node: NodeView<R>, parent: int, t: TableView<R>)
    requires
        visit(node, parent, t).entries.len() <= usize::MAX,
        visit(node, parent, t).names.len() <= usize::MAX,
        0 <= t.offset,
        end_of(node, t.offset) <= u64::MAX,
    ensures
        table_grown(t, visit(node, parent, t), preorder(place(node, t.offset))),
    decreases node, 0nat,
{
    let v = visit(node, parent, t);
    let a = t.entries.len() as int;
    let p = place(node, t.offset);
    let pre = preorder(p);
    lemma_visit(node, parent, t);
    lemma_end_of(node, t.offset);
    lemma_names_one(p);
    match node {
        NodeView::File(f) => {
            lemma_row_first(v.entries[a], pre, a, t.names.len() as int);
        },
        NodeView::Directory(d) => {
            let start = enter_dir(t, parent, d.name);
            let inside = visit_all(d.children, a, start);
            let inner = preorder_all(place_all(d.children, t.offset));
            lemma_visit_all(d.children, a, start);
            lemma_visit_all_grows(d.children, a, start);
            let one = seq![p];
            assert(pre == one + inner);
            lemma_names_concat(one, inner);
            assert(v.names =~= t.names + names_bytes(pre));
            let base = t.names.len() as int;
            assert forall|i: int| a <= i < v.entries.len() implies row(
                #[trigger] v.entries[i],
                pre,
                i - a,
                i,
                base,
            ) by {
                if i == a {
                    assert(v.entries.len() == a + 1 + inner.len());
                    lemma_row_first(v.entries[a], pre, a, base);
                } else {
                    assert(v.entries[i] == inside.entries[i]);
                    assert(row(inside.entries[i], inner, i - a - 1, i, start.names.len() as int));
                    lemma_row_back(v.entries[i], one, inner, i - a - 1, i, base);
                }
            }
        },
    }
}

proof fn lemma_visit_all_grows<R>(nodes: Seq<NodeView<R>>, parent: int, t: TableView<R>)
    requires
        visit_all(nodes, parent, t).entries.len() <= usize::MAX,
        visit_all(nodes, parent, t).names.len() <= usize::MAX,
        0 <= t.offset,
        end_of_all(nodes, t.offset) <= u64::MAX,
    ensures
        table_grown(t, visit_all(nodes, parent, t), preorder_all(place_all(nodes, t.offset))),
    decreases nodes, nodes.len(),
{
    if nodes.len() == 0 {
        assert(preorder_all(place_all(nodes, t.offset)) =~= Seq::empty());
        assert(t.names + names_bytes(Seq::<NodeView<R>>::empty()) =~= t.names);
    } else {
        let front = nodes.drop_last();
        let u = visit_all(front, parent, t);
        let v = visit_all(nodes, parent, t);
        let placed = place_all(nodes, t.offset);
        lemma_visit_all(front, parent, t);
        lemma_visit(nodes.last(), parent, u);
        lemma_end_of_all(front, t.offset);
        lemma_end_of(nodes.last(), u.offset);
        lemma_visit_all_grows(front, parent, t);
        lemma_visit_grows(nodes.last(), parent, u);
        assert(placed.drop_last() =~= place_all(front, t.offset));
        assert(placed.last() == place(nodes.last(), u.offset));
        lemma_grown_join(
            t,
            u,
            v,
            preorder_all(placed.drop_last()),
            preorder(placed.last()),
        );
    }
}

/// The table of a tree has an entry for the root and one for every node, each
/// directory before what it holds. A file's entry has its place and its size, a
/// directory's the index after everything in it. The names stand one after the other
/// in the same order, each ended by a zero, and each entry says where its own starts.
#[verifier::rlimit(40)]
pub proof fn law_table_entries<R>(root: DirView<R>, offset: int)
    requires
        fs_table(root, offset).entries.len() <= usize::MAX,
        fs_table(root, offset).names.len() <= usize::MAX,
        0 <= offset,
        end_of_all(root.children, offset) <= u64::MAX,
    ensures
        ({
            let t = fs_table(root, offset);
            let pre = preorder_all(place_all(root.children, offset));
            &&& t.entries.len() == 1 + pre.len()
            &&& t.names == names_bytes(pre)
            &&& t.entries[0].kind == FstNodeType::Directory
            &&& t.entries[0].file_offset_parent_dir == 0
            &&& t.entries[0].file_size_next_dir_index == t.entries.len()
            &&& t.entries[0].file_name_offset == 0
            &&& forall|k: int|
                0 <= k < pre.len() ==> {
                    &&& tells_of(t.entries[k + 1], #[trigger] pre[k], k + 1)
                    &&& t.entries[k + 1].file_name_offset == names_bytes(pre.take(k)).len()
                }
        }),
{
    let first = first_table::<R>(offset);
    let v = visit_all(root.children, 0, first);
    let t = fs_table(root, offset);
    let pre = preorder_all(place_all(root.children, offset));
    lemma_visit_all(root.children, 0, first);
    lemma_visit_all_grows(root.children, 0, first);
    assert(t.names =~= names_bytes(pre));
    assert forall|k: int| 0 <= k < pre.len() implies {
        &&& tells_of(t.entries[k + 1], #[trigger] pre[k], k + 1)
        &&& t.entries[k + 1].file_name_offset == names_bytes(pre.take(k)).len()
    } by {
        reveal(row);
        assert(t.entries[1 + k] == v.entries[1 + k]);
        assert(row(v.entries[1 + k], pre, k, k + 1, 0));
    }
}

/// What stands before everything in it: a directory; and nothing else comes from a
/// file. Nodes one after the other give what they hold one after the other.
pub proof fn law_preorder<R>(a: Seq<NodeView<R>>, b: Seq<NodeView<R>>, node: NodeView<R>)
    ensures
        preorder_all(a + b) == preorder_all(a) + preorder_all(b),
        preorder_all(seq![node]).len() > 0,
        preorder_all(seq![node])[0] == node,
        match node {
            NodeView::File(_) => preorder_all(seq![node]).len() == 1,
            NodeView::Directory(d) => preorder_all(seq![node]).skip(1) == preorder_all(d.children),
        },
    decreases b.len(),
{
    let one = seq![node];
    assert(one.drop_last() =~= Seq::empty());
    assert(preorder_all(one.drop_last()) =~= Seq::empty());
    assert(preorder_all(one) =~= preorder(node));
    if let NodeView::Directory(d) = node {
        assert(preorder(node).skip(1) =~= preorder_all(d.children));
    }
    if b.len() == 0 {
        assert(a + b =~= a);
        assert(preorder_all(a) + preorder_all(b) =~= preorder_all(a));
    } else {
        law_preorder(a, b.drop_last(), node);
        assert((a + b).drop_last() =~= a + b.drop_last());
        assert((a + b).last() == b.last());
        assert(preorder_all(a + b) =~= preorder_all(a) + preorder_all(b));
    }
}

/// Whether `g` is the file `f` in another place.
pub open spec fn only_moved<R>(f: FileView<R>, g: FileView<R>) -> bool {
    &&& g.fst == f.fst
    &&& g.cursor == f.cursor
    &&& g.state == f.state
    &&& g.data == f.data
}

proof fn lemma_place_moves<R>(node: NodeView<R>, offset: int)
    ensures
        same_shape(node, place(node, offset)),
        node_files(place(node, offset)).len() == node_files(node).len(),
        forall|i: int|
            0 <= i < node_files(node).len() ==> only_moved(
                #[trigger] node_files(node)[i],
                node_files(place(node, offset))[i],
            ),
    decreases node, 0nat,
{
    if let NodeView::Directory(d) = node {
        lemma_place_all_moves(d.children, offset);
    }
}

proof fn lemma_place_all_moves<R>(nodes: Seq<NodeView<R>>, offset: int)
    ensures
        place_all(nodes, offset).len() == nodes.len(),
        forall|i: int|
            0 <= i < nodes.len() ==> same_shape(#[trigger] nodes[i], place_all(nodes, offset)[i]),
        all_files(place_all(nodes, offset)).len() == all_files(nodes).len(),
        forall|i: int|
            0 <= i < all_files(nodes).len() ==> only_moved(
                #[trigger] all_files(nodes)[i],
                all_files(place_all(nodes, offset))[i],
            ),
    decreases nodes, nodes.len(),
{
    if nodes.len() > 0 {
        let front = nodes.drop_last();
        let placed = place_all(nodes, offset);
        lemma_place_all_moves(front, offset);
        lemma_place_moves(nodes.last(), end_of_all(front, offset));
        assert(placed.drop_last() =~= place_all(front, offset));
        assert forall|i: int| 0 <= i < nodes.len() implies same_shape(
            #[trigger] nodes[i],
            placed[i],
        ) by {
            if i < front.len() {
                assert(same_shape(front[i], place_all(front, offset)[i]));
            }
        }
        let n = all_files(front).len() as int;
        assert(all_files(placed) == all_files(placed.drop_last()) + node_files(placed.last()));
        assert forall|i: int| 0 <= i < all_files(nodes).len() implies only_moved(
            #[trigger] all_files(nodes)[i],
            all_files(placed)[i],
        ) by {
            if i < n {
                assert(all_files(nodes)[i] == all_files(front)[i]);
            } else {
                assert(all_files(nodes)[i] == node_files(nodes.last())[i - n]);
            }
        }
    }
}

/// Whether file `i` starts at the first multiple of 32 at or after the end of the file
/// before it, or after `offset` if it is the first.
pub open spec fn next_place<R>(files: Seq<FileView<R>>, i: int, offset: int) -> bool {
    let end = if i == 0 {
        offset
    } else {
        files[i - 1].new_offset + files[i - 1].fst.file_size_next_dir_index
    };
    &&& files[i].new_offset % 32 == 0
    &&& end <= files[i].new_offset < end + 32
}

/// The files of a table are those of the tree in order, and nothing of them is changed
/// but their places. Each one is placed at the first multiple of 32 at or after the
/// end of the one before; the first one at or after where the files may start. The
/// tree is left with its files in these places.
#[verifier::rlimit(40)]
pub proof fn law_table_files<R>(root: DirView<R>, offset: int)
    requires
        0 <= offset,
        end_of_all(root.children, offset) <= u64::MAX,
    ensures
        ({
            let files = fs_table(root, offset).files;
            let old_files = all_files(root.children);
            let placed = place_all(root.children, offset);
            &&& files == all_files(placed)
            &&& same_shape(
                NodeView::Directory(root),
                NodeView::Directory(DirView { name: root.name, children: placed }),
            )
            &&& files.len() == old_files.len()
            &&& forall|i: int|
                0 <= i < files.len() ==> only_moved(old_files[i], #[trigger] files[i])
            &&& forall|i: int| 0 <= i < files.len() ==> #[trigger] next_place(files, i, offset)
        }),
{
    let first = first_table::<R>(offset);
    let files = fs_table(root, offset).files;
    lemma_visit_all_files(root.children, 0, first);
    lemma_visit_all_stores(root.children, 0, first, offset);
    lemma_place_all_moves(root.children, offset);
    assert(files =~= all_files(place_all(root.children, offset)));
    assert forall|i: int| 0 <= i < files.len() implies only_moved(
        all_files(root.children)[i],
        #[trigger] files[i],
    ) by {
        assert(only_moved(
            all_files(root.children)[i],
            all_files(place_all(root.children, offset))[i],
        ));
    }
    assert forall|i: int| 0 <= i < files.len() implies #[trigger] next_place(files, i, offset) by {
        lemma_stored_start(files, i, offset);
    }
}

/// Whatever table a node is added to, each directory in the node has as its parent the
/// directory entry that holds it.
pub proof fn law_visit_parents<R>(node: NodeView<R>, parent: int, t: TableView<R>, i: int)
    requires
        visit(node, parent, t).entries.len() <= usize::MAX,
        0 <= parent < t.entries.len(),
        t.entries.len() < i < visit(node, parent, t).entries.len(),
        visit(node, parent, t).entries[i].kind == FstNodeType::Directory,
    ensures
        ({
            let es = visit(node, parent, t).entries;
            let p = es[i].file_offset_parent_dir as int;
            &&& t.entries.len() <= p < i < es[p].file_size_next_dir_index
            &&& es[p].kind == FstNodeType::Directory
            &&& i < es[i].file_size_next_dir_index <= es[p].file_size_next_dir_index
            &&& forall|q: int|
                p < q < i && (#[trigger] es[q]).kind == FstNodeType::Directory
                    ==> es[q].file_size_next_dir_index <= i
        }),
{
    let es = visit(node, parent, t).entries;
    let a = t.entries.len() as int;
    lemma_visit_nested(node, parent, t);
    law_visit_own_entry(node, parent, t);
    assert(es[a].kind == FstNodeType::Directory);
    assert(es[a].file_size_next_dir_index > i);
    assert(!outermost(es, a, i));
    assert(held_by_parent(es, i));
}

/// Whatever table a node is added to, the table gets an entry and a name for the node
/// and for each one in it, each directory before what it holds.
pub proof fn law_visit_entries<R>(node: NodeView<R>, parent: int, t: TableView<R>)
    requires
        visit(node, parent, t).entries.len() <= usize::MAX,
        visit(node, parent, t).names.len() <= usize::MAX,
        0 <= t.offset,
        end_of(node, t.offset) <= u64::MAX,
    ensures
        ({
            let v = visit(node, parent, t);
            let pre = preorder(place(node, t.offset));
            let a = t.entries.len() as int;
            &&& v.entries.len() == a + pre.len()
            &&& v.names == t.names + names_bytes(pre)
            &&& forall|k: int|
                0 <= k < pre.len() ==> {
                    &&& tells_of(v.entries[a + k], #[trigger] pre[k], a + k)
                    &&& v.entries[a + k].file_name_offset == t.names.len() + names_bytes(
                        pre.take(k),
                    ).len()
                }
        }),
{
    let v = visit(node, parent, t);
    let pre = preorder(place(node, t.offset));
    let a = t.entries.len() as int;
    lemma_visit_grows(node, parent, t);
    assert forall|k: int| 0 <= k < pre.len() implies {
        &&& tells_of(v.entries[a + k], #[trigger] pre[k], a + k)
        &&& v.entries[a + k].file_name_offset == t.names.len() + names_bytes(pre.take(k)).len()
    } by {
        reveal(row);
        assert(row(v.entries[a + k], pre, k, a + k, t.names.len() as int));
    }
}

/// A file that is added to a table is placed at the first multiple of 32 at or after
/// where it may start, and the next one may start at the first multiple of four at or
/// after its end. It is listed in its place, and so the tree has it; nothing else of it
/// changes.
pub proof fn law_visit_file<R>(f: FileView<R>, parent: int, t: TableView<R>)
    requires
        0 <= t.offset,
        end_of(NodeView::File(f), t.offset) <= u64::MAX,
    ensures
        ({
            let v = visit(NodeView::File(f), parent, t);
            let g = v.files.last();
            let end = g.new_offset + g.fst.file_size_next_dir_index;
            &&& v.files.len() == t.files.len() + 1
            &&& v.files.drop_last() == t.files
            &&& only_moved(f, g)
            &&& place(NodeView::File(f), t.offset) == NodeView::File(g)
            &&& g.new_offset % 32 == 0
            &&& t.offset <= g.new_offset < t.offset + 32
            &&& v.offset % 4 == 0
            &&& end <= v.offset < end + 4
        }),
{
    let v = visit(NodeView::File(f), parent, t);
    lemma_end_of(NodeView::File(f), t.offset);
    lemma_alignments();
    law_align_up(t.offset, 5);
    law_align_up(file_start(t.offset) + f.fst.file_size_next_dir_index, 2);
    assert(v.files.drop_last() =~= t.files);
}

/// A directory that is added to a table brings the files of what it holds, and the next
/// file may start where it may after them. What it holds is placed as if it were added
/// by itself.
pub proof fn law_visit_dir_files<R>(d: DirView<R>, parent: int, t: TableView<R>)
    ensures
        ({
            let node = NodeView::Directory(d);
            let v = visit(node, parent, t);
            &&& v.files == t.files + all_files(place_all(d.children, t.offset))
            &&& v.offset == end_of_all(d.children, t.offset)
            &&& place(node, t.offset) is Directory
            &&& place(node, t.offset)->Directory_0.name == d.name
            &&& place(node, t.offset)->Directory_0.children == place_all(d.children, t.offset)
        }),
{
    lemma_visit(NodeView::Directory(d), parent, t);
    lemma_visit_files(NodeView::Directory(d), parent, t);
}

/// Nodes are added to a table and placed one after the other.
pub proof fn law_visit_run<R>(
    nodes: Seq<NodeView<R>>,
    node: NodeView<R>,
    parent: int,
    t: TableView<R>,
)
    ensures
        visit_all(Seq::<NodeView<R>>::empty(), parent, t) == t,
        visit_all(nodes.push(node), parent, t) == visit(node, parent, visit_all(nodes, parent, t)),
        place_all(Seq::<NodeView<R>>::empty(), t.offset).len() == 0,
        place_all(nodes.push(node), t.offset) == place_all(nodes, t.offset).push(
            place(node, visit_all(nodes, parent, t).offset),
        ),
        end_of_all(nodes, t.offset) == visit_all(nodes, parent, t).offset,
{
    assert(nodes.push(node).drop_last() =~= nodes);
    lemma_visit_all(nodes, parent, t);
}

/// The parts of a table in the making, as one value, are those parts.
pub proof fn law_table_view<R>(
    entries: Seq<FstEntry>,
    names: Seq<u8>,
    files: Seq<File<R>>,
    offset: u64,
)
    ensures
        ({
            let t = table_view(entries, names, files, offset);
            &&& t.entries.len() == entries.len()
            &&& forall|i: int| 0 <= i < entries.len() ==> #[trigger] t.entries[i] == entries[i]@
            &&& t.entries == entries_view(entries)
            &&& t.names == names
            &&& t.files.len() == files.len()
            &&& forall|i: int| 0 <= i < files.len() ==> #[trigger] t.files[i] == files[i]@
            &&& t.offset == offset
        }),
{
}

/// Where files end is bounded by their sizes and some room for each.
pub proof fn law_end_bounded<R>(nodes: Seq<NodeView<R>>, offset: int)
    ensures
        offset <= end_of_all(nodes, offset) <= offset + total_len(all_files(nodes)) + 34
            * all_files(nodes).len(),
    decreases nodes, nodes.len(),
{
    lemma_end_of_all(nodes, offset);
    if nodes.len() > 0 {
        let front = nodes.drop_last();
        let o = end_of_all(front, offset);
        law_end_bounded(front, offset);
        lemma_total_concat(all_files(front), node_files(nodes.last()));
        match nodes.last() {
            NodeView::File(f) => {
                lemma_alignments();
                law_align_up(o, 5);
                law_align_up(file_start(o) + f.fst.file_size_next_dir_index, 2);
                let one = seq![f];
                assert(one.drop_last() =~= Seq::empty());
                assert(total_len(one.drop_last()) == 0);
                assert(total_len(one) == f.fst.file_size_next_dir_index);
                assert(node_files(nodes.last()) == one);
                assert(file_end(o, f.len()) <= o + 31 + f.fst.file_size_next_dir_index + 3);
            },
            NodeView::Directory(d) => {
                law_end_bounded(d.children, o);
                assert(node_files(nodes.last()) == all_files(d.children));
                assert(end_of(nodes.last(), o) == end_of_all(d.children, o));
            },
        }
        let more = node_files(nodes.last());
        assert(end_of_all(nodes, offset) == end_of(nodes.last(), o));
        assert(all_files(nodes) == all_files(front) + more);
        assert(all_files(nodes).len() == all_files(front).len() + more.len());
        assert(end_of_all(nodes, offset) <= o + total_len(more) + 34 * more.len());
    } else {
        assert(total_len(all_files(nodes)) == 0);
    }
}

proof fn lemma_total_concat<R>(a: Seq<FileView<R>>, b: Seq<FileView<R>>)
    ensures
        total_len(a + b) == total_len(a) + total_len(b),
    decreases b.len(),
{
    if b.len() == 0 {
        assert(a + b =~= a);
    } else {
        lemma_total_concat(a, b.drop_last());
        assert((a + b).drop_last() =~= a + b.drop_last());
        assert((a + b).last() == b.last());
    }
}

} // verus!
