//! What is read from a disc, on the bytes of the disc.

use vstd::prelude::*;
use vstd::utf8::{decode_utf8, valid_utf8};

use crate::iso::fst::{entry_of_bytes, law_entry_read, name_offset_of_bytes};
use crate::iso::{FstEntryView, FstNodeType};
use super::assemble::{build_entry, build_range, entry_file, lemma_build_entry_end};
use super::parse::{block, name_end, read_entries, EntriesView};
use super::tree::{
    add_file, all_files, empty_dir, find, is_match, lemma_all_files_concat, lemma_all_files_one,
    lemma_find_from, mkdir, node_files,
};
use super::tree_laws::lemma_find_is;
use super::{DataView, DirView, FileReadState, FileView, NodeView};

verus! {

/// The number in three bytes at `p`, most significant first.
pub open spec fn three_at(b: Seq<u8>, p: int) -> int {
    b[p] * 0x1_0000 + b[p + 1] * 0x100 + b[p + 2]
}

/// The number in four bytes at `p`, most significant first.
pub open spec fn four_at(b: Seq<u8>, p: int) -> int {
    b[p] * 0x100_0000 + b[p + 1] * 0x1_0000 + b[p + 2] * 0x100 + b[p + 3]
}

/// Whether the name that starts at `pos` ends before `end`: there is a zero, and none
/// before it.
pub open spec fn name_stops(table: Seq<u8>, pos: int, end: int) -> bool {
    &&& 0 <= pos <= end < table.len()
    &&& table[end] == 0
    &&& forall|k: int| pos <= k < end ==> #[trigger] table[k] != 0
}

/// Whether entry `i` of `list` has a name in `table` that is UTF-8.
pub open spec fn has_good_name(list: Seq<u8>, table: Seq<u8>, i: int) -> bool {
    exists|end: int|
        #[trigger] name_stops(table, three_at(list, 12 * i + 1), end) && valid_utf8(
            table.subrange(three_at(list, 12 * i + 1), end),
        )
}

/// Whether `e` is entry `i` of `list`, with its name from `table`.
pub open spec fn is_entry(
    e: FstEntryView,
    list: Seq<u8>,
    table: Seq<u8>,
    i: int,
    is_wii: bool,
) -> bool {
    let p = 12 * i;
    &&& (e.kind == FstNodeType::File <==> list[p] == 0)
    &&& e.file_name_offset == three_at(list, p + 1)
    &&& !is_wii ==> e.file_offset_parent_dir == four_at(list, p + 4)
    &&& is_wii && 4 * four_at(list, p + 4) <= usize::MAX ==> e.file_offset_parent_dir == 4
        * four_at(list, p + 4)
    &&& e.file_size_next_dir_index == four_at(list, p + 8)
    &&& forall|end: int|
        #[trigger] name_stops(table, three_at(list, p + 1), end) ==> e.relative_file_name
            == decode_utf8(table.subrange(three_at(list, p + 1), end))
}

proof fn lemma_name_end_is(table: Seq<u8>, pos: int)
    requires
        0 <= pos,
    ensures
        match name_end(table, pos) {
            Some(end) => name_stops(table, pos, end),
            None => forall|end: int| !name_stops(table, pos, end),
        },
    decreases table.len() - pos,
{
    if pos < table.len() && table[pos] != 0 {
        lemma_name_end_is(table, pos + 1);
        match name_end(table, pos + 1) {
            Some(end) => {
                assert(name_stops(table, pos, end));
            },
            None => {
                assert forall|end: int| !name_stops(table, pos, end) by {
                    if name_stops(table, pos, end) {
                        assert(end != pos);
                        assert(name_stops(table, pos + 1, end));
                    }
                }
            },
        }
    } else if pos < table.len() {
        assert(name_stops(table, pos, pos));
    }
}

/// The first zero is the only place where a name stops.
proof fn lemma_stops_once(table: Seq<u8>, pos: int, a: int, b: int)
    requires
        name_stops(table, pos, a),
        name_stops(table, pos, b),
    ensures
        a == b,
{
    if a < b {
        assert(table[a] != 0);
    }
    if b < a {
        assert(table[b] != 0);
    }
}

proof fn lemma_block_numbers(list: Seq<u8>, i: int, name: Seq<char>, is_wii: bool)
    requires
        0 <= i,
        12 * i + 12 <= list.len(),
    ensures
        name_offset_of_bytes(block(list, i)) == three_at(list, 12 * i + 1),
        ({
            let e = entry_of_bytes(block(list, i), name, is_wii);
            let p = 12 * i;
            &&& (e.kind == FstNodeType::File <==> list[p] == 0)
            &&& e.relative_file_name == name
            &&& e.file_name_offset == three_at(list, p + 1)
            &&& !is_wii ==> e.file_offset_parent_dir == four_at(list, p + 4)
            &&& is_wii && 4 * four_at(list, p + 4) <= usize::MAX ==> e.file_offset_parent_dir == 4
                * four_at(list, p + 4)
            &&& e.file_size_next_dir_index == four_at(list, p + 8)
        }),
{
    let b = block(list, i);
    law_entry_read(b, name, is_wii);
    assert forall|k: int| 0 <= k < 12 implies #[trigger] b[k] == list[12 * i + k] by {}
}

/// The entries of a table are read one by one. Each has its kind, its numbers and the
/// name that its name offset leads to in the names: all up to the next zero. The first
/// entry whose name is no UTF-8, or does not end, decides what is wrong.
#[verifier::rlimit(40)]
pub proof fn law_read_entries(list: Seq<u8>, table: Seq<u8>, n: nat, is_wii: bool)
    requires
        12 * n <= list.len(),
    ensures
        match read_entries(list, table, n, is_wii) {
            EntriesView::Entries(es) => {
                &&& es.len() == n
                &&& forall|i: int|
                    0 <= i < n ==> has_good_name(list, table, i) && is_entry(
                        #[trigger] es[i],
                        list,
                        table,
                        i,
                        is_wii,
                    )
            },
            EntriesView::InvalidName(bytes) => exists|i: int, end: int|
                {
                    &&& 0 <= i < n
                    &&& forall|j: int| 0 <= j < i ==> has_good_name(list, table, j)
                    &&& #[trigger] name_stops(table, three_at(list, 12 * i + 1), end)
                    &&& bytes == table.subrange(three_at(list, 12 * i + 1), end)
                    &&& !valid_utf8(bytes)
                },
            EntriesView::Malformed => exists|i: int|
                {
                    &&& 0 <= i < n
                    &&& forall|j: int| 0 <= j < i ==> has_good_name(list, table, j)
                    &&& #[trigger] never_stops(table, three_at(list, 12 * i + 1))
                },
        },
    decreases n,
{
    if n > 0 {
        let k = (n - 1) as nat;
        law_read_entries(list, table, k, is_wii);
        match read_entries(list, table, k, is_wii) {
            EntriesView::Entries(before) => {
                assert forall|j: int| 0 <= j < k implies has_good_name(list, table, j) by {
                    assert(is_entry(before[j], list, table, j, is_wii));
                }
                let pos = three_at(list, 12 * (k as int) + 1);
                lemma_block_numbers(list, k as int, Seq::empty(), is_wii);
                lemma_name_end_is(table, pos);
                match name_end(table, pos) {
                    None => {
                        assert(never_stops(table, three_at(list, 12 * (k as int) + 1)));
                    },
                    Some(end) => {
                        let bytes = table.subrange(pos, end);
                        if valid_utf8(bytes) {
                            let name = decode_utf8(bytes);
                            let e = entry_of_bytes(block(list, k as int), name, is_wii);
                            lemma_block_numbers(list, k as int, name, is_wii);
                            assert(name_stops(table, pos, end));
                            assert(has_good_name(list, table, k as int));
                            assert forall|other: int| #[trigger]
                                name_stops(table, pos, other) implies e.relative_file_name
                                == decode_utf8(table.subrange(pos, other)) by {
                                lemma_stops_once(table, pos, end, other);
                            }
                            assert(is_entry(e, list, table, k as int, is_wii));
                            let es = before.push(e);
                            assert(read_entries(list, table, n, is_wii) == EntriesView::Entries(
                                es,
                            ));
                            assert forall|i: int| 0 <= i < n implies has_good_name(list, table, i)
                                && is_entry(#[trigger] es[i], list, table, i, is_wii) by {
                                if i < k {
                                    assert(is_entry(before[i], list, table, i, is_wii));
                                }
                            }
                        } else {
                            assert(name_stops(table, three_at(list, 12 * (k as int) + 1), end));
                        }
                    },
                }
            },
            EntriesView::InvalidName(bytes) => {},
            EntriesView::Malformed => {},
        }
    }
}

/// Whether a name that starts at `pos` has no end.
pub open spec fn never_stops(table: Seq<u8>, pos: int) -> bool {
    forall|end: int| !name_stops(table, pos, end)
}

/// Whether `f` is a file on the disc that entry `e` tells of: its name, its offset, its
/// size and its name offset are those of the entry, and nothing was done to it yet.
pub open spec fn file_of_entry<R>(f: FileView<R>, e: FstEntryView, reader: R) -> bool {
    &&& e.kind == FstNodeType::File
    &&& f.fst.kind == FstNodeType::File
    &&& f.fst.relative_file_name == e.relative_file_name
    &&& f.fst.file_offset_parent_dir == e.file_offset_parent_dir
    &&& f.fst.file_size_next_dir_index == e.file_size_next_dir_index
    &&& f.fst.file_name_offset == e.file_name_offset
    &&& f.data == DataView::Reader(reader)
    &&& f.new_offset == 0
    &&& f.cursor == 0
    &&& f.state == FileReadState::Seeking
}

/// Whether `f` is the file of one of the entries after `cur`, up to `end`.
pub open spec fn file_of_some<R>(
    f: FileView<R>,
    es: Seq<FstEntryView>,
    cur: int,
    end: int,
    reader: R,
) -> bool {
    exists|i: int| cur < i <= end && i < es.len() && file_of_entry(f, #[trigger] es[i], reader)
}

/// Whether all files of `after` are files of `before` or of one of the entries after
/// `cur`, up to `end`.
spec fn files_from<R>(
    before: DirView<R>,
    after: DirView<R>,
    es: Seq<FstEntryView>,
    cur: int,
    end: int,
    reader: R,
) -> bool {
    forall|f: FileView<R>| #[trigger]
        all_files(after.children).contains(f) ==> all_files(before.children).contains(f)
            || file_of_some(f, es, cur, end, reader)
}

/// The files of nodes with one more at the end.
proof fn lemma_files_push<R>(nodes: Seq<NodeView<R>>, node: NodeView<R>)
    ensures
        all_files(nodes.push(node)) == all_files(nodes) + node_files(node),
{
    assert(nodes.push(node).drop_last() =~= nodes);
}

/// The files of nodes with one of them replaced.
proof fn lemma_files_replaced<R>(nodes: Seq<NodeView<R>>, at: int, node: NodeView<R>)
    requires
        0 <= at < nodes.len(),
    ensures
        forall|f: FileView<R>| #[trigger]
            all_files(nodes.update(at, node)).contains(f) ==> all_files(nodes).contains(f)
                || node_files(node).contains(f),
        forall|f: FileView<R>|
            node_files(nodes[at]).contains(f) ==> #[trigger] all_files(nodes).contains(f),
{
    let x = nodes.take(at);
    let y = nodes.skip(at + 1);
    let after = nodes.update(at, node);
    assert(nodes =~= x + seq![nodes[at]] + y);
    assert(after =~= x + seq![node] + y);
    lemma_all_files_concat(x + seq![nodes[at]], y);
    lemma_all_files_concat(x, seq![nodes[at]]);
    lemma_all_files_one(seq![nodes[at]]);
    lemma_all_files_concat(x + seq![node], y);
    lemma_all_files_concat(x, seq![node]);
    lemma_all_files_one(seq![node]);
    let fx = all_files(x);
    let fy = all_files(y);
    assert forall|f: FileView<R>| #[trigger] all_files(after).contains(f) implies all_files(
        nodes,
    ).contains(f) || node_files(node).contains(f) by {
        let k = choose|k: int| 0 <= k < all_files(after).len() && all_files(after)[k] == f;
        let m = node_files(node).len() as int;
        let o = node_files(nodes[at]).len() as int;
        if k < fx.len() {
            assert(all_files(nodes)[k] == f);
        } else if k < fx.len() + m {
            assert(node_files(node)[k - fx.len()] == f);
        } else {
            assert(all_files(nodes)[k - m + o] == f);
        }
    }
    assert forall|f: FileView<R>| node_files(nodes[at]).contains(f) implies #[trigger] all_files(
        nodes,
    ).contains(f) by {
        let k = choose|k: int|
            0 <= k < node_files(nodes[at]).len() && node_files(nodes[at])[k] == f;
        assert(all_files(nodes)[fx.len() + k] == f);
    }
}

/// Whatever is assembled from an entry, every file of the tree was there before or is
/// the file of one of the entries that were used.
pub proof fn law_built_files<R>(
    es: Seq<FstEntryView>,
    cur: int,
    parent: DirView<R>,
    reader: R,
    f: FileView<R>,
)
    requires
        build_entry(es, cur, parent, reader) is Some,
        all_files((build_entry(es, cur, parent, reader)->0).1.children).contains(f),
    ensures
        all_files(parent.children).contains(f) || file_of_some(
            f,
            es,
            cur - 1,
            (build_entry(es, cur, parent, reader)->0).0,
            reader,
        ),
{
    lemma_entry_files(es, cur, parent, reader);
}

#[verifier::rlimit(40)]
proof fn lemma_entry_files<R>(
    es: Seq<FstEntryView>,
    cur: int,
    parent: DirView<R>,
    reader: R,
)
    ensures
        build_entry(es, cur, parent, reader) matches Some((end, dir)) ==> files_from(
            parent,
            dir,
            es,
            cur - 1,
            end,
            reader,
        ),
    decreases es.len() - cur, 1nat,
{
    if build_entry(es, cur, parent, reader) is Some {
        let (end, dir) = build_entry(es, cur, parent, reader)->0;
        let e = es[cur];
        let name = e.relative_file_name;
        match e.kind {
            FstNodeType::File => {
                let g = entry_file(e, reader);
                assert(file_of_entry(g, e, reader));
                assert(file_of_some(g, es, cur - 1, end, reader));
                lemma_files_push(parent.children, NodeView::File(g));
                assert forall|f: FileView<R>| #[trigger]
                    all_files(dir.children).contains(f) implies all_files(
                    parent.children,
                ).contains(f) || file_of_some(f, es, cur - 1, end, reader) by {
                    if find(parent.children, name, None) >= parent.children.len() {
                        let all = all_files(dir.children);
                        let k = choose|k: int| 0 <= k < all.len() && all[k] == f;
                        if k < all_files(parent.children).len() {
                            assert(all_files(parent.children)[k] == f);
                        } else {
                            assert(f == g);
                        }
                    }
                }
            },
            FstNodeType::Directory => {
                let at = find(parent.children, name, None);
                lemma_find_from(parent.children, name, None, 0);
                let made = mkdir(parent, name);
                let inner = made.children[at]->Directory_0;
                let last = e.file_size_next_dir_index - 1;
                lemma_range_files(es, cur, last, inner, reader);
                let grown = (build_range(es, cur, last, inner, reader)->0).1;
                let node = NodeView::Directory(grown);
                lemma_files_push(
                    parent.children,
                    NodeView::Directory(empty_dir::<R>(name)),
                );
                assert(node_files(NodeView::Directory(empty_dir::<R>(name))) =~= Seq::empty());
                assert(all_files(made.children) =~= all_files(parent.children));
                lemma_files_replaced(made.children, at, node);
                assert forall|f: FileView<R>| #[trigger]
                    all_files(dir.children).contains(f) implies all_files(
                    parent.children,
                ).contains(f) || file_of_some(f, es, cur - 1, end, reader) by {
                    if !all_files(parent.children).contains(f) {
                        assert(all_files(grown.children).contains(f));
                        if all_files(inner.children).contains(f) {
                            assert(node_files(made.children[at]).contains(f));
                            assert(all_files(made.children).contains(f));
                        } else {
                            let i = choose|i: int|
                                cur < i <= end && i < es.len() && file_of_entry(
                                    f,
                                    #[trigger] es[i],
                                    reader,
                                );
                            assert(file_of_entry(f, es[i], reader));
                        }
                    }
                }
            },
        }
    }
}

#[verifier::rlimit(40)]
proof fn lemma_range_files<R>(
    es: Seq<FstEntryView>,
    cur: int,
    last: int,
    dir: DirView<R>,
    reader: R,
)
    ensures
        build_range(es, cur, last, dir, reader) matches Some((end, built)) ==> files_from(
            dir,
            built,
            es,
            cur,
            end,
            reader,
        ) && cur <= end,
    decreases es.len() - cur, 0nat,
{
    if build_range(es, cur, last, dir, reader) is Some && cur < last {
        lemma_entry_files(es, cur + 1, dir, reader);
        lemma_build_entry_end(es, cur + 1, dir, reader);
        let (mid, next) = build_entry(es, cur + 1, dir, reader)->0;
        lemma_range_files(es, mid, last, next, reader);
        let (end, built) = build_range(es, cur, last, dir, reader)->0;
        assert forall|f: FileView<R>| #[trigger]
            all_files(built.children).contains(f) implies all_files(dir.children).contains(f)
            || file_of_some(f, es, cur, end, reader) by {
            if file_of_some(f, es, mid, end, reader) {
                let i = choose|i: int|
                    mid < i <= end && i < es.len() && file_of_entry(f, #[trigger] es[i], reader);
                assert(file_of_entry(f, es[i], reader));
            } else {
                assert(all_files(next.children).contains(f));
                if !all_files(dir.children).contains(f) {
                    let i = choose|i: int|
                        cur < i <= mid && i < es.len() && file_of_entry(
                            f,
                            #[trigger] es[i],
                            reader,
                        );
                    assert(file_of_entry(f, es[i], reader));
                }
            }
        }
    }
}

/// Every file of a tree that is assembled from a table is the file of one of its
/// entries: it has the offset, the size and the name that the entry has.
pub proof fn law_assembled_files<R>(es: Seq<FstEntryView>, reader: R, f: FileView<R>)
    requires
        build_range(es, 0, es.len() - 1, empty_dir::<R>(""@), reader) is Some,
        all_files(
            (build_range(es, 0, es.len() - 1, empty_dir::<R>(""@), reader)->0).1.children,
        ).contains(f),
    ensures
        exists|i: int|
            0 < i < es.len() && {
                let e = #[trigger] es[i];
                &&& e.kind == FstNodeType::File
                &&& f.fst.kind == FstNodeType::File
                &&& f.fst.relative_file_name == e.relative_file_name
                &&& f.fst.file_offset_parent_dir == e.file_offset_parent_dir
                &&& f.fst.file_size_next_dir_index == e.file_size_next_dir_index
                &&& f.fst.file_name_offset == e.file_name_offset
                &&& f.data == DataView::Reader(reader)
                &&& f.new_offset == 0
                &&& f.cursor == 0
                &&& f.state == FileReadState::Seeking
            },
{
    let empty = empty_dir::<R>(""@);
    lemma_range_files(es, 0, es.len() - 1, empty, reader);
    assert(all_files(empty.children) =~= Seq::empty());
    let (end, built) = build_range(es, 0, es.len() - 1, empty, reader)->0;
    assert(file_of_some(f, es, 0, end, reader));
    let i = choose|i: int|
        0 < i <= end && i < es.len() && file_of_entry(f, #[trigger] es[i], reader);
    assert(file_of_entry(f, es[i], reader));
}

/// Whether the first node of this name is at `at`.
pub open spec fn first_named<R>(nodes: Seq<NodeView<R>>, name: Seq<char>, at: int) -> bool {
    &&& 0 <= at < nodes.len()
    &&& nodes[at].name() == name
    &&& forall|j: int| 0 <= j < at ==> (#[trigger] nodes[j]).name() != name
}

/// Whether no node has this name.
pub open spec fn name_is_free<R>(nodes: Seq<NodeView<R>>, name: Seq<char>) -> bool {
    forall|j: int| 0 <= j < nodes.len() ==> (#[trigger] nodes[j]).name() != name
}

proof fn lemma_find_first<R>(nodes: Seq<NodeView<R>>, name: Seq<char>, at: int)
    requires
        first_named(nodes, name, at),
    ensures
        find(nodes, name, None) == at,
{
    assert forall|j: int| 0 <= j < at implies !is_match(#[trigger] nodes[j], name, None) by {}
    lemma_find_is(nodes, name, None, at);
}

proof fn lemma_find_free<R>(nodes: Seq<NodeView<R>>, name: Seq<char>)
    requires
        name_is_free(nodes, name),
    ensures
        find(nodes, name, None) == nodes.len(),
{
    assert forall|j: int| 0 <= j < nodes.len() implies !is_match(
        #[trigger] nodes[j],
        name,
        None,
    ) by {}
    lemma_find_is(nodes, name, None, nodes.len() as int);
}

/// The entry of a file puts that file at the end of the directory, if nothing there
/// has its name. A file of that name stays in its place; a directory of that name
/// makes the table malformed.
pub proof fn law_build_file<R>(es: Seq<FstEntryView>, cur: int, parent: DirView<R>, reader: R)
    requires
        0 <= cur < es.len(),
        es[cur].kind == FstNodeType::File,
    ensures
        name_is_free(parent.children, es[cur].relative_file_name) ==> {
            let built = build_entry(es, cur, parent, reader);
            let dir = (built->0).1;
            let n = parent.children.len() as int;
            &&& built is Some
            &&& (built->0).0 == cur
            &&& dir.name == parent.name
            &&& dir.children.len() == n + 1
            &&& dir.children.take(n) == parent.children
            &&& dir.children[n] is File
            &&& file_of_entry(dir.children[n]->File_0, es[cur], reader)
        },
        forall|at: int| #[trigger]
            first_named(parent.children, es[cur].relative_file_name, at) ==> build_entry(
                es,
                cur,
                parent,
                reader,
            ) == if parent.children[at] is File {
                Some((cur, parent))
            } else {
                None
            },
{
    let name = es[cur].relative_file_name;
    if name_is_free(parent.children, name) {
        lemma_find_free(parent.children, name);
        let dir = add_file(parent, entry_file(es[cur], reader));
        assert(dir.children.take(parent.children.len() as int) =~= parent.children);
        assert(file_of_entry(entry_file(es[cur], reader), es[cur], reader));
    }
    assert forall|at: int| #[trigger] first_named(parent.children, name, at) implies build_entry(
        es,
        cur,
        parent,
        reader,
    ) == if parent.children[at] is File {
        Some((cur, parent))
    } else {
        None
    } by {
        lemma_find_first(parent.children, name, at);
    }
}

/// The entry of a directory has in it what the entries after it, up to its next index,
/// make of the directory of its name, or of an empty one at the end of the parent if
/// there is none. A file of that name makes the table malformed.
pub proof fn law_build_dir<R>(
    es: Seq<FstEntryView>,
    cur: int,
    parent: DirView<R>,
    reader: R,
    end: int,
    inner: DirView<R>,
)
    requires
        0 <= cur < es.len(),
        es[cur].kind == FstNodeType::Directory,
        es[cur].file_size_next_dir_index > 0,
    ensures
        ({
            let name = es[cur].relative_file_name;
            let last = es[cur].file_size_next_dir_index - 1;
            let fresh = DirView::<R> { name, children: Seq::empty() };
            let node = NodeView::Directory(inner);
            let built = build_entry(es, cur, parent, reader);
            &&& name_is_free(parent.children, name) && build_range(es, cur, last, fresh, reader)
                == Some((end, inner)) ==> built == Some(
                (end, DirView { name: parent.name, children: parent.children.push(node) }),
            )
            &&& name_is_free(parent.children, name) && build_range(
                es,
                cur,
                last,
                fresh,
                reader,
            ) is None ==> built is None
            &&& forall|at: int| #[trigger]
                first_named(parent.children, name, at) ==> match parent.children[at] {
                    NodeView::File(_) => built is None,
                    NodeView::Directory(d) => {
                        &&& build_range(es, cur, last, d, reader) is None ==> built is None
                        &&& build_range(es, cur, last, d, reader) == Some((end, inner)) ==> built
                            == Some(
                            (
                                end,
                                DirView {
                                    name: parent.name,
                                    children: parent.children.update(at, node),
                                },
                            ),
                        )
                    },
                }
        }),
{
    let name = es[cur].relative_file_name;
    let fresh = DirView::<R> { name, children: Seq::empty() };
    let node = NodeView::Directory(inner);
    let n = parent.children.len() as int;
    if name_is_free(parent.children, name) {
        lemma_find_free(parent.children, name);
        assert(empty_dir::<R>(name) == fresh);
        assert(parent.children.push(NodeView::Directory(fresh)).update(n, node)
            =~= parent.children.push(node));
    }
    assert forall|at: int| #[trigger]
        first_named(parent.children, name, at) implies match parent.children[at] {
        NodeView::File(_) => build_entry(es, cur, parent, reader) is None,
        NodeView::Directory(d) => {
            let last = es[cur].file_size_next_dir_index - 1;
            let built = build_entry(es, cur, parent, reader);
            &&& build_range(es, cur, last, d, reader) is None ==> built is None
            &&& build_range(es, cur, last, d, reader) == Some((end, inner)) ==> built == Some(
                (end, DirView { name: parent.name, children: parent.children.update(at, node) }),
            )
        },
    } by {
        lemma_find_first(parent.children, name, at);
    }
}

/// A run of entries is assembled from the one after the last that was used, one after
/// the other, until the last one is used; the table has to reach that far.
pub proof fn law_build_run<R>(
    es: Seq<FstEntryView>,
    cur: int,
    last: int,
    dir: DirView<R>,
    reader: R,
)
    requires
        0 <= cur < es.len(),
    ensures
        cur >= last ==> build_range(es, cur, last, dir, reader) == Some((cur, dir)),
        cur < last && cur + 1 >= es.len() ==> build_range(es, cur, last, dir, reader) is None,
        cur < last && cur + 1 < es.len() ==> build_range(es, cur, last, dir, reader)
            == match build_entry(es, cur + 1, dir, reader) {
            Some((end, next)) => build_range(es, end, last, next, reader),
            None => None,
        },
{
    lemma_build_entry_end(es, cur + 1, dir, reader);
}

} // verus!
