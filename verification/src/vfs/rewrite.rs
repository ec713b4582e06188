//! Writing again gives the same image.

use vstd::prelude::*;

use crate::be::words_bytes;
use crate::iso::consts::{DOL_ALIGNMENT_BIT, FST_ALIGNMENT_BIT, HEADER_LENGTH};
use crate::iso::{in_bytes, law_align_up_fixed, lemma_alignments};
use crate::text::{lemma_segment_end_unique, segment_end};
use super::image::{contents_fit, files_bytes, image, image_front, SystemBytes};
use super::parse::{lemma_system_names, system_dir, system_file};
use super::reread::{restored, restored_all};
use super::round_trip::{lemma_front, reads_back, storable, system_fits};
use super::serialize::{
    files_start, first_table, fs_layout, fs_writer, missing_part, patch_header, placed_fs,
    zeros, LayoutView, WriterView,
};
use super::table::{
    end_of_all, enter_dir, lemma_visit_all, place, place_all, visit, visit_all, TableView,
};
use super::tree::{all_fst_len, node_fst_len, resolve};
use super::tree_laws::lemma_find_is;
use super::{FileView, FsView, NodeType, NodeView};

verus! {

/// Whether two nodes differ in nothing that a table depends on: names, kinds and
/// sizes.
pub open spec fn alike<R>(a: NodeView<R>, b: NodeView<R>) -> bool
    decreases a, 0nat,
{
    match (a, b) {
        (NodeView::File(f), NodeView::File(g)) => {
            &&& f.fst.relative_file_name == g.fst.relative_file_name
            &&& f.len() == g.len()
        },
        (NodeView::Directory(x), NodeView::Directory(y)) => {
            &&& x.name == y.name
            &&& alike_all(x.children, y.children)
        },
        _ => false,
    }
}

/// Whether two sequences of nodes differ in nothing that a table depends on.
pub open spec fn alike_all<R>(a: Seq<NodeView<R>>, b: Seq<NodeView<R>>) -> bool
    decreases a, a.len(),
{
    &&& a.len() == b.len()
    &&& forall|i: int| 0 <= i < a.len() ==> alike(#[trigger] a[i], b[i])
}

/// Whether files have the same places and sizes.
pub open spec fn same_places<R>(a: Seq<FileView<R>>, b: Seq<FileView<R>>) -> bool {
    &&& a.len() == b.len()
    &&& forall|i: int|
        0 <= i < a.len() ==> (#[trigger] a[i]).new_offset == b[i].new_offset && a[i].len()
            == b[i].len()
}

/// Whether two tables are the same but for what their files are.
pub open spec fn same_table<R>(a: TableView<R>, b: TableView<R>) -> bool {
    &&& a.entries == b.entries
    &&& a.names == b.names
    &&& a.offset == b.offset
    &&& same_places(a.files, b.files)
}

proof fn lemma_alike_front<R>(a: Seq<NodeView<R>>, b: Seq<NodeView<R>>)
    requires
        alike_all(a, b),
        a.len() > 0,
    ensures
        alike_all(a.drop_last(), b.drop_last()),
        alike(a.last(), b.last()),
{
    assert forall|i: int| 0 <= i < a.drop_last().len() implies alike(
        #[trigger] a.drop_last()[i],
        b.drop_last()[i],
    ) by {
        assert(alike(a[i], b[i]));
    }
    assert(alike(a[a.len() - 1], b[b.len() - 1]));
}

/// Nodes that are alike make the same table.
pub(crate) proof fn lemma_alike_visit<R>(
    a: NodeView<R>,
    b: NodeView<R>,
    parent: int,
    s: TableView<R>,
    t: TableView<R>,
)
    requires
        alike(a, b),
        same_table(s, t),
    ensures
        same_table(visit(a, parent, s), visit(b, parent, t)),
        node_fst_len(a) == node_fst_len(b),
    decreases a, 0nat,
{
    match (a, b) {
        (NodeView::File(f), NodeView::File(g)) => {
            let v = visit(a, parent, s);
            let w = visit(b, parent, t);
            assert forall|i: int| 0 <= i < v.files.len() implies (
            #[trigger] v.files[i]).new_offset == w.files[i].new_offset && v.files[i].len()
                == w.files[i].len() by {
                if i < s.files.len() {
                    assert(s.files[i].new_offset == t.files[i].new_offset);
                }
            }
        },
        (NodeView::Directory(x), NodeView::Directory(y)) => {
            let p = s.entries.len() as int;
            let sub_s = enter_dir(s, parent, x.name);
            let sub_t = enter_dir(t, parent, y.name);
            lemma_alike_visit_all(x.children, y.children, p, sub_s, sub_t);
        },
        _ => {},
    }
}

pub(crate) proof fn lemma_alike_visit_all<R>(
    a: Seq<NodeView<R>>,
    b: Seq<NodeView<R>>,
    parent: int,
    s: TableView<R>,
    t: TableView<R>,
)
    requires
        alike_all(a, b),
        same_table(s, t),
    ensures
        same_table(visit_all(a, parent, s), visit_all(b, parent, t)),
        all_fst_len(a) == all_fst_len(b),
    decreases a, a.len(),
{
    if a.len() > 0 {
        lemma_alike_front(a, b);
        lemma_alike_visit_all(a.drop_last(), b.drop_last(), parent, s, t);
        lemma_alike_visit(
            a.last(),
            b.last(),
            parent,
            visit_all(a.drop_last(), parent, s),
            visit_all(b.drop_last(), parent, t),
        );
    }
}

/// Giving files their places changes nothing that a table depends on.
pub(crate) proof fn lemma_place_alike<R>(node: NodeView<R>, offset: int)
    ensures
        alike(node, place(node, offset)),
    decreases node, 0nat,
{
    if let NodeView::Directory(d) = node {
        lemma_place_all_alike(d.children, offset);
    }
}

pub(crate) proof fn lemma_place_all_alike<R>(nodes: Seq<NodeView<R>>, offset: int)
    ensures
        alike_all(nodes, place_all(nodes, offset)),
    decreases nodes, nodes.len(),
{
    if nodes.len() > 0 {
        let front = nodes.drop_last();
        lemma_place_all_alike(front, offset);
        lemma_place_alike(nodes.last(), end_of_all(front, offset));
        let placed = place_all(nodes, offset);
        assert forall|i: int| 0 <= i < nodes.len() implies alike(
            #[trigger] nodes[i],
            placed[i],
        ) by {
            if i < front.len() {
                assert(alike(front[i], place_all(front, offset)[i]));
            }
        }
    }
}

/// A restored node differs in nothing that a table depends on.
pub(crate) proof fn lemma_restored_alike<R>(a: NodeView<R>, b: NodeView<R>, reader: R)
    requires
        restored(a, b, reader),
    ensures
        alike(a, b),
    decreases a, 0nat,
{
    if let NodeView::Directory(x) = a {
        let y = b->Directory_0;
        lemma_restored_all_alike(x.children, y.children, reader);
    }
}

pub(crate) proof fn lemma_restored_all_alike<R>(a: Seq<NodeView<R>>, b: Seq<NodeView<R>>, reader: R)
    requires
        restored_all(a, b, reader),
    ensures
        alike_all(a, b),
    decreases a, a.len(),
{
    assert forall|i: int| 0 <= i < a.len() implies alike(#[trigger] a[i], b[i]) by {
        assert(restored(a[i], b[i], reader));
        lemma_restored_alike(a[i], b[i], reader);
    }
}

pub(crate) proof fn lemma_alike_trans<R>(a: NodeView<R>, b: NodeView<R>, c: NodeView<R>)
    requires
        alike(a, b),
        alike(b, c),
    ensures
        alike(a, c),
    decreases a, 0nat,
{
    if let NodeView::Directory(x) = a {
        lemma_alike_all_trans(
            x.children,
            b->Directory_0.children,
            c->Directory_0.children,
        );
    }
}

pub(crate) proof fn lemma_alike_all_trans<R>(
    a: Seq<NodeView<R>>,
    b: Seq<NodeView<R>>,
    c: Seq<NodeView<R>>,
)
    requires
        alike_all(a, b),
        alike_all(b, c),
    ensures
        alike_all(a, c),
    decreases a, a.len(),
{
    assert forall|i: int| 0 <= i < a.len() implies alike(#[trigger] a[i], c[i]) by {
        assert(alike(a[i], b[i]));
        assert(alike(b[i], c[i]));
        lemma_alike_trans(a[i], b[i], c[i]);
    }
}

/// Whether two writers write the same, but for the contents of their files.
pub open spec fn same_writer<R>(v: WriterView<R>, w: WriterView<R>) -> bool {
    &&& v.words == w.words
    &&& v.dol_padding == w.dol_padding
    &&& v.fst_padding == w.fst_padding
    &&& v.fst == w.fst
    &&& v.names == w.names
    &&& same_places(v.files, w.files)
    &&& v.stage == w.stage
    &&& v.position == w.position
}

/// Writing a file system twice gives the same image: its files keep the places that
/// they were given.
pub proof fn law_serialize_again<R>(fs: FsView<R>, is_wii: bool)
    ensures
        same_writer(fs_writer(placed_fs(fs), is_wii), fs_writer(fs, is_wii)),
{
    let again = placed_fs(fs);
    let start = first_table::<R>(files_start(fs));
    lemma_place_all_alike(fs.root.children, files_start(fs));
    lemma_alike_visit_all(fs.root.children, again.root.children, 0, start, start);
    lemma_visit_all(fs.root.children, 0, start);
    assert(fs_layout(again) == fs_layout(fs));
}

/// The names of the system's files have no separators.
proof fn lemma_system_segments()
    ensures
        segment_end("iso.hdr"@) == "iso.hdr"@.len(),
        segment_end("AppLoader.ldr"@) == "AppLoader.ldr"@.len(),
        segment_end("Start.dol"@) == "Start.dol"@.len(),
{
    reveal_strlit("iso.hdr");
    reveal_strlit("AppLoader.ldr");
    reveal_strlit("Start.dol");
    lemma_segment_end_unique("iso.hdr"@, "iso.hdr"@.len() as int);
    lemma_segment_end_unique("AppLoader.ldr"@, "AppLoader.ldr"@.len() as int);
    lemma_segment_end_unique("Start.dol"@, "Start.dol"@.len() as int);
}

/// The files of a system that was read from a disc are found by their names.
pub(crate) proof fn lemma_system_found<R>(
    dol_offset: int,
    fst_offset: int,
    fst_size: int,
    reader: R,
)
    ensures
        ({
            let dir = system_dir(dol_offset, fst_offset, fst_size, reader);
            &&& resolve(dir, "iso.hdr"@) == Some(
                system_file("iso.hdr"@, 0, HEADER_LENGTH as int, reader)->File_0,
            )
            &&& resolve(dir, "AppLoader.ldr"@) == Some(
                system_file(
                    "AppLoader.ldr"@,
                    HEADER_LENGTH as int,
                    dol_offset - HEADER_LENGTH,
                    reader,
                )->File_0,
            )
            &&& resolve(dir, "Start.dol"@) == Some(
                system_file("Start.dol"@, dol_offset, fst_offset - dol_offset, reader)->File_0,
            )
        }),
{
    let dir = system_dir(dol_offset, fst_offset, fst_size, reader);
    let file = Some(NodeType::File);
    lemma_system_names();
    lemma_system_segments();
    lemma_find_is(dir.children, "iso.hdr"@, file, 0);
    lemma_find_is(dir.children, "AppLoader.ldr"@, file, 1);
    lemma_find_is(dir.children, "Start.dol"@, file, 2);
}

/// The last file of a system that was read from a disc is found by its name too.
pub(crate) proof fn lemma_table_found<R>(
    dol_offset: int,
    fst_offset: int,
    fst_size: int,
    reader: R,
)
    ensures
        resolve(system_dir(dol_offset, fst_offset, fst_size, reader), "Game.toc"@) == Some(
            system_file("Game.toc"@, fst_offset, fst_size, reader)->File_0,
        ),
{
    let dir = system_dir(dol_offset, fst_offset, fst_size, reader);
    lemma_system_names();
    reveal_strlit("Game.toc");
    lemma_segment_end_unique("Game.toc"@, "Game.toc"@.len() as int);
    lemma_find_is(dir.children, "Game.toc"@, Some(NodeType::File), 3);
}

/// The bytes of the system's files on a disc with this layout.
pub open spec fn system_on_disc(disc: Seq<u8>, l: LayoutView) -> SystemBytes {
    SystemBytes {
        header: disc.subrange(0, HEADER_LENGTH as int),
        apploader: disc.subrange(HEADER_LENGTH as int, l.dol_offset),
        dol: disc.subrange(l.dol_offset, l.fst_offset),
    }
}

/// A file system that was read from an image has the layout of that image, without
/// zeros between its parts.
#[verifier::rlimit(40)]
proof fn lemma_back_layout<R>(
    fs: FsView<R>,
    is_wii: bool,
    sys: SystemBytes,
    disc: Seq<u8>,
    reader: R,
    back: FsView<R>,
)
    requires
        storable(fs, is_wii),
        system_fits(fs, sys),
        fs.root.name == ""@,
        reads_back(fs, is_wii, disc, reader, back),
    ensures
        missing_part(back) is None,
        fs_layout(back) == (LayoutView { dol_padding: 0, fst_padding: 0, ..fs_layout(fs) }),
        alike_all(fs.root.children, back.root.children),
{
    let l = fs_layout(fs);
    let placed = placed_fs(fs).root.children;
    lemma_front(fs, is_wii, sys);
    lemma_place_all_alike(fs.root.children, files_start(fs));
    lemma_restored_all_alike(placed, back.root.children, reader);
    lemma_alike_all_trans(fs.root.children, placed, back.root.children);
    let start = first_table::<R>(files_start(fs));
    lemma_alike_visit_all(fs.root.children, back.root.children, 0, start, start);
    lemma_system_found(l.dol_offset, l.fst_offset, in_bytes(l.fst_len, is_wii), reader);
    lemma_alignments();
    law_align_up_fixed(l.dol_offset, DOL_ALIGNMENT_BIT);
    law_align_up_fixed(l.fst_offset, FST_ALIGNMENT_BIT);
}

/// Files with the same places and contents are the same bytes.
proof fn lemma_same_files_bytes<R>(
    a: Seq<FileView<R>>,
    b: Seq<FileView<R>>,
    contents: Seq<Seq<u8>>,
    n: int,
    from: int,
)
    requires
        same_places(a, b),
        0 <= n <= a.len(),
    ensures
        files_bytes(a, contents, n, from) == files_bytes(b, contents, n, from),
    decreases n,
{
    if n > 0 {
        lemma_same_files_bytes(a, b, contents, n - 1, from);
        assert(a[n - 1].new_offset == b[n - 1].new_offset);
        if n > 1 {
            assert(a[n - 2].new_offset == b[n - 2].new_offset);
        }
    }
}

/// The parts of an image, cut where the layout has them, make the image again.
proof fn lemma_same_front(
    front: Seq<u8>,
    l: LayoutView,
    words: Seq<u32>,
    table: Seq<u8>,
)
    requires
        words.len() == 4,
        HEADER_LENGTH <= l.dol_offset <= l.fst_offset,
        front.len() == l.fst_offset + table.len(),
        front.subrange(0x420, 0x430) == words_bytes(words),
        front.subrange(l.fst_offset, front.len() as int) == table,
    ensures
        ({
            let sys = system_on_disc(front, l);
            patch_header(sys.header, words) + (sys.apploader + zeros(0)) + (sys.dol + zeros(0))
                + table == front
        }),
{
    let sys = system_on_disc(front, l);
    assert(patch_header(sys.header, words) =~= sys.header) by {
        assert forall|i: int| 0x420 <= i < 0x430 implies words_bytes(words)[i - 0x420]
            == front[i] by {
            assert(front.subrange(0x420, 0x430)[i - 0x420] == front[i]);
        }
    }
    let again = patch_header(sys.header, words) + (sys.apploader + zeros(0)) + (sys.dol + zeros(0))
        + table;
    assert forall|i: int| l.fst_offset <= i < front.len() implies table[i - l.fst_offset]
        == front[i] by {
        assert(front.subrange(l.fst_offset, front.len() as int)[i - l.fst_offset] == front[i]);
    }
    assert(again =~= front);
}

/// What was read from an image is written as the same image.
///
/// The file system that a parser finds on the image of a file system, written with
/// the bytes that the image has for its files, gives that image again.
#[verifier::rlimit(40)]
pub proof fn law_rewrite<R>(
    fs: FsView<R>,
    is_wii: bool,
    sys: SystemBytes,
    contents: Seq<Seq<u8>>,
    reader: R,
    back: FsView<R>,
)
    requires
        storable(fs, is_wii),
        system_fits(fs, sys),
        fs.root.name == ""@,
        contents_fit(fs_writer(fs, is_wii).files, contents),
        reads_back(fs, is_wii, image(fs_writer(fs, is_wii), sys, contents), reader, back),
    ensures
        ({
            let disc = image(fs_writer(fs, is_wii), sys, contents);
            image(
                fs_writer(back, is_wii),
                system_on_disc(disc, fs_layout(back)),
                contents,
            ) == disc
        }),
{
    let l = fs_layout(fs);
    let w = fs_writer(fs, is_wii);
    let v = fs_writer(back, is_wii);
    let disc = image(w, sys, contents);
    let front = image_front(w, sys);
    let rest = files_bytes(w.files, contents, w.files.len() as int, front.len() as int);
    lemma_front(fs, is_wii, sys);
    lemma_back_layout(fs, is_wii, sys, disc, reader, back);
    let start = first_table::<R>(files_start(fs));
    lemma_alike_visit_all(fs.root.children, back.root.children, 0, start, start);
    lemma_visit_all(fs.root.children, 0, start);
    assert(v.words == w.words && v.fst == w.fst && v.names == w.names);
    assert(v.dol_padding == 0 && v.fst_padding == 0);
    let again = system_on_disc(disc, fs_layout(back));
    let cut = system_on_disc(front, l);
    assert(again.header =~= cut.header);
    assert(again.apploader =~= cut.apploader);
    assert(again.dol =~= cut.dol);
    assert(front.subrange(l.fst_offset, front.len() as int) =~= w.fst + w.names);
    assert(front.subrange(0x420, 0x430) =~= words_bytes(w.words));
    lemma_same_front(front, l, w.words, w.fst + w.names);
    assert(image_front(v, again) == front);
    lemma_same_files_bytes(
        v.files,
        w.files,
        contents,
        w.files.len() as int,
        front.len() as int,
    );
}

} // verus!
