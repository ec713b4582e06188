//! What is read from an image is what was written to it.

use vstd::prelude::*;
use vstd::utf8::encode_utf8;

use crate::be::{be_bytes, be_value, law_word_round_trip, lemma_words_bytes_at, words_bytes};
use crate::iso::consts::{DOL_ALIGNMENT_BIT, FST_ALIGNMENT_BIT, HEADER_LENGTH, OFFSET_DOL_OFFSET};
use crate::iso::fst::{entry_bytes, entry_words};
use crate::iso::{
    in_bytes, in_units, law_align_up, law_offset_round_trip, lemma_alignments, scale_down,
    scale_up, FstEntryView, FstNodeType,
};
use super::assemble::build_range;
use super::image::{
    contents_fit, files_bytes, image, image_front, law_image_contents, law_writer_image,
    run_writer, SystemBytes,
};
use super::parse::{
    advance, assemble, block, fst_offset_of, read_entries, start, system_dir, EntriesView,
    ParseStage, ParseStepView, ParserView,
};
use super::reread::{
    all_count, describes_all, entry_bounds, entry_storable, has_name, law_build_described_all,
    lemma_fst_bytes, lemma_place_all_count, lemma_place_wf, lemma_read_written,
    lemma_rebuilt_all_restored, lemma_restored_files, lemma_visit_all_bounds,
    lemma_visit_all_count, lemma_visit_all_describes, lemma_visit_all_files,
    lemma_visit_all_first, lemma_visit_all_named, plain_names, reads_as, restored_all,
    restored_file,
};
use super::serialize::{
    files_start, first_table, fits, fs_layout, fs_table, fs_writer, fst_bytes, law_files_apart,
    missing_part, patch_header, placed_fs, system_part, zeros, LayoutView,
};
use super::table::{
    end_of_all, lemma_stored_start, lemma_visit_all, place_all, stored_end, stored_in_order,
    visit_all, TableView,
};
use super::tree::{all_files, dir_wf, distinct_names, empty_dir, node_wf};
use super::{DirView, FsView, NodeView};

verus! {

/// What a parser comes to on a disc with these bytes. There is nothing where the
/// disc ends before what the parser needs.
#[verifier::opaque]
pub open spec fn run_parser<R>(p: ParserView, disc: Seq<u8>, reader: R) -> Option<ParseStepView<R>>
    decreases p.stages_left(),
{
    if p.length() < 0 || p.position() + p.length() > disc.len() {
        None
    } else {
        match advance(p, disc.subrange(p.position(), p.position() + p.length()), reader) {
            ParseStepView::Read(next) => if next.stages_left() < p.stages_left() {
                run_parser(next, disc, reader)
            } else {
                None
            },
            step => Some(step),
        }
    }
}

/// Whether a table of a directory's nodes can be stored: no two nodes of a directory
/// have one name, no name has a zero in it, and the numbers fit their fields.
pub open spec fn table_storable<R>(root: DirView<R>, offset: int, is_wii: bool) -> bool {
    let t = fs_table(root, offset);
    &&& root.children.len() > 0
    &&& dir_wf(root)
    &&& forall|i: int| 0 <= i < root.children.len() ==> plain_names(#[trigger] root.children[i])
    &&& t.names.len() <= usize::MAX
    &&& t.entries.len() <= u32::MAX
    &&& forall|i: int|
        0 <= i < t.entries.len() ==> (#[trigger] t.entries[i]).file_name_offset < 0x100_0000
    &&& forall|i: int|
        0 <= i < t.files.len() ==> {
            &&& (#[trigger] t.files[i]).len() <= u32::MAX
            &&& t.files[i].new_offset <= usize::MAX
            &&& in_units(t.files[i].new_offset as int, is_wii) <= u32::MAX
        }
}

/// Whether an image can hold a file system: its table can be stored, and the words
/// of the header can say where everything is.
pub open spec fn storable<R>(fs: FsView<R>, is_wii: bool) -> bool {
    let l = fs_layout(fs);
    &&& fits(fs)
    &&& missing_part(fs) is None
    &&& table_storable(fs.root, files_start(fs), is_wii)
    &&& HEADER_LENGTH <= l.dol_offset
    &&& l.fst_offset <= u32::MAX
    &&& l.fst_len <= u32::MAX
    &&& in_bytes(l.fst_len, is_wii) <= usize::MAX
}

/// Whether the bytes of the system's files are as many as their sizes promise, and
/// the header has room for the words that are replaced.
pub open spec fn system_fits<R>(fs: FsView<R>, sys: SystemBytes) -> bool {
    &&& sys.header.len() == system_part(fs, "iso.hdr"@)->0.len()
    &&& sys.apploader.len() == system_part(fs, "AppLoader.ldr"@)->0.len()
    &&& sys.dol.len() == system_part(fs, "Start.dol"@)->0.len()
    &&& sys.header.len() >= OFFSET_DOL_OFFSET + 16
}

/// An entry can be stored whose numbers come from a table that can.
#[verifier::rlimit(40)]
proof fn lemma_entry_storable<R>(
    e: FstEntryView,
    t: TableView<R>,
    offset: int,
    bank: Seq<u8>,
    is_wii: bool,
)
    requires
        entry_bounds(e, t),
        has_name(bank, e.file_name_offset as int),
        e.file_name_offset < 0x100_0000,
        t.entries.len() <= u32::MAX,
        stored_in_order(t.files, offset),
        forall|i: int|
            0 <= i < t.files.len() ==> {
                &&& (#[trigger] t.files[i]).len() <= u32::MAX
                &&& t.files[i].new_offset <= usize::MAX
                &&& in_units(t.files[i].new_offset as int, is_wii) <= u32::MAX
            },
    ensures
        entry_storable(e, bank, is_wii),
{
    if e.kind == FstNodeType::File {
        let j = choose|j: int|
            0 <= j < t.files.len() && e.file_size_next_dir_index == (#[trigger] t.files[j]).len()
                && e.file_offset_parent_dir == t.files[j].new_offset as usize;
        let at = t.files[j].new_offset as int;
        assert(t.files[j].len() <= u32::MAX);
        lemma_stored_start(t.files, j, offset);
        assert(at % 4 == 0 && at % 1 == 0);
        assert(e.file_offset_parent_dir == at);
    }
}

/// Every entry of a table that can be stored can be stored.
#[verifier::rlimit(40)]
proof fn lemma_table_entries<R>(root: DirView<R>, offset: int, bank: Seq<u8>, is_wii: bool)
    requires
        table_storable(root, offset, is_wii),
        0 <= offset,
        end_of_all(root.children, offset) <= u64::MAX,
        stored_in_order(fs_table(root, offset).files, offset),
        fs_table(root, offset).names.len() <= bank.len(),
        bank.take(fs_table(root, offset).names.len() as int) == fs_table(root, offset).names,
    ensures
        forall|i: int|
            0 <= i < fs_table(root, offset).entries.len() ==> entry_storable(
                #[trigger] fs_table(root, offset).entries[i],
                bank,
                is_wii,
            ),
{
    let nodes = root.children;
    let first = first_table::<R>(offset);
    let v = visit_all(nodes, 0, first);
    let t = fs_table(root, offset);
    lemma_visit_all(nodes, 0, first);
    lemma_visit_all_first(nodes, 0, first);
    lemma_visit_all_named(nodes, 0, first, bank);
    lemma_visit_all_bounds(nodes, 0, first);
    assert forall|i: int| 0 <= i < t.entries.len() implies entry_storable(
        #[trigger] t.entries[i],
        bank,
        is_wii,
    ) by {
        if i > 0 {
            assert(t.entries[i] == v.entries[i]);
            assert(entry_bounds(v.entries[i], v));
            assert(has_name(bank, v.entries[i].file_name_offset as int));
            lemma_entry_storable(v.entries[i], v, offset, bank, is_wii);
        } else {
            assert(has_name(bank, v.entries[1].file_name_offset as int));
            assert(entry_bounds(v.entries[1], v));
        }
    }
}

/// The table of a file system is read as it was written: the entries describe the
/// nodes with their files in their places.
#[verifier::rlimit(40)]
proof fn lemma_table_reads<R>(root: DirView<R>, offset: int, bank: Seq<u8>, is_wii: bool)
    requires
        table_storable(root, offset, is_wii),
        0 <= offset,
        end_of_all(root.children, offset) <= u64::MAX,
        stored_in_order(fs_table(root, offset).files, offset),
        fs_table(root, offset).names.len() <= bank.len(),
        bank.take(fs_table(root, offset).names.len() as int) == fs_table(root, offset).names,
    ensures
        ({
            let t = fs_table(root, offset);
            let n = t.entries.len();
            let read = read_entries(fst_bytes(t.entries, is_wii), bank, n, is_wii);
            &&& read is Entries
            &&& read->Entries_0.len() == n
            &&& n == 1 + all_count(root.children)
            &&& describes_all(place_all(root.children, offset), read->Entries_0, 1)
        }),
{
    let nodes = root.children;
    let first = first_table::<R>(offset);
    let v = visit_all(nodes, 0, first);
    let t = fs_table(root, offset);
    let n = t.entries.len();
    lemma_table_entries(root, offset, bank, is_wii);
    lemma_visit_all(nodes, 0, first);
    lemma_visit_all_count(nodes, 0, first);
    let list = fst_bytes(t.entries, is_wii);
    lemma_fst_bytes(t.entries, is_wii);
    lemma_read_written(list, bank, t.entries, n, is_wii);
    let es = read_entries(list, bank, n, is_wii)->Entries_0;
    assert forall|i: int| 1 <= i < v.entries.len() implies reads_as(
        #[trigger] es[i],
        v.entries[i],
        bank,
    ) by {
        assert(reads_as(es[i], t.entries[i], bank));
    }
    lemma_visit_all_describes(nodes, 0, first, bank, es);
}

/// Entries that describe nodes are assembled to them.
proof fn lemma_assembles<R>(nodes: Seq<NodeView<R>>, es: Seq<FstEntryView>, reader: R)
    requires
        describes_all(nodes, es, 1),
        es.len() == 1 + all_count(nodes),
        node_wf(NodeView::Directory(DirView { name: Seq::empty(), children: nodes })),
    ensures
        ({
            let built = build_range(es, 0, es.len() - 1, empty_dir(""@), reader);
            &&& built is Some
            &&& (built->0).1.name == ""@
            &&& restored_all(nodes, (built->0).1.children, reader)
        }),
{
    let d = DirView { name: Seq::empty(), children: nodes };
    assert(node_wf(NodeView::Directory(d)));
    assert forall|i: int| 0 <= i < nodes.len() implies node_wf(#[trigger] nodes[i]) by {
        assert(node_wf(d.children[i]));
    }
    law_build_described_all(nodes, es, 1, es.len() - 1, empty_dir(""@), reader);
    lemma_rebuilt_all_restored(nodes, es, 1, reader);
}

/// A multiple of the one alignment is a multiple of the other.
proof fn lemma_multiple(n: int)
    requires
        n % 1024 == 0,
    ensures
        n % 256 == 0,
{
}

/// The parts of an image stand where its layout says, and the words of its header
/// where the header has them.
#[verifier::rlimit(40)]
pub(crate) proof fn lemma_front<R>(fs: FsView<R>, is_wii: bool, sys: SystemBytes)
    requires
        fits(fs),
        missing_part(fs) is None,
        system_fits(fs, sys),
    ensures
        ({
            let l = fs_layout(fs);
            let t = fs_table(fs.root, files_start(fs));
            let w = fs_writer(fs, is_wii);
            let front = image_front(w, sys);
            let names_at = l.fst_offset + 12 * t.entries.len();
            &&& w.fst.len() == 12 * t.entries.len()
            &&& front.len() == names_at + t.names.len()
            &&& l.fst_len == 12 * t.entries.len() + t.names.len() + encode_utf8(fs.root.name).len()
            &&& OFFSET_DOL_OFFSET + 16 <= l.dol_offset <= l.fst_offset
            &&& l.dol_offset % 1024 == 0
            &&& l.dol_offset % 256 == 0
            &&& l.fst_offset % 256 == 0
            &&& front.subrange(0x420, 0x424) == be_bytes(w.words[0])
            &&& front.subrange(0x424, 0x428) == be_bytes(w.words[1])
            &&& front.subrange(0x428, 0x42C) == be_bytes(w.words[2])
            &&& front.subrange(l.fst_offset, names_at) == w.fst
            &&& front.subrange(names_at, names_at + t.names.len()) == w.names
        }),
{
    let l = fs_layout(fs);
    let w = fs_writer(fs, is_wii);
    let front = image_front(w, sys);
    let t = fs_table(fs.root, files_start(fs));
    let header = patch_header(sys.header, w.words);
    let words = words_bytes(w.words);
    lemma_alignments();
    law_align_up((sys.header.len() + sys.apploader.len()) as int, DOL_ALIGNMENT_BIT);
    law_align_up((l.dol_offset + sys.dol.len()) as int, FST_ALIGNMENT_BIT);
    lemma_visit_all(fs.root.children, 0, first_table::<R>(files_start(fs)));
    lemma_fst_bytes(t.entries, is_wii);
    assert(header.len() == sys.header.len());
    lemma_multiple(l.dol_offset);
    let loader = sys.apploader + zeros(w.dol_padding as int);
    let dol = sys.dol + zeros(w.fst_padding as int);
    assert((header + loader).len() == l.dol_offset);
    assert((header + loader + dol).len() == l.fst_offset);
    lemma_words_bytes_at(w.words, 0);
    lemma_words_bytes_at(w.words, 1);
    lemma_words_bytes_at(w.words, 2);
    assert(front.subrange(0x420, 0x424) =~= words.subrange(0, 4));
    assert(front.subrange(0x424, 0x428) =~= words.subrange(4, 8));
    assert(front.subrange(0x428, 0x42C) =~= words.subrange(8, 12));
    let names_at = l.fst_offset + 12 * t.entries.len();
    assert(front.subrange(l.fst_offset, names_at) =~= w.fst);
    assert(front.subrange(names_at, names_at + t.names.len()) =~= w.names);
}

/// The bytes before the files are those of the whole image.
proof fn lemma_in_front(front: Seq<u8>, rest: Seq<u8>, a: int, b: int)
    requires
        0 <= a <= b <= front.len(),
    ensures
        (front + rest).subrange(a, b) == front.subrange(a, b),
{
    assert((front + rest).subrange(a, b) =~= front.subrange(a, b));
}

/// The third word of the first entry of a table is the number of its entries.
proof fn lemma_entry_count<R>(fs: FsView<R>, is_wii: bool)
    requires
        fs_table(fs.root, files_start(fs)).entries.len() <= u32::MAX,
    ensures
        ({
            let t = fs_table(fs.root, files_start(fs));
            let fst = fst_bytes(t.entries, is_wii);
            &&& t.entries.len() >= 1
            &&& fst.len() >= 12
            &&& be_value(fst.subrange(8, 12)) == t.entries.len()
        }),
{
    let t = fs_table(fs.root, files_start(fs));
    let fst = fst_bytes(t.entries, is_wii);
    lemma_visit_all(fs.root.children, 0, first_table::<R>(files_start(fs)));
    lemma_fst_bytes(t.entries, is_wii);
    assert(block(fst, 0) == entry_bytes(t.entries[0], is_wii));
    let words = entry_words(t.entries[0], is_wii);
    lemma_words_bytes_at(words, 2);
    law_word_round_trip(words[2]);
    assert(fst.subrange(8, 12) =~= block(fst, 0).subrange(8, 12));
}

/// What a parser has read of an image when it has the table.
spec fn table_parser<R>(fs: FsView<R>, is_wii: bool) -> ParserView {
    let l = fs_layout(fs);
    let t = fs_table(fs.root, files_start(fs));
    ParserView {
        is_wii,
        stage: ParseStage::StringTable,
        fst_offset: l.fst_offset as u64,
        num_entries: t.entries.len() as u32,
        list: fst_bytes(t.entries, is_wii),
        fst_size: in_bytes(l.fst_len, is_wii) as usize,
        entries: Seq::empty(),
    }
}

/// A parser that needs more goes on.
pub(crate) proof fn lemma_run_step<R>(p: ParserView, next: ParserView, disc: Seq<u8>, reader: R)
    requires
        0 <= p.length(),
        p.position() + p.length() <= disc.len(),
        advance(p, disc.subrange(p.position(), p.position() + p.length()), reader)
            == ParseStepView::<R>::Read(next),
        next.stages_left() < p.stages_left(),
    ensures
        run_parser(p, disc, reader) == run_parser(next, disc, reader),
{
    reveal(run_parser);
}

/// A parser reads where the table starts.
proof fn lemma_read_offset<R>(disc: Seq<u8>, is_wii: bool, next: ParserView, reader: R)
    requires
        next == (ParserView {
            stage: ParseStage::NumEntries,
            fst_offset: next.fst_offset,
            ..start(is_wii)
        }),
        next.fst_offset <= u32::MAX,
        0x428 <= disc.len(),
        in_bytes(be_value(disc.subrange(0x424, 0x428)), is_wii) == next.fst_offset,
    ensures
        run_parser(start(is_wii), disc, reader) == run_parser(next, disc, reader),
{
    let p = start(is_wii);
    let bytes = disc.subrange(0x424, 0x428);
    assert(fst_offset_of(be_value(bytes), is_wii) == next.fst_offset);
    assert(advance(p, bytes, reader) == ParseStepView::<R>::Read(next));
    lemma_run_step(p, next, disc, reader);
}

/// A parser reads how many entries the table has.
proof fn lemma_read_count<R>(disc: Seq<u8>, p: ParserView, num_entries: u32, reader: R)
    requires
        p.stage == ParseStage::NumEntries,
        p.fst_offset + 12 <= disc.len(),
        be_value(disc.subrange(p.fst_offset + 8, p.fst_offset + 12)) == num_entries,
        num_entries * 12 <= usize::MAX,
    ensures
        run_parser(p, disc, reader) == run_parser(
            ParserView { stage: ParseStage::EntryList, num_entries, ..p },
            disc,
            reader,
        ),
{
    let next = ParserView { stage: ParseStage::EntryList, num_entries, ..p };
    let bytes = disc.subrange(p.fst_offset + 8, p.fst_offset + 12);
    assert(advance(p, bytes, reader) == ParseStepView::<R>::Read(next));
    lemma_run_step(p, next, disc, reader);
}

/// A parser reads the entries.
proof fn lemma_read_list<R>(disc: Seq<u8>, p: ParserView, list: Seq<u8>, reader: R)
    requires
        p.stage == ParseStage::EntryList,
        p.fst_offset + p.list_len() <= disc.len(),
        disc.subrange(p.fst_offset as int, p.fst_offset + p.list_len()) == list,
    ensures
        run_parser(p, disc, reader) == run_parser(
            ParserView { stage: ParseStage::FstSize, list, ..p },
            disc,
            reader,
        ),
{
    let next = ParserView { stage: ParseStage::FstSize, list, ..p };
    assert(advance(p, list, reader) == ParseStepView::<R>::Read(next));
    lemma_run_step(p, next, disc, reader);
}

/// A parser reads how many bytes the table has.
proof fn lemma_read_size<R>(disc: Seq<u8>, p: ParserView, fst_size: usize, reader: R)
    requires
        p.stage == ParseStage::FstSize,
        0x42C <= disc.len(),
        scale_up(be_value(disc.subrange(0x428, 0x42C)) as u32, p.is_wii) == fst_size,
        p.list_len() <= fst_size,
    ensures
        run_parser(p, disc, reader) == run_parser(
            ParserView { stage: ParseStage::StringTable, fst_size, ..p },
            disc,
            reader,
        ),
{
    let next = ParserView { stage: ParseStage::StringTable, fst_size, ..p };
    let bytes = disc.subrange(0x428, 0x42C);
    assert(advance(p, bytes, reader) == ParseStepView::<R>::Read(next));
    lemma_run_step(p, next, disc, reader);
}

/// A parser reads the numbers of a disc, up to the names.
proof fn lemma_parser_numbers<R>(disc: Seq<u8>, p: ParserView, reader: R)
    requires
        p.stage == ParseStage::StringTable,
        p.entries == Seq::<FstEntryView>::empty(),
        p.fst_offset <= u32::MAX,
        p.list_len() <= p.fst_size,
        p.num_entries >= 1,
        disc.len() >= 0x42C,
        disc.len() >= p.fst_offset + p.list_len(),
        in_bytes(be_value(disc.subrange(0x424, 0x428)), p.is_wii) == p.fst_offset,
        be_value(disc.subrange(p.fst_offset + 8, p.fst_offset + 12)) == p.num_entries,
        disc.subrange(p.fst_offset as int, p.fst_offset + p.list_len()) == p.list,
        scale_up(be_value(disc.subrange(0x428, 0x42C)) as u32, p.is_wii) == p.fst_size,
    ensures
        run_parser(start(p.is_wii), disc, reader) == run_parser(p, disc, reader),
{
    let p0 = start(p.is_wii);
    let p1 = ParserView { stage: ParseStage::NumEntries, fst_offset: p.fst_offset, ..p0 };
    let p2 = ParserView { stage: ParseStage::EntryList, num_entries: p.num_entries, ..p1 };
    let p3 = ParserView { stage: ParseStage::FstSize, list: p.list, ..p2 };
    lemma_read_offset(disc, p.is_wii, p1, reader);
    lemma_read_count(disc, p1, p.num_entries, reader);
    lemma_read_list(disc, p2, p.list, reader);
    lemma_read_size(disc, p3, p.fst_size, reader);
    assert(p == ParserView { stage: ParseStage::StringTable, fst_size: p.fst_size, ..p3 });
}

/// An aligned offset comes back from the word for it.
#[verifier::rlimit(40)]
proof fn lemma_scaled(offset: int, is_wii: bool)
    requires
        0 <= offset <= u32::MAX,
        offset % 256 == 0,
    ensures
        in_bytes(scale_down(offset as usize, is_wii) as int, is_wii) == offset,
        scale_up(scale_down(offset as usize, is_wii), is_wii) == offset,
{
    assert(offset % 4 == 0);
    law_offset_round_trip(offset as usize, is_wii);
}

/// A word that stands for an aligned offset reads back as that offset.
proof fn lemma_scaled_word(offset: int, is_wii: bool)
    requires
        0 <= offset <= u32::MAX,
        offset % 256 == 0,
    ensures
        in_bytes(be_value(be_bytes(scale_down(offset as usize, is_wii))), is_wii) == offset,
        scale_up(
            be_value(be_bytes(scale_down(offset as usize, is_wii))) as u32,
            is_wii,
        ) == offset,
{
    let w = scale_down(offset as usize, is_wii);
    let v = be_value(be_bytes(w));
    assert(v == w) by {
        law_word_round_trip(w);
    }
    lemma_scaled(offset, is_wii);
}

/// Whether a disc has the numbers of a layout in its header, and the bytes of the
/// entries and of the names where the layout has the table.
spec fn has_layout(
    disc: Seq<u8>,
    l: LayoutView,
    fst: Seq<u8>,
    names: Seq<u8>,
    is_wii: bool,
) -> bool {
    let names_at = l.fst_offset + fst.len();
    &&& 0x42C <= l.fst_offset
    &&& names_at + names.len() <= disc.len()
    &&& disc.subrange(0x420, 0x424) == be_bytes(scale_down(l.dol_offset as usize, is_wii))
    &&& disc.subrange(0x424, 0x428) == be_bytes(scale_down(l.fst_offset as usize, is_wii))
    &&& disc.subrange(0x428, 0x42C) == be_bytes(l.fst_len as u32)
    &&& disc.subrange(l.fst_offset, names_at) == fst
    &&& disc.subrange(names_at, names_at + names.len()) == names
}

/// An image has the numbers of its layout and its table.
proof fn lemma_image_layout<R>(fs: FsView<R>, is_wii: bool, sys: SystemBytes, rest: Seq<u8>)
    requires
        fits(fs),
        missing_part(fs) is None,
        system_fits(fs, sys),
    ensures
        ({
            let w = fs_writer(fs, is_wii);
            has_layout(image_front(w, sys) + rest, fs_layout(fs), w.fst, w.names, is_wii)
        }),
{
    let l = fs_layout(fs);
    let w = fs_writer(fs, is_wii);
    let front = image_front(w, sys);
    let names_at = l.fst_offset + w.fst.len();
    lemma_front(fs, is_wii, sys);
    lemma_in_front(front, rest, 0x420, 0x424);
    lemma_in_front(front, rest, 0x424, 0x428);
    lemma_in_front(front, rest, 0x428, 0x42C);
    lemma_in_front(front, rest, l.fst_offset, names_at);
    lemma_in_front(front, rest, names_at, names_at + w.names.len());
}

/// A parser reads the numbers and the entries of a layout.
proof fn lemma_parse_layout<R>(
    disc: Seq<u8>,
    l: LayoutView,
    fst: Seq<u8>,
    names: Seq<u8>,
    p: ParserView,
    reader: R,
)
    requires
        has_layout(disc, l, fst, names, p.is_wii),
        p.stage == ParseStage::StringTable,
        p.entries == Seq::<FstEntryView>::empty(),
        p.num_entries >= 1,
        p.list == fst,
        p.list_len() == fst.len(),
        p.list_len() <= p.fst_size,
        p.fst_offset == l.fst_offset,
        p.fst_size == in_bytes(l.fst_len, p.is_wii),
        l.fst_offset <= u32::MAX,
        l.fst_offset % 256 == 0,
        0 <= l.fst_len <= u32::MAX,
        be_value(fst.subrange(8, 12)) == p.num_entries,
    ensures
        run_parser(start(p.is_wii), disc, reader) == run_parser(p, disc, reader),
{
    let fo = l.fst_offset;
    lemma_scaled_word(fo, p.is_wii);
    law_word_round_trip(l.fst_len as u32);
    assert(disc.subrange(fo, fo + fst.len()).subrange(8, 12) =~= disc.subrange(fo + 8, fo + 12));
    lemma_parser_numbers(disc, p, reader);
}

/// The last two steps of a parser: from the names to the entries, and from there to
/// the file system.
proof fn lemma_parse_rest<R>(
    disc: Seq<u8>,
    p: ParserView,
    es: Seq<FstEntryView>,
    dol_offset: int,
    root: DirView<R>,
    end: int,
    reader: R,
)
    requires
        p.stage == ParseStage::StringTable,
        p.list_len() <= p.fst_size,
        p.fst_offset + p.fst_size <= disc.len(),
        0x424 <= disc.len(),
        read_entries(
            p.list,
            disc.subrange(p.fst_offset + p.list_len(), p.fst_offset + p.fst_size),
            p.num_entries as nat,
            p.is_wii,
        ) == EntriesView::Entries(es),
        scale_up(be_value(disc.subrange(0x420, 0x424)) as u32, p.is_wii) == dol_offset,
        HEADER_LENGTH <= dol_offset <= p.fst_offset,
        build_range(es, 0, es.len() - 1, empty_dir(""@), reader) == Some((end, root)),
    ensures
        run_parser(p, disc, reader) == Some(
            ParseStepView::Done(
                FsView {
                    root,
                    system: system_dir(
                        dol_offset,
                        p.fst_offset as int,
                        p.fst_size as int,
                        reader,
                    ),
                },
            ),
        ),
{
    let q = ParserView { stage: ParseStage::DolOffset, entries: es, ..p };
    lemma_run_step(p, q, disc, reader);
    reveal(run_parser);
}

/// What is read from an image of a file system that an image can hold.
pub open spec fn reads_back<R>(
    fs: FsView<R>,
    is_wii: bool,
    disc: Seq<u8>,
    reader: R,
    back: FsView<R>,
) -> bool {
    let l = fs_layout(fs);
    &&& run_parser(start(is_wii), disc, reader) == Some(ParseStepView::Done(back))
    &&& back.root.name == ""@
    &&& restored_all(placed_fs(fs).root.children, back.root.children, reader)
    &&& back.system == system_dir(
        l.dol_offset,
        l.fst_offset,
        in_bytes(l.fst_len, is_wii),
        reader,
    )
}

/// The table of a file system is read and assembled to the tree that it was made
/// from.
#[verifier::rlimit(40)]
proof fn lemma_table_builds<R>(
    root: DirView<R>,
    offset: int,
    bank: Seq<u8>,
    is_wii: bool,
    reader: R,
)
    requires
        table_storable(root, offset, is_wii),
        0 <= offset,
        end_of_all(root.children, offset) <= u64::MAX,
        stored_in_order(fs_table(root, offset).files, offset),
        fs_table(root, offset).names.len() <= bank.len(),
        bank.take(fs_table(root, offset).names.len() as int) == fs_table(root, offset).names,
    ensures
        ({
            let t = fs_table(root, offset);
            let read = read_entries(
                fst_bytes(t.entries, is_wii),
                bank,
                t.entries.len(),
                is_wii,
            );
            let es = read->Entries_0;
            let built = build_range(es, 0, es.len() - 1, empty_dir(""@), reader);
            &&& read is Entries
            &&& built is Some
            &&& (built->0).1.name == ""@
            &&& restored_all(place_all(root.children, offset), (built->0).1.children, reader)
        }),
{
    let nodes = place_all(root.children, offset);
    let t = fs_table(root, offset);
    let es = read_entries(
        fst_bytes(t.entries, is_wii),
        bank,
        t.entries.len(),
        is_wii,
    )->Entries_0;
    lemma_table_reads(root, offset, bank, is_wii);
    assert(node_wf(NodeView::Directory(root)));
    lemma_place_wf(NodeView::Directory(root), offset);
    lemma_place_all_count(root.children, offset);
    let placed = DirView { children: nodes, ..root };
    assert(node_wf(NodeView::Directory(placed)));
    let bare = DirView { name: Seq::<char>::empty(), children: nodes };
    assert(node_wf(NodeView::Directory(bare))) by {
        assert(distinct_names(placed.children));
        assert forall|i: int| 0 <= i < nodes.len() implies node_wf(#[trigger] nodes[i]) by {
            assert(node_wf(placed.children[i]));
        }
    }
    lemma_assembles(nodes, es, reader);
}

/// A parser reads the numbers and the entries of an image.
#[verifier::rlimit(40)]
proof fn lemma_parse_image<R>(
    disc: Seq<u8>,
    l: LayoutView,
    names: Seq<u8>,
    p: ParserView,
    reader: R,
)
    requires
        has_layout(disc, l, p.list, names, p.is_wii),
        0 <= l.dol_offset <= l.fst_offset <= u32::MAX,
        l.dol_offset % 256 == 0,
        l.fst_offset % 256 == 0,
        p.list.len() + names.len() <= l.fst_len <= u32::MAX,
        in_bytes(l.fst_len, p.is_wii) <= usize::MAX,
        p.stage == ParseStage::StringTable,
        p.entries == Seq::<FstEntryView>::empty(),
        p.fst_offset == l.fst_offset,
        p.fst_size == in_bytes(l.fst_len, p.is_wii),
        p.num_entries >= 1,
        p.list.len() == p.list_len(),
        be_value(p.list.subrange(8, 12)) == p.num_entries,
    ensures
        run_parser(start(p.is_wii), disc, reader) == run_parser(p, disc, reader),
        p.list_len() + names.len() <= p.fst_size,
        scale_up(be_value(disc.subrange(0x420, 0x424)) as u32, p.is_wii) == l.dol_offset,
{
    assert(p.list_len() + names.len() <= p.fst_size);
    lemma_parse_layout(disc, l, p.list, names, p, reader);
    lemma_scaled_word(l.dol_offset, p.is_wii);
}

/// The tree is read from an image as it was written.
#[verifier::rlimit(40)]
proof fn lemma_reads_back<R>(
    fs: FsView<R>,
    is_wii: bool,
    sys: SystemBytes,
    rest: Seq<u8>,
    reader: R,
)
    requires
        storable(fs, is_wii),
        system_fits(fs, sys),
        fs_layout(fs).fst_offset + in_bytes(fs_layout(fs).fst_len, is_wii) <= (image_front(
            fs_writer(fs, is_wii),
            sys,
        ) + rest).len(),
    ensures
        exists|back: FsView<R>|
            reads_back(
                fs,
                is_wii,
                image_front(fs_writer(fs, is_wii), sys) + rest,
                reader,
                back,
            ),
{
    let l = fs_layout(fs);
    let offset = files_start(fs);
    let t = fs_table(fs.root, offset);
    let disc = image_front(fs_writer(fs, is_wii), sys) + rest;
    let p = table_parser(fs, is_wii);
    lemma_front(fs, is_wii, sys);
    lemma_image_layout(fs, is_wii, sys, rest);
    lemma_entry_count(fs, is_wii);
    lemma_parse_image(disc, l, t.names, p, reader);
    law_files_apart(fs, is_wii);
    let names_at = p.fst_offset + p.list_len();
    let bank = disc.subrange(names_at, p.fst_offset + p.fst_size);
    assert(bank.take(t.names.len() as int) =~= disc.subrange(
        names_at,
        names_at + t.names.len(),
    ));
    lemma_files_start(fs);
    lemma_table_builds(fs.root, offset, bank, is_wii, reader);
    let es = read_entries(p.list, bank, p.num_entries as nat, is_wii)->Entries_0;
    let built = build_range(es, 0, es.len() - 1, empty_dir(""@), reader);
    let root = (built->0).1;
    lemma_parse_rest(disc, p, es, l.dol_offset, root, (built->0).0, reader);
    let back = FsView {
        root,
        system: system_dir(l.dol_offset, p.fst_offset as int, p.fst_size as int, reader),
    };
    assert(reads_back(fs, is_wii, disc, reader, back));
}

/// The files of an image start after its table.
proof fn lemma_files_start<R>(fs: FsView<R>)
    requires
        missing_part(fs) is None,
    ensures
        0 <= fs_layout(fs).dol_offset <= fs_layout(fs).fst_offset <= files_start(fs),
{
    law_align_up(
        system_part(fs, "iso.hdr"@)->0.len() + system_part(fs, "AppLoader.ldr"@)->0.len(),
        DOL_ALIGNMENT_BIT,
    );
    law_align_up(
        fs_layout(fs).dol_offset + system_part(fs, "Start.dol"@)->0.len(),
        FST_ALIGNMENT_BIT,
    );
}

/// A writer of a file system can go on to the files once it has written the table.
#[verifier::rlimit(40)]
pub(crate) proof fn lemma_can_start<R>(fs: FsView<R>, is_wii: bool, sys: SystemBytes)
    requires
        fits(fs),
        missing_part(fs) is None,
        system_fits(fs, sys),
    ensures
        ({
            let w = fs_writer(fs, is_wii);
            let front = image_front(w, sys);
            &&& w.files.len() <= usize::MAX
            &&& front.len() <= u64::MAX
            &&& w.can_start(front.len() as u64)
            &&& w.files.len() > 0 ==> front.len() <= w.files[0].new_offset
        }),
{
    let w = fs_writer(fs, is_wii);
    lemma_front(fs, is_wii, sys);
    law_files_apart(fs, is_wii);
    lemma_visit_all(fs.root.children, 0, first_table::<R>(files_start(fs)));
    if w.files.len() > 0 {
        lemma_stored_start(w.files, 0, files_start(fs));
        assert(stored_end(w.files, 0, files_start(fs)) == files_start(fs));
    }
}

/// Whether the files of a tree have these contents on a disc.
pub open spec fn contents_back<R>(
    nodes: Seq<NodeView<R>>,
    disc: Seq<u8>,
    contents: Seq<Seq<u8>>,
) -> bool {
    let files = all_files(nodes);
    &&& files.len() == contents.len()
    &&& forall|i: int|
        0 <= i < files.len() ==> {
            let f = #[trigger] files[i];
            &&& f.offset() + f.len() <= disc.len()
            &&& disc.subrange(f.offset() as int, f.offset() + f.len()) == contents[i]
        }
}

/// The contents of the files stand in the image where the restored files are.
#[verifier::rlimit(40)]
proof fn lemma_contents_back<R>(
    fs: FsView<R>,
    is_wii: bool,
    sys: SystemBytes,
    contents: Seq<Seq<u8>>,
    reader: R,
    back: FsView<R>,
)
    requires
        storable(fs, is_wii),
        system_fits(fs, sys),
        contents_fit(fs_writer(fs, is_wii).files, contents),
        restored_all(placed_fs(fs).root.children, back.root.children, reader),
    ensures
        contents_back(back.root.children, image(fs_writer(fs, is_wii), sys, contents), contents),
{
    let w = fs_writer(fs, is_wii);
    let disc = image(w, sys, contents);
    let placed = placed_fs(fs).root.children;
    lemma_can_start(fs, is_wii, sys);
    law_files_apart(fs, is_wii);
    lemma_visit_all_files(fs.root.children, 0, first_table::<R>(files_start(fs)));
    assert(w.files =~= all_files(placed));
    lemma_restored_files(placed, back.root.children, reader);
    let files = all_files(back.root.children);
    assert forall|i: int| 0 <= i < files.len() implies {
        let f = #[trigger] files[i];
        &&& f.offset() + f.len() <= disc.len()
        &&& disc.subrange(f.offset() as int, f.offset() + f.len()) == contents[i]
    } by {
        assert(restored_file(all_files(placed)[i], files[i], reader));
        assert(w.files[i].new_offset <= usize::MAX);
        law_image_contents(w, sys, contents, i);
    }
}

/// A file system that an image can hold is read from its image as it was written.
///
/// A writer that is handed the contents of the files writes the image. A parser of
/// that image finds a tree of the same names, kinds and sizes in the same order,
/// each file at the place that it was given, with the contents that were written;
/// and the files of the system where the layout has them.
///
/// The size of the table is not scaled in the header of a disc that counts in words,
/// but a parser scales it. What it takes for the table has to be within the image.
#[verifier::rlimit(40)]
pub proof fn law_round_trip<R>(
    fs: FsView<R>,
    is_wii: bool,
    sys: SystemBytes,
    contents: Seq<Seq<u8>>,
    reader: R,
)
    requires
        storable(fs, is_wii),
        system_fits(fs, sys),
        contents_fit(fs_writer(fs, is_wii).files, contents),
        is_wii || fs.root.name.len() > 0 ==> fs_layout(fs).fst_offset + in_bytes(
            fs_layout(fs).fst_len,
            is_wii,
        ) <= image(fs_writer(fs, is_wii), sys, contents).len(),
    ensures
        ({
            let w = fs_writer(fs, is_wii);
            let disc = image(w, sys, contents);
            &&& run_writer(w, sys, contents, Seq::empty()) == Some(disc)
            &&& exists|back: FsView<R>| #[trigger]
                reads_back(fs, is_wii, disc, reader, back) && contents_back(
                    back.root.children,
                    disc,
                    contents,
                )
        }),
{
    let w = fs_writer(fs, is_wii);
    let front = image_front(w, sys);
    let disc = image(w, sys, contents);
    let rest = files_bytes(w.files, contents, w.files.len() as int, front.len() as int);
    lemma_can_start(fs, is_wii, sys);
    law_files_apart(fs, is_wii);
    law_writer_image(w, sys, contents);
    lemma_front(fs, is_wii, sys);
    if fs.root.name.len() == 0 {
        assert(encode_utf8(fs.root.name).len() == 0);
    }
    lemma_reads_back(fs, is_wii, sys, rest, reader);
    let back = choose|back: FsView<R>| reads_back(fs, is_wii, disc, reader, back);
    lemma_contents_back(fs, is_wii, sys, contents, reader, back);
    assert(reads_back(fs, is_wii, disc, reader, back) && contents_back(
        back.root.children,
        disc,
        contents,
    ));
}

/// The files of the system that are read from an image are those that were written:
/// the main program, and, where the header has its usual length, the header with
/// its new words and the loader. Each one ends with the zeros before the next.
pub proof fn law_system_back<R>(
    fs: FsView<R>,
    is_wii: bool,
    sys: SystemBytes,
    contents: Seq<Seq<u8>>,
)
    requires
        fits(fs),
        missing_part(fs) is None,
        system_fits(fs, sys),
    ensures
        ({
            let l = fs_layout(fs);
            let w = fs_writer(fs, is_wii);
            let disc = image(w, sys, contents);
            &&& disc.subrange(l.dol_offset, l.fst_offset) == sys.dol + zeros(l.fst_padding)
            &&& sys.header.len() == HEADER_LENGTH ==> {
                &&& disc.subrange(0, HEADER_LENGTH as int) == patch_header(sys.header, w.words)
                &&& disc.subrange(HEADER_LENGTH as int, l.dol_offset) == sys.apploader + zeros(
                    l.dol_padding,
                )
            }
        }),
{
    let l = fs_layout(fs);
    let w = fs_writer(fs, is_wii);
    let disc = image(w, sys, contents);
    let header = patch_header(sys.header, w.words);
    let loader = sys.apploader + zeros(w.dol_padding as int);
    let dol = sys.dol + zeros(w.fst_padding as int);
    lemma_alignments();
    lemma_front(fs, is_wii, sys);
    law_align_up((sys.header.len() + sys.apploader.len()) as int, DOL_ALIGNMENT_BIT);
    law_align_up((l.dol_offset + sys.dol.len()) as int, FST_ALIGNMENT_BIT);
    assert((header + loader).len() == l.dol_offset);
    assert((header + loader + dol).len() == l.fst_offset);
    assert(disc.subrange(l.dol_offset, l.fst_offset) =~= dol);
    if sys.header.len() == HEADER_LENGTH {
        assert(disc.subrange(0, HEADER_LENGTH as int) =~= header);
        assert(disc.subrange(HEADER_LENGTH as int, l.dol_offset) =~= loader);
    }
}

} // verus!
