//! What a parser comes to on a disc, on the bytes of the disc.

use vstd::prelude::*;

use crate::be::be_value;
use crate::iso::FstNodeType;
use crate::text::utf8_error_text;
use super::assemble::build_range;
use super::parse::{
    advance, read_entries, start, system_dir, EntriesView, ParseStage, ParseStepView,
    ParserView,
};
use super::parse_laws::{four_at, is_entry, law_assembled_files, law_read_entries};
use super::rewrite::{lemma_system_found, lemma_table_found};
use super::round_trip::{lemma_run_step, run_parser};
use super::tree::{all_files, empty_dir, resolve};
use super::{DataView, FileReadState, FileView, FsErrorView, FsView};

verus! {

proof fn lemma_four_at(disc: Seq<u8>, p: int)
    requires
        0 <= p,
        p + 4 <= disc.len(),
    ensures
        four_at(disc, p) == be_value(disc.subrange(p, p + 4)),
        0 <= four_at(disc, p) <= u32::MAX,
{
    let s = disc.subrange(p, p + 4);
    assert(s[0] == disc[p] && s[1] == disc[p + 1] && s[2] == disc[p + 2] && s[3] == disc[p + 3]);
}

/// A parser that comes to an end ends.
proof fn lemma_run_end<R>(p: ParserView, disc: Seq<u8>, reader: R)
    requires
        0 <= p.length(),
        p.position() + p.length() <= disc.len(),
        !(advance(p, disc.subrange(p.position(), p.position() + p.length()), reader) is Read),
    ensures
        run_parser(p, disc, reader) == Some(
            advance(p, disc.subrange(p.position(), p.position() + p.length()), reader),
        ),
{
    reveal(run_parser);
}

/// A parser that needs more than there is gets nothing.
proof fn lemma_run_short<R>(p: ParserView, disc: Seq<u8>, reader: R)
    requires
        p.position() + p.length() > disc.len(),
    ensures
        run_parser(p, disc, reader) is None,
{
    reveal(run_parser);
}

/// The bytes that a word of a disc stands for: on a Wii disc four times as many.
pub open spec fn scaled(word: int, is_wii: bool) -> int {
    if is_wii {
        4 * word
    } else {
        word
    }
}

/// Where the table of a disc starts: the word at 0x424, scaled, in 32 bits.
pub open spec fn table_at(disc: Seq<u8>, is_wii: bool) -> int {
    scaled(four_at(disc, 0x424), is_wii) % 0x1_0000_0000
}

/// How many entries the table has: the third word of the first one.
pub open spec fn entry_count(disc: Seq<u8>, is_wii: bool) -> int {
    four_at(disc, table_at(disc, is_wii) + 8)
}

/// How many bytes the table has: the word at 0x428, scaled.
pub open spec fn table_size(disc: Seq<u8>, is_wii: bool) -> int {
    scaled(four_at(disc, 0x428), is_wii)
}

/// Where the main program starts: the word at 0x420, scaled.
pub open spec fn program_at(disc: Seq<u8>, is_wii: bool) -> int {
    scaled(four_at(disc, 0x420), is_wii)
}

/// The bytes of the entries.
pub open spec fn entry_list(disc: Seq<u8>, is_wii: bool) -> Seq<u8> {
    let at = table_at(disc, is_wii);
    disc.subrange(at, at + 12 * entry_count(disc, is_wii))
}

/// The bytes of the names.
pub open spec fn name_table(disc: Seq<u8>, is_wii: bool) -> Seq<u8> {
    let at = table_at(disc, is_wii);
    disc.subrange(at + 12 * entry_count(disc, is_wii), at + table_size(disc, is_wii))
}

/// Whether a disc is long enough for its header, and for the entries of its table.
pub open spec fn has_entries(disc: Seq<u8>, is_wii: bool) -> bool {
    &&& 0x42C <= disc.len()
    &&& table_at(disc, is_wii) + 12 <= disc.len()
    &&& table_at(disc, is_wii) + 12 * entry_count(disc, is_wii) <= disc.len()
}

/// The parser that has read the entries and the size of the table.
spec fn parser_at_names(disc: Seq<u8>, is_wii: bool) -> ParserView {
    ParserView {
        is_wii,
        stage: ParseStage::StringTable,
        fst_offset: table_at(disc, is_wii) as u64,
        num_entries: entry_count(disc, is_wii) as u32,
        list: entry_list(disc, is_wii),
        fst_size: table_size(disc, is_wii) as usize,
        entries: Seq::empty(),
    }
}

/// A parser goes on to the size of the table.
#[verifier::rlimit(40)]
proof fn lemma_to_size<R>(disc: Seq<u8>, is_wii: bool, reader: R)
    requires
        has_entries(disc, is_wii),
        12 * entry_count(disc, is_wii) <= usize::MAX,
    ensures
        ({
            let p = ParserView {
                stage: ParseStage::FstSize,
                fst_size: 0,
                ..parser_at_names(disc, is_wii)
            };
            run_parser(start(is_wii), disc, reader) == run_parser(p, disc, reader)
        }),
{
    let at = table_at(disc, is_wii);
    let n = entry_count(disc, is_wii);
    lemma_four_at(disc, 0x424);
    assert(0 <= at < 0x1_0000_0000);
    lemma_four_at(disc, at + 8);
    let p0 = start(is_wii);
    let p1 = ParserView { stage: ParseStage::NumEntries, fst_offset: at as u64, ..p0 };
    let p2 = ParserView { stage: ParseStage::EntryList, num_entries: n as u32, ..p1 };
    let p3 = ParserView { stage: ParseStage::FstSize, list: entry_list(disc, is_wii), ..p2 };
    assert(advance(p0, disc.subrange(0x424, 0x428), reader) == ParseStepView::<R>::Read(p1));
    lemma_run_step(p0, p1, disc, reader);
    assert(advance(p1, disc.subrange(at + 8, at + 12), reader) == ParseStepView::<R>::Read(p2));
    lemma_run_step(p1, p2, disc, reader);
    assert(advance(p2, disc.subrange(at, at + 12 * n), reader) == ParseStepView::<R>::Read(p3));
    lemma_run_step(p2, p3, disc, reader);
}

/// A parser goes on to the names, if the table has room for its entries.
#[verifier::rlimit(40)]
proof fn lemma_to_names<R>(disc: Seq<u8>, is_wii: bool, reader: R)
    requires
        has_entries(disc, is_wii),
        12 * entry_count(disc, is_wii) <= usize::MAX,
        table_size(disc, is_wii) <= usize::MAX,
    ensures
        if table_size(disc, is_wii) < 12 * entry_count(disc, is_wii) {
            run_parser(start(is_wii), disc, reader) == Some(ParseStepView::<R>::Malformed)
        } else {
            run_parser(start(is_wii), disc, reader) == run_parser(
                parser_at_names(disc, is_wii),
                disc,
                reader,
            )
        },
{
    let q = parser_at_names(disc, is_wii);
    let p = ParserView { stage: ParseStage::FstSize, fst_size: 0, ..q };
    lemma_to_size(disc, is_wii, reader);
    lemma_four_at(disc, 0x428);
    lemma_four_at(disc, table_at(disc, is_wii) + 8);
    let bytes = disc.subrange(0x428, 0x42C);
    if table_size(disc, is_wii) < 12 * entry_count(disc, is_wii) {
        assert(advance(p, bytes, reader) == ParseStepView::<R>::Malformed);
        lemma_run_end(p, disc, reader);
    } else {
        assert(advance(p, bytes, reader) == ParseStepView::<R>::Read(q));
        lemma_run_step(p, q, disc, reader);
    }
}

/// A disc that ends before its entries do holds no file system.
pub proof fn law_parse_short<R>(disc: Seq<u8>, is_wii: bool, reader: R)
    requires
        !has_entries(disc, is_wii),
        0x428 <= disc.len() && table_at(disc, is_wii) + 12 <= disc.len() ==> 12 * entry_count(
            disc,
            is_wii,
        ) <= usize::MAX,
    ensures
        run_parser(start(is_wii), disc, reader) is None,
{
    let p0 = start(is_wii);
    if disc.len() < 0x428 {
        lemma_run_short(p0, disc, reader);
    } else {
        let at = table_at(disc, is_wii);
        lemma_four_at(disc, 0x424);
        assert(0 <= at < 0x1_0000_0000);
        let p1 = ParserView { stage: ParseStage::NumEntries, fst_offset: at as u64, ..p0 };
        assert(advance(p0, disc.subrange(0x424, 0x428), reader) == ParseStepView::<R>::Read(p1));
        lemma_run_step(p0, p1, disc, reader);
        if at + 12 > disc.len() {
            lemma_run_short(p1, disc, reader);
        } else {
            let n = entry_count(disc, is_wii);
            lemma_four_at(disc, at + 8);
            let p2 = ParserView { stage: ParseStage::EntryList, num_entries: n as u32, ..p1 };
            assert(advance(p1, disc.subrange(at + 8, at + 12), reader) == ParseStepView::<R>::Read(
                p2,
            ));
            lemma_run_step(p1, p2, disc, reader);
            if at + 12 * n > disc.len() {
                lemma_run_short(p2, disc, reader);
            } else {
                let list = disc.subrange(at, at + 12 * n);
                let p3 = ParserView { stage: ParseStage::FstSize, list, ..p2 };
                assert(advance(p2, list, reader) == ParseStepView::<R>::Read(p3));
                lemma_run_step(p2, p3, disc, reader);
                lemma_run_short(p3, disc, reader);
            }
        }
    }
}

/// What a parser comes to on a disc that has its entries. The table has to hold them,
/// and the disc the table. The first entry with a bad name decides what is wrong with
/// the names. The main program has to start after the header and no later than the
/// table, and the entries after the first have to form a tree, which is then the root.
#[verifier::rlimit(40)]
pub proof fn law_parse<R>(disc: Seq<u8>, is_wii: bool, reader: R)
    requires
        has_entries(disc, is_wii),
        12 * entry_count(disc, is_wii) <= usize::MAX,
        table_size(disc, is_wii) <= usize::MAX,
        program_at(disc, is_wii) <= usize::MAX,
    ensures
        ({
            let r = run_parser(start(is_wii), disc, reader);
            let at = table_at(disc, is_wii);
            let n = entry_count(disc, is_wii);
            let size = table_size(disc, is_wii);
            let dol = program_at(disc, is_wii);
            let malformed = Some(ParseStepView::<R>::Malformed);
            if size < 12 * n {
                r == malformed
            } else if at + size > disc.len() {
                r is None
            } else {
                match read_entries(
                    entry_list(disc, is_wii),
                    name_table(disc, is_wii),
                    n as nat,
                    is_wii,
                ) {
                    EntriesView::Malformed => r == malformed,
                    EntriesView::InvalidName(bytes) => r == Some(
                        ParseStepView::<R>::Failed(
                            FsErrorView::InvalidName { bytes, text: utf8_error_text(bytes) },
                        ),
                    ),
                    EntriesView::Entries(es) => {
                        let built = build_range(es, 0, n - 1, empty_dir::<R>(""@), reader);
                        if dol < 0x2440 || at < dol || built is None {
                            r == malformed
                        } else {
                            &&& r is Some
                            &&& r->0 is Done
                            &&& (r->0)->Done_0.root == (built->0).1
                        }
                    },
                }
            }
        }),
{
    let at = table_at(disc, is_wii);
    let n = entry_count(disc, is_wii);
    let size = table_size(disc, is_wii);
    let p = parser_at_names(disc, is_wii);
    lemma_to_names(disc, is_wii, reader);
    lemma_four_at(disc, 0x420);
    lemma_four_at(disc, 0x424);
    lemma_four_at(disc, 0x428);
    assert(0 <= at < 0x1_0000_0000);
    lemma_four_at(disc, at + 8);
    if size >= 12 * n {
        if at + size > disc.len() {
            lemma_run_short(p, disc, reader);
        } else {
            let list = entry_list(disc, is_wii);
            let names = name_table(disc, is_wii);
            law_read_entries(list, names, n as nat, is_wii);
            match read_entries(list, names, n as nat, is_wii) {
                EntriesView::Entries(es) => {
                    let q = ParserView { stage: ParseStage::DolOffset, entries: es, ..p };
                    assert(advance(p, names, reader) == ParseStepView::<R>::Read(q));
                    lemma_run_step(p, q, disc, reader);
                    lemma_run_end(q, disc, reader);
                },
                _ => {
                    lemma_run_end(p, disc, reader);
                },
            }
        }
    }
}

/// Whether `f` is a file of the system on the disc, at this offset and of this size.
pub open spec fn on_disc_at<R>(f: FileView<R>, offset: int, size: int, reader: R) -> bool {
    &&& f.fst.file_offset_parent_dir == offset
    &&& f.fst.file_size_next_dir_index == size
    &&& f.fst.kind == FstNodeType::File
    &&& f.fst.file_name_offset == 0
    &&& f.data == DataView::Reader(reader)
    &&& f.new_offset == 0
    &&& f.cursor == 0
    &&& f.state == FileReadState::Seeking
}

/// The files of a system are found by their names, each at its offset on the disc and
/// with its size.
proof fn lemma_system_files<R>(dol: int, at: int, size: int, reader: R)
    requires
        0x2440 <= dol <= at <= u32::MAX,
        0 <= size <= usize::MAX,
    ensures
        ({
            let system = system_dir(dol, at, size, reader);
            let header = resolve(system, "iso.hdr"@);
            let loader = resolve(system, "AppLoader.ldr"@);
            let program = resolve(system, "Start.dol"@);
            let table = resolve(system, "Game.toc"@);
            &&& system.name == "&&systemdata"@
            &&& system.children.len() == 4
            &&& header is Some && on_disc_at(header->0, 0, 0x2440, reader)
            &&& loader is Some && on_disc_at(loader->0, 0x2440, dol - 0x2440, reader)
            &&& program is Some && on_disc_at(program->0, dol, at - dol, reader)
            &&& table is Some && on_disc_at(table->0, at, size, reader)
        }),
{
    lemma_system_found(dol, at, size, reader);
    lemma_table_found(dol, at, size, reader);
}

/// On every disc that is parsed, the files of the system are found by their names. The
/// header has the first 0x2440 bytes of the disc; the loader those from there to where
/// the main program starts; the main program those from there to the table; and the
/// last file the bytes of the table. The numbers are those of the disc's header.
#[verifier::rlimit(40)]
pub proof fn law_parsed_system<R>(disc: Seq<u8>, is_wii: bool, reader: R, fs: FsView<R>)
    requires
        run_parser(start(is_wii), disc, reader) == Some(ParseStepView::Done(fs)),
        has_entries(disc, is_wii),
        12 * entry_count(disc, is_wii) <= usize::MAX,
        table_size(disc, is_wii) <= usize::MAX,
        program_at(disc, is_wii) <= usize::MAX,
    ensures
        ({
            let at = table_at(disc, is_wii);
            let dol = program_at(disc, is_wii);
            let header = resolve(fs.system, "iso.hdr"@);
            let loader = resolve(fs.system, "AppLoader.ldr"@);
            let program = resolve(fs.system, "Start.dol"@);
            let table = resolve(fs.system, "Game.toc"@);
            &&& 0x2440 <= dol <= at
            &&& at + table_size(disc, is_wii) <= disc.len()
            &&& fs.system.name == "&&systemdata"@
            &&& fs.system.children.len() == 4
            &&& header is Some && on_disc_at(header->0, 0, 0x2440, reader)
            &&& loader is Some && on_disc_at(loader->0, 0x2440, dol - 0x2440, reader)
            &&& program is Some && on_disc_at(program->0, dol, at - dol, reader)
            &&& table is Some && on_disc_at(table->0, at, table_size(disc, is_wii), reader)
        }),
{
    let at = table_at(disc, is_wii);
    let n = entry_count(disc, is_wii);
    let size = table_size(disc, is_wii);
    let dol = program_at(disc, is_wii);
    let p = parser_at_names(disc, is_wii);
    law_parse(disc, is_wii, reader);
    lemma_to_names(disc, is_wii, reader);
    lemma_four_at(disc, 0x420);
    lemma_four_at(disc, 0x424);
    lemma_four_at(disc, 0x428);
    assert(0 <= at < 0x1_0000_0000);
    lemma_four_at(disc, at + 8);
    let names = name_table(disc, is_wii);
    let es = read_entries(entry_list(disc, is_wii), names, n as nat, is_wii)->Entries_0;
    let q = ParserView { stage: ParseStage::DolOffset, entries: es, ..p };
    assert(advance(p, names, reader) == ParseStepView::<R>::Read(q));
    lemma_run_step(p, q, disc, reader);
    lemma_run_end(q, disc, reader);
    lemma_system_files(dol, at, size, reader);
}

/// Every file of a tree that is read from a disc is one of the entries of the disc's
/// table after the first: its offset, on a Wii disc four times the word, its size, its
/// name offset and its name are what the bytes of that entry say.
#[verifier::rlimit(40)]
pub proof fn law_parsed_files<R>(
    disc: Seq<u8>,
    is_wii: bool,
    reader: R,
    fs: FsView<R>,
    f: FileView<R>,
)
    requires
        run_parser(start(is_wii), disc, reader) == Some(ParseStepView::Done(fs)),
        has_entries(disc, is_wii),
        12 * entry_count(disc, is_wii) <= usize::MAX,
        table_size(disc, is_wii) <= usize::MAX,
        program_at(disc, is_wii) <= usize::MAX,
        all_files(fs.root.children).contains(f),
    ensures
        exists|i: int|
            {
                &&& 0 < i < entry_count(disc, is_wii)
                &&& #[trigger] is_entry(
                    f.fst,
                    entry_list(disc, is_wii),
                    name_table(disc, is_wii),
                    i,
                    is_wii,
                )
                &&& entry_list(disc, is_wii)[12 * i] == 0
                &&& f.data == DataView::Reader(reader)
                &&& f.cursor == 0
                &&& f.state == FileReadState::Seeking
                &&& f.new_offset == 0
            },
{
    let n = entry_count(disc, is_wii);
    let list = entry_list(disc, is_wii);
    let names = name_table(disc, is_wii);
    law_parse(disc, is_wii, reader);
    lemma_four_at(disc, 0x424);
    assert(0 <= table_at(disc, is_wii));
    lemma_four_at(disc, table_at(disc, is_wii) + 8);
    law_read_entries(list, names, n as nat, is_wii);
    let es = read_entries(list, names, n as nat, is_wii)->Entries_0;
    law_assembled_files(es, reader, f);
    let i = choose|i: int|
        0 < i < es.len() && {
            let e = #[trigger] es[i];
            &&& e.kind == FstNodeType::File
            &&& f.fst.kind == FstNodeType::File
            &&& f.fst.relative_file_name == e.relative_file_name
            &&& f.fst.file_offset_parent_dir == e.file_offset_parent_dir
            &&& f.fst.file_size_next_dir_index == e.file_size_next_dir_index
            &&& f.fst.file_name_offset == e.file_name_offset
            &&& f.data == DataView::Reader(reader)
            &&& f.new_offset == 0
            &&& f.cursor == 0
            &&& f.state == FileReadState::Seeking
        };
    assert(is_entry(es[i], list, names, i, is_wii));
    assert(f.fst == es[i]);
    assert(list[12 * i] == 0);
}

} // verus!
