//! Reading a file system from a disc.
//!
//! The library does not touch the disc. A parser says which bytes it needs next and
//! is handed them, until the file system is there or the disc turns out to hold
//! none.

use std::sync::Arc;
use vstd::prelude::*;
use vstd::slice::slice_subrange;
use vstd::utf8::{decode_utf8, valid_utf8};

use crate::be::{be_value, read_u32};
use crate::iso::consts::{HEADER_LENGTH, OFFSET_DOL_OFFSET, OFFSET_FST_OFFSET, OFFSET_FST_SIZE};
use crate::iso::fst::{entry_of_bytes, name_offset_of_bytes};
use crate::iso::{in_bytes, offset_shift, scale_up, to_bytes_offset, FstEntry, FstEntryView};
use crate::text::{describe_utf8_error, string_from_utf8, utf8_error_text};
use super::assemble::{build_range, entries_view, try_build_range};
use super::file::new_file;
use super::tree::{add_file, empty_dir, lemma_find_from};
use super::{
    DataView, DirView, Directory, File, FileDataSource, FsError, FsErrorView, FsView, GeckoFS,
    NodeView,
};

verus! {

/// What a parser reads next.
#[derive(Debug, Clone, Copy, PartialEq, Eq, Structural)]
pub enum ParseStage {
    /// Where the file system table starts.
    FstOffset,
    /// How many entries it has.
    NumEntries,
    /// The entries.
    EntryList,
    /// How many bytes the table has.
    FstSize,
    /// The names that the entries refer to.
    StringTable,
    /// Where the main program starts.
    DolOffset,
}

/// A parser: the stage it has reached and what it has read.
#[derive(Debug)]
pub struct FsParser {
    is_wii: bool,
    stage: ParseStage,
    fst_offset: u64,
    num_entries: u32,
    list: Vec<u8>,
    fst_size: usize,
    entries: Vec<FstEntry>,
}

/// A parser as a value.
pub struct ParserView {
    pub is_wii: bool,
    pub stage: ParseStage,
    pub fst_offset: u64,
    pub num_entries: u32,
    pub list: Seq<u8>,
    pub fst_size: usize,
    pub entries: Seq<FstEntryView>,
}

/// What comes of the bytes that a parser is handed.
pub enum ParseStep<R> {
    /// The parser needs more.
    Read(FsParser),
    /// The file system is there.
    Done(GeckoFS<R>),
    /// The disc cannot be read as a file system, for this reason.
    Failed(FsError),
    /// The numbers on the disc contradict each other.
    Malformed,
}

/// What comes of the bytes that a parser is handed, as a value.
pub enum ParseStepView<R> {
    Read(ParserView),
    Done(FsView<R>),
    Failed(FsErrorView),
    Malformed,
}

impl View for FsParser {
    type V = ParserView;

    closed spec fn view(&self) -> ParserView {
        ParserView {
            is_wii: self.is_wii,
            stage: self.stage,
            fst_offset: self.fst_offset,
            num_entries: self.num_entries,
            list: self.list@,
            fst_size: self.fst_size,
            entries: entries_view(self.entries@),
        }
    }
}

impl<R> View for ParseStep<R> {
    type V = ParseStepView<R>;

    open spec fn view(&self) -> ParseStepView<R> {
        match *self {
            ParseStep::Read(p) => ParseStepView::Read(p@),
            ParseStep::Done(fs) => ParseStepView::Done(fs@),
            ParseStep::Failed(e) => ParseStepView::Failed(e@),
            ParseStep::Malformed => ParseStepView::Malformed,
        }
    }
}

impl ParserView {
    /// The bytes that the entries take.
    pub open spec fn list_len(self) -> int {
        self.num_entries * 12
    }

    /// Where the bytes start that the parser needs.
    pub open spec fn position(self) -> int {
        match self.stage {
            ParseStage::FstOffset => OFFSET_FST_OFFSET as int,
            ParseStage::NumEntries => self.fst_offset + 8,
            ParseStage::EntryList => self.fst_offset as int,
            ParseStage::FstSize => OFFSET_FST_SIZE as int,
            ParseStage::StringTable => self.fst_offset + self.list_len(),
            ParseStage::DolOffset => OFFSET_DOL_OFFSET as int,
        }
    }

    /// How many bytes the parser needs.
    pub open spec fn length(self) -> int {
        match self.stage {
            ParseStage::EntryList => self.list_len(),
            ParseStage::StringTable => self.fst_size - self.list_len(),
            _ => 4,
        }
    }

    /// Whether the parser's numbers fit each other as far as it has come.
    pub open spec fn wf(self) -> bool {
        &&& self.fst_offset <= u32::MAX
        &&& self.stage != ParseStage::FstOffset && self.stage != ParseStage::NumEntries
            ==> self.list_len() <= usize::MAX
        &&& self.stage == ParseStage::FstSize || self.stage == ParseStage::StringTable
            ==> self.list.len() == self.list_len()
        &&& self.stage == ParseStage::StringTable ==> self.list_len() <= self.fst_size
        &&& self.stage == ParseStage::DolOffset ==> self.entries.len() == self.num_entries
    }

    /// How many stages are left.
    pub open spec fn stages_left(self) -> nat {
        match self.stage {
            ParseStage::FstOffset => 5,
            ParseStage::NumEntries => 4,
            ParseStage::EntryList => 3,
            ParseStage::FstSize => 2,
            ParseStage::StringTable => 1,
            ParseStage::DolOffset => 0,
        }
    }
}

/// A parser that has read nothing.
pub open spec fn start(is_wii: bool) -> ParserView {
    ParserView {
        is_wii,
        stage: ParseStage::FstOffset,
        fst_offset: 0,
        num_entries: 0,
        list: Seq::empty(),
        fst_size: 0,
        entries: Seq::empty(),
    }
}

/// The offset of the table that the word `w` stands for: the scaled word, cut to
/// 32 bits.
pub open spec fn fst_offset_of(w: int, is_wii: bool) -> int {
    in_bytes(w, is_wii) % 0x1_0000_0000
}

/// Where the name that starts at `pos` ends: at the first zero. There is no such
/// place where the table of names ends before.
pub open spec fn name_end(table: Seq<u8>, pos: int) -> Option<int>
    decreases table.len() - pos,
{
    if !(0 <= pos < table.len()) {
        None
    } else if table[pos] == 0 {
        Some(pos)
    } else {
        name_end(table, pos + 1)
    }
}

/// What the entries of a table and their names turn out to be.
pub enum EntriesView {
    Entries(Seq<FstEntryView>),
    InvalidName(Seq<u8>),
    Malformed,
}

/// The bytes of entry `i`.
pub open spec fn block(list: Seq<u8>, i: int) -> Seq<u8> {
    list.subrange(12 * i, 12 * i + 12)
}

/// The first `n` entries of `list`, with their names from `table`. The first entry
/// without a proper name decides what is wrong.
pub open spec fn read_entries(list: Seq<u8>, table: Seq<u8>, n: nat, is_wii: bool) -> EntriesView
    decreases n,
{
    if n == 0 {
        EntriesView::Entries(Seq::empty())
    } else {
        match read_entries(list, table, (n - 1) as nat, is_wii) {
            EntriesView::Entries(entries) => {
                let b = block(list, n - 1);
                let pos = name_offset_of_bytes(b) as int;
                match name_end(table, pos) {
                    None => EntriesView::Malformed,
                    Some(end) => {
                        let name = table.subrange(pos, end);
                        if valid_utf8(name) {
                            EntriesView::Entries(
                                entries.push(entry_of_bytes(b, decode_utf8(name), is_wii)),
                            )
                        } else {
                            EntriesView::InvalidName(name)
                        }
                    },
                }
            },
            wrong => wrong,
        }
    }
}

/// A file of the system on a disc.
pub open spec fn system_file<R>(name: Seq<char>, offset: int, size: int, reader: R) -> NodeView<R> {
    NodeView::File(new_file(DataView::Reader(reader), name, offset as usize, size as usize, 0))
}

/// The files of the system: the header, the loader, the main program and the table
/// itself, one after the other.
pub open spec fn system_dir<R>(
    dol_offset: int,
    fst_offset: int,
    fst_size: int,
    reader: R,
) -> DirView<R> {
    DirView {
        name: "&&systemdata"@,
        children: seq![
            system_file("iso.hdr"@, 0, HEADER_LENGTH as int, reader),
            system_file("AppLoader.ldr"@, HEADER_LENGTH as int, dol_offset - HEADER_LENGTH, reader),
            system_file("Start.dol"@, dol_offset, fst_offset - dol_offset, reader),
            system_file("Game.toc"@, fst_offset, fst_size, reader),
        ],
    }
}

/// The file system that a disc holds, once everything about it is known. There is
/// none where the parts of the system overlap or the entries form no tree.
pub open spec fn assemble<R>(
    entries: Seq<FstEntryView>,
    dol_offset: int,
    fst_offset: int,
    fst_size: int,
    reader: R,
) -> Option<FsView<R>> {
    if HEADER_LENGTH <= dol_offset <= fst_offset {
        match build_range(entries, 0, entries.len() - 1, empty_dir(""@), reader) {
            Some((_, root)) => Some(
                FsView { root, system: system_dir(dol_offset, fst_offset, fst_size, reader) },
            ),
            None => None,
        }
    } else {
        None
    }
}

/// What comes of the bytes that a parser is handed.
pub open spec fn advance<R>(p: ParserView, bytes: Seq<u8>, reader: R) -> ParseStepView<R> {
    match p.stage {
        ParseStage::FstOffset => ParseStepView::Read(
            ParserView {
                stage: ParseStage::NumEntries,
                fst_offset: fst_offset_of(be_value(bytes), p.is_wii) as u64,
                ..p
            },
        ),
        ParseStage::NumEntries => if be_value(bytes) * 12 <= usize::MAX {
            ParseStepView::Read(
                ParserView {
                    stage: ParseStage::EntryList,
                    num_entries: be_value(bytes) as u32,
                    ..p
                },
            )
        } else {
            ParseStepView::Malformed
        },
        ParseStage::EntryList => ParseStepView::Read(
            ParserView { stage: ParseStage::FstSize, list: bytes, ..p },
        ),
        ParseStage::FstSize => {
            let size = scale_up(be_value(bytes) as u32, p.is_wii);
            if p.list_len() <= size {
                ParseStepView::Read(
                    ParserView { stage: ParseStage::StringTable, fst_size: size, ..p },
                )
            } else {
                ParseStepView::Malformed
            }
        },
        ParseStage::StringTable => match read_entries(
            p.list,
            bytes,
            p.num_entries as nat,
            p.is_wii,
        ) {
            EntriesView::Entries(entries) => ParseStepView::Read(
                ParserView { stage: ParseStage::DolOffset, entries, ..p },
            ),
            EntriesView::InvalidName(name) => ParseStepView::Failed(
                FsErrorView::InvalidName { bytes: name, text: utf8_error_text(name) },
            ),
            EntriesView::Malformed => ParseStepView::Malformed,
        },
        ParseStage::DolOffset => {
            let dol_offset = scale_up(be_value(bytes) as u32, p.is_wii) as int;
            match assemble(
                p.entries,
                dol_offset,
                p.fst_offset as int,
                p.fst_size as int,
                reader,
            ) {
                Some(fs) => ParseStepView::Done(fs),
                None => ParseStepView::Malformed,
            }
        },
    }
}

/// The name that starts at `pos`, as far as its bytes go.
fn name_bytes(table: &Vec<u8>, pos: usize) -> (name: Option<Vec<u8>>)
    ensures
        match (name, name_end(table@, pos as int)) {
            (Some(n), Some(end)) => pos <= end <= table@.len() && n@ == table@.subrange(
                pos as int,
                end,
            ),
            (None, None) => true,
            _ => false,
        },
{
    let mut end: usize = pos;
    while end < table.len() && table[end] != 0
        invariant
            pos <= end,
            pos < table@.len() ==> end <= table@.len(),
            name_end(table@, pos as int) == name_end(table@, end as int),
        decreases table@.len() - end,
    {
        end += 1;
    }
    if end >= table.len() {
        return None;
    }
    let mut name: Vec<u8> = Vec::new();
    name.extend_from_slice(slice_subrange(table.as_slice(), pos, end));
    assert(name@ =~= table@.subrange(pos as int, end as int));
    Some(name)
}

/// What is wrong with a table of entries.
enum EntriesError {
    InvalidName(Vec<u8>, String),
    Malformed,
}

/// The entries of `list`, with their names from `table`.
fn collect_entries(list: &Vec<u8>, table: &Vec<u8>, num_entries: u32, is_wii: bool) -> (r: Result<
    Vec<FstEntry>,
    EntriesError,
>)
    requires
        list@.len() == num_entries * 12,
    ensures
        match (r, read_entries(list@, table@, num_entries as nat, is_wii)) {
            (Ok(entries), EntriesView::Entries(es)) => entries_view(entries@) == es && es.len()
                == num_entries,
            (Err(EntriesError::InvalidName(name, text)), EntriesView::InvalidName(n)) => name@ == n
                && text@ == utf8_error_text(n),
            (Err(EntriesError::Malformed), EntriesView::Malformed) => true,
            _ => false,
        },
{
    let mut entries: Vec<FstEntry> = Vec::new();
    let mut i: u32 = 0;
    assert(entries_view(entries@) =~= Seq::empty());
    while i < num_entries
        invariant
            i <= num_entries,
            list.len() == num_entries * 12,
            entries@.len() == i,
            read_entries(list@, table@, i as nat, is_wii) == EntriesView::Entries(
                entries_view(entries@),
            ),
        decreases num_entries - i,
    {
        let at: usize = i as usize * 12;
        let entry_block = slice_subrange(list.as_slice(), at, at + 12);
        assert(entry_block@ =~= block(list@, i as int));
        let pos: usize = FstEntry::name_offset(entry_block);
        let ghost so_far = entries_view(entries@);
        match name_bytes(table, pos) {
            None => {
                proof {
                    lemma_read_entries_stops(
                        list@,
                        table@,
                        (i + 1) as nat,
                        num_entries as nat,
                        is_wii,
                    );
                }
                return Err(EntriesError::Malformed);
            },
            Some(name) => match string_from_utf8(name) {
                Err(bytes) => {
                    proof {
                        lemma_read_entries_stops(
                            list@,
                            table@,
                            (i + 1) as nat,
                            num_entries as nat,
                            is_wii,
                        );
                    }
                    let text = describe_utf8_error(&bytes);
                    return Err(EntriesError::InvalidName(bytes, text));
                },
                Ok(relative_file_name) => {
                    entries.push(FstEntry::from_block(entry_block, relative_file_name, is_wii));
                    assert(entries_view(entries@) =~= so_far.push(entries@[i as int]@));
                },
            },
        }
        i += 1;
    }
    Ok(entries)
}

/// What is wrong with the first entries is wrong with all of them.
proof fn lemma_read_entries_stops(
    list: Seq<u8>,
    table: Seq<u8>,
    first: nat,
    n: nat,
    is_wii: bool,
)
    requires
        first <= n,
        !(read_entries(list, table, first, is_wii) is Entries),
    ensures
        read_entries(list, table, n, is_wii) == read_entries(list, table, first, is_wii),
    decreases n,
{
    if first < n {
        lemma_read_entries_stops(list, table, first, (n - 1) as nat, is_wii);
    }
}

/// The names of the system's files differ in their lengths.
pub(crate) proof fn lemma_system_names()
    ensures
        "iso.hdr"@.len() == 7,
        "AppLoader.ldr"@.len() == 13,
        "Start.dol"@.len() == 9,
        "Game.toc"@.len() == 8,
{
    reveal_strlit("iso.hdr");
    reveal_strlit("AppLoader.ldr");
    reveal_strlit("Start.dol");
    reveal_strlit("Game.toc");
}

/// Where a disc has the parts of the system.
struct SystemParts {
    dol_offset: usize,
    fst_offset: usize,
    fst_size: usize,
}

/// The files of the system.
fn build_system<R>(parts: SystemParts, reader: &Arc<R>) -> (system: Directory<R>)
    requires
        HEADER_LENGTH <= parts.dol_offset <= parts.fst_offset,
    ensures
        system@ == system_dir(
            parts.dol_offset as int,
            parts.fst_offset as int,
            parts.fst_size as int,
            **reader,
        ),
{
    let mut system: Directory<R> = Directory::new("&&systemdata");
    add_system(&mut system, "iso.hdr", 0, HEADER_LENGTH, reader);
    proof {
        lemma_system_names();
    }
    add_system(
        &mut system,
        "AppLoader.ldr",
        HEADER_LENGTH,
        parts.dol_offset - HEADER_LENGTH,
        reader,
    );
    add_system(
        &mut system,
        "Start.dol",
        parts.dol_offset,
        parts.fst_offset - parts.dol_offset,
        reader,
    );
    add_system(&mut system, "Game.toc", parts.fst_offset, parts.fst_size, reader);
    assert(system@.children =~= system_dir(
        parts.dol_offset as int,
        parts.fst_offset as int,
        parts.fst_size as int,
        **reader,
    ).children);
    system
}

/// Adds a file on the disc to a directory that has nothing of its name.
fn add_system<R>(
    system: &mut Directory<R>,
    name: &str,
    offset: usize,
    size: usize,
    reader: &Arc<R>,
)
    requires
        forall|i: int|
            0 <= i < old(system)@.children.len() ==> (#[trigger] old(system)@.children[i]).name()
                != name@,
    ensures
        final(system)@.name == old(system)@.name,
        final(system)@.children == old(system)@.children.push(
            system_file(name@, offset as int, size as int, **reader),
        ),
{
    let file = File::new(FileDataSource::Reader(reader.clone()), name, offset, size, 0);
    proof {
        lemma_find_from(system@.children, name@, None, 0);
    }
    system.add_file(file);
    assert(system@.children =~= old(system)@.children.push(
        system_file(name@, offset as int, size as int, **reader),
    ));
}

impl FsParser {
    /// Where the bytes start that the parser needs.
    pub fn position(&self) -> (pos: u64)
        requires
            self@.wf(),
        ensures
            pos == self@.position(),
    {
        match self.stage {
            ParseStage::FstOffset => OFFSET_FST_OFFSET as u64,
            ParseStage::NumEntries => self.fst_offset + 8,
            ParseStage::EntryList => self.fst_offset,
            ParseStage::FstSize => OFFSET_FST_SIZE as u64,
            ParseStage::StringTable => self.fst_offset + self.num_entries as u64 * 12,
            ParseStage::DolOffset => OFFSET_DOL_OFFSET as u64,
        }
    }

    /// How many bytes the parser needs.
    pub fn length(&self) -> (len: usize)
        requires
            self@.wf(),
        ensures
            len == self@.length(),
    {
        match self.stage {
            ParseStage::EntryList => self.num_entries as usize * 12,
            ParseStage::StringTable => self.fst_size - self.num_entries as usize * 12,
            _ => 4,
        }
    }

    /// Takes the bytes that the parser needs. `reader` is the disc that they come
    /// from, and that the files of the file system will be read from.
    pub fn supply<R>(self, bytes: Vec<u8>, reader: &Arc<R>) -> (step: ParseStep<R>)
        requires
            self@.wf(),
            bytes@.len() == self@.length(),
        ensures
            step@ == advance(self@, bytes@, **reader),
            step matches ParseStep::Read(p) ==> p@.wf() && p@.stages_left() < self@.stages_left(),
    {
        let mut parser = self;
        match parser.stage {
            ParseStage::FstOffset => {
                let w: u32 = read_u32(bytes.as_slice());
                proof {
                    assert(w << 2u8 == (w * 4) % 0x1_0000_0000) by (bit_vector);
                    assert(w << 0u8 == w) by (bit_vector);
                }
                parser.fst_offset = (w << offset_shift(parser.is_wii)) as u64;
                parser.stage = ParseStage::NumEntries;
                ParseStep::Read(parser)
            },
            ParseStage::NumEntries => {
                let n: u32 = read_u32(bytes.as_slice());
                if n as u64 * 12 > usize::MAX as u64 {
                    return ParseStep::Malformed;
                }
                parser.num_entries = n;
                parser.stage = ParseStage::EntryList;
                ParseStep::Read(parser)
            },
            ParseStage::EntryList => {
                parser.list = bytes;
                parser.stage = ParseStage::FstSize;
                ParseStep::Read(parser)
            },
            ParseStage::FstSize => {
                let size: usize = to_bytes_offset(read_u32(bytes.as_slice()), parser.is_wii);
                if size < parser.num_entries as usize * 12 {
                    return ParseStep::Malformed;
                }
                parser.fst_size = size;
                parser.stage = ParseStage::StringTable;
                ParseStep::Read(parser)
            },
            ParseStage::StringTable => {
                match collect_entries(&parser.list, &bytes, parser.num_entries, parser.is_wii) {
                    Ok(entries) => {
                        parser.entries = entries;
                        parser.stage = ParseStage::DolOffset;
                        ParseStep::Read(parser)
                    },
                    Err(EntriesError::InvalidName(bytes, text)) => ParseStep::Failed(
                        FsError::InvalidName { bytes, text },
                    ),
                    Err(EntriesError::Malformed) => ParseStep::Malformed,
                }
            },
            ParseStage::DolOffset => {
                let dol_offset: usize = to_bytes_offset(
                    read_u32(bytes.as_slice()),
                    parser.is_wii,
                );
                let fst_offset: usize = parser.fst_offset as usize;
                if dol_offset < HEADER_LENGTH || fst_offset < dol_offset {
                    return ParseStep::Malformed;
                }
                let fst_size = parser.fst_size;
                let system = build_system(SystemParts { dol_offset, fst_offset, fst_size }, reader);
                let mut root: Directory<R> = Directory::new("");
                if parser.entries.len() > 0 {
                    let last: usize = parser.entries.len() - 1;
                    let mut count: usize = 0;
                    if !try_build_range(&mut count, last, &parser.entries, &mut root, reader) {
                        return ParseStep::Malformed;
                    }
                }
                ParseStep::Done(GeckoFS { root, system })
            },
        }
    }
}

impl<R> GeckoFS<R> {
    /// Starts to read a file system from a disc.
    pub fn parse(is_wii: bool) -> (parser: FsParser)
        ensures
            parser@ == start(is_wii),
            parser@.wf(),
    {
        let parser = FsParser {
            is_wii,
            stage: ParseStage::FstOffset,
            fst_offset: 0,
            num_entries: 0,
            list: Vec::new(),
            fst_size: 0,
            entries: Vec::new(),
        };
        assert(parser@.entries =~= Seq::empty());
        parser
    }
}

} // verus!
