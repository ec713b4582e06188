//! Writing a file system to a disc image.
//!
//! The library does not touch the image. A writer says what it needs next and is
//! handed it, and gives back the bytes to write.

use vstd::prelude::*;
use vstd::slice::slice_subrange;
use vstd::utf8::encode_utf8;

use crate::be::{words_bytes, write_u32_into};
use crate::iso::consts::{COPY_CHUNK, DOL_ALIGNMENT_BIT, FST_ALIGNMENT_BIT, OFFSET_DOL_OFFSET};
use crate::iso::fst::entry_bytes;
use crate::iso::{
    align_addr, align_up, checked_align_addr, law_align_up, scale_down, to_disc_offset,
    FstEntry, FstEntryView, FstNodeType,
};
use super::assemble::entries_view;
use super::reread::lemma_fst_bytes;
use super::table::{
    checked_end_of_all, checked_fst_len_all, dir_entry, end_of_all, lemma_end_of_all,
    lemma_stored_end, lemma_stored_start, lemma_visit_all, lemma_visit_all_stores, place_all,
    stored_end, stored_in_order, table_view, visit_all, visit_nodes, TableView,
};
use super::tree::{node_fst_len, resolve};
use super::{
    lemma_dir_view, DirView, File, FileView, FsError, FsErrorView, FsView, GeckoFS, Node,
    NodeView,
};

verus! {

/// Where the parts of an image stand.
pub struct LayoutView {
    /// Where the main program starts, and the zeros before it.
    pub dol_offset: int,
    pub dol_padding: int,
    /// Where the file system table starts, and the zeros before it.
    pub fst_offset: int,
    pub fst_padding: int,
    /// The bytes that the table takes.
    pub fst_len: int,
}

/// The layout of an image with parts of these sizes.
pub open spec fn layout(header: int, apploader: int, dol: int, fst_len: int) -> LayoutView {
    let dol_offset = align_up(header + apploader, DOL_ALIGNMENT_BIT);
    let fst_offset = align_up(dol_offset + dol, FST_ALIGNMENT_BIT);
    LayoutView {
        dol_offset,
        dol_padding: dol_offset - (header + apploader),
        fst_offset,
        fst_padding: fst_offset - (dol_offset + dol),
        fst_len,
    }
}

/// The file of the system that has this name.
pub open spec fn system_part<R>(fs: FsView<R>, name: Seq<char>) -> Option<FileView<R>> {
    resolve(fs.system, name)
}

/// The first file that an image needs and the system lacks.
pub open spec fn missing_part<R>(fs: FsView<R>) -> Option<Seq<char>> {
    if system_part(fs, "iso.hdr"@) is None {
        Some("iso.hdr"@)
    } else if system_part(fs, "AppLoader.ldr"@) is None {
        Some("AppLoader.ldr"@)
    } else if system_part(fs, "Start.dol"@) is None {
        Some("Start.dol"@)
    } else {
        None
    }
}

/// The layout of the image of a file system.
pub open spec fn fs_layout<R>(fs: FsView<R>) -> LayoutView {
    layout(
        system_part(fs, "iso.hdr"@)->0.len() as int,
        system_part(fs, "AppLoader.ldr"@)->0.len() as int,
        system_part(fs, "Start.dol"@)->0.len() as int,
        node_fst_len(NodeView::Directory(fs.root)) - 1,
    )
}

/// Where the files of the image may start: after the table.
pub open spec fn files_start<R>(fs: FsView<R>) -> int {
    fs_layout(fs).fst_offset + fs_layout(fs).fst_len
}

/// Whether the numbers of the image are numbers of this machine.
pub open spec fn fits<R>(fs: FsView<R>) -> bool {
    let l = fs_layout(fs);
    &&& system_part(fs, "iso.hdr"@) is Some && system_part(fs, "AppLoader.ldr"@) is Some
        ==> l.dol_offset <= usize::MAX
    &&& missing_part(fs) is None ==> {
        &&& l.fst_offset <= usize::MAX
        &&& l.fst_len < usize::MAX
        &&& l.fst_offset + l.fst_len <= usize::MAX
        &&& end_of_all(fs.root.children, files_start(fs)) <= u64::MAX
    }
}

/// Where the table of a file system starts from: the entry of the root.
pub open spec fn first_table<R>(offset: int) -> TableView<R> {
    TableView {
        entries: seq![dir_entry(0, 0, 0)],
        names: Seq::empty(),
        files: Seq::empty(),
        offset,
    }
}

/// The table of a file system whose files may start at `offset`.
pub open spec fn fs_table<R>(root: DirView<R>, offset: int) -> TableView<R> {
    let t = visit_all(root.children, 0, first_table(offset));
    TableView { entries: t.entries.update(0, dir_entry(0, t.entries.len() as int, 0)), ..t }
}

/// The bytes of the entries of a table.
pub open spec fn fst_bytes(entries: Seq<FstEntryView>, is_wii: bool) -> Seq<u8>
    decreases entries.len(),
{
    if entries.len() == 0 {
        Seq::empty()
    } else {
        fst_bytes(entries.drop_last(), is_wii) + entry_bytes(entries.last(), is_wii)
    }
}

/// The words of the header that say where the parts of the image are.
pub open spec fn header_words(l: LayoutView, is_wii: bool) -> Seq<u32> {
    seq![
        scale_down(l.dol_offset as usize, is_wii),
        scale_down(l.fst_offset as usize, is_wii),
        l.fst_len as u32,
        l.fst_len as u32,
    ]
}

/// The header with four of its words replaced.
pub open spec fn patch_header(header: Seq<u8>, words: Seq<u32>) -> Seq<u8> {
    header.take(OFFSET_DOL_OFFSET as int) + words_bytes(words) + header.skip(
        OFFSET_DOL_OFFSET + 16,
    )
}

/// A run of zeros.
pub open spec fn zeros(n: int) -> Seq<u8> {
    Seq::new(n as nat, |i: int| 0u8)
}

/// The sum of the sizes of files.
pub open spec fn total_len<R>(files: Seq<FileView<R>>) -> int
    decreases files.len(),
{
    if files.len() == 0 {
        0
    } else {
        total_len(files.drop_last()) + files.last().len()
    }
}

/// The part of the system that an image needs.
#[derive(Debug, Clone, Copy, PartialEq, Eq, Structural)]
pub enum SystemFile {
    Header,
    AppLoader,
    Dol,
}

impl SystemFile {
    /// The name of the file.
    pub open spec fn file_name(self) -> Seq<char> {
        match self {
            SystemFile::Header => "iso.hdr"@,
            SystemFile::AppLoader => "AppLoader.ldr"@,
            SystemFile::Dol => "Start.dol"@,
        }
    }

    /// The name of the file.
    pub fn name(self) -> (name: &'static str)
        ensures
            name@ == self.file_name(),
    {
        match self {
            SystemFile::Header => "iso.hdr",
            SystemFile::AppLoader => "AppLoader.ldr",
            SystemFile::Dol => "Start.dol",
        }
    }
}

/// What a writer does next.
#[derive(Debug, Clone, Copy, PartialEq, Eq, Structural)]
pub enum WriteStage {
    /// Write a file of the system.
    System(SystemFile),
    /// Write the file system table.
    Table,
    /// Learn where the image stands.
    Position,
    /// Write the zeros before a file.
    Pad(usize),
    /// Write what is left of a file: the file and the number of bytes.
    Copy(usize, usize),
    /// Nothing.
    Finished,
}

/// What a writer needs.
#[derive(Debug, Clone, Copy, PartialEq, Eq, Structural)]
pub enum WriteNeed {
    /// All that is left to read of a file of the system.
    System(SystemFile),
    /// No bytes: the file system table comes next.
    Table,
    /// No bytes: the zeros before a file come next.
    Padding { index: usize },
    /// The position of the image, by [`DiscWriter::supply_position`].
    Position,
    /// So many bytes of a file, from where its reader stands.
    File { index: usize, len: usize },
    /// The image is complete.
    Finished,
}

/// A writer of an image.
pub struct DiscWriter<R> {
    words: Vec<u32>,
    dol_padding: usize,
    fst_padding: usize,
    fst: Vec<u8>,
    names: Vec<u8>,
    files: Vec<File<R>>,
    stage: WriteStage,
    position: u64,
}

/// A writer of an image, as a value.
pub struct WriterView<R> {
    /// The words that go into the header.
    pub words: Seq<u32>,
    /// The zeros after the loader, and after the main program.
    pub dol_padding: usize,
    pub fst_padding: usize,
    /// The bytes of the table's entries, and of their names.
    pub fst: Seq<u8>,
    pub names: Seq<u8>,
    /// The files, in the order in which they are stored.
    pub files: Seq<FileView<R>>,
    pub stage: WriteStage,
    /// Where the image stands, once the files are written.
    pub position: u64,
}

impl<R> View for DiscWriter<R> {
    type V = WriterView<R>;

    closed spec fn view(&self) -> WriterView<R> {
        WriterView {
            words: self.words@,
            dol_padding: self.dol_padding,
            fst_padding: self.fst_padding,
            fst: self.fst@,
            names: self.names@,
            files: Seq::new(self.files@.len(), |i: int| self.files@[i]@),
            stage: self.stage,
            position: self.position,
        }
    }
}

/// The writer that stores a file system: everything is known but the contents of
/// the files.
pub open spec fn fs_writer<R>(fs: FsView<R>, is_wii: bool) -> WriterView<R> {
    let l = fs_layout(fs);
    let t = fs_table(fs.root, files_start(fs));
    WriterView {
        words: header_words(l, is_wii),
        dol_padding: l.dol_padding as usize,
        fst_padding: l.fst_padding as usize,
        fst: fst_bytes(t.entries, is_wii),
        names: t.names,
        files: t.files,
        stage: WriteStage::System(SystemFile::Header),
        position: 0,
    }
}

/// Whether files can be written one after the other: each one ends before the next
/// one starts, with fewer than 32 bytes between them.
pub open spec fn writable<R>(files: Seq<FileView<R>>) -> bool {
    &&& forall|i: int|
        0 <= i < files.len() ==> (#[trigger] files[i]).new_offset + files[i].len() <= u64::MAX
    &&& forall|i: int|
        0 < i < files.len() ==> stored_end(files, i, 0) <= (#[trigger] files[i]).new_offset
            < stored_end(files, i, 0) + 32
}

impl<R> WriterView<R> {
    /// Where file `i` ends in the image.
    pub open spec fn end_of_file(self, i: int) -> int {
        self.files[i].new_offset + self.files[i].len()
    }

    /// Whether the files follow each other, and the stage is one of the writer's.
    pub open spec fn wf(self) -> bool {
        &&& self.words.len() == 4
        &&& writable(self.files)
        &&& match self.stage {
            WriteStage::Pad(i) => i < self.files.len() && self.can_pad(i as int, self.position),
            WriteStage::Copy(i, left) => i < self.files.len() && 0 < left <= self.files[
                i as int
            ].len(),
            _ => true,
        }
    }

    /// Whether file `i` can be reached with zeros from `position`.
    pub open spec fn can_pad(self, i: int, position: u64) -> bool {
        position <= self.files[i].new_offset <= position + usize::MAX
    }

    /// Whether the files can be written from `position` on.
    pub open spec fn can_start(self, position: u64) -> bool {
        self.files.len() > 0 ==> self.can_pad(0, position)
    }

    /// What the writer needs next.
    pub open spec fn need(self) -> WriteNeed {
        match self.stage {
            WriteStage::System(part) => WriteNeed::System(part),
            WriteStage::Table => WriteNeed::Table,
            WriteStage::Position => WriteNeed::Position,
            WriteStage::Pad(index) => WriteNeed::Padding { index },
            WriteStage::Copy(index, left) => WriteNeed::File {
                index,
                len: if left < COPY_CHUNK {
                    left
                } else {
                    COPY_CHUNK
                },
            },
            WriteStage::Finished => WriteNeed::Finished,
        }
    }

    /// Whether `n` bytes are what the writer needs. The header has to hold the
    /// words that are replaced.
    pub open spec fn takes(self, n: int) -> bool {
        match self.need() {
            WriteNeed::System(SystemFile::Header) => n >= OFFSET_DOL_OFFSET + 16,
            WriteNeed::System(_) => true,
            WriteNeed::Table => n == 0,
            WriteNeed::Padding { index } => n == 0,
            WriteNeed::File { index, len } => n == len,
            WriteNeed::Position => false,
            WriteNeed::Finished => false,
        }
    }

    /// The bytes that the writer makes of the bytes it is handed.
    pub open spec fn output(self, bytes: Seq<u8>) -> Seq<u8> {
        match self.stage {
            WriteStage::System(SystemFile::Header) => patch_header(bytes, self.words),
            WriteStage::System(SystemFile::AppLoader) => bytes + zeros(self.dol_padding as int),
            WriteStage::System(SystemFile::Dol) => bytes + zeros(self.fst_padding as int),
            WriteStage::Table => self.fst + self.names,
            WriteStage::Pad(i) => zeros(self.files[i as int].new_offset - self.position),
            _ => bytes,
        }
    }

    /// The writer that goes on with file `i`, if there is one.
    pub open spec fn at_file(self, i: int, position: int) -> WriterView<R> {
        WriterView {
            stage: if i < self.files.len() {
                WriteStage::Pad(i as usize)
            } else {
                WriteStage::Finished
            },
            position: position as u64,
            ..self
        }
    }

    /// The writer after it was handed `n` bytes.
    pub open spec fn after(self, n: int) -> WriterView<R> {
        match self.stage {
            WriteStage::System(SystemFile::Header) => WriterView {
                stage: WriteStage::System(SystemFile::AppLoader),
                ..self
            },
            WriteStage::System(SystemFile::AppLoader) => WriterView {
                stage: WriteStage::System(SystemFile::Dol),
                ..self
            },
            WriteStage::System(SystemFile::Dol) => WriterView { stage: WriteStage::Table, ..self },
            WriteStage::Table => WriterView { stage: WriteStage::Position, ..self },
            WriteStage::Pad(i) => if self.files[i as int].len() == 0 {
                self.at_file(i + 1, self.end_of_file(i as int))
            } else {
                WriterView { stage: WriteStage::Copy(i, self.files[i as int].len()), ..self }
            },
            WriteStage::Copy(i, left) => if n >= left {
                self.at_file(i + 1, self.end_of_file(i as int))
            } else {
                WriterView { stage: WriteStage::Copy(i, (left - n) as usize), ..self }
            },
            _ => self,
        }
    }
}

/// The bytes of the entries of a table.
fn encode_entries(entries: &Vec<FstEntry>, is_wii: bool) -> (bytes: Vec<u8>)
    ensures
        bytes@ == fst_bytes(entries_view(entries@), is_wii),
{
    let mut bytes: Vec<u8> = Vec::new();
    let mut i: usize = 0;
    let ghost all = entries_view(entries@);
    assert(all.take(0) =~= Seq::empty());
    while i < entries.len()
        invariant
            all == entries_view(entries@),
            i <= entries@.len(),
            bytes@ == fst_bytes(all.take(i as int), is_wii),
        decreases entries@.len() - i,
    {
        let block = entries[i].to_block(is_wii);
        bytes.extend_from_slice(block.as_slice());
        proof {
            assert(all.take(i + 1).drop_last() =~= all.take(i as int));
            assert(bytes@ =~= fst_bytes(all.take(i as int), is_wii) + block@);
        }
        i += 1;
    }
    assert(all.take(i as int) =~= all);
    bytes
}

/// Appends a run of zeros.
fn push_zeros(bytes: &mut Vec<u8>, n: usize)
    ensures
        final(bytes)@ == old(bytes)@ + zeros(n as int),
{
    let run: Vec<u8> = vec![0u8; n];
    bytes.extend_from_slice(run.as_slice());
    assert(bytes@ =~= old(bytes)@ + zeros(n as int));
}

impl<R> DiscWriter<R> {
    /// What the writer needs next.
    pub fn need(&self) -> (need: WriteNeed)
        ensures
            need == self@.need(),
    {
        match self.stage {
            WriteStage::System(part) => WriteNeed::System(part),
            WriteStage::Table => WriteNeed::Table,
            WriteStage::Position => WriteNeed::Position,
            WriteStage::Pad(index) => WriteNeed::Padding { index },
            WriteStage::Copy(index, left) => WriteNeed::File {
                index,
                len: if left < COPY_CHUNK {
                    left
                } else {
                    COPY_CHUNK
                },
            },
            WriteStage::Finished => WriteNeed::Finished,
        }
    }

    /// Whether `n` bytes are what the writer needs.
    pub fn takes(&self, n: usize) -> (yes: bool)
        ensures
            yes == self@.takes(n as int),
    {
        match self.need() {
            WriteNeed::System(SystemFile::Header) => n >= OFFSET_DOL_OFFSET + 16,
            WriteNeed::System(_) => true,
            WriteNeed::Table => n == 0,
            WriteNeed::Padding { index } => n == 0,
            WriteNeed::File { index, len } => n == len,
            WriteNeed::Position => false,
            WriteNeed::Finished => false,
        }
    }

    /// Whether the files can be written from `position` on.
    pub fn can_start(&self, position: u64) -> (yes: bool)
        ensures
            yes == self@.can_start(position),
    {
        self.files.len() == 0 || (position <= self.files[0].new_offset && self.files[0].new_offset
            - position <= usize::MAX as u64)
    }

    /// How many files there are to write.
    pub fn file_count(&self) -> (n: usize)
        ensures
            n == self@.files.len(),
    {
        self.files.len()
    }

    /// The file at `index`, in the order in which the files are stored.
    pub fn file(&self, index: usize) -> (file: &File<R>)
        requires
            index < self@.files.len(),
        ensures
            file@ == self@.files[index as int],
    {
        &self.files[index]
    }

    /// The bytes of all files together.
    pub fn total_size(&self) -> (total: u64)
        requires
            self@.wf(),
        ensures
            total == total_len(self@.files),
    {
        let mut total: u64 = 0;
        let mut i: usize = 0;
        let ghost files = self@.files;
        assert(files.take(0) =~= Seq::empty());
        while i < self.files.len()
            invariant
                files == self@.files,
                self@.wf(),
                i <= files.len(),
                total == total_len(files.take(i as int)),
                total <= if i == 0 {
                    0
                } else {
                    self@.end_of_file(i - 1)
                },
            decreases files.len() - i,
        {
            proof {
                assert(files.take(i + 1).drop_last() =~= files.take(i as int));
                assert(self.files@[i as int]@ == files[i as int]);
                assert(self@.end_of_file(i as int) <= u64::MAX);
            }
            total = total + self.files[i].len() as u64;
            i += 1;
        }
        assert(files.take(i as int) =~= files);
        total
    }

    /// Goes on with file `i`, if there is one.
    fn go_to_file(&mut self, i: usize, position: u64)
        ensures
            final(self)@ == old(self)@.at_file(i as int, position as int),
    {
        self.position = position;
        self.stage = if i < self.files.len() {
            WriteStage::Pad(i)
        } else {
            WriteStage::Finished
        };
        assert(self@.files =~= old(self)@.files);
    }

    /// Takes the bytes that the writer needs, and gives those to write.
    pub fn supply(&mut self, bytes: &[u8]) -> (out: Vec<u8>)
        requires
            old(self)@.wf(),
            old(self)@.takes(bytes@.len() as int),
        ensures
            out@ == old(self)@.output(bytes@),
            final(self)@ == old(self)@.after(bytes@.len() as int),
            final(self)@.wf(),
    {
        let mut out: Vec<u8> = Vec::new();
        assert(self@.files.len() == self.files.len());
        match self.stage {
            WriteStage::System(SystemFile::Header) => {
                let mut words: Vec<u8> = vec![0u8; 16];
                write_u32_into(self.words.as_slice(), words.as_mut_slice());
                out.extend_from_slice(slice_subrange(bytes, 0, OFFSET_DOL_OFFSET));
                out.extend_from_slice(words.as_slice());
                out.extend_from_slice(slice_subrange(bytes, OFFSET_DOL_OFFSET + 16, bytes.len()));
                assert(out@ =~= patch_header(bytes@, self.words@));
                self.stage = WriteStage::System(SystemFile::AppLoader);
            },
            WriteStage::System(SystemFile::AppLoader) => {
                out.extend_from_slice(bytes);
                assert(out@ =~= bytes@);
                push_zeros(&mut out, self.dol_padding);
                self.stage = WriteStage::System(SystemFile::Dol);
            },
            WriteStage::System(SystemFile::Dol) => {
                out.extend_from_slice(bytes);
                assert(out@ =~= bytes@);
                push_zeros(&mut out, self.fst_padding);
                self.stage = WriteStage::Table;
            },
            WriteStage::Table => {
                out.extend_from_slice(self.fst.as_slice());
                out.extend_from_slice(self.names.as_slice());
                assert(out@ =~= self.fst@ + self.names@);
                self.stage = WriteStage::Position;
            },
            WriteStage::Pad(index) => {
                let file_start: u64 = self.files[index].new_offset;
                let len: usize = self.files[index].len();
                assert(self@.files[index as int] == self.files@[index as int]@);
                push_zeros(&mut out, (file_start - self.position) as usize);
                assert(out@ =~= zeros(file_start - self.position));
                if len == 0 {
                    self.go_to_file(index + 1, file_start);
                } else {
                    self.stage = WriteStage::Copy(index, len);
                }
            },
            WriteStage::Copy(index, left) => {
                out.extend_from_slice(bytes);
                assert(out@ =~= bytes@);
                if bytes.len() >= left {
                    assert(self@.files[index as int] == self.files@[index as int]@);
                    assert(self@.end_of_file(index as int) <= u64::MAX);
                    let end: u64 = self.files[index].new_offset + self.files[index].len() as u64;
                    self.go_to_file(index + 1, end);
                } else {
                    self.stage = WriteStage::Copy(index, left - bytes.len());
                }
            },
            WriteStage::Position => {},
            WriteStage::Finished => {},
        }
        assert(self@.files =~= old(self)@.files);
        proof {
            lemma_after_wf(old(self)@, bytes@.len() as int);
        }
        out
    }

    /// Takes the position of the image, from which on the files are written.
    pub fn supply_position(&mut self, position: u64)
        requires
            old(self)@.wf(),
            old(self)@.stage == WriteStage::Position,
            old(self)@.can_start(position),
        ensures
            final(self)@ == old(self)@.at_file(0, position as int),
            final(self)@.wf(),
    {
        assert(self@.files.len() == self.files.len());
        self.go_to_file(0, position);
        proof {
            lemma_at_file_wf(old(self)@, 0, position as int);
        }
    }
}

/// A writer that goes on with a file that it can reach is in order.
pub(crate) proof fn lemma_at_file_wf<R>(w: WriterView<R>, i: int, position: int)
    requires
        w.wf(),
        0 <= i <= w.files.len() <= usize::MAX,
        0 <= position <= u64::MAX,
        i < w.files.len() ==> w.can_pad(i, position as u64),
    ensures
        w.at_file(i, position).wf(),
{
}

/// A writer that is handed what it needs stays in order.
pub(crate) proof fn lemma_after_wf<R>(w: WriterView<R>, n: int)
    requires
        w.wf(),
        w.takes(n),
        w.files.len() <= usize::MAX,
    ensures
        w.after(n).wf(),
{
    match w.stage {
        WriteStage::Pad(i) | WriteStage::Copy(i, _) => {
            assert(w.end_of_file(i as int) <= u64::MAX);
            if i + 1 < w.files.len() {
                assert(w.end_of_file(i as int) <= w.files[i + 1].new_offset);
            }
            lemma_at_file_wf(w, i + 1, w.end_of_file(i as int));
        },
        _ => {},
    }
}

/// The files of an image are stored after the table, each one at the first multiple
/// of 32 at or after the end of the one before; so their writer is in order.
pub proof fn law_files_apart<R>(fs: FsView<R>, is_wii: bool)
    requires
        fits(fs),
        missing_part(fs) is None,
    ensures
        fs_writer(fs, is_wii).wf(),
        stored_in_order(fs_writer(fs, is_wii).files, files_start(fs)),
{
    let from = files_start(fs);
    let t = first_table::<R>(from);
    let l = fs_layout(fs);
    law_align_up(
        system_part(fs, "iso.hdr"@)->0.len() + system_part(fs, "AppLoader.ldr"@)->0.len(),
        DOL_ALIGNMENT_BIT,
    );
    law_align_up(l.dol_offset + system_part(fs, "Start.dol"@)->0.len(), FST_ALIGNMENT_BIT);
    lemma_visit_all_stores(fs.root.children, 0, t, from);
    lemma_visit_all(fs.root.children, 0, t);
    let w = fs_writer(fs, is_wii);
    let files = w.files;
    assert forall|i: int| 0 <= i < files.len() implies (#[trigger] files[i]).new_offset
        + files[i].len() <= u64::MAX by {
        lemma_stored_end(files, i + 1, files.len() as int, from);
    }
    assert forall|i: int| 0 < i < files.len() implies stored_end(files, i, 0) <= (
    #[trigger] files[i]).new_offset < stored_end(files, i, 0) + 32 by {
        lemma_stored_start(files, i, from);
    }
}

/// The table takes the bytes that the layout has for it, but for the name of the
/// root, which is counted and not stored.
pub proof fn law_table_len<R>(fs: FsView<R>, is_wii: bool)
    ensures
        fs_writer(fs, is_wii).fst.len() == 12 * fs_table(
            fs.root,
            files_start(fs),
        ).entries.len(),
        fs_writer(fs, is_wii).fst.len() + fs_writer(fs, is_wii).names.len() + encode_utf8(
            fs.root.name,
        ).len() == fs_layout(fs).fst_len,
{
    lemma_visit_all(fs.root.children, 0, first_table::<R>(files_start(fs)));
    lemma_fst_bytes(fs_table(fs.root, files_start(fs)).entries, is_wii);
}

/// The file system with its files in the places that an image gives them.
pub open spec fn placed_fs<R>(fs: FsView<R>) -> FsView<R> {
    FsView {
        root: DirView { children: place_all(fs.root.children, files_start(fs)), ..fs.root },
        ..fs
    }
}

/// The layout of an image with parts of these sizes: where the main program and the
/// table start, if those are numbers of this machine.
fn checked_offsets(header: usize, apploader: usize, dol: Option<usize>) -> (r: Option<usize>)
    ensures
        ({
            let l = layout(header as int, apploader as int, dol->0 as int, 0);
            match (r, dol) {
                (Some(n), Some(_)) => l.dol_offset <= usize::MAX && n == l.fst_offset,
                (Some(n), None) => n == l.dol_offset,
                (None, Some(_)) => l.dol_offset > usize::MAX || l.fst_offset > usize::MAX,
                (None, None) => l.dol_offset > usize::MAX,
            }
        }),
{
    proof {
        law_align_up(header + apploader, DOL_ALIGNMENT_BIT);
    }
    if header > usize::MAX - apploader {
        return None;
    }
    let dol_offset: usize = match checked_align_addr(
        header as u64 + apploader as u64,
        DOL_ALIGNMENT_BIT,
    ) {
        Some(n) => if n > usize::MAX as u64 {
            return None;
        } else {
            n as usize
        },
        None => {
            return None;
        },
    };
    match dol {
        None => Some(dol_offset),
        Some(dol_size) => {
            proof {
                law_align_up(dol_offset + dol_size, FST_ALIGNMENT_BIT);
            }
            if dol_offset > usize::MAX - dol_size {
                return None;
            }
            match checked_align_addr(dol_offset as u64 + dol_size as u64, FST_ALIGNMENT_BIT) {
                Some(n) => if n > usize::MAX as u64 {
                    None
                } else {
                    Some(n as usize)
                },
                None => None,
            }
        },
    }
}

impl<R> GeckoFS<R> {
    /// Starts to write the file system to an image: lays the image out, gives the
    /// files their places, and makes the file system table. The system has to have
    /// a header, a loader and a main program.
    #[verifier::rlimit(40)]
    pub fn serialize(&mut self, is_wii: bool) -> (writer: Result<DiscWriter<R>, FsError>)
        requires
            fits(old(self)@),
        ensures
            writer is Ok <==> {
                &&& resolve(old(self)@.system, "iso.hdr"@) is Some
                &&& resolve(old(self)@.system, "AppLoader.ldr"@) is Some
                &&& resolve(old(self)@.system, "Start.dol"@) is Some
            },
            match (writer, missing_part(old(self)@)) {
                (Ok(w), None) => {
                    &&& w@ == fs_writer(old(self)@, is_wii)
                    &&& w@.wf()
                    &&& final(self)@ == placed_fs(old(self)@)
                },
                (Err(e), Some(name)) => {
                    &&& e@ == (FsErrorView::NotFound { path: name, dir: old(self)@.system.name })
                    &&& final(self)@ == old(self)@
                },
                _ => false,
            },
    {
        let header_size: usize = match self.sys().get_file("iso.hdr") {
            Ok(file) => file.len(),
            Err(e) => {
                return Err(e);
            },
        };
        let apploader_size: usize = match self.sys().get_file("AppLoader.ldr") {
            Ok(file) => file.len(),
            Err(e) => {
                return Err(e);
            },
        };
        let ghost fs = self@;
        let ghost l = fs_layout(fs);
        proof {
            law_align_up(header_size + apploader_size, DOL_ALIGNMENT_BIT);
        }
        let dol_offset_raw: usize = header_size + apploader_size;
        let dol_offset: usize = align_addr(dol_offset_raw as u64, DOL_ALIGNMENT_BIT) as usize;
        let dol_padding: usize = dol_offset - dol_offset_raw;
        let dol_size: usize = match self.sys().get_file("Start.dol") {
            Ok(file) => file.len(),
            Err(e) => {
                return Err(e);
            },
        };
        proof {
            law_align_up(dol_offset + dol_size, FST_ALIGNMENT_BIT);
            law_files_apart(fs, is_wii);
        }
        let fst_offset_raw: usize = dol_offset + dol_size;
        let fst_offset: usize = align_addr(fst_offset_raw as u64, FST_ALIGNMENT_BIT) as usize;
        let fst_padding: usize = fst_offset - fst_offset_raw;
        let fst_len: usize = GeckoFS::visitor_fst_len(0, &self.root) - 1;
        let words: Vec<u32> = vec![
            to_disc_offset(dol_offset, is_wii),
            to_disc_offset(fst_offset, is_wii),
            fst_len as u32,
            fst_len as u32,
        ];
        assert(words@ =~= header_words(l, is_wii));
        let root_entry = FstEntry {
            kind: FstNodeType::Directory,
            relative_file_name: String::new(),
            file_offset_parent_dir: 0,
            file_size_next_dir_index: 0,
            file_name_offset: 0,
        };
        let mut output_fst: Vec<FstEntry> = Vec::new();
        output_fst.push(root_entry);
        let mut fst_name_bank: Vec<u8> = Vec::new();
        let mut files: Vec<File<R>> = Vec::new();
        let mut offset: u64 = fst_offset as u64 + fst_len as u64;
        let ghost start = first_table::<R>(offset as int);
        proof {
            lemma_dir_view(self.root);
            let now = table_view(output_fst@, fst_name_bank@, files@, offset);
            assert(root_entry@.relative_file_name =~= Seq::empty());
            assert(now.entries =~= start.entries);
            assert(now.names =~= start.names);
            assert(now.files =~= start.files);
            lemma_visit_all(fs.root.children, 0, start);
        }
        visit_nodes(
            &mut self.root.children,
            &mut output_fst,
            &mut files,
            &mut fst_name_bank,
            0,
            &mut offset,
        );
        let ghost inside = table_view(output_fst@, fst_name_bank@, files@, offset);
        let next: usize = output_fst.len();
        assert(inside.entries.take(1)[0] == start.entries[0]);
        output_fst[0].file_size_next_dir_index = next;
        proof {
            lemma_dir_view(self.root);
            assert(entries_view(output_fst@) =~= inside.entries.update(
                0,
                dir_entry(0, inside.entries.len() as int, 0),
            ));
        }
        let fst = encode_entries(&output_fst, is_wii);
        let writer = DiscWriter {
            words,
            dol_padding,
            fst_padding,
            fst,
            names: fst_name_bank,
            files,
            stage: WriteStage::System(SystemFile::Header),
            position: 0,
        };
        assert(writer@.files =~= inside.files);
        Ok(writer)
    }

    /// The size of the file of the system that has this name.
    fn part_len(&self, name: &str) -> (len: Option<usize>)
        ensures
            match (len, system_part(self@, name@)) {
                (Some(n), Some(f)) => n == f.len(),
                (None, None) => true,
                _ => false,
            },
    {
        match self.sys().get_file(name) {
            Ok(file) => Some(file.len()),
            Err(_) => None,
        }
    }

    /// Whether the numbers of the image are numbers of this machine.
    pub fn fits(&self) -> (yes: bool)
        ensures
            yes == fits(self@),
    {
        let header: usize = match self.part_len("iso.hdr") {
            Some(n) => n,
            None => {
                return true;
            },
        };
        let apploader: usize = match self.part_len("AppLoader.ldr") {
            Some(n) => n,
            None => {
                return true;
            },
        };
        let dol = self.part_len("Start.dol");
        let fst_offset: usize = match checked_offsets(header, apploader, dol) {
            Some(n) => n,
            None => {
                return false;
            },
        };
        if dol.is_none() {
            return true;
        }
        let name_len: usize = self.root.name().as_bytes().len();
        if name_len > usize::MAX - 13 {
            return false;
        }
        proof {
            lemma_dir_view(self.root);
            lemma_end_of_all(self@.root.children, files_start(self@));
        }
        let fst_len: usize = match checked_fst_len_all(name_len + 13, &self.root.children) {
            Some(n) => n - 1,
            None => {
                return false;
            },
        };
        if fst_offset > usize::MAX - fst_len {
            return false;
        }
        checked_end_of_all(&self.root.children, fst_offset as u64 + fst_len as u64).is_some()
    }
}

} // verus!
