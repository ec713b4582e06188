//! The entries of the file system table.

use vstd::prelude::*;
use vstd::slice::slice_subrange;

use crate::be::{
    be_value, law_word_round_trip, lemma_words_bytes_at, read_u32, words_bytes, write_u32_into,
};
use super::{
    in_units, is_whole, law_offset_cut, law_offset_round_trip, scale_down, scale_up,
    to_bytes_offset, to_disc_offset,
};

verus! {

/// What an entry of the file system table describes.
#[derive(Debug, Clone, Copy, PartialEq, Eq, Structural)]
pub enum FstNodeType {
    File,
    Directory,
}

impl FstNodeType {
    /// The byte that stands for this kind in the table.
    pub open spec fn code(self) -> u8 {
        match self {
            FstNodeType::File => 0,
            FstNodeType::Directory => 1,
        }
    }

    /// The kind that a byte of the table stands for: what is not a file is taken
    /// for a directory.
    pub open spec fn of_code(code: u8) -> FstNodeType {
        if code == 0 {
            FstNodeType::File
        } else {
            FstNodeType::Directory
        }
    }

    /// Reads the kind of an entry from its first byte.
    pub fn from_code(code: u8) -> (kind: FstNodeType)
        ensures
            kind == FstNodeType::of_code(code),
    {
        if code == 0 {
            FstNodeType::File
        } else {
            FstNodeType::Directory
        }
    }

    /// The first byte of an entry of this kind.
    pub fn to_code(self) -> (code: u8)
        ensures
            code == self.code(),
    {
        match self {
            FstNodeType::File => 0,
            FstNodeType::Directory => 1,
        }
    }
}

impl Default for FstNodeType {
    fn default() -> (kind: FstNodeType)
        ensures
            kind == FstNodeType::File,
    {
        FstNodeType::File
    }
}

/// One entry of the file system table.
///
/// For a file, `file_offset_parent_dir` is where its data starts on the disc and
/// `file_size_next_dir_index` its size. For a directory they are the index of the
/// parent's entry and the index of the first entry after everything inside.
#[derive(Debug)]
pub struct FstEntry {
    pub kind: FstNodeType,
    pub relative_file_name: String,
    pub file_offset_parent_dir: usize,
    pub file_size_next_dir_index: usize,
    pub file_name_offset: usize,
}

/// An entry with its name as a sequence of characters.
pub struct FstEntryView {
    pub kind: FstNodeType,
    pub relative_file_name: Seq<char>,
    pub file_offset_parent_dir: usize,
    pub file_size_next_dir_index: usize,
    pub file_name_offset: usize,
}

/// An entry as a value has the numbers, the kind and the name of the entry.
pub proof fn law_entry_view(e: FstEntry)
    ensures
        e@.kind == e.kind,
        e@.relative_file_name == e.relative_file_name@,
        e@.file_offset_parent_dir == e.file_offset_parent_dir,
        e@.file_size_next_dir_index == e.file_size_next_dir_index,
        e@.file_name_offset == e.file_name_offset,
{
}

impl View for FstEntry {
    type V = FstEntryView;

    open spec fn view(&self) -> FstEntryView {
        FstEntryView {
            kind: self.kind,
            relative_file_name: self.relative_file_name@,
            file_offset_parent_dir: self.file_offset_parent_dir,
            file_size_next_dir_index: self.file_size_next_dir_index,
            file_name_offset: self.file_name_offset,
        }
    }
}

impl Clone for FstEntry {
    fn clone(&self) -> (r: FstEntry)
        ensures
            r@ == self@,
    {
        FstEntry {
            kind: self.kind,
            relative_file_name: self.relative_file_name.clone(),
            file_offset_parent_dir: self.file_offset_parent_dir,
            file_size_next_dir_index: self.file_size_next_dir_index,
            file_name_offset: self.file_name_offset,
        }
    }
}

impl Default for FstEntry {
    fn default() -> (r: FstEntry)
        ensures
            r@ == (FstEntryView {
                kind: FstNodeType::File,
                relative_file_name: Seq::empty(),
                file_offset_parent_dir: 0,
                file_size_next_dir_index: 0,
                file_name_offset: 0,
            }),
    {
        FstEntry {
            kind: FstNodeType::File,
            relative_file_name: String::new(),
            file_offset_parent_dir: 0,
            file_size_next_dir_index: 0,
            file_name_offset: 0,
        }
    }
}

/// The three words that an entry takes in the table. The name offset has 24 bits
/// there, the other numbers 32.
pub open spec fn entry_words(e: FstEntryView, is_wii: bool) -> Seq<u32> {
    seq![
        (e.kind.code() * 0x100_0000 + e.file_name_offset as int % 0x100_0000) as u32,
        scale_down(e.file_offset_parent_dir, is_wii),
        e.file_size_next_dir_index as u32,
    ]
}

/// The bytes of an entry in the table.
pub open spec fn entry_bytes(e: FstEntryView, is_wii: bool) -> Seq<u8> {
    words_bytes(entry_words(e, is_wii))
}

/// The entry that `b` holds, where `name` is the name it refers to.
pub open spec fn entry_of_bytes(b: Seq<u8>, name: Seq<char>, is_wii: bool) -> FstEntryView {
    FstEntryView {
        kind: FstNodeType::of_code(b[0]),
        relative_file_name: name,
        file_offset_parent_dir: scale_up(be_value(b.subrange(4, 8)) as u32, is_wii),
        file_size_next_dir_index: be_value(b.subrange(8, 12)) as usize,
        file_name_offset: name_offset_of_bytes(b),
    }
}

/// Where the name of the entry in `b` starts in the string table.
pub open spec fn name_offset_of_bytes(b: Seq<u8>) -> usize {
    (be_value(b) % 0x100_0000) as usize
}

/// An entry whose numbers fit the table's fields.
pub open spec fn entry_fits(e: FstEntryView) -> bool {
    &&& e.file_name_offset < 0x100_0000
    &&& e.file_size_next_dir_index <= u32::MAX
}

/// An entry that fits comes back from its bytes: its kind, its size or next index
/// and its name offset always, its offset wherever the disc can hold it.
pub proof fn law_entry_round_trip(e: FstEntryView, name: Seq<char>, is_wii: bool)
    requires
        entry_fits(e),
    ensures
        ({
            let b = entry_bytes(e, is_wii);
            let back = entry_of_bytes(b, name, is_wii);
            &&& b.len() == 12
            &&& name_offset_of_bytes(b) == e.file_name_offset
            &&& back.kind == e.kind
            &&& back.file_size_next_dir_index == e.file_size_next_dir_index
            &&& back.file_name_offset == e.file_name_offset
            &&& {
                &&& is_whole(e.file_offset_parent_dir as int, is_wii)
                &&& in_units(e.file_offset_parent_dir as int, is_wii) <= u32::MAX
            } ==> back.file_offset_parent_dir == e.file_offset_parent_dir
        }),
{
    let words = entry_words(e, is_wii);
    let b = entry_bytes(e, is_wii);
    lemma_words_bytes_at(words, 0);
    lemma_words_bytes_at(words, 1);
    lemma_words_bytes_at(words, 2);
    law_word_round_trip(words[0]);
    law_word_round_trip(words[1]);
    law_word_round_trip(words[2]);
    let first = b.subrange(0, 4);
    assert(first[0] == b[0] && first[1] == b[1] && first[2] == b[2] && first[3] == b[3]);
    assert(be_value(b) == be_value(first));
    if is_whole(e.file_offset_parent_dir as int, is_wii)
        && in_units(e.file_offset_parent_dir as int, is_wii) <= u32::MAX {
        law_offset_round_trip(e.file_offset_parent_dir, is_wii);
    }
}

/// What an entry is written as: a byte that tells files from directories, the name
/// offset in the next three, then the offset, on a Wii disc in words of four bytes,
/// and the size, all of them big-endian and cut to their bits.
pub proof fn law_entry_written(e: FstEntryView, is_wii: bool)
    ensures
        ({
            let b = entry_bytes(e, is_wii);
            let kind: int = if e.kind == FstNodeType::File {
                0
            } else {
                1
            };
            &&& b.len() == 12
            &&& be_value(b.subrange(0, 4)) == kind * 0x100_0000 + e.file_name_offset as int
                % 0x100_0000
            &&& be_value(b.subrange(4, 8)) == if is_wii {
                e.file_offset_parent_dir as int / 4 % 0x1_0000_0000
            } else {
                e.file_offset_parent_dir as int % 0x1_0000_0000
            }
            &&& be_value(b.subrange(8, 12)) == e.file_size_next_dir_index as int % 0x1_0000_0000
        }),
{
    let words = entry_words(e, is_wii);
    lemma_words_bytes_at(words, 0);
    lemma_words_bytes_at(words, 1);
    lemma_words_bytes_at(words, 2);
    law_word_round_trip(words[0]);
    law_word_round_trip(words[1]);
    law_word_round_trip(words[2]);
    law_offset_cut(e.file_offset_parent_dir);
    law_offset_cut(e.file_size_next_dir_index);
}

/// What an entry is read as: a file if its first byte is zero; the next three bytes are
/// its name offset; then come its offset, on a Wii disc in words of four bytes, and its
/// size.
pub proof fn law_entry_read(b: Seq<u8>, name: Seq<char>, is_wii: bool)
    requires
        b.len() == 12,
    ensures
        ({
            let e = entry_of_bytes(b, name, is_wii);
            let offset = b[4] * 0x100_0000 + b[5] * 0x1_0000 + b[6] * 0x100 + b[7];
            &&& e.kind == FstNodeType::File <==> b[0] == 0
            &&& e.relative_file_name == name
            &&& e.file_name_offset == b[1] * 0x1_0000 + b[2] * 0x100 + b[3]
            &&& name_offset_of_bytes(b) == b[1] * 0x1_0000 + b[2] * 0x100 + b[3]
            &&& !is_wii ==> e.file_offset_parent_dir == offset
            &&& is_wii && 4 * offset <= usize::MAX ==> e.file_offset_parent_dir == 4 * offset
            &&& e.file_size_next_dir_index == b[8] * 0x100_0000 + b[9] * 0x1_0000 + b[10] * 0x100
                + b[11]
        }),
{
    let low = b[1] * 0x1_0000 + b[2] * 0x100 + b[3];
    assert(0 <= low < 0x100_0000);
    assert(be_value(b) == b[0] * 0x100_0000 + low);
    assert(be_value(b) % 0x100_0000 == low);
    let x = b.subrange(4, 8);
    assert(x[0] == b[4] && x[1] == b[5] && x[2] == b[6] && x[3] == b[7]);
    let y = b.subrange(8, 12);
    assert(y[0] == b[8] && y[1] == b[9] && y[2] == b[10] && y[3] == b[11]);
}

impl FstEntry {
    /// The bytes that an entry takes in the table.
    pub const BLOCK_SIZE: usize = 12;

    /// The bytes of the entry in the table.
    pub fn to_block(&self, is_wii: bool) -> (block: Vec<u8>)
        ensures
            block@ == entry_bytes(self@, is_wii),
    {
        let code: u32 = self.kind.to_code() as u32;
        let name: u32 = self.file_name_offset as u32;
        proof {
            let n = self.file_name_offset;
            assert(code <= 1 ==> (code << 24) | (name & 0x00FF_FFFF) == code * 0x100_0000 + name
                % 0x100_0000) by (bit_vector);
            assert((n as u32) % 0x100_0000 == n % 0x100_0000) by (bit_vector);
        }
        let words: [u32; 3] = [
            (code << 24) | (name & 0x00FF_FFFF),
            to_disc_offset(self.file_offset_parent_dir, is_wii),
            self.file_size_next_dir_index as u32,
        ];
        let mut block: Vec<u8> = vec![0u8; 12];
        write_u32_into(words.as_slice(), block.as_mut_slice());
        assert(words@ =~= entry_words(self@, is_wii));
        block
    }

    /// Where the name of the entry in `block` starts in the string table.
    pub fn name_offset(block: &[u8]) -> (n: usize)
        requires
            block@.len() >= 4,
        ensures
            n == name_offset_of_bytes(block@),
    {
        let w: u32 = read_u32(block);
        proof {
            assert(w & 0x00FF_FFFF == w % 0x100_0000) by (bit_vector);
        }
        (w & 0x00FF_FFFF) as usize
    }

    /// The entry in `block`, with the name that it refers to.
    pub fn from_block(block: &[u8], name: String, is_wii: bool) -> (e: FstEntry)
        requires
            block@.len() == 12,
        ensures
            e@ == entry_of_bytes(block@, name@, is_wii),
    {
        FstEntry {
            kind: FstNodeType::from_code(block[0]),
            relative_file_name: name,
            file_offset_parent_dir: to_bytes_offset(
                read_u32(slice_subrange(block, 4, 8)),
                is_wii,
            ),
            file_size_next_dir_index: read_u32(slice_subrange(block, 8, 12)) as usize,
            file_name_offset: FstEntry::name_offset(block),
        }
    }
}

} // verus!
