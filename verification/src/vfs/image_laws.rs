//! What an image has, byte by byte.

use vstd::prelude::*;
use vstd::utf8::encode_utf8;

use crate::be::{be_value, law_word_round_trip, lemma_words_bytes_at, words_bytes};
use crate::iso::fst::{entry_bytes, law_entry_written};
use crate::iso::{law_align_up, law_offset_cut, lemma_alignments, FstNodeType};
use super::image::{
    contents_fit, files_bytes, image, image_front, law_image_contents, law_writer_image,
    lemma_files_bytes_len, run_writer, SystemBytes,
};
use super::parse::block;
use super::reread::lemma_fst_bytes;
use super::round_trip::{lemma_can_start, lemma_front, system_fits};
use super::serialize::{
    files_start, fits, fs_layout, fs_table, fs_writer, law_files_apart, law_table_len,
    missing_part, patch_header, zeros, WriterView,
};
use super::table::stored_end;
use super::{FileView, FsView};

verus! {

/// The big-endian word at byte `p`.
pub open spec fn word_at(image: Seq<u8>, p: int) -> int {
    image[p] * 0x100_0000 + image[p + 1] * 0x1_0000 + image[p + 2] * 0x100 + image[p + 3]
}

/// Whether `part` stands at byte `p`.
pub open spec fn stands_at(image: Seq<u8>, p: int, part: Seq<u8>) -> bool {
    &&& 0 <= p
    &&& p + part.len() <= image.len()
    &&& forall|k: int| 0 <= k < part.len() ==> image[p + k] == #[trigger] part[k]
}

/// Whether all bytes from `a` to `b` are zero.
pub open spec fn all_zero(image: Seq<u8>, a: int, b: int) -> bool {
    &&& 0 <= a
    &&& b <= image.len()
    &&& forall|p: int| a <= p < b ==> #[trigger] image[p] == 0
}

proof fn lemma_word_at(image: Seq<u8>, p: int)
    requires
        0 <= p,
        p + 4 <= image.len(),
    ensures
        word_at(image, p) == be_value(image.subrange(p, p + 4)),
{
    let s = image.subrange(p, p + 4);
    assert(s[0] == image[p] && s[1] == image[p + 1] && s[2] == image[p + 2] && s[3] == image[p
        + 3]);
}

/// In every image the table starts at the first multiple of 256 at or after the end of
/// the main program, which starts at the first multiple of 1024 at or after the end of
/// the loader, which follows the header. Between them there are zeros. The header is
/// the one that was given but for 16 bytes.
#[verifier::rlimit(40)]
pub proof fn law_image_parts<R>(
    fs: FsView<R>,
    is_wii: bool,
    sys: SystemBytes,
    contents: Seq<Seq<u8>>,
)
    requires
        fits(fs),
        missing_part(fs) is None,
        system_fits(fs, sys),
    ensures
        ({
            let img = image(fs_writer(fs, is_wii), sys, contents);
            let dol = fs_layout(fs).dol_offset;
            let fst = fs_layout(fs).fst_offset;
            let loader_end = sys.header.len() + sys.apploader.len();
            let dol_end = dol + sys.dol.len();
            &&& dol % 1024 == 0 && loader_end <= dol < loader_end + 1024
            &&& fst % 256 == 0 && dol_end <= fst < dol_end + 256
            &&& fst <= img.len()
            &&& forall|p: int|
                0 <= p < sys.header.len() && !(0x420 <= p < 0x430) ==> img[p]
                    == #[trigger] sys.header[p]
            &&& stands_at(img, sys.header.len() as int, sys.apploader)
            &&& all_zero(img, loader_end as int, dol)
            &&& stands_at(img, dol, sys.dol)
            &&& all_zero(img, dol_end as int, fst)
        }),
{
    let w = fs_writer(fs, is_wii);
    let l = fs_layout(fs);
    let img = image(w, sys, contents);
    let h = sys.header.len() as int;
    let a = sys.apploader.len() as int;
    lemma_front(fs, is_wii, sys);
    lemma_alignments();
    law_align_up((sys.header.len() + sys.apploader.len()) as int, 10);
    law_align_up((l.dol_offset + sys.dol.len()) as int, 8);
    let header = patch_header(sys.header, w.words);
    let loader = sys.apploader + zeros(w.dol_padding as int);
    let dol = sys.dol + zeros(w.fst_padding as int);
    assert(header.len() == h);
    assert((header + loader).len() == l.dol_offset);
    assert((header + loader + dol).len() == l.fst_offset);
    assert forall|p: int| 0 <= p < h && !(0x420 <= p < 0x430) implies img[p]
        == #[trigger] sys.header[p] by {
        assert(img[p] == header[p]);
    }
    assert forall|k: int| 0 <= k < a implies img[h + k] == #[trigger] sys.apploader[k] by {
        assert(img[h + k] == loader[k]);
    }
    assert forall|p: int| h + a <= p < l.dol_offset implies #[trigger] img[p] == 0 by {
        assert(img[p] == loader[p - h]);
    }
    assert forall|k: int| 0 <= k < sys.dol.len() implies img[l.dol_offset + k]
        == #[trigger] sys.dol[k] by {
        assert(img[l.dol_offset + k] == dol[k]);
    }
    assert forall|p: int|
        l.dol_offset + sys.dol.len() <= p < l.fst_offset implies #[trigger] img[p] == 0 by {
        assert(img[p] == dol[p - l.dol_offset]);
    }
}

/// The last two of the words that a writer puts into the header are the same: the number
/// of bytes that the table takes, cut to 32 bits.
pub proof fn law_table_words<R>(fs: FsView<R>, is_wii: bool)
    requires
        fits(fs),
        missing_part(fs) is None,
    ensures
        ({
            let w = fs_writer(fs, is_wii);
            let table = w.fst.len() + w.names.len() + encode_utf8(fs.root.name).len();
            &&& w.words.len() == 4
            &&& w.words[2] == w.words[3]
            &&& w.words[2] as int == table as int % 0x1_0000_0000
        }),
{
    law_table_len(fs, is_wii);
    law_offset_cut(fs_layout(fs).fst_len as usize);
}

/// In every image four words of the header say where the main program and the table
/// start, on a Wii disc in words of four bytes, and, twice, how many bytes the table
/// takes: its entries, its names, and the name of the root, which is not stored. The
/// numbers are cut to 32 bits.
#[verifier::rlimit(40)]
pub proof fn law_image_words<R>(
    fs: FsView<R>,
    is_wii: bool,
    sys: SystemBytes,
    contents: Seq<Seq<u8>>,
)
    requires
        fits(fs),
        missing_part(fs) is None,
        system_fits(fs, sys),
    ensures
        ({
            let img = image(fs_writer(fs, is_wii), sys, contents);
            let dol = fs_layout(fs).dol_offset;
            let fst = fs_layout(fs).fst_offset;
            let t = fs_table(fs.root, files_start(fs));
            let table = (12 * t.entries.len() + t.names.len() + encode_utf8(
                fs.root.name,
            ).len()) as int;
            &&& 0x430 <= img.len()
            &&& word_at(img, 0x428) == word_at(img, 0x42C)
            &&& word_at(img, 0x428) == table % 0x1_0000_0000
            &&& word_at(img, 0x420) == if is_wii {
                dol / 4 % 0x1_0000_0000
            } else {
                dol % 0x1_0000_0000
            }
            &&& word_at(img, 0x424) == if is_wii {
                fst / 4 % 0x1_0000_0000
            } else {
                fst % 0x1_0000_0000
            }
            &&& files_start(fs) == fst + table
        }),
{
    let w = fs_writer(fs, is_wii);
    let l = fs_layout(fs);
    let img = image(w, sys, contents);
    lemma_front(fs, is_wii, sys);
    let header = patch_header(sys.header, w.words);
    let words = words_bytes(w.words);
    lemma_words_bytes_at(w.words, 0);
    lemma_words_bytes_at(w.words, 1);
    lemma_words_bytes_at(w.words, 2);
    lemma_words_bytes_at(w.words, 3);
    law_word_round_trip(w.words[0]);
    law_word_round_trip(w.words[1]);
    law_word_round_trip(w.words[2]);
    law_word_round_trip(w.words[3]);
    assert(img.subrange(0x420, 0x424) =~= words.subrange(0, 4));
    assert(img.subrange(0x424, 0x428) =~= words.subrange(4, 8));
    assert(img.subrange(0x428, 0x42C) =~= words.subrange(8, 12));
    assert(img.subrange(0x42C, 0x430) =~= words.subrange(12, 16));
    lemma_word_at(img, 0x420);
    lemma_word_at(img, 0x424);
    lemma_word_at(img, 0x428);
    lemma_word_at(img, 0x42C);
    law_offset_cut(l.dol_offset as usize);
    law_offset_cut(l.fst_offset as usize);
    law_offset_cut(l.fst_len as usize);
}

/// In every image each entry of the table has twelve bytes where the table starts: a
/// byte that tells files from directories, the name offset, the offset or parent, on a
/// Wii disc in words of four bytes, and the size or next index. The names follow.
#[verifier::rlimit(40)]
pub proof fn law_image_table<R>(
    fs: FsView<R>,
    is_wii: bool,
    sys: SystemBytes,
    contents: Seq<Seq<u8>>,
    i: int,
)
    requires
        fits(fs),
        missing_part(fs) is None,
        system_fits(fs, sys),
        0 <= i < fs_table(fs.root, files_start(fs)).entries.len(),
    ensures
        ({
            let img = image(fs_writer(fs, is_wii), sys, contents);
            let t = fs_table(fs.root, files_start(fs));
            let p = fs_layout(fs).fst_offset + 12 * i;
            let e = t.entries[i];
            let kind: int = if e.kind == FstNodeType::File {
                0
            } else {
                1
            };
            &&& p + 12 <= img.len()
            &&& word_at(img, p) == kind * 0x100_0000 + e.file_name_offset as int % 0x100_0000
            &&& word_at(img, p + 4) == if is_wii {
                e.file_offset_parent_dir as int / 4 % 0x1_0000_0000
            } else {
                e.file_offset_parent_dir as int % 0x1_0000_0000
            }
            &&& word_at(img, p + 8) == e.file_size_next_dir_index as int % 0x1_0000_0000
            &&& stands_at(img, fs_layout(fs).fst_offset + 12 * t.entries.len(), t.names)
        }),
{
    let w = fs_writer(fs, is_wii);
    let l = fs_layout(fs);
    let t = fs_table(fs.root, files_start(fs));
    let n = t.entries.len() as int;
    let front = image_front(w, sys);
    let img = image(w, sys, contents);
    let p = l.fst_offset + 12 * i;
    lemma_front(fs, is_wii, sys);
    lemma_fst_bytes(t.entries, is_wii);
    law_entry_written(t.entries[i], is_wii);
    let b = entry_bytes(t.entries[i], is_wii);
    assert(block(w.fst, i) == b);
    assert(img.subrange(p, p + 12) =~= front.subrange(l.fst_offset, l.fst_offset + 12 * n).subrange(
        12 * i,
        12 * i + 12,
    ));
    assert(img.subrange(p, p + 12) == b);
    assert(img.subrange(p, p + 4) =~= b.subrange(0, 4));
    assert(img.subrange(p + 4, p + 8) =~= b.subrange(4, 8));
    assert(img.subrange(p + 8, p + 12) =~= b.subrange(8, 12));
    lemma_word_at(img, p);
    lemma_word_at(img, p + 4);
    lemma_word_at(img, p + 8);
    let at = l.fst_offset + 12 * n;
    assert forall|k: int| 0 <= k < t.names.len() implies img[at + k] == #[trigger] t.names[k] by {
        assert(front.subrange(at, at + t.names.len())[k] == w.names[k]);
    }
}

/// The gaps between files are zeros.
proof fn lemma_gaps<R>(
    files: Seq<FileView<R>>,
    contents: Seq<Seq<u8>>,
    n: int,
    from: int,
    i: int,
    p: int,
)
    requires
        contents_fit(files, contents),
        0 <= i < n <= files.len(),
        files.len() > 0 ==> from <= files[0].new_offset,
        forall|i: int|
            0 < i < files.len() ==> stored_end(files, i, from) <= (#[trigger] files[i]).new_offset,
        stored_end(files, i, from) <= p < files[i].new_offset,
    ensures
        0 <= p - from < files_bytes(files, contents, n, from).len(),
        files_bytes(files, contents, n, from)[p - from] == 0,
    decreases n,
{
    lemma_files_bytes_len(files, contents, n, from);
    lemma_files_bytes_len(files, contents, n - 1, from);
    lemma_files_bytes_len(files, contents, i, from);
    if i < n - 1 {
        lemma_gaps(files, contents, n - 1, from, i, p);
    }
}

/// What a writer puts after the table: the contents of each file at its place, and zeros
/// before each one.
#[verifier::rlimit(40)]
proof fn lemma_files_placed<R>(w: WriterView<R>, sys: SystemBytes, contents: Seq<Seq<u8>>)
    requires
        w.wf(),
        contents_fit(w.files, contents),
        w.files.len() > 0 ==> image_front(w, sys).len() <= w.files[0].new_offset,
    ensures
        ({
            let img = image(w, sys, contents);
            let files = w.files;
            let from = image_front(w, sys).len() as int;
            &&& forall|i: int|
                0 <= i < files.len() ==> stands_at(
                    img,
                    (#[trigger] files[i]).new_offset as int,
                    contents[i],
                )
            &&& files.len() > 0 ==> all_zero(img, from, files[0].new_offset as int)
            &&& forall|i: int|
                0 <= i < files.len() - 1 ==> #[trigger] gap_is_zero(img, files[i], files[i + 1])
            &&& img.len() == if files.len() == 0 {
                from
            } else {
                files.last().new_offset + files.last().fst.file_size_next_dir_index
            }
        }),
{
    let img = image(w, sys, contents);
    let files = w.files;
    let n = files.len() as int;
    let front = image_front(w, sys);
    let from = front.len() as int;
    let bytes = files_bytes(files, contents, n, from);
    assert(img == front + bytes);
    assert forall|i: int| 0 < i < files.len() implies stored_end(files, i, from) <= (
    #[trigger] files[i]).new_offset by {
        assert(stored_end(files, i, 0) <= files[i].new_offset);
    }
    lemma_files_bytes_len(files, contents, n, from);
    assert forall|i: int| 0 <= i < n implies stands_at(
        img,
        (#[trigger] files[i]).new_offset as int,
        contents[i],
    ) by {
        law_image_contents(w, sys, contents, i);
        let at = files[i].new_offset as int;
        assert(contents[i].len() == files[i].len());
        assert forall|k: int| 0 <= k < contents[i].len() implies img[at + k]
            == #[trigger] contents[i][k] by {
            assert(img.subrange(at, at + files[i].len())[k] == img[at + k]);
        }
    }
    if n > 0 {
        law_image_contents(w, sys, contents, 0);
        assert forall|p: int| from <= p < files[0].new_offset implies #[trigger] img[p] == 0 by {
            lemma_gaps(files, contents, n, from, 0, p);
            assert(img[p] == bytes[p - from]);
        }
    }
    assert forall|i: int| 0 <= i < n - 1 implies #[trigger] gap_is_zero(
        img,
        files[i],
        files[i + 1],
    ) by {
        assert(stored_end(files, i + 1, from) <= files[i + 1].new_offset);
        lemma_files_bytes_len(files, contents, i + 1, from);
        law_image_contents(w, sys, contents, i + 1);
        let end = files[i].new_offset + files[i].fst.file_size_next_dir_index;
        assert forall|p: int| end <= p < files[i + 1].new_offset implies #[trigger] img[p] == 0 by {
            lemma_gaps(files, contents, n, from, i + 1, p);
            assert(img[p] == bytes[p - from]);
        }
    }
}

/// In every image the contents of each file stand at its place, the bytes between the
/// table and the first file and between one file and the next are zero, and the image
/// ends with the last file.
#[verifier::rlimit(40)]
pub proof fn law_image_files<R>(
    fs: FsView<R>,
    is_wii: bool,
    sys: SystemBytes,
    contents: Seq<Seq<u8>>,
)
    requires
        fits(fs),
        missing_part(fs) is None,
        system_fits(fs, sys),
        contents_fit(fs_writer(fs, is_wii).files, contents),
    ensures
        ({
            let img = image(fs_writer(fs, is_wii), sys, contents);
            let t = fs_table(fs.root, files_start(fs));
            let files = t.files;
            let table_end = fs_layout(fs).fst_offset + 12 * t.entries.len() + t.names.len();
            &&& run_writer(fs_writer(fs, is_wii), sys, contents, Seq::empty()) == Some(img)
            &&& forall|i: int|
                0 <= i < files.len() ==> stands_at(
                    img,
                    (#[trigger] files[i]).new_offset as int,
                    contents[i],
                )
            &&& files.len() > 0 ==> all_zero(img, table_end, files[0].new_offset as int)
            &&& forall|i: int|
                0 <= i < files.len() - 1 ==> #[trigger] gap_is_zero(img, files[i], files[i + 1])
            &&& img.len() == if files.len() == 0 {
                table_end
            } else {
                files.last().new_offset + files.last().fst.file_size_next_dir_index
            }
        }),
{
    let w = fs_writer(fs, is_wii);
    lemma_can_start(fs, is_wii, sys);
    law_files_apart(fs, is_wii);
    law_writer_image(w, sys, contents);
    lemma_front(fs, is_wii, sys);
    lemma_files_placed(w, sys, contents);
}

/// Whether the bytes between one file and the next are zero.
pub open spec fn gap_is_zero<R>(img: Seq<u8>, f: FileView<R>, g: FileView<R>) -> bool {
    all_zero(
        img,
        f.new_offset + f.fst.file_size_next_dir_index,
        g.new_offset as int,
    )
}

} // verus!
