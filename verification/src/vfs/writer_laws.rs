//! What a writer needs and writes, step by step.

use vstd::prelude::*;

use crate::be::{be_value, law_word_round_trip, lemma_words_bytes_at, words_bytes};
use crate::iso::{law_align_up, lemma_alignments};
use super::image_laws::{all_zero, stands_at, word_at};
use super::read_laws::smaller;
use super::serialize::{
    files_start, fits, fs_layout, patch_header, system_part, total_len, SystemFile, WriteNeed,
    WriteStage, WriterView,
};
use super::table_laws::law_end_bounded;
use super::tree::{all_files, node_fst_len, resolve};
use super::{FsView, NodeView};

verus! {

/// What a writer writes of a header: the header, with four words replaced. The header
/// has to be long enough for them.
#[verifier::rlimit(40)]
pub proof fn law_header_written<R>(w: WriterView<R>, bytes: Seq<u8>)
    requires
        w.wf(),
        w.stage == WriteStage::System(SystemFile::Header),
    ensures
        w.need() == WriteNeed::System(SystemFile::Header),
        w.takes(bytes.len() as int) <==> bytes.len() >= 0x430,
        w.after(bytes.len() as int) == (WriterView {
            stage: WriteStage::System(SystemFile::AppLoader),
            ..w
        }),
        bytes.len() >= 0x430 ==> {
            let out = w.output(bytes);
            &&& out.len() == bytes.len()
            &&& forall|p: int|
                0 <= p < bytes.len() && !(0x420 <= p < 0x430) ==> #[trigger] out[p] == bytes[p]
            &&& word_at(out, 0x420) == w.words[0]
            &&& word_at(out, 0x424) == w.words[1]
            &&& word_at(out, 0x428) == w.words[2]
            &&& word_at(out, 0x42C) == w.words[3]
        },
{
    if bytes.len() >= 0x430 {
        let out = w.output(bytes);
        let words = words_bytes(w.words);
        assert(out == patch_header(bytes, w.words));
        assert forall|k: int| 0 <= k < 4 implies word_at(out, 0x420 + 4 * k)
            == #[trigger] w.words[k] by {
            lemma_words_bytes_at(w.words, k);
            law_word_round_trip(w.words[k]);
            let p = 0x420 + 4 * k;
            let s = words.subrange(4 * k, 4 * k + 4);
            assert(out[p] == s[0] && out[p + 1] == s[1] && out[p + 2] == s[2] && out[p + 3]
                == s[3]);
            assert(be_value(s) == word_at(out, p));
        }
    }
}

/// What a writer writes of the loader and of the main program: all of it, and the zeros
/// that bring the next part to its place.
pub proof fn law_parts_written<R>(w: WriterView<R>, bytes: Seq<u8>)
    ensures
        w.stage == WriteStage::System(SystemFile::AppLoader) ==> {
            let out = w.output(bytes);
            &&& w.need() == WriteNeed::System(SystemFile::AppLoader)
            &&& w.takes(bytes.len() as int)
            &&& out.len() == bytes.len() + w.dol_padding
            &&& stands_at(out, 0, bytes)
            &&& all_zero(out, bytes.len() as int, out.len() as int)
            &&& w.after(bytes.len() as int) == (WriterView {
                stage: WriteStage::System(SystemFile::Dol),
                ..w
            })
        },
        w.stage == WriteStage::System(SystemFile::Dol) ==> {
            let out = w.output(bytes);
            &&& w.need() == WriteNeed::System(SystemFile::Dol)
            &&& w.takes(bytes.len() as int)
            &&& out.len() == bytes.len() + w.fst_padding
            &&& stands_at(out, 0, bytes)
            &&& all_zero(out, bytes.len() as int, out.len() as int)
            &&& w.after(bytes.len() as int) == (WriterView { stage: WriteStage::Table, ..w })
        },
        w.stage == WriteStage::Table ==> {
            &&& w.need() == WriteNeed::Table
            &&& w.takes(0)
            &&& w.output(Seq::empty()) == w.fst + w.names
            &&& w.after(0) == (WriterView { stage: WriteStage::Position, ..w })
        },
        w.stage == WriteStage::Position ==> w.need() == WriteNeed::Position,
        w.stage == WriteStage::Finished ==> w.need() == WriteNeed::Finished,
{
}

/// What a writer writes of a file: the zeros up to its place, and then its bytes, in
/// pieces of a mebibyte and one that may be smaller. After the last piece the image
/// stands where the file ends, and the next file is on, if there is one.
#[verifier::rlimit(40)]
pub proof fn law_file_written<R>(w: WriterView<R>, i: int, left: int, bytes: Seq<u8>)
    requires
        w.wf(),
        w.files.len() < usize::MAX,
        0 <= i < w.files.len(),
    ensures
        w.stage == WriteStage::Pad(i as usize) ==> {
            let out = w.output(Seq::empty());
            &&& w.need() == (WriteNeed::Padding { index: i as usize })
            &&& w.takes(0)
            &&& out.len() == w.files[i].new_offset - w.position
            &&& all_zero(out, 0, out.len() as int)
            &&& w.files[i].fst.file_size_next_dir_index > 0 ==> w.after(0).stage
                == WriteStage::Copy(i as usize, w.files[i].fst.file_size_next_dir_index)
            &&& w.files[i].fst.file_size_next_dir_index == 0 ==> file_done(w, w.after(0), i)
        },
        w.stage == WriteStage::Copy(i as usize, left as usize) && 0 <= left <= usize::MAX ==> {
            let n = smaller(0x10_0000, left);
            &&& w.need() == (WriteNeed::File { index: i as usize, len: n as usize })
            &&& w.takes(bytes.len() as int) <==> bytes.len() == n
            &&& w.output(bytes) == bytes
            &&& n < left ==> w.after(n) == (WriterView {
                stage: WriteStage::Copy(i as usize, (left - n) as usize),
                ..w
            })
            &&& n == left ==> file_done(w, w.after(n), i)
        },
{
}

/// Whether `v` is the writer `w` after file `i`.
pub open spec fn file_done<R>(w: WriterView<R>, v: WriterView<R>, i: int) -> bool {
    &&& v.position == w.files[i].new_offset + w.files[i].fst.file_size_next_dir_index
    &&& v.files == w.files
    &&& v.stage == if i + 1 < w.files.len() {
        WriteStage::Pad((i + 1) as usize)
    } else {
        WriteStage::Finished
    }
}

/// A writer can go on to the files from any position up to the first file's place, and
/// starts with the zeros before it.
pub proof fn law_files_begun<R>(w: WriterView<R>, position: u64)
    ensures
        w.files.len() == 0 ==> w.can_start(position),
        w.files.len() > 0 ==> (w.can_start(position) <==> position <= w.files[0].new_offset
            && w.files[0].new_offset - position <= usize::MAX),
        w.at_file(0, position as int) == (WriterView {
            stage: if w.files.len() == 0 {
                WriteStage::Finished
            } else {
                WriteStage::Pad(0)
            },
            position,
            ..w
        }),
{
}

/// A file system fits if all its sizes together, with some room for each file and each
/// part, are a number of this machine. It fits as well if a part is missing, since then
/// there is no image.
pub proof fn law_fits<R>(fs: FsView<R>)
    requires
        ({
            let header = resolve(fs.system, "iso.hdr"@);
            let loader = resolve(fs.system, "AppLoader.ldr"@);
            let program = resolve(fs.system, "Start.dol"@);
            let front = header->0.fst.file_size_next_dir_index
                + loader->0.fst.file_size_next_dir_index + 1024;
            let parts = front + program->0.fst.file_size_next_dir_index + 256 + node_fst_len(
                NodeView::Directory(fs.root),
            );
            let files = all_files(fs.root.children);
            ||| header is None
            ||| loader is None
            ||| program is None && front <= usize::MAX
            ||| parts <= usize::MAX && parts + total_len(files) + 34 * files.len() <= u64::MAX
        }),
    ensures
        fits(fs),
{
    let l = fs_layout(fs);
    lemma_alignments();
    law_align_up(
        system_part(fs, "iso.hdr"@)->0.len() + system_part(fs, "AppLoader.ldr"@)->0.len(),
        10,
    );
    law_align_up(l.dol_offset + system_part(fs, "Start.dol"@)->0.len(), 8);
    law_end_bounded(fs.root.children, files_start(fs));
}

} // verus!
