//! What the images of one file system for the two kinds of discs have in common.

use vstd::prelude::*;

use crate::be::{be_bytes, be_value, law_word_round_trip, lemma_words_bytes_at, words_bytes};
use crate::iso::consts::OFFSET_DOL_OFFSET;
use crate::iso::fst::{entry_bytes, entry_words};
use crate::iso::{scale_down, FstEntryView};
use super::image::{
    contents_fit, files_bytes, image, image_front, law_writer_image, run_writer, SystemBytes,
};
use super::parse::block;
use super::reread::lemma_fst_bytes;
use super::round_trip::{lemma_can_start, lemma_front, system_fits};
use super::serialize::{
    files_start, fits, fs_layout, fs_table, fs_writer, fst_bytes, law_files_apart, missing_part,
    patch_header, zeros,
};
use super::FsView;

verus! {

/// Whether byte `p` belongs to a word that the two kinds of discs scale differently:
/// the first two words that are replaced in the header, or the middle word of one of
/// the `n` entries of the table at `fst_offset`.
pub open spec fn in_scaled_word(p: int, fst_offset: int, n: int) -> bool {
    ||| OFFSET_DOL_OFFSET <= p < OFFSET_DOL_OFFSET + 8
    ||| fst_offset <= p < fst_offset + 12 * n && 4 <= (p - fst_offset) % 12 < 8
}

/// Whether the word at `p` is a quarter of the other image's.
pub open spec fn quarter_at(wii: Seq<u8>, cube: Seq<u8>, p: int) -> bool {
    be_value(wii.subrange(p, p + 4)) == be_value(cube.subrange(p, p + 4)) / 4
}

/// Whether two images differ in nothing but the words that the two kinds of discs
/// scale, each of which is in `wii` a quarter of what it is in `cube`.
pub open spec fn differ_in_scale(wii: Seq<u8>, cube: Seq<u8>, fst_offset: int, n: int) -> bool {
    &&& wii.len() == cube.len()
    &&& forall|p: int|
        0 <= p < cube.len() && !in_scaled_word(p, fst_offset, n) ==> #[trigger] wii[p] == cube[p]
    &&& quarter_at(wii, cube, OFFSET_DOL_OFFSET as int)
    &&& quarter_at(wii, cube, OFFSET_DOL_OFFSET + 4)
    &&& forall|i: int|
        0 <= i < n ==> #[trigger] quarter_at(wii, cube, fst_offset + 12 * i + 4)
}

/// A word that is not cut is on the one kind of disc a quarter of what it is on the
/// other.
proof fn lemma_quarter(offset: usize)
    requires
        offset <= u32::MAX,
    ensures
        be_value(be_bytes(scale_down(offset, true))) == be_value(
            be_bytes(scale_down(offset, false)),
        ) / 4,
{
    law_word_round_trip(scale_down(offset, true));
    law_word_round_trip(scale_down(offset, false));
}

/// The bytes of an entry differ in its middle word only.
proof fn lemma_entry_kinds(e: FstEntryView)
    requires
        e.file_offset_parent_dir <= u32::MAX,
    ensures
        entry_bytes(e, true).len() == 12,
        entry_bytes(e, false).len() == 12,
        forall|k: int|
            0 <= k < 12 && !(4 <= k < 8) ==> #[trigger] entry_bytes(e, true)[k] == entry_bytes(
                e,
                false,
            )[k],
        be_value(entry_bytes(e, true).subrange(4, 8)) == be_value(
            entry_bytes(e, false).subrange(4, 8),
        ) / 4,
{
    let a = entry_words(e, true);
    let b = entry_words(e, false);
    lemma_words_bytes_at(a, 1);
    lemma_words_bytes_at(b, 1);
    lemma_quarter(e.file_offset_parent_dir);
    assert forall|k: int| 0 <= k < 12 && !(4 <= k < 8) implies #[trigger] words_bytes(a)[k]
        == words_bytes(b)[k] by {
        assert(a[k / 4] == b[k / 4]);
    }
}

/// The bytes of a table's entries differ in the middle words only.
proof fn lemma_fst_kinds(entries: Seq<FstEntryView>)
    requires
        forall|i: int|
            0 <= i < entries.len() ==> (#[trigger] entries[i]).file_offset_parent_dir <= u32::MAX,
    ensures
        fst_bytes(entries, true).len() == 12 * entries.len(),
        fst_bytes(entries, false).len() == 12 * entries.len(),
        forall|p: int|
            0 <= p < 12 * entries.len() && !(4 <= p % 12 < 8) ==> #[trigger] fst_bytes(
                entries,
                true,
            )[p] == fst_bytes(entries, false)[p],
        forall|i: int|
            0 <= i < entries.len() ==> #[trigger] quarter_at(
                fst_bytes(entries, true),
                fst_bytes(entries, false),
                12 * i + 4,
            ),
{
    let a = fst_bytes(entries, true);
    let b = fst_bytes(entries, false);
    lemma_fst_bytes(entries, true);
    lemma_fst_bytes(entries, false);
    assert forall|p: int|
        0 <= p < 12 * entries.len() && !(4 <= p % 12 < 8) implies #[trigger] a[p] == b[p] by {
        let i = p / 12;
        let k = p % 12;
        lemma_entry_kinds(entries[i]);
        assert(a[p] == block(a, i)[k]);
        assert(b[p] == block(b, i)[k]);
        assert(entry_bytes(entries[i], true)[k] == entry_bytes(entries[i], false)[k]);
    }
    assert forall|i: int| 0 <= i < entries.len() implies #[trigger] quarter_at(
        a,
        b,
        12 * i + 4,
    ) by {
        lemma_entry_kinds(entries[i]);
        assert(a.subrange(12 * i + 4, 12 * i + 8) =~= block(a, i).subrange(4, 8));
        assert(b.subrange(12 * i + 4, 12 * i + 8) =~= block(b, i).subrange(4, 8));
    }
}

/// The words of two headers that differ in their first two words.
proof fn lemma_header_kinds(header: Seq<u8>, a: Seq<u32>, b: Seq<u32>)
    requires
        header.len() >= OFFSET_DOL_OFFSET + 16,
        a.len() == 4,
        b.len() == 4,
        a[2] == b[2],
        a[3] == b[3],
    ensures
        patch_header(header, a).len() == header.len(),
        patch_header(header, b).len() == header.len(),
        forall|p: int|
            0 <= p < header.len() && !(OFFSET_DOL_OFFSET <= p < OFFSET_DOL_OFFSET + 8)
                ==> #[trigger] patch_header(header, a)[p] == patch_header(header, b)[p],
{
    assert forall|k: int| 8 <= k < 16 implies #[trigger] words_bytes(a)[k] == words_bytes(
        b,
    )[k] by {
        assert(a[k / 4] == b[k / 4]);
    }
    let x = patch_header(header, a);
    let y = patch_header(header, b);
    assert forall|p: int|
        0 <= p < header.len() && !(OFFSET_DOL_OFFSET <= p < OFFSET_DOL_OFFSET
            + 8) implies #[trigger] x[p] == y[p] by {
        if OFFSET_DOL_OFFSET <= p < OFFSET_DOL_OFFSET + 16 {
            assert(x[p] == words_bytes(a)[p - OFFSET_DOL_OFFSET]);
            assert(y[p] == words_bytes(b)[p - OFFSET_DOL_OFFSET]);
        }
    }
}

/// Whether no offset in an image is so large that the word for it is cut.
pub open spec fn offsets_uncut<R>(fs: FsView<R>) -> bool {
    let t = fs_table(fs.root, files_start(fs));
    &&& fs_layout(fs).fst_offset <= u32::MAX
    &&& forall|i: int|
        0 <= i < t.entries.len() ==> (#[trigger] t.entries[i]).file_offset_parent_dir <= u32::MAX
}

/// What comes before the files differs in the scaled words only.
#[verifier::rlimit(40)]
proof fn lemma_front_kinds<R>(fs: FsView<R>, sys: SystemBytes)
    requires
        fits(fs),
        missing_part(fs) is None,
        system_fits(fs, sys),
        offsets_uncut(fs),
    ensures
        differ_in_scale(
            image_front(fs_writer(fs, true), sys),
            image_front(fs_writer(fs, false), sys),
            fs_layout(fs).fst_offset,
            fs_table(fs.root, files_start(fs)).entries.len() as int,
        ),
{
    let l = fs_layout(fs);
    let t = fs_table(fs.root, files_start(fs));
    let n = t.entries.len() as int;
    let a = fs_writer(fs, true);
    let b = fs_writer(fs, false);
    let x = image_front(a, sys);
    let y = image_front(b, sys);
    lemma_front(fs, true, sys);
    lemma_front(fs, false, sys);
    lemma_quarter(l.dol_offset as usize);
    lemma_quarter(l.fst_offset as usize);
    lemma_fst_kinds(t.entries);
    lemma_header_kinds(sys.header, a.words, b.words);
    let head_x = patch_header(sys.header, a.words);
    let head_y = patch_header(sys.header, b.words);
    let middle = (sys.apploader + zeros(a.dol_padding as int)) + (sys.dol + zeros(
        a.fst_padding as int,
    ));
    assert(x =~= head_x + middle + a.fst + t.names);
    assert(y =~= head_y + middle + b.fst + t.names);
    assert((head_x + middle).len() == l.fst_offset);
    assert forall|p: int|
        0 <= p < y.len() && !in_scaled_word(p, l.fst_offset, n) implies #[trigger] x[p] == y[p] by {
        if p < sys.header.len() {
            assert(x[p] == head_x[p] && y[p] == head_y[p]);
        } else if l.fst_offset <= p < l.fst_offset + 12 * n {
            assert(x[p] == a.fst[p - l.fst_offset] && y[p] == b.fst[p - l.fst_offset]);
        }
    }
    assert forall|i: int| 0 <= i < n implies #[trigger] quarter_at(
        x,
        y,
        l.fst_offset + 12 * i + 4,
    ) by {
        let p = l.fst_offset + 12 * i + 4;
        assert(quarter_at(a.fst, b.fst, 12 * i + 4));
        assert(x.subrange(p, p + 4) =~= a.fst.subrange(12 * i + 4, 12 * i + 8));
        assert(y.subrange(p, p + 4) =~= b.fst.subrange(12 * i + 4, 12 * i + 8));
    }
}

/// What follows is the same in both images.
proof fn lemma_rest_kinds(
    x: Seq<u8>,
    y: Seq<u8>,
    rest: Seq<u8>,
    fst_offset: int,
    n: int,
)
    requires
        differ_in_scale(x, y, fst_offset, n),
        OFFSET_DOL_OFFSET + 8 <= fst_offset,
        0 <= n,
        fst_offset + 12 * n <= x.len(),
    ensures
        differ_in_scale(x + rest, y + rest, fst_offset, n),
{
    let d = OFFSET_DOL_OFFSET as int;
    let a = x + rest;
    let b = y + rest;
    assert(a.subrange(d, d + 4) =~= x.subrange(d, d + 4));
    assert(b.subrange(d, d + 4) =~= y.subrange(d, d + 4));
    assert(a.subrange(d + 4, d + 8) =~= x.subrange(d + 4, d + 8));
    assert(b.subrange(d + 4, d + 8) =~= y.subrange(d + 4, d + 8));
    assert forall|p: int|
        0 <= p < b.len() && !in_scaled_word(p, fst_offset, n) implies #[trigger] a[p] == b[p] by {
        if p < x.len() {
            assert(x[p] == y[p]);
        }
    }
    assert forall|i: int| 0 <= i < n implies #[trigger] quarter_at(
        a,
        b,
        fst_offset + 12 * i + 4,
    ) by {
        let p = fst_offset + 12 * i + 4;
        assert(quarter_at(x, y, p));
        assert(a.subrange(p, p + 4) =~= x.subrange(p, p + 4));
        assert(b.subrange(p, p + 4) =~= y.subrange(p, p + 4));
    }
}

/// The images of one file system for the two kinds of discs are equally long and
/// differ only in the words that hold offsets: where the main program and the table
/// start, and the middle word of each entry. Each of these is on a Wii disc a quarter
/// of what it is on the other. The length of the table, the sizes, the next indices,
/// the name offsets, the names and the contents are the same.
///
/// Offsets that are cut to 32 bits on one of the discs are left out.
#[verifier::rlimit(40)]
pub proof fn law_disc_kinds<R>(fs: FsView<R>, sys: SystemBytes, contents: Seq<Seq<u8>>)
    requires
        fits(fs),
        missing_part(fs) is None,
        system_fits(fs, sys),
        contents_fit(fs_writer(fs, false).files, contents),
        offsets_uncut(fs),
    ensures
        ({
            let wii = image(fs_writer(fs, true), sys, contents);
            let cube = image(fs_writer(fs, false), sys, contents);
            &&& run_writer(fs_writer(fs, true), sys, contents, Seq::empty()) == Some(wii)
            &&& run_writer(fs_writer(fs, false), sys, contents, Seq::empty()) == Some(cube)
            &&& differ_in_scale(
                wii,
                cube,
                fs_layout(fs).fst_offset,
                fs_table(fs.root, files_start(fs)).entries.len() as int,
            )
        }),
{
    let a = fs_writer(fs, true);
    let b = fs_writer(fs, false);
    let x = image_front(a, sys);
    let y = image_front(b, sys);
    assert(a.files == b.files);
    lemma_can_start(fs, true, sys);
    lemma_can_start(fs, false, sys);
    law_files_apart(fs, true);
    law_files_apart(fs, false);
    law_writer_image(a, sys, contents);
    law_writer_image(b, sys, contents);
    lemma_front(fs, true, sys);
    lemma_front_kinds(fs, sys);
    let rest = files_bytes(b.files, contents, b.files.len() as int, y.len() as int);
    lemma_rest_kinds(
        x,
        y,
        rest,
        fs_layout(fs).fst_offset,
        fs_table(fs.root, files_start(fs)).entries.len() as int,
    );
}

} // verus!
