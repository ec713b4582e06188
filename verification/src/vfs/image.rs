//! The image that a writer makes, as one sequence of bytes.

use vstd::prelude::*;

use crate::iso::consts::OFFSET_DOL_OFFSET;
use super::serialize::{
    lemma_after_wf, lemma_at_file_wf, patch_header, zeros, SystemFile, WriteNeed, WriteStage,
    WriterView,
};
use super::table::stored_end;
use super::FileView;

verus! {

/// The bytes of the files that the system itself needs.
pub struct SystemBytes {
    pub header: Seq<u8>,
    pub apploader: Seq<u8>,
    pub dol: Seq<u8>,
}

impl SystemBytes {
    /// The bytes of one of the files.
    pub open spec fn part(self, part: SystemFile) -> Seq<u8> {
        match part {
            SystemFile::Header => self.header,
            SystemFile::AppLoader => self.apploader,
            SystemFile::Dol => self.dol,
        }
    }
}

/// The first `n` files of an image, with the zeros before each, from `from` on.
pub open spec fn files_bytes<R>(
    files: Seq<FileView<R>>,
    contents: Seq<Seq<u8>>,
    n: int,
    from: int,
) -> Seq<u8>
    decreases n,
{
    if n <= 0 {
        Seq::empty()
    } else {
        files_bytes(files, contents, n - 1, from) + zeros(
            files[n - 1].new_offset - stored_end(files, n - 1, from),
        ) + contents[n - 1]
    }
}

/// What comes before the files: the files of the system and the table.
pub open spec fn image_front<R>(w: WriterView<R>, sys: SystemBytes) -> Seq<u8> {
    patch_header(sys.header, w.words) + (sys.apploader + zeros(w.dol_padding as int)) + (sys.dol
        + zeros(w.fst_padding as int)) + (w.fst + w.names)
}

/// The image that a writer makes of the bytes of the files.
pub open spec fn image<R>(w: WriterView<R>, sys: SystemBytes, contents: Seq<Seq<u8>>) -> Seq<u8> {
    let front = image_front(w, sys);
    front + files_bytes(w.files, contents, w.files.len() as int, front.len() as int)
}

/// Whether the files have the bytes that their sizes promise.
pub open spec fn contents_fit<R>(files: Seq<FileView<R>>, contents: Seq<Seq<u8>>) -> bool {
    &&& contents.len() == files.len()
    &&& forall|i: int| 0 <= i < files.len() ==> (#[trigger] contents[i]).len() == files[i].len()
}

/// How far a writer is from its end, file by file.
pub open spec fn files_left<R>(w: WriterView<R>) -> int {
    let n = w.files.len() as int;
    match w.stage {
        WriteStage::System(SystemFile::Header) => n + 6,
        WriteStage::System(SystemFile::AppLoader) => n + 5,
        WriteStage::System(SystemFile::Dol) => n + 4,
        WriteStage::Table => n + 3,
        WriteStage::Position => n + 2,
        WriteStage::Pad(i) => n - i,
        WriteStage::Copy(i, _) => n - i,
        WriteStage::Finished => 0,
    }
}

/// How far a writer is from the end of its file.
pub open spec fn bytes_left<R>(w: WriterView<R>) -> int {
    match w.stage {
        WriteStage::Pad(i) => w.files[i as int].len() + 1,
        WriteStage::Copy(_, left) => left as int,
        _ => 0,
    }
}

/// The bytes that a writer is handed in its stage: what is left of a file of the
/// system, or the next piece of a file.
pub open spec fn next_input<R>(
    w: WriterView<R>,
    sys: SystemBytes,
    contents: Seq<Seq<u8>>,
) -> Seq<u8> {
    match w.need() {
        WriteNeed::System(part) => sys.part(part),
        WriteNeed::File { index, len } => {
            let done = w.files[index as int].len() - w.stage->Copy_1;
            contents[index as int].subrange(done, done + len)
        },
        _ => Seq::empty(),
    }
}

/// All that a writer has written at its end, where it has written `written` so far
/// and is handed what it needs each time. There is nothing where it refuses what
/// it is handed.
#[verifier::opaque]
pub open spec fn run_writer<R>(
    w: WriterView<R>,
    sys: SystemBytes,
    contents: Seq<Seq<u8>>,
    written: Seq<u8>,
) -> Option<Seq<u8>>
    decreases files_left(w), bytes_left(w),
{
    if !w.wf() || w.files.len() > usize::MAX {
        None
    } else {
        let input = next_input(w, sys, contents);
        match w.need() {
            WriteNeed::Finished => Some(written),
            WriteNeed::Position => if written.len() <= u64::MAX && w.can_start(
                written.len() as u64,
            ) {
                run_writer(w.at_file(0, written.len() as int), sys, contents, written)
            } else {
                None
            },
            _ => if w.takes(input.len() as int) {
                run_writer(
                    w.after(input.len() as int),
                    sys,
                    contents,
                    written + w.output(input),
                )
            } else {
                None
            },
        }
    }
}

/// The files of an image end where the last one ends.
pub(crate) proof fn lemma_files_bytes_len<R>(
    files: Seq<FileView<R>>,
    contents: Seq<Seq<u8>>,
    n: int,
    from: int,
)
    requires
        contents_fit(files, contents),
        0 <= n <= files.len(),
        files.len() > 0 ==> from <= files[0].new_offset,
        forall|i: int|
            0 < i < files.len() ==> stored_end(files, i, from) <= (
            #[trigger] files[i]).new_offset,
    ensures
        files_bytes(files, contents, n, from).len() == stored_end(files, n, from) - from,
    decreases n,
{
    if n > 0 {
        lemma_files_bytes_len(files, contents, n - 1, from);
        assert(contents[n - 1].len() == files[n - 1].len());
        assert(stored_end(files, n - 1, from) <= files[n - 1].new_offset);
    }
}

/// File `i` of an image stands at its place.
pub(crate) proof fn lemma_files_bytes_at<R>(
    files: Seq<FileView<R>>,
    contents: Seq<Seq<u8>>,
    n: int,
    from: int,
    i: int,
)
    requires
        contents_fit(files, contents),
        0 <= i < n <= files.len(),
        files.len() > 0 ==> from <= files[0].new_offset,
        forall|i: int|
            0 < i < files.len() ==> stored_end(files, i, from) <= (
            #[trigger] files[i]).new_offset,
    ensures
        ({
            let bytes = files_bytes(files, contents, n, from);
            let at = files[i].new_offset - from;
            &&& 0 <= at
            &&& at + files[i].len() <= bytes.len()
            &&& bytes.subrange(at, at + files[i].len()) == contents[i]
        }),
    decreases n,
{
    lemma_files_bytes_len(files, contents, n, from);
    lemma_files_bytes_len(files, contents, n - 1, from);
    let bytes = files_bytes(files, contents, n, from);
    let before = files_bytes(files, contents, n - 1, from);
    let at = files[i].new_offset - from;
    assert(contents[n - 1].len() == files[n - 1].len());
    assert(stored_end(files, n - 1, from) <= files[n - 1].new_offset);
    if i == n - 1 {
        assert(bytes.subrange(at, at + files[i].len()) =~= contents[i]);
    } else {
        lemma_files_bytes_at(files, contents, n - 1, from, i);
        assert(bytes.subrange(at, at + files[i].len()) =~= before.subrange(
            at,
            at + files[i].len(),
        ));
    }
}

/// Every file of an image stands at its place there, with its contents.
pub proof fn law_image_contents<R>(
    w: WriterView<R>,
    sys: SystemBytes,
    contents: Seq<Seq<u8>>,
    i: int,
)
    requires
        w.wf(),
        contents_fit(w.files, contents),
        0 <= i < w.files.len(),
        image_front(w, sys).len() <= w.files[0].new_offset,
    ensures
        w.files[i].new_offset + w.files[i].len() <= image(w, sys, contents).len(),
        image(w, sys, contents).subrange(
            w.files[i].new_offset as int,
            w.files[i].new_offset + w.files[i].len(),
        ) == contents[i],
{
    let from = image_front(w, sys).len() as int;
    let n = w.files.len() as int;
    assert forall|k: int| 0 < k < w.files.len() implies stored_end(w.files, k, from) <= (
    #[trigger] w.files[k]).new_offset by {
        assert(w.end_of_file(k - 1) <= w.files[k].new_offset);
    }
    lemma_files_bytes_at(w.files, contents, n, from, i);
    let bytes = files_bytes(w.files, contents, n, from);
    let f = w.files[i];
    let at = f.new_offset - from;
    assert(image(w, sys, contents).subrange(f.new_offset as int, f.new_offset + f.len())
        =~= bytes.subrange(at, at + f.len()));
}

/// A writer that is handed what it needs goes on.
proof fn lemma_run_supply<R>(
    w: WriterView<R>,
    sys: SystemBytes,
    contents: Seq<Seq<u8>>,
    written: Seq<u8>,
)
    requires
        w.wf(),
        w.files.len() <= usize::MAX,
        w.takes(next_input(w, sys, contents).len() as int),
    ensures
        ({
            let input = next_input(w, sys, contents);
            run_writer(w, sys, contents, written) == run_writer(
                w.after(input.len() as int),
                sys,
                contents,
                written + w.output(input),
            )
        }),
{
    reveal(run_writer);
}

/// A writer that learns where the image stands goes on with the files.
proof fn lemma_run_position<R>(
    w: WriterView<R>,
    sys: SystemBytes,
    contents: Seq<Seq<u8>>,
    written: Seq<u8>,
)
    requires
        w.wf(),
        w.files.len() <= usize::MAX,
        w.stage == WriteStage::Position,
        written.len() <= u64::MAX,
        w.can_start(written.len() as u64),
    ensures
        run_writer(w, sys, contents, written) == run_writer(
            w.at_file(0, written.len() as int),
            sys,
            contents,
            written,
        ),
{
    reveal(run_writer);
}

/// A writer that is finished has written what it has written.
proof fn lemma_run_finished<R>(
    w: WriterView<R>,
    sys: SystemBytes,
    contents: Seq<Seq<u8>>,
    written: Seq<u8>,
)
    requires
        w.wf(),
        w.files.len() <= usize::MAX,
        w.stage == WriteStage::Finished,
    ensures
        run_writer(w, sys, contents, written) == Some(written),
{
    reveal(run_writer);
}

/// A file is copied piece by piece.
#[verifier::rlimit(40)]
proof fn lemma_run_copy<R>(
    w: WriterView<R>,
    sys: SystemBytes,
    contents: Seq<Seq<u8>>,
    written: Seq<u8>,
    i: int,
    left: int,
)
    requires
        w.wf(),
        w.files.len() <= usize::MAX,
        contents_fit(w.files, contents),
        0 <= i < w.files.len(),
        w.stage == WriteStage::Copy(i as usize, left as usize),
        0 < left <= w.files[i].len(),
    ensures
        run_writer(w, sys, contents, written) == run_writer(
            w.at_file(i + 1, w.end_of_file(i)),
            sys,
            contents,
            written + contents[i].skip(w.files[i].len() - left),
        ),
    decreases left,
{
    let input = next_input(w, sys, contents);
    let done = w.files[i].len() - left;
    assert(contents[i].len() == w.files[i].len());
    lemma_after_wf(w, input.len() as int);
    lemma_run_supply(w, sys, contents, written);
    let n = input.len() as int;
    if n >= left {
        assert(input =~= contents[i].skip(done));
    } else {
        let next = w.after(n);
        lemma_run_copy(next, sys, contents, written + input, i, left - n);
        assert(next.at_file(i + 1, next.end_of_file(i)) == w.at_file(i + 1, w.end_of_file(i)));
        assert(written + input + contents[i].skip(done + n) =~= written + contents[i].skip(done));
    }
}

/// A file is written with the zeros before it.
#[verifier::rlimit(40)]
proof fn lemma_run_file<R>(
    w: WriterView<R>,
    sys: SystemBytes,
    contents: Seq<Seq<u8>>,
    written: Seq<u8>,
    i: int,
)
    requires
        w.wf(),
        w.files.len() <= usize::MAX,
        contents_fit(w.files, contents),
        0 <= i < w.files.len(),
        w.stage == WriteStage::Pad(i as usize),
    ensures
        w.at_file(i + 1, w.end_of_file(i)).wf(),
        run_writer(w, sys, contents, written) == run_writer(
            w.at_file(i + 1, w.end_of_file(i)),
            sys,
            contents,
            written + zeros(w.files[i].new_offset - w.position) + contents[i],
        ),
{
    let gap = w.files[i].new_offset - w.position;
    let padded = w.after(0);
    let next = w.at_file(i + 1, w.end_of_file(i));
    assert(next_input(w, sys, contents) == Seq::<u8>::empty());
    lemma_after_wf(w, 0);
    lemma_run_supply(w, sys, contents, written);
    assert(w.end_of_file(i) <= u64::MAX);
    if i + 1 < w.files.len() {
        assert(w.end_of_file(i) <= w.files[i + 1].new_offset);
    }
    lemma_at_file_wf(w, i + 1, w.end_of_file(i));
    assert(contents[i].len() == w.files[i].len());
    if w.files[i].len() == 0 {
        assert(written + zeros(gap) + contents[i] =~= written + zeros(gap));
    } else {
        let len = w.files[i].len() as int;
        lemma_run_copy(padded, sys, contents, written + zeros(gap), i, len);
        assert(contents[i].skip(0) =~= contents[i]);
        assert(padded.at_file(i + 1, padded.end_of_file(i)) == next);
    }
}

proof fn lemma_join(a: Seq<u8>, b: Seq<u8>, c: Seq<u8>, d: Seq<u8>)
    ensures
        a + b + c + d == a + (b + c + d),
{
    assert(a + b + c + d =~= a + (b + c + d));
}

/// The files are written one after the other.
#[verifier::rlimit(40)]
proof fn lemma_run_files<R>(
    w: WriterView<R>,
    sys: SystemBytes,
    contents: Seq<Seq<u8>>,
    front: Seq<u8>,
    i: int,
)
    requires
        w.wf(),
        w.files.len() <= usize::MAX,
        contents_fit(w.files, contents),
        0 <= i <= w.files.len(),
        w.position == stored_end(w.files, i, front.len() as int),
        w.stage == if i < w.files.len() {
            WriteStage::Pad(i as usize)
        } else {
            WriteStage::Finished
        },
    ensures
        run_writer(
            w,
            sys,
            contents,
            front + files_bytes(w.files, contents, i, front.len() as int),
        ) == Some(
            front + files_bytes(w.files, contents, w.files.len() as int, front.len() as int),
        ),
    decreases w.files.len() - i,
{
    let from = front.len() as int;
    let before = files_bytes(w.files, contents, i, from);
    if i < w.files.len() {
        let next = w.at_file(i + 1, w.end_of_file(i));
        assert(w.end_of_file(i) <= u64::MAX);
        lemma_run_file(w, sys, contents, front + before, i);
        lemma_join(front, before, zeros(w.files[i].new_offset - w.position), contents[i]);
        assert(next.position == stored_end(next.files, i + 1, from));
        lemma_run_files(next, sys, contents, front, i + 1);
    } else {
        lemma_run_finished(w, sys, contents, front + before);
    }
}

/// A writer that is handed what it needs each time writes the image.
#[verifier::rlimit(40)]
pub proof fn law_writer_image<R>(w: WriterView<R>, sys: SystemBytes, contents: Seq<Seq<u8>>)
    requires
        w.wf(),
        w.files.len() <= usize::MAX,
        w.stage == WriteStage::System(SystemFile::Header),
        sys.header.len() >= OFFSET_DOL_OFFSET + 16,
        contents_fit(w.files, contents),
        image_front(w, sys).len() <= u64::MAX,
        w.can_start(image_front(w, sys).len() as u64),
    ensures
        run_writer(w, sys, contents, Seq::empty()) == Some(image(w, sys, contents)),
{
    let none = Seq::<u8>::empty();
    let a = w.after(sys.header.len() as int);
    let b = a.after(sys.apploader.len() as int);
    let c = b.after(sys.dol.len() as int);
    let d = c.after(0);
    lemma_after_wf(w, sys.header.len() as int);
    lemma_after_wf(a, sys.apploader.len() as int);
    lemma_after_wf(b, sys.dol.len() as int);
    lemma_after_wf(c, 0);
    let out1 = none + patch_header(sys.header, w.words);
    let out2 = out1 + (sys.apploader + zeros(w.dol_padding as int));
    let out3 = out2 + (sys.dol + zeros(w.fst_padding as int));
    let out4 = out3 + (w.fst + w.names);
    let front = image_front(w, sys);
    assert(out1 =~= patch_header(sys.header, w.words));
    assert(out4 == front);
    lemma_run_supply(w, sys, contents, none);
    lemma_run_supply(a, sys, contents, out1);
    lemma_run_supply(b, sys, contents, out2);
    lemma_run_supply(c, sys, contents, out3);
    let e = d.at_file(0, front.len() as int);
    lemma_run_position(d, sys, contents, front);
    lemma_at_file_wf(d, 0, front.len() as int);
    lemma_run_files(e, sys, contents, front, 0);
    assert(front + files_bytes(e.files, contents, 0, front.len() as int) =~= front);
}

} // verus!
