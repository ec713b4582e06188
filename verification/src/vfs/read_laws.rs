//! What reads and seeks come to, on the fields of a file and the bytes of its source.

use vstd::prelude::*;

use super::file::{new_file, poll_outcome, FileError, FileStep, SeekFrom};
use super::{DataView, FileReadState, FileView};

verus! {

/// How many bytes a read of a file gives into so much room: the smaller of the room
/// and what is left of the file.
pub open spec fn smaller(room: int, left: int) -> int {
    if left < room {
        left
    } else {
        room
    }
}

/// A whole read of a file on a disc. The first poll asks the disc to seek to the
/// reader's place in the file; once the disc is there, the second asks it to fill the
/// start of the buffer with as many bytes as there is room for or as are left. A disc
/// that does so gives the bytes of the file from where the reader stands. Nothing
/// changes meanwhile, and locks play no part.
pub proof fn law_disc_read<R>(
    f: FileView<R>,
    disc: Seq<u8>,
    buf: Seq<u8>,
    seen: Option<Seq<u8>>,
    seen_next: Option<Seq<u8>>,
)
    requires
        f.data is Reader,
        f.state == FileReadState::Seeking,
        f.cursor <= f.fst.file_size_next_dir_index,
        f.fst.file_offset_parent_dir + f.fst.file_size_next_dir_index <= disc.len() <= u64::MAX,
        buf.len() <= usize::MAX,
    ensures
        ({
            let start = f.fst.file_offset_parent_dir + f.cursor;
            let n = smaller(buf.len() as int, f.fst.file_size_next_dir_index - f.cursor);
            let first = poll_outcome(f, buf, seen);
            let g = FileView { state: FileReadState::Reading, ..f };
            let second = poll_outcome(g, buf, seen_next);
            let at = first.0->SeekDisc_0 as int;
            let m = second.0->ReadDisc_0 as int;
            &&& first.0 is SeekDisc
            &&& first.1 == f
            &&& first.2 == buf
            &&& second.0 is ReadDisc
            &&& second.1 == g
            &&& second.2 == buf
            &&& m == n
            &&& at + m <= disc.len()
            &&& disc.subrange(at, at + m) == disc.subrange(start, start + n)
            &&& at == start
        }),
{
}

/// A read of a file on a disc, once the disc has read: the reader has moved by as
/// much, and the next read goes on from there.
pub proof fn law_disc_read_on<R>(f: FileView<R>, n: int)
    requires
        0 <= n,
        f.cursor + n <= u64::MAX,
    ensures
        ({
            let g = f.at(f.cursor + n, FileReadState::Seeking);
            &&& g.cursor == f.cursor + n
            &&& g.state == FileReadState::Seeking
            &&& g.fst == f.fst
            &&& g.data == f.data
            &&& g.new_offset == f.new_offset
        }),
{
}

/// A file keeps everything but the position and the progress of its reader while that
/// moves.
pub proof fn law_reader_moves<R>(f: FileView<R>, cursor: int, state: FileReadState)
    requires
        0 <= cursor <= u64::MAX,
    ensures
        f.at(cursor, state).cursor == cursor,
        f.at(cursor, state).state == state,
        f.at(cursor, state).fst == f.fst,
        f.at(cursor, state).data == f.data,
        f.at(cursor, state).new_offset == f.new_offset,
{
}

/// The first poll of a read of bytes in memory: a reader behind the end is refused and
/// stays, any other one goes on to the copy. The buffer is left alone, and the lock
/// plays no part.
pub proof fn law_memory_read_first<R>(f: FileView<R>, buf: Seq<u8>, seen: Option<Seq<u8>>)
    requires
        !(f.data is Reader),
        f.state == FileReadState::Seeking,
    ensures
        ({
            let (step, g, out) = poll_outcome(f, buf, seen);
            &&& out == buf
            &&& if f.cursor > f.fst.file_size_next_dir_index {
                step == FileStep::<usize>::Failed(FileError::InvalidInput) && g == f
            } else {
                step == FileStep::<usize>::Again && g == (FileView {
                    state: FileReadState::Reading,
                    ..f
                })
            }
        }),
{
}

/// The second poll of a read of bytes in memory. While the lock is held nothing
/// happens. Where the bytes behind it do not reach as far as the read, that is told and
/// nothing happens. Else the start of the buffer is filled with the bytes from where
/// the reader stands, as many as there is room for or as are left; the rest of the
/// buffer stays, and the reader moves by as much.
pub proof fn law_memory_read_second<R>(f: FileView<R>, buf: Seq<u8>, seen: Option<Seq<u8>>)
    requires
        !(f.data is Reader),
        f.state == FileReadState::Reading,
        f.in_range(),
        buf.len() <= usize::MAX,
    ensures
        ({
            let (step, g, out) = poll_outcome(f, buf, seen);
            let left = f.fst.file_size_next_dir_index - f.cursor;
            let n = smaller(buf.len() as int, left);
            match seen {
                None => step == FileStep::<usize>::Held && g == f && out == buf,
                Some(bytes) => if left < 0 || f.cursor + n > bytes.len() {
                    step == FileStep::<usize>::TooShort && g == f && out == buf
                } else {
                    &&& step == FileStep::Ready(n as usize)
                    &&& g.cursor == f.cursor + n
                    &&& g.state == FileReadState::Seeking
                    &&& g.fst == f.fst && g.data == f.data && g.new_offset == f.new_offset
                    &&& out.len() == buf.len()
                    &&& forall|k: int| 0 <= k < n ==> #[trigger] out[k] == bytes[f.cursor + k]
                    &&& forall|k: int| n <= k < buf.len() ==> #[trigger] out[k] == buf[k]
                },
            }
        }),
{
    if let Some(bytes) = seen {
        let left = f.fst.file_size_next_dir_index - f.cursor;
        let n = smaller(buf.len() as int, left);
        if left >= 0 && f.cursor + n <= bytes.len() {
            let out = poll_outcome(f, buf, seen).2;
            assert(out =~= bytes.subrange(f.cursor as int, f.cursor + n) + buf.skip(n));
        }
    }
}

/// A seek leads to the position that is asked for, counted from the start, the end or
/// the current position, and only into the file: not before its start, and no further
/// than its end.
pub proof fn law_seek<R>(f: FileView<R>, pos: SeekFrom, t: int)
    ensures
        (f.seek_target(pos) == Some(t)) <==> {
            &&& 0 <= t <= f.fst.file_size_next_dir_index
            &&& match pos {
                SeekFrom::Start(n) => t == n,
                SeekFrom::End(n) => t - f.fst.file_size_next_dir_index == n,
                SeekFrom::Current(n) => t - f.cursor == n,
            }
        },
        f.seek_target(pos) is None <==> {
            let t = match pos {
                SeekFrom::Start(n) => n as int,
                SeekFrom::End(n) => f.fst.file_size_next_dir_index + n,
                SeekFrom::Current(n) => f.cursor + n,
            };
            t < 0 || t > f.fst.file_size_next_dir_index
        },
{
}

/// A file is in range exactly where no number on the way is too large for a seek: its
/// size and its reader's position, and, on a disc, where it ends and where its reader
/// stands there.
pub proof fn law_in_range<R>(f: FileView<R>)
    ensures
        f.in_range() <==> {
            &&& f.fst.file_size_next_dir_index <= i64::MAX
            &&& f.cursor <= i64::MAX
            &&& f.data is Reader ==> {
                &&& f.fst.file_offset_parent_dir + f.fst.file_size_next_dir_index <= u64::MAX
                &&& f.fst.file_offset_parent_dir + f.cursor <= u64::MAX
            }
        },
{
}

/// A new file has the numbers and the name that it was made with, whatever its data
/// comes from; its reader is at the start, before a seek; and it has no place in an
/// image yet.
pub proof fn law_new_file<R>(
    data: DataView<R>,
    name: Seq<char>,
    offset: usize,
    size: usize,
    name_offset: usize,
)
    ensures
        ({
            let f = new_file(data, name, offset, size, name_offset);
            &&& f.fst.kind == crate::iso::FstNodeType::File
            &&& f.fst.relative_file_name == name
            &&& f.fst.file_offset_parent_dir == offset
            &&& f.fst.file_size_next_dir_index == size
            &&& f.fst.file_name_offset == name_offset
            &&& f.offset() == offset
            &&& f.len() == size
            &&& f.new_offset == 0
            &&& f.cursor == 0
            &&& f.state == FileReadState::Seeking
            &&& f.data == data
        }),
{
}

/// A read of a file's own bytes sees these bytes, or finds the lock held; nothing else.
pub proof fn law_own_bytes_seen<R>(f: FileView<R>, seen: Seq<u8>)
    requires
        f.data is Own,
    ensures
        f.can_see(Some(seen)) <==> seen == f.data->Own_0,
        f.can_see(None),
{
}

} // verus!
