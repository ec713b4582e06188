//! Files: their data, and the steps by which a reader moves through it.
//!
//! A file that lies on a disc cannot be read by the library itself. Its steps say
//! what to ask of the disc, and take the disc's reply.

use async_std::sync::Mutex;
use std::sync::Arc;
use vstd::prelude::*;

use crate::iso::{FstEntry, FstEntryView, FstNodeType};
use super::lock::{guarded, new_lock, try_lock};
use super::{DataView, File, FileData, FileDataSource, FileReadState, FileState, FileView};

verus! {

/// Where to move the position of a file's reader.
#[derive(Debug, Clone, Copy)]
pub enum SeekFrom {
    /// This many bytes after the start.
    Start(u64),
    /// This many bytes after the end.
    End(i64),
    /// This many bytes after the current position.
    Current(i64),
}

/// Why a file refuses a seek or a read.
#[derive(Debug, Clone, Copy, PartialEq, Eq, Structural)]
pub enum FileError {
    /// The position asked for lies outside the file.
    OutOfRange,
    /// The reader stands behind the end of the file.
    InvalidInput,
}

/// What a file needs next, or what it has come to.
#[derive(Debug)]
pub enum FileStep<T> {
    /// It is done, with this result.
    Ready(T),
    /// It is refused.
    Failed(FileError),
    /// The file has moved on and wants to be polled again.
    Again,
    /// Something else holds the bytes of the file. Nobody will wake the reader.
    Held,
    /// There are fewer bytes in memory than the file's size promises.
    TooShort,
    /// The disc has to seek to this byte.
    SeekDisc(u64),
    /// The disc has to fill this many bytes at the start of the buffer.
    ReadDisc(usize),
}

/// What the disc answers to a seek or a read.
#[derive(Debug)]
pub enum DiscReply<T> {
    /// Something else holds the disc.
    Busy,
    /// The disc is at work.
    Pending,
    /// The disc reports an error.
    Failed,
    /// The disc is done, with this result.
    Done(T),
}

/// What a reader is told after the disc has answered.
#[derive(Debug)]
pub enum FilePoll<T> {
    /// It is done, with this result.
    Ready(T),
    /// The disc's error is handed on.
    Failed,
    /// It has to wait. Where `wake` is set, nobody else will wake it.
    Pending { wake: bool },
}

impl FileError {
    /// The text of the error.
    pub fn message(&self) -> (text: &'static str)
        ensures
            text@ == match *self {
                FileError::OutOfRange => "Index out of range"@,
                FileError::InvalidInput => "invalid input parameter"@,
            },
    {
        match self {
            FileError::OutOfRange => "Index out of range",
            FileError::InvalidInput => "invalid input parameter",
        }
    }
}

/// A new file: its entry is that of a file, and its reader is at the start.
pub open spec fn new_file<R>(
    data: DataView<R>,
    name: Seq<char>,
    offset: usize,
    size: usize,
    name_offset: usize,
) -> FileView<R> {
    FileView {
        fst: FstEntryView {
            kind: FstNodeType::File,
            relative_file_name: name,
            file_offset_parent_dir: offset,
            file_size_next_dir_index: size,
            file_name_offset: name_offset,
        },
        new_offset: 0,
        cursor: 0,
        state: FileReadState::Seeking,
        data,
    }
}

impl<R> FileView<R> {
    /// The size of the file.
    pub open spec fn len(self) -> usize {
        self.fst.file_size_next_dir_index
    }

    /// Where the file starts on its disc.
    pub open spec fn offset(self) -> usize {
        self.fst.file_offset_parent_dir
    }

    /// Whether every position in the file, and on the disc for a file that lies
    /// there, is a number that a seek can express.
    pub open spec fn in_range(self) -> bool {
        &&& self.len() <= i64::MAX
        &&& self.cursor <= i64::MAX
        &&& self.data is Reader ==> self.offset() + self.len() <= u64::MAX && self.offset()
            + self.cursor <= u64::MAX
    }

    /// The position that a seek leads to, unless it lies outside the file.
    pub open spec fn seek_target(self, pos: SeekFrom) -> Option<int> {
        let target = match pos {
            SeekFrom::Start(n) => n as int,
            SeekFrom::End(n) => self.len() + n,
            SeekFrom::Current(n) => self.cursor + n,
        };
        if 0 <= target <= self.len() {
            Some(target)
        } else {
            None
        }
    }

    /// How much of a buffer of `room` bytes a read may fill: no more than what is
    /// left of the file, unless the reader stands behind its end.
    pub open spec fn read_len(self, room: int) -> int {
        if self.cursor <= self.len() && self.len() - self.cursor < room {
            self.len() - self.cursor
        } else {
            room
        }
    }

    /// Whether the next step of a read copies bytes in memory.
    pub open spec fn copies(self) -> bool {
        !(self.data is Reader) && self.state == FileReadState::Reading
    }

    /// Whether a read into `room` bytes finds the bytes that it copies among
    /// `available` ones, if it copies any.
    pub open spec fn can_copy(self, room: int, available: int) -> bool {
        self.copies() ==> self.cursor <= self.len() && self.cursor + self.read_len(room)
            <= available
    }

    /// Whether a read can find these bytes behind its lock, or, for `None`, find the
    /// lock held. Bytes of its own are always the same; others can be anything.
    pub open spec fn can_see(self, seen: Option<Seq<u8>>) -> bool {
        self.data matches DataView::Own(bytes, _) ==> seen is Some ==> seen == Some(bytes)
    }

    /// The file with its reader moved.
    pub open spec fn at(self, cursor: int, state: FileReadState) -> FileView<R> {
        FileView { cursor: cursor as u64, state, ..self }
    }
}

/// What a read of `room` bytes gives from a file whose bytes start at `base` in
/// `source`: at 0 in its own bytes, at its offset on a disc.
pub open spec fn piece<R>(f: FileView<R>, source: Seq<u8>, base: int, room: int) -> Seq<u8> {
    source.subrange(base + f.cursor, base + f.cursor + f.read_len(room))
}

/// The file after a read of `room` bytes that filled all it could.
pub open spec fn after_read<R>(f: FileView<R>, room: int) -> FileView<R> {
    f.at(f.cursor + f.read_len(room), FileReadState::Seeking)
}

/// What the next step of a read into `buf` gives: the step, the file and the buffer.
/// Where bytes in memory are to be copied, `seen` is what stands behind their lock,
/// or `None` where the lock is held; then nothing happens.
pub open spec fn read_outcome<R>(f: FileView<R>, buf: Seq<u8>, seen: Option<Seq<u8>>) -> (
    FileStep<usize>,
    FileView<R>,
    Seq<u8>,
) {
    let room = buf.len() as int;
    let n = f.read_len(room);
    match (f.state, f.data) {
        (FileReadState::Seeking, DataView::Reader(_)) => (
            FileStep::SeekDisc((f.offset() + f.cursor) as u64),
            f,
            buf,
        ),
        (FileReadState::Seeking, _) => if f.cursor > f.len() {
            (FileStep::Failed(FileError::InvalidInput), f, buf)
        } else {
            (FileStep::Again, f.at(f.cursor as int, FileReadState::Reading), buf)
        },
        (FileReadState::Reading, DataView::Reader(_)) => (FileStep::ReadDisc(n as usize), f, buf),
        (FileReadState::Reading, _) => match seen {
            Some(bytes) => (
                FileStep::Ready(n as usize),
                after_read(f, room),
                piece(f, bytes, 0, room) + buf.skip(n),
            ),
            None => (FileStep::Held, f, buf),
        },
    }
}

/// What a poll for a read into `buf` gives, where `seen` is what stands behind the
/// lock: the next step, unless there are too few bytes to copy.
pub open spec fn poll_outcome<R>(f: FileView<R>, buf: Seq<u8>, seen: Option<Seq<u8>>) -> (
    FileStep<usize>,
    FileView<R>,
    Seq<u8>,
) {
    if seen is Some && !f.can_copy(buf.len() as int, seen->0.len() as int) {
        (FileStep::TooShort, f, buf)
    } else {
        read_outcome(f, buf, seen)
    }
}

/// A lock that is held holds a read up and changes nothing: once the lock is free,
/// the read gives what it would have given. Reads from a disc, and steps before the
/// copy, do not depend on the lock.
pub proof fn law_held_read<R>(f: FileView<R>, buf: Seq<u8>, bytes: Seq<u8>)
    ensures
        ({
            let held = read_outcome(f, buf, None);
            let now = read_outcome(f, buf, Some(bytes));
            if f.copies() {
                &&& held.0 == FileStep::<usize>::Held
                &&& read_outcome(held.1, held.2, Some(bytes)) == now
            } else {
                held == now
            }
        }),
{
}

/// A file whose data is replaced gives that data: two polls with room enough, from
/// the start and with the lock free, fill the buffer with it.
pub proof fn law_own_bytes_read<R>(f: FileView<R>, buf: Seq<u8>)
    requires
        f.in_range(),
        f.data is Own,
        f.len() == f.data->Own_0.len(),
        f.cursor == 0,
        f.state == FileReadState::Seeking,
        f.len() <= buf.len(),
    ensures
        ({
            let bytes = f.data->Own_0;
            let first = poll_outcome(f, buf, None);
            let second = poll_outcome(first.1, first.2, Some(bytes));
            &&& first.0 == FileStep::<usize>::Again
            &&& second.0 == FileStep::Ready(f.len())
            &&& second.1 == f.at(f.len() as int, FileReadState::Seeking)
            &&& second.2 == bytes + buf.skip(f.len() as int)
        }),
{
    let g = f.at(0, FileReadState::Reading);
    assert(piece(g, f.data->Own_0, 0, buf.len() as int) =~= f.data->Own_0);
}

/// A reader that stands in its file stays there: a seek leads into the file, and
/// a read that gives no more than was asked for does not lead out of it.
pub proof fn law_reader_stays<R>(f: FileView<R>, pos: SeekFrom, room: int, n: int)
    requires
        f.in_range(),
        f.cursor <= f.len(),
        0 <= n <= f.read_len(room),
    ensures
        f.seek_target(pos) matches Some(t) ==> f.at(t, f.state).in_range() && f.at(
            t,
            f.state,
        ).cursor <= f.len(),
        f.at(f.cursor + n, FileReadState::Seeking).in_range(),
        f.at(f.cursor + n, FileReadState::Seeking).cursor <= f.len(),
{
}

/// Seeking to where the reader stands leads nowhere else, and every place in the
/// file can be reached from its start as from its end.
pub proof fn law_seek_targets<R>(f: FileView<R>, t: int)
    requires
        f.in_range(),
        f.cursor <= f.len(),
        0 <= t <= f.len(),
    ensures
        f.seek_target(SeekFrom::Current(0)) == Some(f.cursor as int),
        f.seek_target(SeekFrom::Start(t as u64)) == Some(t),
        f.seek_target(SeekFrom::End((t - f.len()) as i64)) == Some(t),
        f.seek_target(SeekFrom::Current((t - f.cursor) as i64)) == Some(t),
{
}

/// The sum of the sizes of reads.
pub open spec fn total_room(rooms: Seq<int>) -> int
    decreases rooms.len(),
{
    if rooms.len() == 0 {
        0
    } else {
        total_room(rooms.drop_last()) + rooms.last()
    }
}

/// The file after reads of these sizes, one after the other.
pub open spec fn after_reads<R>(f: FileView<R>, rooms: Seq<int>) -> FileView<R>
    decreases rooms.len(),
{
    if rooms.len() == 0 {
        f
    } else {
        after_read(after_reads(f, rooms.drop_last()), rooms.last())
    }
}

/// What reads of these sizes give together, from a file whose bytes start at `base`
/// in `source`.
pub open spec fn pieces<R>(f: FileView<R>, source: Seq<u8>, base: int, rooms: Seq<int>) -> Seq<u8>
    decreases rooms.len(),
{
    if rooms.len() == 0 {
        Seq::empty()
    } else {
        let front = rooms.drop_last();
        pieces(f, source, base, front) + piece(after_reads(f, front), source, base, rooms.last())
    }
}

/// Reads of any sizes, one after the other, give together the bytes from where the
/// reader stood, as many as they had room for or as there were left.
pub proof fn law_reads_join<R>(f: FileView<R>, source: Seq<u8>, base: int, rooms: Seq<int>)
    requires
        f.in_range(),
        f.cursor <= f.len(),
        0 <= base,
        base + f.len() <= source.len(),
        forall|k: int| 0 <= k < rooms.len() ==> #[trigger] rooms[k] >= 0,
    ensures
        ({
            let end = after_reads(f, rooms).cursor;
            &&& 0 <= total_room(rooms)
            &&& end == if f.cursor + total_room(rooms) <= f.len() {
                f.cursor + total_room(rooms)
            } else {
                f.len() as int
            }
            &&& pieces(f, source, base, rooms) == source.subrange(base + f.cursor, base + end)
            &&& after_reads(f, rooms) == f.at(end as int, after_reads(f, rooms).state)
        }),
    decreases rooms.len(),
{
    if rooms.len() == 0 {
        assert(pieces(f, source, base, rooms) =~= source.subrange(
            base + f.cursor,
            base + f.cursor,
        ));
    } else {
        let front = rooms.drop_last();
        assert forall|k: int| 0 <= k < front.len() implies #[trigger] front[k] >= 0 by {
            assert(rooms[k] >= 0);
        }
        assert(rooms[rooms.len() - 1] >= 0);
        law_reads_join(f, source, base, front);
        assert(pieces(f, source, base, rooms) =~= source.subrange(
            base + f.cursor,
            base + after_reads(f, rooms).cursor,
        ));
    }
}

/// Reads of any sizes reach the end of the file once one that has room gives
/// nothing; what they give together is then all that was left.
pub proof fn law_reads_reach_end<R>(
    f: FileView<R>,
    source: Seq<u8>,
    base: int,
    rooms: Seq<int>,
    k: int,
)
    requires
        f.in_range(),
        f.cursor <= f.len(),
        0 <= base,
        base + f.len() <= source.len(),
        forall|k: int| 0 <= k < rooms.len() ==> #[trigger] rooms[k] >= 0,
        0 <= k < rooms.len(),
        rooms[k] > 0,
        after_reads(f, rooms.take(k)).read_len(rooms[k]) == 0,
    ensures
        after_reads(f, rooms).cursor == f.len(),
        pieces(f, source, base, rooms) == source.subrange(base + f.cursor, base + f.len()),
{
    let first = rooms.take(k);
    assert forall|i: int| 0 <= i < first.len() implies #[trigger] first[i] >= 0 by {
        assert(rooms[i] >= 0);
    }
    law_reads_join(f, source, base, first);
    law_reads_join(f, source, base, rooms);
    lemma_total_room(rooms, k);
}

/// The sizes of the first reads are no more than those of all.
proof fn lemma_total_room(rooms: Seq<int>, k: int)
    requires
        0 <= k <= rooms.len(),
        forall|k: int| 0 <= k < rooms.len() ==> #[trigger] rooms[k] >= 0,
    ensures
        total_room(rooms.take(k)) <= total_room(rooms),
    decreases rooms.len(),
{
    if k == rooms.len() {
        assert(rooms.take(k) =~= rooms);
    } else {
        let front = rooms.drop_last();
        assert forall|i: int| 0 <= i < front.len() implies #[trigger] front[i] >= 0 by {
            assert(rooms[i] >= 0);
        }
        lemma_total_room(front, k);
        assert(front.take(k) =~= rooms.take(k));
        assert(rooms[rooms.len() - 1] >= 0);
    }
}

/// What is seen behind a lock, as a value.
pub open spec fn seen_view(seen: Option<&[u8]>) -> Option<Seq<u8>> {
    match seen {
        Some(bytes) => Some(bytes@),
        None => None,
    }
}

impl<R> Clone for FileDataSource<R> {
    /// The same source: the disc handle, or the lock and the bytes behind it, are
    /// shared.
    fn clone(&self) -> (r: FileDataSource<R>)
        ensures
            r@ == self@,
    {
        match self {
            FileDataSource::Reader(reader) => FileDataSource::Reader(reader.clone()),
            FileDataSource::Box(shared) => FileDataSource::Box(shared.clone()),
        }
    }
}

impl<R> Clone for FileData<R> {
    /// The same data: nothing is copied.
    fn clone(&self) -> (r: FileData<R>)
        ensures
            r@ == self@,
    {
        match self {
            FileData::Reader(reader) => FileData::Reader(reader.clone()),
            FileData::Shared(shared) => FileData::Shared(shared.clone()),
            FileData::Own(bytes, lock) => FileData::Own(bytes.clone(), lock.clone()),
        }
    }
}

impl<R> Clone for File<R> {
    /// The same file, with a reader of its own at the same position.
    fn clone(&self) -> (r: File<R>)
        ensures
            r@ == self@,
    {
        File {
            fst: self.fst.clone(),
            new_offset: self.new_offset,
            state: self.state,
            data: self.data.clone(),
        }
    }
}

impl<R> File<R> {
    /// A file with the given entry and data.
    pub fn new<S: Into<String>>(
        data: FileDataSource<R>,
        name: S,
        file_offset_parent_dir: usize,
        file_size_next_dir_index: usize,
        file_name_offset: usize,
    ) -> (file: File<R>)
        ensures
            exists|n: String|
                #[trigger] call_ensures(S::into, (name,), n) && file@ == new_file(
                    data@,
                    n@,
                    file_offset_parent_dir,
                    file_size_next_dir_index,
                    file_name_offset,
                ) && file@.fst.relative_file_name == n@,
            file@.fst.kind == FstNodeType::File,
            file@.fst.file_offset_parent_dir == file_offset_parent_dir,
            file@.fst.file_size_next_dir_index == file_size_next_dir_index,
            file@.fst.file_name_offset == file_name_offset,
            file@.data == data@,
            file@.new_offset == 0,
            file@.cursor == 0,
            file@.state == FileReadState::Seeking,
    {
        let relative_file_name = name.into();
        File {
            fst: FstEntry {
                kind: FstNodeType::File,
                relative_file_name,
                file_offset_parent_dir,
                file_size_next_dir_index,
                file_name_offset,
            },
            new_offset: 0,
            state: FileState { cursor: 0, state: FileReadState::Seeking },
            data: match data {
                FileDataSource::Reader(reader) => FileData::Reader(reader),
                FileDataSource::Box(shared) => FileData::Shared(shared),
            },
        }
    }

    /// Replaces the data of the file, and with it the size. The reader stays where
    /// it is, and the new bytes have a lock of their own.
    pub fn set_data(&mut self, data: Box<[u8]>)
        ensures
            final(self)@ == (FileView {
                fst: FstEntryView {
                    file_size_next_dir_index: data@.len() as usize,
                    ..old(self)@.fst
                },
                data: final(self)@.data,
                ..old(self)@
            }),
            final(self)@.data is Own,
            final(self)@.data->Own_0 == data@,
            final(self)@.len() == data@.len(),
    {
        self.fst.file_size_next_dir_index = data.len();
        self.data = FileData::Own(Arc::new(data), new_lock());
    }

    /// The size of the file.
    pub fn len(&self) -> (n: usize)
        ensures
            n == self@.len(),
            n == self@.fst.file_size_next_dir_index,
    {
        self.fst.file_size_next_dir_index
    }

    /// Whether the file has no bytes.
    pub fn is_empty(&self) -> (empty: bool)
        ensures
            empty == (self@.len() == 0),
    {
        self.len() == 0
    }

    /// Where the file starts on its disc.
    pub fn offset(&self) -> (n: usize)
        ensures
            n == self@.offset(),
            n == self@.fst.file_offset_parent_dir,
    {
        self.fst.file_offset_parent_dir
    }

    /// Where the file stands in the image that it was last given a place in.
    pub fn new_offset(&self) -> (n: u64)
        ensures
            n == self@.new_offset,
    {
        self.new_offset
    }

    /// Where the file's reader stands.
    pub fn position(&self) -> (n: u64)
        ensures
            n == self@.cursor,
    {
        self.state.cursor
    }

    /// The disc that the file lies on, if it does.
    pub fn disc(&self) -> (disc: Option<&Arc<R>>)
        ensures
            match disc {
                Some(reader) => self@.data == DataView::Reader(**reader),
                None => !(self@.data is Reader),
            },
    {
        match &self.data {
            FileData::Reader(reader) => Some(reader),
            _ => None,
        }
    }

    /// The lock that the next step of a read takes, where the bytes behind it are
    /// shared with others.
    fn shared_lock(&self) -> (lock: Option<&Arc<Mutex<Box<[u8]>>>>)
        ensures
            match lock {
                Some(l) => self@.copies() && self@.data == DataView::<R>::Shared(*l),
                None => !(self@.copies() && self@.data is Shared),
            },
    {
        match (&self.data, self.state.state) {
            (FileData::Shared(lock), FileReadState::Reading) => Some(lock),
            _ => None,
        }
    }

    /// The lock that the next step of a read takes, where the bytes behind it are the
    /// file's own, and these bytes.
    fn own_lock(&self) -> (lock: Option<(&Arc<Mutex<()>>, &Arc<Box<[u8]>>)>)
        ensures
            match lock {
                Some((l, bytes)) => self@.copies() && self@.data == DataView::<R>::Own(
                    bytes@,
                    *l,
                ),
                None => !(self@.copies() && self@.data is Own),
            },
    {
        match (&self.data, self.state.state) {
            (FileData::Own(bytes, lock), FileReadState::Reading) => Some((lock, bytes)),
            _ => None,
        }
    }

    /// Whether every position in the file, and on the disc for a file that lies
    /// there, is a number that a seek can express.
    pub fn in_range(&self) -> (yes: bool)
        ensures
            yes == self@.in_range(),
    {
        let max: u64 = i64::MAX as u64;
        let len: u64 = self.len() as u64;
        let offset: u64 = self.offset() as u64;
        len <= max && self.state.cursor <= max && match &self.data {
            FileData::Reader(_) => offset <= u64::MAX - len && offset <= u64::MAX
                - self.state.cursor,
            _ => true,
        }
    }

    /// Whether a read into `room` bytes finds the bytes that it copies among
    /// `available` ones, if it copies any.
    pub fn can_copy(&self, room: usize, available: usize) -> (yes: bool)
        requires
            self@.in_range(),
        ensures
            yes == self@.can_copy(room as int, available as int),
    {
        match (&self.data, self.state.state) {
            (FileData::Reader(_), _) => true,
            (_, FileReadState::Seeking) => true,
            _ => {
                let n: u64 = self.read_size(room) as u64;
                self.state.cursor <= self.len() as u64 && self.state.cursor + n <= available as u64
            },
        }
    }

    /// The position that a seek leads to, unless it lies outside the file.
    fn target(&self, pos: SeekFrom) -> (target: Option<u64>)
        requires
            self@.in_range(),
        ensures
            match target {
                Some(t) => self@.seek_target(pos) == Some(t as int),
                None => self@.seek_target(pos) is None,
            },
    {
        let target: i128 = match pos {
            SeekFrom::Start(n) => n as i128,
            SeekFrom::End(n) => self.len() as i128 + n as i128,
            SeekFrom::Current(n) => self.state.cursor as i128 + n as i128,
        };
        if 0 <= target && target <= self.len() as i128 {
            Some(target as u64)
        } else {
            None
        }
    }

    /// Starts a seek. Bytes in memory need no more than that: the reader is at the
    /// target. For a file on a disc the disc has to seek first.
    pub fn poll_seek(&mut self, pos: SeekFrom) -> (step: FileStep<u64>)
        requires
            old(self)@.in_range(),
        ensures
            step matches FileStep::SeekDisc(at) ==> old(self)@.seek_target(pos) == Some(
                at - old(self)@.fst.file_offset_parent_dir,
            ),
            step matches FileStep::Ready(t) ==> old(self)@.seek_target(pos) == Some(t as int)
                && final(self)@.cursor == t,
            final(self)@.fst == old(self)@.fst,
            final(self)@.data == old(self)@.data,
            final(self)@.state == old(self)@.state,
            final(self)@.new_offset == old(self)@.new_offset,
            ({
                let f = old(self)@;
                match (f.seek_target(pos), f.data) {
                    (None, _) => step == FileStep::<u64>::Failed(FileError::OutOfRange)
                        && final(self)@ == f,
                    (Some(t), DataView::Reader(_)) => step == FileStep::<u64>::SeekDisc(
                        (f.offset() + t) as u64,
                    ) && f.offset() + t <= u64::MAX && final(self)@ == f,
                    (Some(t), _) => step == FileStep::Ready(t as u64)
                        && final(self)@ == f.at(t, f.state),
                }
            }),
    {
        let target = match self.target(pos) {
            Some(t) => t,
            None => {
                return FileStep::Failed(FileError::OutOfRange);
            },
        };
        match &self.data {
            FileData::Reader(_) => FileStep::SeekDisc(self.offset() as u64 + target),
            _ => {
                self.state.cursor = target;
                FileStep::Ready(target)
            },
        }
    }

    /// Ends the seek that [`File::poll_seek`] started on a disc: once the disc has
    /// moved, so does the reader.
    pub fn finish_seek(&mut self, pos: SeekFrom, reply: DiscReply<u64>) -> (poll: FilePoll<u64>)
        requires
            old(self)@.in_range(),
            old(self)@.seek_target(pos) is Some,
        ensures
            poll matches FilePoll::Ready(t) ==> old(self)@.seek_target(pos) == Some(t as int)
                && final(self)@.cursor == t,
            !(poll is Ready) ==> final(self)@.cursor == old(self)@.cursor,
            final(self)@.fst == old(self)@.fst,
            final(self)@.data == old(self)@.data,
            final(self)@.state == old(self)@.state,
            final(self)@.new_offset == old(self)@.new_offset,
            ({
                let f = old(self)@;
                let t = f.seek_target(pos)->0;
                match reply {
                    DiscReply::Done(_) => poll == FilePoll::Ready(t as u64) && final(self)@ == f.at(
                        t,
                        f.state,
                    ),
                    DiscReply::Failed => poll == FilePoll::<u64>::Failed && final(self)@ == f,
                    DiscReply::Pending => poll == (FilePoll::<u64>::Pending { wake: false })
                        && final(self)@ == f,
                    DiscReply::Busy => poll == (FilePoll::<u64>::Pending { wake: true })
                        && final(self)@ == f,
                }
            }),
    {
        match reply {
            DiscReply::Done(_) => {
                let target: u64 = self.target(pos).unwrap();
                self.state.cursor = target;
                FilePoll::Ready(target)
            },
            DiscReply::Failed => FilePoll::Failed,
            DiscReply::Pending => FilePoll::Pending { wake: false },
            DiscReply::Busy => FilePoll::Pending { wake: true },
        }
    }

    /// How much of a buffer of `room` bytes a read may fill.
    fn read_size(&self, room: usize) -> (n: usize)
        ensures
            n == self@.read_len(room as int),
    {
        let len: u64 = self.len() as u64;
        if self.state.cursor <= len && len - self.state.cursor < room as u64 {
            (len - self.state.cursor) as usize
        } else {
            room
        }
    }

    /// Takes the next step of a read: first to the reader's position, then, at the
    /// next poll, the read itself. Bytes in memory are copied to the start of
    /// `buf` if their lock is free; a disc has to seek or read, and its reply goes to
    /// [`File::finish_read_seek`] or [`File::finish_read`].
    ///
    /// Whether the lock is free depends on its other holders, and so do the bytes
    /// behind it, unless they are the file's own. [`File::read_step`] takes what is
    /// seen there as an argument.
    pub fn poll_read(&mut self, buf: &mut [u8]) -> (step: FileStep<usize>)
        requires
            old(self)@.in_range(),
        ensures
            exists|seen: Option<Seq<u8>>|
                old(self)@.can_see(seen) && (step, final(self)@, final(buf)@)
                    == #[trigger] poll_outcome(old(self)@, old(buf)@, seen),
    {
        if let Some(lock) = self.shared_lock() {
            return match try_lock(lock) {
                Some(guard) => self.poll_seen(buf, Some(guarded(&guard))),
                None => self.poll_seen(buf, None),
            };
        }
        if let Some((lock, own)) = self.own_lock() {
            let bytes = own.clone();
            return match try_lock(lock) {
                Some(guard) => self.poll_seen(buf, Some(&**bytes)),
                None => self.poll_seen(buf, None),
            };
        }
        self.poll_seen(buf, None)
    }

    /// Takes the next step of a read, where `seen` is what stands behind the lock,
    /// unless there are too few bytes to copy.
    fn poll_seen(&mut self, buf: &mut [u8], seen: Option<&[u8]>) -> (step: FileStep<usize>)
        requires
            old(self)@.in_range(),
        ensures
            (step, final(self)@, final(buf)@) == poll_outcome(
                old(self)@,
                old(buf)@,
                seen_view(seen),
            ),
    {
        if let Some(bytes) = seen {
            if !self.can_copy(buf.len(), bytes.len()) {
                return FileStep::TooShort;
            }
        }
        self.read_step(buf, seen)
    }

    /// Takes the next step of a read. Where bytes in memory are to be copied, `seen`
    /// is what stands behind their lock, or `None` where the lock is held.
    pub fn read_step(&mut self, buf: &mut [u8], seen: Option<&[u8]>) -> (step: FileStep<usize>)
        requires
            old(self)@.in_range(),
            seen is Some ==> old(self)@.can_copy(old(buf)@.len() as int, seen->0@.len() as int),
        ensures
            (step, final(self)@, final(buf)@) == read_outcome(
                old(self)@,
                old(buf)@,
                seen_view(seen),
            ),
    {
        let end = self.read_size(buf.len());
        match self.state.state {
            FileReadState::Seeking => match &self.data {
                FileData::Reader(_) => FileStep::SeekDisc(
                    self.offset() as u64 + self.state.cursor,
                ),
                _ => {
                    if self.state.cursor > self.len() as u64 {
                        FileStep::Failed(FileError::InvalidInput)
                    } else {
                        self.state.state = FileReadState::Reading;
                        FileStep::Again
                    }
                },
            },
            FileReadState::Reading => match (&self.data, seen) {
                (FileData::Reader(_), _) => FileStep::ReadDisc(end),
                (_, None) => FileStep::Held,
                (_, Some(bytes)) => {
                    copy_into(buf, bytes, self.state.cursor as usize, end);
                    self.state.cursor = self.state.cursor + end as u64;
                    self.state.state = FileReadState::Seeking;
                    FileStep::Ready(end)
                },
            },
        }
    }

    /// Ends the first half of a read from a disc: once the disc stands at the
    /// reader's position, the file wants to be polled for the read itself.
    pub fn finish_read_seek(&mut self, reply: DiscReply<u64>) -> (poll: FilePoll<usize>)
        requires
            old(self)@.state == FileReadState::Seeking,
        ensures
            final(self)@ == (FileView { state: final(self)@.state, ..old(self)@ }),
            final(self)@.state == if reply is Done {
                FileReadState::Reading
            } else {
                FileReadState::Seeking
            },
            ({
                let f = old(self)@;
                match reply {
                    DiscReply::Done(_) => poll == (FilePoll::<usize>::Pending { wake: true })
                        && final(self)@ == f.at(f.cursor as int, FileReadState::Reading),
                    DiscReply::Failed => poll == FilePoll::<usize>::Failed && final(self)@ == f,
                    DiscReply::Pending => poll == (FilePoll::<usize>::Pending { wake: false })
                        && final(self)@ == f,
                    DiscReply::Busy => poll == (FilePoll::<usize>::Pending { wake: true })
                        && final(self)@ == f,
                }
            }),
    {
        match reply {
            DiscReply::Done(_) => {
                self.state.state = FileReadState::Reading;
                FilePoll::Pending { wake: true }
            },
            DiscReply::Failed => {
                self.state.state = FileReadState::Seeking;
                FilePoll::Failed
            },
            DiscReply::Pending => FilePoll::Pending { wake: false },
            DiscReply::Busy => FilePoll::Pending { wake: true },
        }
    }

    /// Ends the second half of a read from a disc: the reader moves by what the
    /// disc has read, and the next read starts with a seek again.
    pub fn finish_read(&mut self, reply: DiscReply<usize>) -> (poll: FilePoll<usize>)
        requires
            old(self)@.state == FileReadState::Reading,
            reply matches DiscReply::Done(n) ==> old(self)@.cursor + n <= u64::MAX,
        ensures
            final(self)@.cursor == old(self)@.cursor + match reply {
                DiscReply::Done(n) => n as int,
                _ => 0,
            },
            final(self)@.state == if reply is Done || reply is Failed {
                FileReadState::Seeking
            } else {
                FileReadState::Reading
            },
            final(self)@.fst == old(self)@.fst,
            final(self)@.data == old(self)@.data,
            final(self)@.new_offset == old(self)@.new_offset,
            ({
                let f = old(self)@;
                match reply {
                    DiscReply::Done(n) => poll == FilePoll::Ready(n) && final(self)@ == f.at(
                        f.cursor + n,
                        FileReadState::Seeking,
                    ),
                    DiscReply::Failed => poll == FilePoll::<usize>::Failed && final(self)@ == f.at(
                        f.cursor as int,
                        FileReadState::Seeking,
                    ),
                    DiscReply::Pending => poll == (FilePoll::<usize>::Pending { wake: false })
                        && final(self)@ == f,
                    DiscReply::Busy => poll == (FilePoll::<usize>::Pending { wake: true })
                        && final(self)@ == f,
                }
            }),
    {
        match reply {
            DiscReply::Done(n) => {
                self.state.cursor = self.state.cursor + n as u64;
                self.state.state = FileReadState::Seeking;
                FilePoll::Ready(n)
            },
            DiscReply::Failed => {
                self.state.state = FileReadState::Seeking;
                FilePoll::Failed
            },
            DiscReply::Pending => FilePoll::Pending { wake: false },
            DiscReply::Busy => FilePoll::Pending { wake: true },
        }
    }
}

/// Copies `data[from..from + n]` to the start of `buf`.
fn copy_into(buf: &mut [u8], data: &[u8], from: usize, n: usize)
    requires
        n <= old(buf)@.len(),
        from + n <= data@.len(),
    ensures
        final(buf)@ == data@.subrange(from as int, from + n) + old(buf)@.skip(n as int),
{
    let mut i: usize = 0;
    while i < n
        invariant
            i <= n <= old(buf)@.len(),
            from + n <= data.len(),
            buf@ == data@.subrange(from as int, from + i) + old(buf)@.skip(i as int),
        decreases n - i,
    {
        buf[i] = data[from + i];
        i += 1;
        assert(buf@ =~= data@.subrange(from as int, from + i) + old(buf)@.skip(i as int));
    }
}

} // verus!
