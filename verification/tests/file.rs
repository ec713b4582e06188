use async_std::sync::Mutex;
use geckolib::vfs::{
    DiscReply, File, FileDataSource, FileError, FilePoll, FileStep, SeekFrom,
};
use std::sync::Arc;

type Disc = Vec<u8>;

fn in_memory(bytes: &[u8]) -> File<Disc> {
    let data = FileDataSource::Box(Arc::new(Mutex::new(bytes.to_vec().into_boxed_slice())));
    File::new(data, "mem", 7, bytes.len(), 3)
}

fn on_disc(offset: usize, size: usize) -> File<Disc> {
    File::new(FileDataSource::Reader(Arc::new(Vec::new())), "disc", offset, size, 0)
}

/// Reads once from bytes in memory.
fn read(file: &mut File<Disc>, room: usize) -> Vec<u8> {
    let mut buf = vec![0xEE; room];
    assert!(matches!(file.poll_read(&mut buf), FileStep::Again));
    match file.poll_read(&mut buf) {
        FileStep::Ready(n) => {
            assert!(buf[n..].iter().all(|b| *b == 0xEE));
            buf.truncate(n);
            buf
        }
        _ => panic!("no read"),
    }
}

#[test]
fn new_file_has_its_entry() {
    let f = in_memory(b"hello");
    assert_eq!((f.len(), f.offset(), f.new_offset(), f.position()), (5, 7, 0, 0));
    assert!(!f.is_empty());
    assert!(on_disc(1, 0).is_empty());
    assert!(f.disc().is_none() && on_disc(1, 0).disc().is_some());
}

#[test]
fn set_data_replaces_size_and_keeps_the_reader() {
    let mut f = on_disc(64, 1000);
    assert!(matches!(f.poll_seek(SeekFrom::Start(2)), FileStep::SeekDisc(66)));
    f.finish_seek(SeekFrom::Start(2), DiscReply::Done(66));
    f.set_data(b"abcdef".to_vec().into_boxed_slice());
    assert_eq!((f.len(), f.position(), f.offset()), (6, 2, 64));
    assert_eq!(read(&mut f, 100), b"cdef");
}

#[test]
fn reads_join_to_the_whole() {
    let mut f = in_memory(b"hello world");
    assert_eq!(read(&mut f, 4), b"hell");
    assert_eq!(read(&mut f, 4), b"o wo");
    assert_eq!(read(&mut f, 4), b"rld");
    assert_eq!(read(&mut f, 4), b"");
    assert_eq!(f.position(), 11);
    let mut g = in_memory(b"hello world");
    assert_eq!(read(&mut g, 8), b"hello wo");
}

#[test]
fn a_read_with_room_gives_all() {
    assert_eq!(read(&mut in_memory(b"hello"), 64), b"hello");
    assert_eq!(read(&mut in_memory(b"hello"), 5), b"hello");
    assert_eq!(read(&mut in_memory(b"hello"), 0), b"");
}

#[test]
fn clone_has_its_own_reader() {
    let mut f = in_memory(b"hello");
    read(&mut f, 2);
    let mut g = f.clone();
    assert_eq!(read(&mut g, 9), b"llo");
    assert_eq!(f.position(), 2);
    assert_eq!(read(&mut f, 9), b"llo");
}

#[test]
fn seeks_in_memory() {
    let mut f = in_memory(b"hello");
    assert!(matches!(f.poll_seek(SeekFrom::Start(5)), FileStep::Ready(5)));
    assert!(matches!(f.poll_seek(SeekFrom::Current(-2)), FileStep::Ready(3)));
    assert!(matches!(f.poll_seek(SeekFrom::Current(1)), FileStep::Ready(4)));
    assert!(matches!(f.poll_seek(SeekFrom::End(-5)), FileStep::Ready(0)));
    assert!(matches!(f.poll_seek(SeekFrom::End(0)), FileStep::Ready(5)));
    assert!(matches!(f.poll_seek(SeekFrom::Current(0)), FileStep::Ready(5)));
}

#[test]
fn seeks_outside_are_refused() {
    for mut f in [in_memory(b"hello"), on_disc(100, 5)] {
        for pos in [
            SeekFrom::Start(6),
            SeekFrom::Start(u64::MAX),
            SeekFrom::End(1),
            SeekFrom::End(-6),
            SeekFrom::End(i64::MIN),
            SeekFrom::End(i64::MAX),
            SeekFrom::Current(-1),
            SeekFrom::Current(6),
            SeekFrom::Current(i64::MAX),
        ] {
            assert!(matches!(f.poll_seek(pos), FileStep::Failed(FileError::OutOfRange)));
            assert_eq!(f.position(), 0);
        }
    }
    assert_eq!(FileError::OutOfRange.message(), "Index out of range");
}

#[test]
fn seeks_on_a_disc_wait_for_it() {
    let mut f = on_disc(100, 50);
    let pos = SeekFrom::End(-10);
    assert!(matches!(f.poll_seek(pos), FileStep::SeekDisc(140)));
    assert!(matches!(f.finish_seek(pos, DiscReply::Busy), FilePoll::Pending { wake: true }));
    assert!(matches!(f.finish_seek(pos, DiscReply::Pending), FilePoll::Pending { wake: false }));
    assert!(matches!(f.finish_seek(pos, DiscReply::Failed), FilePoll::Failed));
    assert_eq!(f.position(), 0);
    assert!(matches!(f.finish_seek(pos, DiscReply::Done(140)), FilePoll::Ready(40)));
    assert_eq!(f.position(), 40);
    assert!(matches!(f.poll_seek(SeekFrom::Current(-5)), FileStep::SeekDisc(135)));
    assert!(matches!(f.poll_seek(SeekFrom::Start(50)), FileStep::SeekDisc(150)));
}

#[test]
fn reads_on_a_disc_seek_first() {
    let mut f = on_disc(100, 10);
    let mut buf = [0u8; 8];
    assert!(matches!(f.poll_read(&mut buf), FileStep::SeekDisc(100)));
    assert!(matches!(f.finish_read_seek(DiscReply::Busy), FilePoll::Pending { wake: true }));
    assert!(matches!(f.finish_read_seek(DiscReply::Pending), FilePoll::Pending { wake: false }));
    assert!(matches!(f.finish_read_seek(DiscReply::Failed), FilePoll::Failed));
    assert!(matches!(f.poll_read(&mut buf), FileStep::SeekDisc(100)));
    assert!(matches!(f.finish_read_seek(DiscReply::Done(100)), FilePoll::Pending { wake: true }));
    assert!(matches!(f.poll_read(&mut buf), FileStep::ReadDisc(8)));
    assert!(matches!(f.finish_read(DiscReply::Busy), FilePoll::Pending { wake: true }));
    assert!(matches!(f.finish_read(DiscReply::Pending), FilePoll::Pending { wake: false }));
    assert!(matches!(f.finish_read(DiscReply::Done(8)), FilePoll::Ready(8)));
    assert_eq!(f.position(), 8);
    assert!(matches!(f.poll_read(&mut buf), FileStep::SeekDisc(108)));
    f.finish_read_seek(DiscReply::Done(108));
    assert!(matches!(f.poll_read(&mut buf), FileStep::ReadDisc(2)));
    assert!(matches!(f.finish_read(DiscReply::Failed), FilePoll::Failed));
    assert!(matches!(f.poll_read(&mut buf), FileStep::SeekDisc(108)));
}

#[test]
fn a_reader_behind_the_end_is_refused() {
    let mut f = in_memory(b"hello");
    f.poll_seek(SeekFrom::Start(5));
    f.set_data(b"hi".to_vec().into_boxed_slice());
    let mut buf = [0u8; 4];
    assert!(matches!(f.poll_read(&mut buf), FileStep::Failed(FileError::InvalidInput)));
    assert_eq!(f.position(), 5);
    assert!(matches!(f.poll_seek(SeekFrom::Current(0)), FileStep::Failed(FileError::OutOfRange)));
    assert!(matches!(f.poll_seek(SeekFrom::Start(0)), FileStep::Ready(0)));
    assert_eq!(read(&mut f, 4), b"hi");
    assert_eq!(FileError::InvalidInput.message(), "invalid input parameter");
}

#[test]
fn a_file_in_range_can_be_read() {
    assert!(in_memory(b"hello").in_range());
    assert!(!on_disc(0, usize::MAX).in_range());
    assert!(on_disc(usize::MAX - 5, 5).in_range());
    assert!(!on_disc(usize::MAX - 5, 6).in_range());
}

#[test]
fn bytes_that_are_missing_are_told() {
    let mut f = in_memory(b"hello");
    let mut buf = [7u8; 9];
    f.poll_seek(SeekFrom::Start(4));
    assert!(matches!(f.poll_read(&mut buf), FileStep::Again));
    f.set_data(b"hi".to_vec().into_boxed_slice());
    assert!(!f.can_copy(9, 2));
    assert!(matches!(f.poll_read(&mut buf), FileStep::TooShort));
    assert_eq!((buf, f.position()), ([7; 9], 4));
    let data = FileDataSource::Box(Arc::new(Mutex::new(vec![1u8].into_boxed_slice())));
    let mut g: File<Disc> = File::new(data, "g", 0, 3, 0);
    assert!(g.can_copy(9, 0));
    assert!(matches!(g.poll_read(&mut buf), FileStep::Again));
    assert!(g.can_copy(1, 1) && !g.can_copy(2, 1));
    assert!(matches!(g.poll_read(&mut buf), FileStep::TooShort));
    assert!(matches!(g.poll_read(&mut buf[..1]), FileStep::Ready(1)));
    assert_eq!(buf[0], 1);
}

#[test]
fn a_held_lock_holds_the_read_up() {
    let lock = Arc::new(Mutex::new(b"hello".to_vec().into_boxed_slice()));
    let mut f: File<Disc> = File::new(FileDataSource::Box(lock.clone()), "f", 0, 5, 0);
    let mut g = f.clone();
    let mut buf = [9u8; 3];
    let guard = lock.try_lock_arc().unwrap();
    assert!(matches!(f.poll_read(&mut buf), FileStep::Again));
    assert!(matches!(g.poll_read(&mut buf), FileStep::Again));
    assert!(matches!(f.poll_read(&mut buf), FileStep::Held));
    assert!(matches!(g.poll_read(&mut buf), FileStep::Held));
    assert_eq!((buf, f.position()), ([9, 9, 9], 0));
    drop(guard);
    assert!(matches!(f.poll_read(&mut buf), FileStep::Ready(3)));
    assert_eq!((&buf, f.position()), (b"hel", 3));
    assert!(lock.try_lock_arc().is_some());
    let _guard = lock.try_lock_arc().unwrap();
    g.set_data(b"new".to_vec().into_boxed_slice());
    assert!(matches!(g.poll_read(&mut buf), FileStep::Ready(3)));
    assert_eq!(&buf, b"new");
}

#[test]
fn shared_bytes_are_read_as_they_are_now() {
    let lock = Arc::new(Mutex::new(b"hello".to_vec().into_boxed_slice()));
    let mut f: File<Disc> = File::new(FileDataSource::Box(lock.clone()), "f", 0, 5, 0);
    let mut g = f.clone();
    assert_eq!(read(&mut f, 2), b"he");
    *lock.try_lock_arc().unwrap() = b"HELLO".to_vec().into_boxed_slice();
    assert_eq!(read(&mut f, 9), b"LLO");
    assert_eq!(read(&mut g, 9), b"HELLO");
    assert_eq!(f.len(), 5);
}

#[test]
fn clones_share_bytes_of_their_own() {
    let mut f = in_memory(b"");
    f.set_data(b"hello".to_vec().into_boxed_slice());
    let mut g = f.clone();
    f.set_data(b"bye".to_vec().into_boxed_slice());
    assert_eq!(read(&mut g, 9), b"hello");
    assert_eq!(read(&mut f, 9), b"bye");
}

#[test]
fn what_is_seen_is_an_argument_of_a_step() {
    let mut f = in_memory(b"hello");
    let mut buf = [9u8; 3];
    assert!(matches!(f.read_step(&mut buf, None), FileStep::Again));
    assert!(matches!(f.read_step(&mut buf, None), FileStep::Held));
    assert!(matches!(f.read_step(&mut buf, Some(b"HELLO")), FileStep::Ready(3)));
    assert_eq!(&buf, b"HEL");
    let mut d = on_disc(100, 10);
    assert!(matches!(d.read_step(&mut buf, None), FileStep::SeekDisc(100)));
    d.finish_read_seek(DiscReply::Done(100));
    assert!(matches!(d.read_step(&mut buf, None), FileStep::ReadDisc(3)));
}
