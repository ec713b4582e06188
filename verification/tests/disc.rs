use async_std::sync::Mutex;
use geckolib::iso::{FstEntry, FstNodeType};
use geckolib::vfs::parse::{FsParser, ParseStep};
use geckolib::vfs::serialize::{DiscWriter, SystemFile, WriteNeed};
use geckolib::vfs::{
    DiscReply, Directory, File, FileDataSource, FileStep, FsError, GeckoFS, Node, NodeEnum,
};
use std::sync::Arc;

type Disc = Vec<u8>;

fn file(name: &str, bytes: &[u8]) -> File<Disc> {
    let data = FileDataSource::Box(Arc::new(Mutex::new(bytes.to_vec().into_boxed_slice())));
    File::new(data, name, 0, bytes.len(), 0)
}

fn pattern(len: usize, seed: u8) -> Vec<u8> {
    (0..len).map(|i| (i as u8).wrapping_mul(31).wrapping_add(seed) | 1).collect()
}

/// All that is left to read of a file.
fn drain(file: &mut File<Disc>) -> Vec<u8> {
    let mut all = Vec::new();
    loop {
        let n = read_some(file, &mut all);
        if n == 0 {
            return all;
        }
    }
}

fn read_some(file: &mut File<Disc>, all: &mut Vec<u8>) -> usize {
    let mut buf = [0u8; 1000];
    let mut disc_pos = 0;
    loop {
        match file.poll_read(&mut buf) {
            FileStep::Again => {}
            FileStep::Ready(n) => {
                all.extend_from_slice(&buf[..n]);
                return n;
            }
            FileStep::SeekDisc(at) => {
                disc_pos = at as usize;
                file.finish_read_seek(DiscReply::Done(at));
            }
            FileStep::ReadDisc(n) => {
                let disc = file.disc().unwrap().clone();
                buf[..n].copy_from_slice(&disc[disc_pos..disc_pos + n]);
                all.extend_from_slice(&buf[..n]);
                file.finish_read(DiscReply::Done(n));
                return n;
            }
            FileStep::Held => panic!("nobody holds the lock"),
            FileStep::TooShort => panic!("all bytes are there"),
            FileStep::Failed(e) => panic!("{}", e.message()),
        }
    }
}

/// Runs a writer on an image that starts empty.
fn write(fs: &mut GeckoFS<Disc>, is_wii: bool) -> Vec<u8> {
    assert!(fs.fits());
    let mut writer: DiscWriter<Disc> = fs.serialize(is_wii).unwrap();
    let mut image = Vec::new();
    let mut open: Option<(usize, Vec<u8>)> = None;
    loop {
        let input = match writer.need() {
            WriteNeed::Finished => return image,
            WriteNeed::System(part) => drain(fs.sys_mut().get_file_mut(part.name()).unwrap()),
            WriteNeed::Table | WriteNeed::Padding { .. } => Vec::new(),
            WriteNeed::Position => {
                assert!(writer.can_start(image.len() as u64));
                writer.supply_position(image.len() as u64);
                continue;
            }
            WriteNeed::File { index, len } => {
                let fresh = !matches!(&open, Some((i, _)) if *i == index);
                if fresh {
                    open = Some((index, drain(&mut writer.file(index).clone())));
                }
                let rest = &mut open.as_mut().unwrap().1;
                rest.drain(..len).collect()
            }
        };
        assert!(writer.takes(input.len()));
        image.extend_from_slice(&writer.supply(&input));
    }
}

enum Outcome {
    Done(GeckoFS<Disc>),
    Failed(FsError),
    Malformed,
    EndOfDisc,
}

/// Runs a parser on a disc.
fn parse(image: &[u8], is_wii: bool) -> Outcome {
    let reader = Arc::new(image.to_vec());
    let mut parser: FsParser = GeckoFS::<Disc>::parse(is_wii);
    loop {
        let from = parser.position() as usize;
        let to = from + parser.length();
        if to > image.len() {
            return Outcome::EndOfDisc;
        }
        match parser.supply(image[from..to].to_vec(), &reader) {
            ParseStep::Read(next) => parser = next,
            ParseStep::Done(fs) => return Outcome::Done(fs),
            ParseStep::Failed(e) => return Outcome::Failed(e),
            ParseStep::Malformed => return Outcome::Malformed,
        }
    }
}

fn done(image: &[u8], is_wii: bool) -> GeckoFS<Disc> {
    match parse(image, is_wii) {
        Outcome::Done(fs) => fs,
        _ => panic!("no file system"),
    }
}

fn sample() -> GeckoFS<Disc> {
    let mut fs: GeckoFS<Disc> = GeckoFS::new();
    fs.sys_mut().add_file(file("iso.hdr", &pattern(0x2440, 1)));
    fs.sys_mut().add_file(file("AppLoader.ldr", &pattern(0x123, 2)));
    fs.sys_mut().add_file(file("Start.dol", &pattern(0x345, 3)));
    fs.root_mut().add_file(file("opening.bnr", &pattern(0x61, 4)));
    let sub = fs.root_mut().mkdir("sub".to_string());
    sub.add_file(file("b\u{e9}.txt", &pattern(33, 5)));
    sub.mkdir("empty".to_string());
    sub.mkdir("deep".to_string()).add_file(file("nothing", b""));
    fs.root_mut().add_file(file("last", &pattern(2500, 6)));
    fs
}

fn word(image: &[u8], at: usize) -> usize {
    u32::from_be_bytes([image[at], image[at + 1], image[at + 2], image[at + 3]]) as usize
}

fn listing(dir: &Directory<Disc>, depth: usize, out: &mut Vec<(usize, String, Option<Vec<u8>>)>) {
    for node in dir.iter() {
        match node {
            NodeEnum::File(f) => {
                out.push((depth, f.name().to_string(), Some(drain(&mut f.clone()))));
            }
            NodeEnum::Directory(d) => {
                out.push((depth, d.name().to_string(), None));
                listing(d, depth + 1, out);
            }
        }
    }
}

fn list(fs: &GeckoFS<Disc>) -> Vec<(usize, String, Option<Vec<u8>>)> {
    let mut out = Vec::new();
    listing(fs.root(), 0, &mut out);
    out
}

#[test]
fn an_image_has_its_parts_in_place() {
    let mut fs = sample();
    let image = write(&mut fs, false);
    let dol = 0x2800;
    let fst = 0x2C00;
    assert_eq!(word(&image, 0x420), dol);
    assert_eq!(word(&image, 0x424), fst);
    let names = "opening.bnr\0sub\0b\u{e9}.txt\0empty\0deep\0nothing\0last\0".as_bytes();
    let fst_len = 8 * 12 + names.len();
    assert_eq!(word(&image, 0x428), fst_len);
    assert_eq!(word(&image, 0x42C), fst_len);
    assert_eq!(image[..0x420], pattern(0x2440, 1)[..0x420]);
    assert_eq!(image[0x430..0x2440], pattern(0x2440, 1)[0x430..]);
    assert_eq!(image[0x2440..0x2563], pattern(0x123, 2)[..]);
    assert!(image[0x2563..dol].iter().all(|b| *b == 0));
    assert_eq!(image[dol..dol + 0x345], pattern(0x345, 3)[..]);
    assert!(image[dol + 0x345..fst].iter().all(|b| *b == 0));
    assert_eq!(image[fst..fst + 12], [1, 0, 0, 0, 0, 0, 0, 0, 0, 0, 0, 8]);
    assert_eq!(&image[fst + 8 * 12..fst + fst_len], names);
    let first = (fst + fst_len + 31) / 32 * 32;
    assert_eq!(
        image[fst + 12..fst + 24],
        [0, 0, 0, 0, 0, 0, (first >> 8) as u8, first as u8, 0, 0, 0, 0x61]
    );
    assert_eq!(image[fst + 24..fst + 36], [1, 0, 0, 12, 0, 0, 0, 0, 0, 0, 0, 7]);
    assert_eq!(image[fst + 5 * 12..fst + 6 * 12], [1, 0, 0, 30, 0, 0, 0, 2, 0, 0, 0, 7]);
    assert_eq!(image[first..first + 0x61], pattern(0x61, 4)[..]);
    let files = fs.root().iter_recurse();
    assert_eq!(files[0].new_offset() as usize, first);
    assert_eq!(files[1].new_offset() as usize, (first + 0x64 + 31) / 32 * 32);
    let third = files[1].new_offset() as usize + 33;
    assert_eq!(files[2].new_offset() as usize, (third + 31) / 32 * 32);
    assert_eq!(files[3].new_offset(), files[2].new_offset());
    assert!(files.iter().all(|f| f.new_offset() % 32 == 0));
    assert_eq!(image.len(), files[3].new_offset() as usize + 2500);
}

#[test]
fn what_is_written_is_read_back() {
    let mut fs = sample();
    let before = list(&fs);
    let image = write(&mut fs, false);
    let back = done(&image, false);
    assert_eq!(list(&back), before);
    for (f, g) in fs.root().iter_recurse().iter().zip(back.root().iter_recurse()) {
        assert_eq!(f.new_offset() as usize, g.offset());
        assert_eq!((g.new_offset(), g.position()), (0, 0));
    }
    let mut sys = back.sys().iter_recurse();
    let names: Vec<&str> = sys.iter().map(|f| f.name()).collect();
    assert_eq!(names, ["iso.hdr", "AppLoader.ldr", "Start.dol", "Game.toc"]);
    assert_eq!(back.sys().name(), "&&systemdata");
    let mut dol = pattern(0x345, 3);
    dol.resize(0x400, 0);
    assert_eq!(drain(&mut sys.remove(2).clone()), dol);
    let mut loader = pattern(0x123, 2);
    loader.resize(0x2800 - 0x2440, 0);
    assert_eq!(drain(&mut sys.remove(1).clone()), loader);
    assert_eq!(drain(&mut sys.remove(0).clone()), image[..0x2440]);
}

#[test]
fn a_wii_disc_counts_in_words() {
    let mut fs = sample();
    let before = list(&fs);
    let image = write(&mut fs, true);
    assert_eq!(word(&image, 0x420), 0x2800 / 4);
    assert_eq!(word(&image, 0x424), 0x2C00 / 4);
    let names = "opening.bnr\0sub\0b\u{e9}.txt\0empty\0deep\0nothing\0last\0".len();
    assert_eq!(word(&image, 0x428), 8 * 12 + names);
    let first = fs.root().iter_recurse()[0].new_offset() as usize;
    assert_eq!(word(&image, 0x2C00 + 16), first / 4);
    assert_eq!(list(&done(&image, true)), before);
}

#[test]
fn the_two_kinds_of_images_differ_in_scale() {
    let cube = write(&mut sample(), false);
    let wii = write(&mut sample(), true);
    assert_eq!(wii.len(), cube.len());
    let mut scaled = vec![0x420, 0x424];
    scaled.extend((0..8).map(|i| 0x2C00 + 12 * i + 4));
    for at in &scaled {
        assert_eq!(word(&wii, *at), word(&cube, *at) / 4);
    }
    for p in 0..cube.len() {
        if !scaled.iter().any(|at| (*at..*at + 4).contains(&p)) {
            assert_eq!(wii[p], cube[p], "{}", p);
        }
    }
}

#[test]
fn a_short_wii_image_ends_before_its_table() {
    let mut fs = sample();
    *fs.root_mut() = Directory::new("");
    fs.root_mut().add_file(file("f", b"x"));
    let image = write(&mut fs, true);
    assert!(matches!(parse(&image, true), Outcome::EndOfDisc));
    let mut fs = sample();
    *fs.root_mut() = Directory::new("");
    fs.root_mut().add_file(file("f", b"x"));
    let image = write(&mut fs, false);
    assert_eq!(list(&done(&image, false)), [(0, "f".to_string(), Some(b"x".to_vec()))]);
}

#[test]
fn writing_again_gives_the_same_image() {
    let mut fs = sample();
    let image = write(&mut fs, false);
    for part in [SystemFile::Header, SystemFile::AppLoader, SystemFile::Dol] {
        let f = fs.sys_mut().get_file_mut(part.name()).unwrap();
        f.poll_seek(geckolib::vfs::SeekFrom::Start(0));
    }
    assert_eq!(write(&mut fs, false), image);
    let mut back = done(&image, false);
    assert_eq!(write(&mut back, false), image);
}

#[test]
fn a_replaced_file_is_written() {
    let image = write(&mut sample(), false);
    let mut fs = done(&image, false);
    let new = pattern(70_000, 9);
    let file = fs.root_mut().get_file_mut("sub/deep/nothing").unwrap();
    file.set_data(new.clone().into_boxed_slice());
    let expected = list(&fs);
    let at = expected.iter().position(|e| e.1 == "nothing").unwrap();
    assert_eq!(expected[at].2.as_ref().unwrap(), &new);
    let again = write(&mut fs, false);
    assert_eq!(list(&done(&again, false)), expected);
}

#[test]
fn large_files_are_copied_in_pieces() {
    let mut fs = sample();
    fs.root_mut().add_file(file("big", &pattern(0x10_0000 + 5, 7)));
    let mut writer = fs.serialize(false).unwrap();
    assert_eq!(writer.file_count(), 5);
    assert_eq!(writer.total_size(), 0x61 + 33 + 2500 + 0x10_0000 + 5);
    let mut sizes = Vec::new();
    let mut at = 0u64;
    loop {
        match writer.need() {
            WriteNeed::System(part) => {
                let bytes = drain(fs.sys_mut().get_file_mut(part.name()).unwrap());
                at += writer.supply(&bytes).len() as u64;
            }
            WriteNeed::Table | WriteNeed::Padding { .. } => {
                at += writer.supply(&[]).len() as u64;
            }
            WriteNeed::Position => writer.supply_position(at),
            WriteNeed::File { index, len } => {
                sizes.push((index, len));
                writer.supply(&vec![0; len]);
            }
            WriteNeed::Finished => break,
        }
    }
    assert_eq!(sizes, [(0, 0x61), (1, 33), (3, 2500), (4, 0x10_0000), (4, 5)]);
}

#[test]
fn a_writer_refuses_what_it_does_not_need() {
    let mut fs = sample();
    let mut writer = fs.serialize(false).unwrap();
    assert_eq!(writer.need(), WriteNeed::System(SystemFile::Header));
    assert!(!writer.takes(0x42F) && writer.takes(0x430));
    assert_eq!(writer.supply(&[7; 0x430]).len(), 0x430);
    assert_eq!(writer.need(), WriteNeed::System(SystemFile::AppLoader));
    assert!(writer.takes(0));
    assert_eq!(writer.supply(&[]).len(), 0x2800 - 0x2563);
    assert_eq!(writer.need(), WriteNeed::System(SystemFile::Dol));
    assert_eq!(writer.supply(&[1]).len(), 1 + 0x2C00 - 0x2B45);
    assert_eq!(writer.need(), WriteNeed::Table);
    assert!(writer.takes(0) && !writer.takes(1));
    writer.supply(&[]);
    assert_eq!(writer.need(), WriteNeed::Position);
    assert!(!writer.takes(0));
    let first = fs.root().iter_recurse()[0].new_offset();
    assert!(writer.can_start(first) && writer.can_start(0) && !writer.can_start(first + 1));
    writer.supply_position(first - 3);
    assert_eq!(writer.need(), WriteNeed::Padding { index: 0 });
    assert_eq!(writer.supply(&[]), [0, 0, 0]);
    assert_eq!(writer.need(), WriteNeed::File { index: 0, len: 0x61 });
    assert!(writer.takes(0x61) && !writer.takes(0x60));
    assert_eq!(writer.file(0).name(), "opening.bnr");
}

#[test]
fn parts_of_the_system_are_needed() {
    let mut fs: GeckoFS<Disc> = GeckoFS::new();
    for name in ["iso.hdr", "AppLoader.ldr", "Start.dol"] {
        assert!(fs.fits());
        let e = fs.serialize(false).err().unwrap();
        let text = format!("\"{}\" not found in the directory \"&&systemdata\"", name);
        assert_eq!(e.message(), text);
        fs.sys_mut().add_file(file(name, &[0; 0x430]));
    }
    assert!(fs.serialize(false).is_ok());
    let mut huge = sample();
    let data = FileDataSource::Reader(Arc::new(Vec::new()));
    huge.root_mut().add_file(File::new(data, "huge", 0, usize::MAX, 0));
    assert!(!huge.fits());
    let data = FileDataSource::Reader(Arc::new(Vec::new()));
    huge.sys_mut().get_file_mut("iso.hdr").unwrap().clone_from(&File::new(
        data,
        "iso.hdr",
        0,
        usize::MAX - 5,
        0,
    ));
    assert!(!huge.fits());
}

#[test]
fn the_table_length_is_that_of_its_parts() {
    let fs = sample();
    let names = "opening.bnr\0sub\0b\u{e9}.txt\0empty\0deep\0nothing\0last\0\0".len();
    assert_eq!(GeckoFS::visitor_fst_len(0, fs.root()), 8 * 12 + names);
    assert_eq!(GeckoFS::visitor_fst_len(100, &file("abc", b"")), 116);
}

#[test]
fn visitor_places_the_files() {
    let mut fs = sample();
    let mut entries: Vec<FstEntry> = Vec::new();
    let mut files: Vec<File<Disc>> = Vec::new();
    let mut names: Vec<u8> = vec![b'x'];
    let mut offset = 33u64;
    let node = &mut fs.root_mut().iter_mut()[1];
    GeckoFS::visitor_fst_entries(node, &mut entries, &mut files, &mut names, 9, &mut offset);
    let rows: Vec<(FstNodeType, usize, usize, usize)> = entries
        .iter()
        .map(|e| {
            (
                e.kind,
                e.file_name_offset,
                e.file_offset_parent_dir,
                e.file_size_next_dir_index,
            )
        })
        .collect();
    assert_eq!(
        rows,
        [
            (FstNodeType::Directory, 1, 9, 5),
            (FstNodeType::File, 5, 64, 33),
            (FstNodeType::Directory, 13, 0, 3),
            (FstNodeType::Directory, 19, 0, 5),
            (FstNodeType::File, 24, 128, 0),
        ]
    );
    assert_eq!(names, "xsub\0b\u{e9}.txt\0empty\0deep\0nothing\0".as_bytes());
    assert_eq!(entries[1].relative_file_name, "b\u{e9}.txt");
    assert_eq!(entries[0].relative_file_name, "");
    assert_eq!(offset, 128);
    assert_eq!(files.len(), 2);
    assert_eq!((files[0].new_offset(), files[1].new_offset()), (64, 128));
    assert_eq!(fs.root().get_file("sub/deep/nothing").unwrap().new_offset(), 128);
}

fn entry(kind: FstNodeType, name: &str, offset: usize, size: usize) -> FstEntry {
    FstEntry {
        kind,
        relative_file_name: name.to_string(),
        file_offset_parent_dir: offset,
        file_size_next_dir_index: size,
        file_name_offset: 0,
    }
}

#[test]
fn entries_become_a_tree() {
    let entries = vec![
        entry(FstNodeType::Directory, "", 0, 6),
        entry(FstNodeType::Directory, "d", 0, 4),
        entry(FstNodeType::Directory, "e", 1, 4),
        entry(FstNodeType::File, "f", 32, 5),
        entry(FstNodeType::File, "g", 64, 6),
        entry(FstNodeType::Directory, "h", 0, 6),
    ];
    let reader: Arc<Disc> = Arc::new(Vec::new());
    let mut root: Directory<Disc> = Directory::new("");
    let mut index = 1;
    GeckoFS::get_dir_structure_recursive(&mut index, &entries, &mut root, &reader);
    assert_eq!(index, 3);
    assert_eq!(root.get_file("d/e/f").unwrap().offset(), 32);
    index = 0;
    let mut all: Directory<Disc> = Directory::new("");
    GeckoFS::get_dir_structure_recursive(&mut index, &entries, &mut all, &reader);
    assert_eq!(index, 5);
    let top = all.iter().next().unwrap().as_directory_ref().unwrap();
    let names: Vec<&str> = top.iter().map(|n| n.name()).collect();
    assert_eq!(names, ["d", "g", "h"]);
}

/// A disc with this table.
fn disc(entries: &[FstEntry], names: &[u8]) -> Vec<u8> {
    let mut image = vec![0u8; 0x2800];
    let len = entries.len() * 12 + names.len();
    image[0x420..0x424].copy_from_slice(&0x2440u32.to_be_bytes());
    image[0x424..0x428].copy_from_slice(&0x2800u32.to_be_bytes());
    image[0x428..0x42C].copy_from_slice(&(len as u32).to_be_bytes());
    for e in entries {
        image.extend_from_slice(&e.to_block(false));
    }
    image.extend_from_slice(names);
    image
}

fn small() -> (Vec<FstEntry>, Vec<u8>) {
    let mut entries = vec![
        entry(FstNodeType::Directory, "", 0, 3),
        entry(FstNodeType::File, "", 32, 5),
        entry(FstNodeType::File, "", 64, 6),
    ];
    entries[2].file_name_offset = 2;
    (entries, b"a\0b\0".to_vec())
}

#[test]
fn a_disc_is_parsed() {
    let (entries, names) = small();
    let fs = done(&disc(&entries, &names), false);
    assert_eq!(fs.root().get_file("b").unwrap().offset(), 64);
    assert_eq!(fs.root().get_file("b").unwrap().len(), 6);
    let toc = fs.sys().get_file("Game.toc").unwrap();
    assert_eq!((toc.offset(), toc.len()), (0x2800, 40));
    let loader = fs.sys().get_file("AppLoader.ldr").unwrap();
    assert_eq!((loader.offset(), loader.len()), (0x2440, 0));
    let dol = fs.sys().get_file("Start.dol").unwrap();
    assert_eq!((dol.offset(), dol.len()), (0x2440, 0x2800 - 0x2440));
}

#[test]
fn a_name_that_is_not_utf8_is_an_error() {
    let (entries, _) = small();
    match parse(&disc(&entries, b"a\0\xFFx\0"), false) {
        Outcome::Failed(e) => {
            let expected = String::from_utf8(vec![0xFF, b'x']).unwrap_err();
            assert_eq!(e.message(), expected.to_string());
            assert!(matches!(e, FsError::InvalidName { bytes, .. } if bytes == [0xFF, b'x']));
        }
        _ => panic!("no error"),
    }
    match parse(&disc(&entries, b"\xC3\xA9\0\0"), false) {
        Outcome::Failed(FsError::InvalidName { .. }) => panic!("valid"),
        Outcome::Done(fs) => assert!(fs.root().get_file("\u{e9}").is_ok()),
        _ => panic!("no file system"),
    }
}

#[test]
fn malformed_discs_are_told() {
    let (entries, names) = small();
    let good = disc(&entries, &names);
    let with = |at: usize, w: u32| {
        let mut image = good.clone();
        image[at..at + 4].copy_from_slice(&w.to_be_bytes());
        image.resize(0x4000, 0);
        parse(&image, false)
    };
    assert!(matches!(with(0x428, 40), Outcome::Done(_)));
    assert!(matches!(with(0x428, 35), Outcome::Malformed));
    assert!(matches!(with(0x420, 0x243F), Outcome::Malformed));
    assert!(matches!(with(0x420, 0x2801), Outcome::Malformed));
    assert!(matches!(with(0x428, 36), Outcome::Malformed));
    assert!(matches!(with(0x2800 + 12, 3), Outcome::Done(_)));
    assert!(matches!(with(0x2800 + 12, 4), Outcome::Malformed));
    assert!(matches!(with(0x2800 + 12, 0x0100_0000), Outcome::Malformed));
    assert!(matches!(parse(&good[..good.len() - 1], false), Outcome::EndOfDisc));
    assert!(matches!(parse(&good[..0x427], false), Outcome::EndOfDisc));
}

#[test]
fn entries_that_form_no_tree_are_told() {
    let (mut entries, names) = small();
    entries[1] = entry(FstNodeType::Directory, "", 0, 0);
    assert!(matches!(parse(&disc(&entries, &names), false), Outcome::Malformed));
    entries[1] = entry(FstNodeType::Directory, "", 0, 4);
    assert!(matches!(parse(&disc(&entries, &names), false), Outcome::Malformed));
    entries[1] = entry(FstNodeType::Directory, "", 0, 2);
    assert!(matches!(parse(&disc(&entries, &names), false), Outcome::Done(_)));
    entries[2].file_name_offset = 0;
    assert!(matches!(parse(&disc(&entries, &names), false), Outcome::Malformed));
    entries[1] = entry(FstNodeType::File, "", 32, 5);
    let fs = done(&disc(&entries, &names), false);
    assert_eq!(fs.root().iter().count(), 1);
    assert_eq!(fs.root().get_file("a").unwrap().len(), 5);
}

#[test]
fn an_empty_tree_has_no_name_to_read() {
    let mut fs = sample();
    *fs.root_mut() = Directory::new("");
    let image = write(&mut fs, false);
    assert_eq!(word(&image, 0x428), 12);
    assert!(matches!(parse(&image, false), Outcome::Malformed));
}

#[test]
fn a_parser_says_what_it_reads() {
    let mut parser: FsParser = GeckoFS::<Disc>::parse(true);
    let reader: Arc<Disc> = Arc::new(Vec::new());
    let steps = [
        (0x424, 4, vec![0xC0, 0, 0, 4]),
        (0x18, 4, vec![0, 0, 0, 1]),
        (0x10, 12, vec![1, 0, 0, 0, 0, 0, 0, 0, 0, 0, 0, 1]),
        (0x428, 4, vec![0, 0, 0, 4]),
        (0x1C, 4, vec![b'r', 0, 0, 0]),
    ];
    for (position, length, bytes) in steps {
        assert_eq!((parser.position(), parser.length()), (position, length));
        parser = match parser.supply(bytes, &reader) {
            ParseStep::Read(next) => next,
            _ => panic!("{}", position),
        };
    }
    assert_eq!((parser.position(), parser.length()), (0x420, 4));
}
