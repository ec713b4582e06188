use geckolib::iso::{align_addr, checked_align_addr, FstEntry, FstNodeType};
use geckolib::vfs::progress::{DisplayState, Progress};

fn entry(kind: FstNodeType, name: usize, offset: usize, size: usize) -> FstEntry {
    FstEntry {
        kind,
        relative_file_name: String::new(),
        file_offset_parent_dir: offset,
        file_size_next_dir_index: size,
        file_name_offset: name,
    }
}

#[test]
fn addresses_are_aligned_up() {
    assert_eq!(align_addr(0, 5), 0);
    assert_eq!(align_addr(1, 5), 32);
    assert_eq!(align_addr(32, 5), 32);
    assert_eq!(align_addr(33, 2), 36);
    assert_eq!(align_addr(0x2441, 10), 0x2800);
    assert_eq!(align_addr(5, 0), 5);
    assert_eq!(checked_align_addr(u64::MAX, 5), None);
    assert_eq!(checked_align_addr(u64::MAX - 31, 5), Some(u64::MAX - 31));
}

#[test]
fn entries_are_big_endian() {
    let e = entry(FstNodeType::Directory, 0x010203, 0x04050607, 0x08090A0B);
    assert_eq!(e.to_block(false), [1, 1, 2, 3, 4, 5, 6, 7, 8, 9, 10, 11]);
    let e = entry(FstNodeType::File, 0x010203, 0x100, 2);
    assert_eq!(e.to_block(true), [0, 1, 2, 3, 0, 0, 0, 0x40, 0, 0, 0, 2]);
}

#[test]
fn entries_come_back_from_their_bytes() {
    for is_wii in [false, true] {
        let e = entry(FstNodeType::File, 0xABCDEF, 0x1234_5660, 0xFFFF_FFFF);
        let block = e.to_block(is_wii);
        assert_eq!(FstEntry::name_offset(&block), 0xABCDEF);
        let back = FstEntry::from_block(&block, "n".to_string(), is_wii);
        assert_eq!(back.kind, FstNodeType::File);
        assert_eq!(back.relative_file_name, "n");
        assert_eq!(back.file_offset_parent_dir, 0x1234_5660);
        assert_eq!(back.file_size_next_dir_index, 0xFFFF_FFFF);
        assert_eq!(back.file_name_offset, 0xABCDEF);
    }
}

#[test]
fn what_does_not_fit_is_cut() {
    let e = entry(FstNodeType::File, 0x1_00_0001, 5, 0x1_0000_0002);
    let back = FstEntry::from_block(&e.to_block(true), String::new(), true);
    assert_eq!(back.file_name_offset, 1);
    assert_eq!(back.file_offset_parent_dir, 4);
    assert_eq!(back.file_size_next_dir_index, 2);
}

#[test]
fn kinds_have_codes() {
    assert_eq!(FstNodeType::from_code(0), FstNodeType::File);
    assert_eq!(FstNodeType::from_code(1), FstNodeType::Directory);
    assert_eq!(FstNodeType::from_code(0x80), FstNodeType::Directory);
    assert_eq!(FstNodeType::Directory.to_code(), 1);
    assert_eq!(FstNodeType::default(), FstNodeType::File);
    let e = FstEntry::default().clone();
    assert_eq!(e.to_block(false), [0; 12]);
    assert_eq!(FstEntry::BLOCK_SIZE, 12);
}

#[test]
fn progress_is_reported_when_the_display_is_free() {
    let mut p = Progress::new();
    assert_eq!(p.advance(5, DisplayState::Free), Some(5));
    assert_eq!(p.advance(7, DisplayState::Busy), None);
    assert_eq!(p.advance(1, DisplayState::Broken), None);
    assert_eq!(p.advance(2, DisplayState::Busy), None);
    assert_eq!(p.pending(), 9);
    assert_eq!(p.advance(3, DisplayState::Free), Some(12));
    assert_eq!(p.pending(), 0);
    assert_eq!(Progress::default().pending(), 0);
}
