//! Positions and sizes that the disc format fixes.

use vstd::prelude::*;

verus! {

/// Where the header holds the offset of the main executable.
pub const OFFSET_DOL_OFFSET: usize = 0x420;

/// Where the header holds the offset of the file system table.
pub const OFFSET_FST_OFFSET: usize = 0x424;

/// Where the header holds the size of the file system table.
pub const OFFSET_FST_SIZE: usize = 0x428;

/// The length of the disc header, up to the apploader.
pub const HEADER_LENGTH: usize = 0x2440;

/// The main executable starts at a multiple of `2^DOL_ALIGNMENT_BIT`.
pub const DOL_ALIGNMENT_BIT: u8 = 10;

/// The file system table starts at a multiple of `2^FST_ALIGNMENT_BIT`.
pub const FST_ALIGNMENT_BIT: u8 = 8;

/// The data of a file starts at a multiple of `2^FILE_START_BIT`.
pub const FILE_START_BIT: u8 = 5;

/// The space that the data of a file takes ends at a multiple of `2^FILE_END_BIT`.
pub const FILE_END_BIT: u8 = 2;

/// The most bytes of a file that are copied to an image at once.
pub const COPY_CHUNK: usize = 0x10_0000;

} // verus!
