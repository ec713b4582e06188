//! A virtual file system for GameCube and Wii discs.
//!
//! [`vfs::GeckoFS`] holds the directory tree of a disc. It is read from the
//! file system table of a disc image and written back as a new image. The
//! library decides what to read, where, and what the bytes mean; whoever drives
//! it performs the input and output.

pub mod be;
pub mod iso;
pub mod text;
pub mod vfs;
