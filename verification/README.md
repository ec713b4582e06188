# geckolib

The virtual file system of GameCube and Wii discs: a tree of files and directories
that is read from a disc, changed in memory, and written to a new image. The library
is verified with Verus.

## Layout

- `src/be.rs`, `src/text.rs`: big-endian words; names, paths and UTF-8.
- `src/iso/`: the disc format. Header positions, alignment, the unit of offsets, and
  the entries of the file system table.
- `src/vfs/`: the file system.
  - `tree.rs`, `tree_laws.rs`, `growth.rs`: trees as values, what searching and
    extending them means, and what follows from it.
  - `node.rs`, `directory.rs`, `file.rs`, `gecko_fs.rs`: the types and their methods.
  - `assemble.rs`, `parse.rs`: from the bytes of a disc to a tree.
  - `table.rs`, `serialize.rs`, `progress.rs`: from a tree to the bytes of an image.
  - `lock.rs`: the locks before bytes in memory.
  - `image.rs`, `reread.rs`, `round_trip.rs`, `rewrite.rs`, `disc_kinds.rs`: an image
    as a whole, the proof that what is written is read back and is written the same
    again, and what the images for the two kinds of discs have in common.
- `tests/`: the library from outside, on concrete discs.
- `app/`: files as asynchronous streams, and the loops that run the parser and the
  writer on real discs.

## How the library meets a disc

The library does no I/O. A parser (`vfs::parse::FsParser`), a writer
(`vfs::serialize::DiscWriter`) and a file (`vfs::File`) each say what they need next,
and are handed it. The type parameter `R` of the tree is the shared handle to the disc
that a file lies on; the library passes it along and never looks into it.

## What is trusted

Two functions of `byteorder` in `src/be.rs`, four of the standard library in
`src/text.rs`, and the lock of `async-std` in `src/vfs/lock.rs`, of whose answers and
of the bytes behind it nothing is claimed. Each one's contract is stated where it is
declared.
