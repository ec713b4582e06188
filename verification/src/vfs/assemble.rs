//! From the entries of a file system table to the tree that they describe.

use std::sync::Arc;
use vstd::prelude::*;

use crate::iso::{FstEntry, FstEntryView, FstNodeType};
use super::file::new_file;
use super::tree::{add_file, can_add_file, can_mkdir, find, mkdir};
use super::{
    DataView, DirView, Directory, File, FileDataSource, FileView, GeckoFS, NodeType, NodeView,
};

verus! {

/// The file on a disc that an entry describes.
pub open spec fn entry_file<R>(e: FstEntryView, reader: R) -> FileView<R> {
    new_file(
        DataView::Reader(reader),
        e.relative_file_name,
        e.file_offset_parent_dir,
        e.file_size_next_dir_index,
        e.file_name_offset,
    )
}

/// `parent` with what the entry at `cur` describes, and the last index that
/// belongs to that. A file takes one entry; a directory takes all up to the one
/// before its next index.
///
/// There is no such tree where an entry has no place in `parent`, because a node
/// of the other kind has its name; where a directory says that it ends before the
/// table starts; or where the table ends too early.
pub open spec fn build_entry<R>(
    entries: Seq<FstEntryView>,
    cur: int,
    parent: DirView<R>,
    reader: R,
) -> Option<(int, DirView<R>)>
    decreases entries.len() - cur, 1nat,
{
    if !(0 <= cur < entries.len()) {
        None
    } else {
        let e = entries[cur];
        let name = e.relative_file_name;
        match e.kind {
            FstNodeType::File => if can_add_file(parent, name) {
                Some((cur, add_file(parent, entry_file(e, reader))))
            } else {
                None
            },
            FstNodeType::Directory => if can_mkdir(parent, name) && e.file_size_next_dir_index > 0 {
                let at = find(parent.children, name, None);
                let made = mkdir(parent, name);
                let last = e.file_size_next_dir_index - 1;
                match build_range(entries, cur, last, made.children[at]->Directory_0, reader) {
                    Some((end, dir)) => Some(
                        (
                            end,
                            DirView {
                                children: made.children.update(at, NodeView::Directory(dir)),
                                ..made
                            },
                        ),
                    ),
                    None => None,
                }
            } else {
                None
            },
        }
    }
}

/// `dir` with what the entries after `cur` describe, until the last index that is
/// used up is `last` or more, and that index.
pub open spec fn build_range<R>(
    entries: Seq<FstEntryView>,
    cur: int,
    last: int,
    dir: DirView<R>,
    reader: R,
) -> Option<(int, DirView<R>)>
    decreases entries.len() - cur, 0nat,
{
    if cur >= last {
        Some((cur, dir))
    } else if !(0 <= cur && cur + 1 < entries.len()) {
        None
    } else {
        match build_entry(entries, cur + 1, dir, reader) {
            Some((end, next)) => if cur < end < entries.len() {
                build_range(entries, end, last, next, reader)
            } else {
                None
            },
            None => None,
        }
    }
}

/// Building uses up entries of the table, one at least.
pub(crate) proof fn lemma_build_entry_end<R>(
    entries: Seq<FstEntryView>,
    cur: int,
    parent: DirView<R>,
    reader: R,
)
    ensures
        build_entry(entries, cur, parent, reader) matches Some((end, _)) ==> cur <= end
            < entries.len(),
    decreases entries.len() - cur, 1nat,
{
    if 0 <= cur < entries.len() && entries[cur].kind == FstNodeType::Directory {
        let e = entries[cur];
        let made = mkdir(parent, e.relative_file_name);
        let at = find(parent.children, e.relative_file_name, None);
        lemma_build_range_end(
            entries,
            cur,
            e.file_size_next_dir_index - 1,
            made.children[at]->Directory_0,
            reader,
        );
    }
}

pub(crate) proof fn lemma_build_range_end<R>(
    entries: Seq<FstEntryView>,
    cur: int,
    last: int,
    dir: DirView<R>,
    reader: R,
)
    requires
        cur < entries.len(),
    ensures
        build_range(entries, cur, last, dir, reader) matches Some((end, _)) ==> cur <= end
            < entries.len() && last <= end,
    decreases entries.len() - cur, 0nat,
{
    if cur < last && 0 <= cur && cur + 1 < entries.len() {
        if let Some((end, next)) = build_entry(entries, cur + 1, dir, reader) {
            if cur < end < entries.len() {
                lemma_build_range_end(entries, end, last, next, reader);
            }
        }
    }
}

/// The entries of a table as values.
pub open spec fn entries_view(fst: Seq<FstEntry>) -> Seq<FstEntryView> {
    Seq::new(fst.len(), |i: int| fst[i]@)
}

/// Adds to `parent_dir` what the entry at `*cur_index` describes. Says whether
/// there is such a tree; where there is none, `parent_dir` is left unfinished.
pub(crate) fn try_build_entry<R>(
    cur_index: &mut usize,
    fst: &Vec<FstEntry>,
    parent_dir: &mut Directory<R>,
    reader: &Arc<R>,
) -> (ok: bool)
    ensures
        match build_entry(entries_view(fst@), *old(cur_index) as int, old(parent_dir)@, **reader) {
            Some((end, dir)) => ok && *final(cur_index) == end && final(parent_dir)@ == dir,
            None => !ok,
        },
    decreases fst@.len() - *old(cur_index), 1nat,
{
    if *cur_index >= fst.len() {
        return false;
    }
    let entry = &fst[*cur_index];
    assert(entries_view(fst@)[*cur_index as int] == entry@);
    match entry.kind {
        FstNodeType::Directory => {
            if !parent_dir.can_hold(entry.relative_file_name.as_str(), NodeType::Directory) {
                return false;
            }
            if entry.file_size_next_dir_index == 0 {
                return false;
            }
            let last: usize = entry.file_size_next_dir_index - 1;
            let dir = parent_dir.mkdir(entry.relative_file_name.clone());
            try_build_range(cur_index, last, fst, dir, reader)
        },
        FstNodeType::File => {
            if !parent_dir.can_hold(entry.relative_file_name.as_str(), NodeType::File) {
                return false;
            }
            parent_dir.add_file(
                File::new(
                    FileDataSource::Reader(reader.clone()),
                    entry.relative_file_name.clone(),
                    entry.file_offset_parent_dir,
                    entry.file_size_next_dir_index,
                    entry.file_name_offset,
                ),
            );
            assert(parent_dir@.children =~= add_file(
                old(parent_dir)@,
                entry_file(entry@, **reader),
            ).children);
            true
        },
    }
}

/// Adds to `dir` what the entries after `*cur_index` describe, until `last` is
/// used up. Says whether there is such a tree; where there is none, `dir` is left
/// unfinished.
pub(crate) fn try_build_range<R>(
    cur_index: &mut usize,
    last: usize,
    fst: &Vec<FstEntry>,
    dir: &mut Directory<R>,
    reader: &Arc<R>,
) -> (ok: bool)
    ensures
        match build_range(
            entries_view(fst@),
            *old(cur_index) as int,
            last as int,
            old(dir)@,
            **reader,
        ) {
            Some((end, built)) => ok && *final(cur_index) == end && final(dir)@ == built,
            None => !ok,
        },
    decreases fst@.len() - *old(cur_index), 0nat,
{
    while *cur_index < last
        invariant
            *cur_index >= *old(cur_index),
            build_range(
                entries_view(fst@),
                *old(cur_index) as int,
                last as int,
                old(dir)@,
                **reader,
            ) == build_range(entries_view(fst@), *cur_index as int, last as int, dir@, **reader),
        decreases fst@.len() - *cur_index,
    {
        if fst.len() == 0 || *cur_index >= fst.len() - 1 {
            return false;
        }
        proof {
            let disc = **reader;
            lemma_build_entry_end(entries_view(fst@), *cur_index + 1, dir@, disc);
        }
        *cur_index = *cur_index + 1;
        if !try_build_entry(cur_index, fst, dir, reader) {
            return false;
        }
    }
    true
}

impl<R> GeckoFS<R> {
    /// Adds to `parent_dir` what the entry at `*cur_index` describes, and moves
    /// `*cur_index` to the last entry that belongs to it.
    pub fn get_dir_structure_recursive(
        cur_index: &mut usize,
        fst: &Vec<FstEntry>,
        parent_dir: &mut Directory<R>,
        reader: &Arc<R>,
    )
        requires
            build_entry(
                entries_view(fst@),
                *old(cur_index) as int,
                old(parent_dir)@,
                **reader,
            ) is Some,
        ensures
            build_entry(entries_view(fst@), *old(cur_index) as int, old(parent_dir)@, **reader)
                == Some((*final(cur_index) as int, final(parent_dir)@)),
    {
        try_build_entry(cur_index, fst, parent_dir, reader);
    }
}

} // verus!
