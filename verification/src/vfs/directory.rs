//! Directories: searching them, adding to them, walking them.

use vstd::prelude::*;
use vstd::std_specs::iter::IteratorSpec;

use crate::text::{chars_of, find_segment_end, is_segment};
use super::tree::{
    add_file, all_files, can_add_file, can_mkdir, empty_dir, find, find_from,
    lemma_all_files_concat, lemma_all_files_one, lemma_find_from, mkdir, node_files, put_file,
    resolve, same_shape,
};
use super::tree_laws::law_put_back;
use super::{
    lemma_dir_update, lemma_dir_view, lemma_node_view, nodes_view, DirView, Directory, File,
    FileView, FsError, FsErrorView, Node, NodeEnum, NodeEnumMut, NodeEnumRef, NodeType,
    NodeView,
};

verus! {

/// The first node named `name[from..to]`, of the given kind if one is given, or
/// the number of nodes.
fn find_node<R>(
    nodes: &Vec<NodeEnum<R>>,
    name: &[char],
    from: usize,
    to: usize,
    kind: Option<NodeType>,
) -> (index: usize)
    requires
        from <= to <= name@.len(),
    ensures
        index == find(nodes_view(nodes@), name@.subrange(from as int, to as int), kind),
        index <= nodes@.len(),
{
    let mut i: usize = 0;
    while i < nodes.len()
        invariant
            from <= to <= name@.len(),
            i <= nodes@.len(),
            find(nodes_view(nodes@), name@.subrange(from as int, to as int), kind) == find_from(
                nodes_view(nodes@),
                name@.subrange(from as int, to as int),
                kind,
                i as int,
            ),
        decreases nodes@.len() - i,
    {
        let node = &nodes[i];
        let right_kind = match kind {
            Some(k) => k == node.get_type(),
            None => true,
        };
        if right_kind && is_segment(node.name(), name, from, to) {
            return i;
        }
        i += 1;
    }
    i
}

/// The file that `path[from..]` leads to.
#[verifier::rlimit(40)]
fn find_file_mut<'a, R>(dir: &'a mut Directory<R>, path: &[char], from: usize) -> (file: Option<
    &'a mut File<R>,
>)
    requires
        from <= path@.len(),
    ensures
        match file {
            Some(f) => resolve(old(dir)@, path@.skip(from as int)) == Some(f@) && final(dir)@
                == put_file(old(dir)@, path@.skip(from as int), (*final(f))@),
            None => resolve(old(dir)@, path@.skip(from as int)) is None && final(dir)@
                == old(dir)@,
        },
    decreases path@.len() - from,
{
    let ghost rest = path@.skip(from as int);
    let end = find_segment_end(path, from);
    if end >= path.len() {
        let index = find_node(&dir.children, path, from, end, Some(NodeType::File));
        proof {
            lemma_dir_view(*dir);
            assert(path@.subrange(from as int, end as int) =~= rest);
            lemma_find_from(dir@.children, rest, Some(NodeType::File), 0);
        }
        if index >= dir.children.len() {
            return None;
        }
        proof {
            lemma_dir_update(*dir, index as int);
            assert(dir@.children[index as int] == dir.children@[index as int]@);
        }
        dir.children[index].as_file_mut()
    } else {
        let index = find_node(&dir.children, path, from, end, Some(NodeType::Directory));
        proof {
            lemma_dir_view(*dir);
            assert(path@.subrange(from as int, end as int) =~= rest.take(end - from));
            assert(rest.skip(end - from + 1) =~= path@.skip(end + 1));
            lemma_find_from(
                dir@.children,
                rest.take(end - from),
                Some(NodeType::Directory),
                0,
            );
        }
        if index >= dir.children.len() {
            return None;
        }
        proof {
            lemma_dir_update(*dir, index as int);
            assert(dir@.children[index as int] == dir.children@[index as int]@);
        }
        let child = dir.children[index].as_directory_mut().unwrap();
        find_file_mut(child, path, end + 1)
    }
}

/// Appends the files of `nodes` to `out`, depth first.
fn collect_files<'a, R>(nodes: &'a [NodeEnum<R>], out: &mut Vec<&'a File<R>>)
    ensures
        final(out)@.len() >= old(out)@.len(),
        final(out)@.take(old(out)@.len() as int) == old(out)@,
        files_seen(final(out)@.skip(old(out)@.len() as int)) == all_files(nodes_view(nodes@)),
    decreases nodes@,
{
    let mut i: usize = 0;
    assert(nodes_view(nodes@).take(0) =~= Seq::empty());
    assert(files_seen(out@.skip(out@.len() as int)) =~= Seq::empty());
    while i < nodes.len()
        invariant
            i <= nodes@.len(),
            out@.len() >= old(out)@.len(),
            out@.take(old(out)@.len() as int) == old(out)@,
            files_seen(out@.skip(old(out)@.len() as int)) == all_files(
                nodes_view(nodes@).take(i as int),
            ),
        decreases nodes@.len() - i,
    {
        let ghost before = out@;
        let ghost n0 = old(out)@.len() as int;
        match &nodes[i] {
            NodeEnum::File(f) => {
                out.push(f);
                assert(files_seen(out@.skip(before.len() as int)) =~= seq![f@]);
            },
            NodeEnum::Directory(d) => {
                proof {
                    lemma_dir_view(*d);
                }
                collect_files(d.children.as_slice(), out);
            },
        }
        proof {
            let all = nodes_view(nodes@);
            assert(all.take(i + 1).drop_last() =~= all.take(i as int));
            assert(all.take(i + 1).last() == nodes@[i as int]@);
            let added = out@.skip(before.len() as int);
            assert(files_seen(added) == node_files(nodes@[i as int]@));
            assert(out@ =~= before + added);
            assert(out@.take(n0) =~= before.take(n0));
            assert(files_seen(out@.skip(n0)) =~= files_seen(before.skip(n0)) + files_seen(added));
        }
        i += 1;
    }
    assert(nodes_view(nodes@).take(i as int) =~= nodes_view(nodes@));
}

/// Appends the files of `node` to `out`, depth first, for changes.
fn collect_node_mut<'a, R>(node: &'a mut NodeEnum<R>, out: &mut Vec<&'a mut File<R>>)
    ensures
        same_shape(old(node)@, final(node)@),
        ({
            let n = old(out)@.len() as int;
            let before = node_files(old(node)@);
            let after = node_files(final(node)@);
            &&& final(out)@.len() == n + before.len()
            &&& forall|i: int| 0 <= i < n ==> #[trigger] final(out)@[i] == old(out)@[i]
            &&& forall|i: int|
                n <= i < final(out)@.len() ==> (*#[trigger] final(out)@[i])@ == before[i - n]
            &&& after.len() == before.len()
            &&& forall|i: int|
                n <= i < final(out)@.len() ==> (*final(#[trigger] final(out)@[i]))@ == after[i - n]
        }),
    decreases *old(node), 0nat,
{
    broadcast use {lemma_dir_view, lemma_node_view};

    match node {
        NodeEnum::File(f) => out.push(f),
        NodeEnum::Directory(d) => collect_files_mut(d.children.as_mut_slice(), out),
    }
}

/// The files of two runs of nodes, one after the other.
proof fn lemma_files_split<R>(all: Seq<NodeEnum<R>>, half: int)
    requires
        0 <= half <= all.len(),
    ensures
        all_files(nodes_view(all)) == all_files(nodes_view(all.subrange(0, half))) + all_files(
            nodes_view(all.subrange(half, all.len() as int)),
        ),
        forall|i: int|
            0 <= i < all.len() ==> #[trigger] all[i]@ == if i < half {
                all.subrange(0, half)[i]@
            } else {
                all.subrange(half, all.len() as int)[i - half]@
            },
        forall|a: Seq<NodeEnum<R>>, b: Seq<NodeEnum<R>>|
            all_files(#[trigger] nodes_view(a + b)) == all_files(nodes_view(a)) + all_files(
                nodes_view(b),
            ),
{
    assert forall|a: Seq<NodeEnum<R>>, b: Seq<NodeEnum<R>>|
        all_files(#[trigger] nodes_view(a + b)) == all_files(nodes_view(a)) + all_files(
            nodes_view(b),
        ) by {
        assert(nodes_view(a + b) =~= nodes_view(a) + nodes_view(b));
        lemma_all_files_concat(nodes_view(a), nodes_view(b));
    }
    let left = all.subrange(0, half);
    let right = all.subrange(half, all.len() as int);
    assert(all =~= left + right);
    assert(nodes_view(all) == nodes_view(left + right));
}

/// The files of a single node.
proof fn lemma_files_one<R>()
    ensures
        forall|s: Seq<NodeEnum<R>>|
            s.len() == 1 ==> all_files(#[trigger] nodes_view(s)) == node_files(s[0]@),
{
    assert forall|s: Seq<NodeEnum<R>>| s.len() == 1 implies all_files(#[trigger] nodes_view(s))
        == node_files(s[0]@) by {
        lemma_all_files_one(nodes_view(s));
    }
}

/// Appends the files of `nodes` to `out`, depth first, for changes.
#[verifier::rlimit(40)]
fn collect_files_mut<'a, R>(nodes: &'a mut [NodeEnum<R>], out: &mut Vec<&'a mut File<R>>)
    ensures
        final(nodes)@.len() == old(nodes)@.len(),
        forall|i: int|
            0 <= i < old(nodes)@.len() ==> same_shape(
                #[trigger] old(nodes)@[i]@,
                final(nodes)@[i]@,
            ),
        ({
            let n = old(out)@.len() as int;
            let before = all_files(nodes_view(old(nodes)@));
            let after = all_files(nodes_view(final(nodes)@));
            &&& final(out)@.len() == n + before.len()
            &&& forall|i: int| 0 <= i < n ==> #[trigger] final(out)@[i] == old(out)@[i]
            &&& forall|i: int|
                n <= i < final(out)@.len() ==> (*#[trigger] final(out)@[i])@ == before[i - n]
            &&& after.len() == before.len()
            &&& forall|i: int|
                n <= i < final(out)@.len() ==> (*final(#[trigger] final(out)@[i]))@ == after[i - n]
        }),
    decreases old(nodes)@, 1 + old(nodes)@.len(),
{
    if nodes.len() == 0 {
        return;
    }
    if nodes.len() == 1 {
        proof {
            lemma_files_one::<R>();
        }
        collect_node_mut(&mut nodes[0], out);
    } else {
        let half = nodes.len() / 2;
        proof {
            lemma_files_split(nodes@, half as int);
        }
        let (left, right) = nodes.split_at_mut(half);
        collect_files_mut(left, out);
        collect_files_mut(right, out);
    }
}

/// The files behind a sequence of references.
pub open spec fn files_seen<R>(files: Seq<&File<R>>) -> Seq<FileView<R>> {
    Seq::new(files.len(), |i: int| files[i]@)
}

/// What a sequence of references to files holds now.
pub open spec fn files_held<R>(files: Seq<&mut File<R>>) -> Seq<FileView<R>> {
    Seq::new(files.len(), |i: int| (*files[i])@)
}

impl<R> Directory<R> {
    /// An empty directory.
    pub fn new<S: Into<String>>(name: S) -> (dir: Directory<R>)
        ensures
            exists|n: String|
                #[trigger] call_ensures(S::into, (name,), n) && dir@ == empty_dir::<R>(n@)
                    && dir@.name == n@,
            dir@.children.len() == 0,
    {
        let name = name.into();
        let dir = Directory { name, children: Vec::new() };
        assert(dir@.children =~= empty_dir::<R>(name@).children);
        dir
    }

    /// The node that `path` leads to. The last segment of a path names a file, so
    /// a directory is never found.
    pub fn resolve_node(&self, path: &str) -> (node: Option<NodeEnumRef<'_, R>>)
        ensures
            match node {
                Some(NodeEnumRef::File(f)) => resolve(self@, path@) == Some(f@),
                Some(NodeEnumRef::Directory(_)) => false,
                None => resolve(self@, path@) is None,
            },
    {
        let chars = chars_of(path);
        let mut dir = self;
        let mut from: usize = 0;
        assert(chars@.skip(0) =~= chars@);
        loop
            invariant
                chars@ == path@,
                from <= chars@.len(),
                resolve(self@, path@) == resolve(dir@, chars@.skip(from as int)),
            decreases chars@.len() - from,
        {
            let ghost rest = chars@.skip(from as int);
            let end = find_segment_end(chars.as_slice(), from);
            let is_last = end >= chars.len();
            let kind = if is_last {
                NodeType::File
            } else {
                NodeType::Directory
            };
            let index = find_node(&dir.children, chars.as_slice(), from, end, Some(kind));
            proof {
                lemma_dir_view(*dir);
                assert(chars@.subrange(from as int, end as int) =~= rest.take(end - from));
                if is_last {
                    assert(rest.take(end - from) =~= rest);
                } else {
                    assert(rest.skip(end - from + 1) =~= chars@.skip(end + 1));
                }
                lemma_find_from(nodes_view(dir.children@), rest.take(end - from), Some(kind), 0);
            }
            if index >= dir.children.len() {
                return None;
            }
            assert(nodes_view(dir.children@)[index as int] == dir.children@[index as int]@);
            match &dir.children[index] {
                NodeEnum::File(f) => {
                    return Some(NodeEnumRef::File(f));
                },
                NodeEnum::Directory(d) => {
                    dir = d;
                    from = end + 1;
                },
            }
        }
    }

    /// The node that `path` leads to, for changes.
    pub fn resolve_node_mut(&mut self, path: &str) -> (node: Option<NodeEnumMut<'_, R>>)
        ensures
            match node {
                Some(NodeEnumMut::File(f)) => resolve(old(self)@, path@) == Some(f@)
                    && final(self)@ == put_file(old(self)@, path@, (*final(f))@),
                Some(NodeEnumMut::Directory(_)) => false,
                None => resolve(old(self)@, path@) is None && final(self)@ == old(self)@,
            },
    {
        let path = chars_of(path);
        assert(path@.skip(0) =~= path@);
        match find_file_mut(self, path.as_slice(), 0) {
            Some(file) => Some(NodeEnumMut::File(file)),
            None => None,
        }
    }

    /// Whether the directory can have a node of this name and kind: no node of the
    /// other kind comes first under that name.
    pub fn can_hold(&self, name: &str, kind: NodeType) -> (can: bool)
        ensures
            can == match kind {
                NodeType::File => can_add_file(self@, name@),
                NodeType::Directory => can_mkdir(self@, name@),
            },
    {
        let key = chars_of(name);
        let index = find_node(&self.children, key.as_slice(), 0, key.len(), None);
        proof {
            lemma_dir_view(*self);
            assert(key@.subrange(0, key@.len() as int) =~= name@);
        }
        index >= self.children.len() || self.children[index].get_type() == kind
    }

    /// The directory named `name` in this one, made if there is none.
    pub fn mkdir(&mut self, name: String) -> (dir: &mut Directory<R>)
        requires
            can_mkdir(old(self)@, name@),
        ensures
            ({
                let after = mkdir(old(self)@, name@);
                let i = find(old(self)@.children, name@, None);
                &&& 0 <= i < after.children.len()
                &&& after.children[i] == NodeView::Directory(dir@)
                &&& final(self)@ == DirView {
                    children: after.children.update(i, NodeView::Directory((*final(dir))@)),
                    ..after
                }
            }),
    {
        let key = chars_of(name.as_str());
        let index = find_node(&self.children, key.as_slice(), 0, key.len(), None);
        proof {
            lemma_dir_view(*self);
            assert(key@.subrange(0, key@.len() as int) =~= name@);
            lemma_find_from(nodes_view(self.children@), name@, None, 0);
        }
        let ghost n = name@;
        if index >= self.children.len() {
            self.children.push(NodeEnum::Directory(Directory::new(name)));
        }
        proof {
            lemma_dir_view(*self);
            assert(self@.children =~= mkdir(old(self)@, n).children);
            lemma_dir_update(*self, index as int);
            assert(self@.children[index as int] == self.children@[index as int]@);
        }
        self.children[index].as_directory_mut().unwrap()
    }

    /// The file with `file`'s name in this directory: the one that is there, else
    /// `file`, which is added.
    pub fn add_file(&mut self, file: File<R>) -> (f: &mut File<R>)
        requires
            can_add_file(old(self)@, file@.fst.relative_file_name),
        ensures
            ({
                let after = add_file(old(self)@, file@);
                let i = find(old(self)@.children, file@.fst.relative_file_name, None);
                &&& 0 <= i < after.children.len()
                &&& after.children[i] == NodeView::File(f@)
                &&& final(self)@ == DirView {
                    children: after.children.update(i, NodeView::File((*final(f))@)),
                    ..after
                }
            }),
    {
        let key = chars_of(file.name());
        let index = find_node(&self.children, key.as_slice(), 0, key.len(), None);
        proof {
            lemma_dir_view(*self);
            assert(key@.subrange(0, key@.len() as int) =~= file@.fst.relative_file_name);
            lemma_find_from(
                nodes_view(self.children@),
                file@.fst.relative_file_name,
                None,
                0,
            );
        }
        let ghost added = file@;
        if index >= self.children.len() {
            self.children.push(NodeEnum::File(file));
        }
        proof {
            lemma_dir_view(*self);
            assert(self@.children =~= add_file(old(self)@, added).children);
            lemma_dir_update(*self, index as int);
            assert(self@.children[index as int] == self.children@[index as int]@);
        }
        self.children[index].as_file_mut().unwrap()
    }

    /// The nodes of the directory, in order.
    pub fn iter(&self) -> (nodes: std::slice::Iter<'_, NodeEnum<R>>)
        ensures
            nodes.remaining().len() == self@.children.len(),
            forall|i: int|
                0 <= i < self@.children.len() ==> (*#[trigger] nodes.remaining()[i])@
                    == self@.children[i],
    {
        proof {
            lemma_dir_view(*self);
        }
        self.children.iter()
    }

    /// The nodes of the directory, in order, for changes.
    pub fn iter_mut(&mut self) -> (nodes: &mut [NodeEnum<R>])
        ensures
            nodes@.len() == old(self)@.children.len(),
            forall|i: int|
                0 <= i < nodes@.len() ==> (#[trigger] nodes@[i])@ == old(self)@.children[i],
            final(self)@.name == old(self)@.name,
            final(self)@.children.len() == final(nodes)@.len(),
            forall|i: int|
                0 <= i < final(nodes)@.len() ==> (#[trigger] final(nodes)@[i])@
                    == final(self)@.children[i],
            nodes_view(nodes@) == old(self)@.children,
            final(self)@ == (DirView {
                name: old(self)@.name,
                children: nodes_view(final(nodes)@),
            }),
    {
        broadcast use lemma_dir_view;

        self.children.as_mut_slice()
    }

    /// The files of the directory and of all directories in it, depth first.
    pub fn iter_recurse(&self) -> (files: Vec<&File<R>>)
        ensures
            files@.len() == all_files(self@.children).len(),
            forall|i: int|
                0 <= i < files@.len() ==> (#[trigger] files@[i])@ == all_files(self@.children)[i],
            files_seen(files@) == all_files(self@.children),
    {
        let mut files: Vec<&File<R>> = Vec::new();
        proof {
            lemma_dir_view(*self);
        }
        collect_files(self.children.as_slice(), &mut files);
        assert(files@.skip(0) =~= files@);
        files
    }

    /// The files of the directory and of all directories in it, depth first, for
    /// changes.
    pub fn iter_recurse_mut(&mut self) -> (files: Vec<&mut File<R>>)
        ensures
            files@.len() == all_files(old(self)@.children).len(),
            forall|i: int|
                0 <= i < files@.len() ==> (*#[trigger] files@[i])@ == all_files(
                    old(self)@.children,
                )[i],
            files_held(files@) == all_files(old(self)@.children),
            same_shape(NodeView::Directory(old(self)@), NodeView::Directory(final(self)@)),
            all_files(final(self)@.children) =~= Seq::new(
                files@.len(),
                |i: int| (*final(files@[i]))@,
            ),
    {
        broadcast use lemma_dir_view;

        let mut files: Vec<&mut File<R>> = Vec::new();
        let ghost before = self@.children;
        collect_files_mut(self.children.as_mut_slice(), &mut files);
        assert(files_held(files@) =~= all_files(before));
        files
    }

    /// The file that `path` leads to.
    pub fn get_file(&self, path: &str) -> (file: Result<&File<R>, FsError>)
        ensures
            match file {
                Ok(f) => resolve(self@, path@) == Some(f@),
                Err(e) => resolve(self@, path@) is None && e@ == (FsErrorView::NotFound {
                    path: path@,
                    dir: self@.name,
                }),
            },
    {
        match self.resolve_node(path) {
            None => Err(
                FsError::NotFound { path: path.to_owned(), dir: self.name().to_owned() },
            ),
            Some(NodeEnumRef::File(f)) => Ok(f),
            Some(NodeEnumRef::Directory(_)) => Err(FsError::NotAFile { path: path.to_owned() }),
        }
    }

    /// The file that `path` leads to, for changes.
    pub fn get_file_mut(&mut self, path: &str) -> (file: Result<&mut File<R>, FsError>)
        ensures
            match file {
                Ok(f) => resolve(old(self)@, path@) == Some(f@) && final(self)@ == put_file(
                    old(self)@,
                    path@,
                    (*final(f))@,
                ),
                Err(e) => resolve(old(self)@, path@) is None && final(self)@ == old(self)@ && e@
                    == (FsErrorView::NotFound { path: path@, dir: old(self)@.name }),
            },
    {
        let own_name = self.name().to_owned();
        match self.resolve_node_mut(path) {
            None => Err(FsError::NotFound { path: path.to_owned(), dir: own_name }),
            Some(NodeEnumMut::File(f)) => Ok(f),
            Some(NodeEnumMut::Directory(_)) => Err(FsError::NotAFile { path: path.to_owned() }),
        }
    }

    /// The directory that `path` leads to. A path leads to files only, so this
    /// tells which of two errors holds: nothing is there, or a file is.
    pub fn get_dir(&self, path: &str) -> (dir: Result<&Directory<R>, FsError>)
        ensures
            dir is Err,
            dir->Err_0@ == match resolve(self@, path@) {
                None => FsErrorView::NotFound { path: path@, dir: self@.name },
                Some(_) => FsErrorView::NotADirectory { path: path@ },
            },
    {
        match self.resolve_node(path) {
            None => Err(
                FsError::NotFound { path: path.to_owned(), dir: self.name().to_owned() },
            ),
            Some(NodeEnumRef::Directory(d)) => Ok(d),
            Some(NodeEnumRef::File(_)) => Err(
                FsError::NotADirectory { path: path.to_owned() },
            ),
        }
    }

    /// The directory that `path` leads to, for changes. Like [`Directory::get_dir`]
    /// it tells which of two errors holds.
    pub fn get_dir_mut(&mut self, path: &str) -> (dir: Result<&mut Directory<R>, FsError>)
        ensures
            dir is Err,
            dir->Err_0@ == match resolve(old(self)@, path@) {
                None => FsErrorView::NotFound { path: path@, dir: old(self)@.name },
                Some(_) => FsErrorView::NotADirectory { path: path@ },
            },
            final(self)@ == old(self)@,
    {
        proof {
            if resolve(self@, path@) is Some {
                law_put_back(self@, path@);
            }
        }
        let own_name = self.name().to_owned();
        match self.resolve_node_mut(path) {
            None => Err(FsError::NotFound { path: path.to_owned(), dir: own_name }),
            Some(NodeEnumMut::Directory(d)) => Ok(d),
            Some(NodeEnumMut::File(_)) => Err(
                FsError::NotADirectory { path: path.to_owned() },
            ),
        }
    }
}

} // verus!
