use async_std::sync::Mutex;
use geckolib::vfs::{
    Directory, File, FileDataSource, FsError, GeckoFS, Node, NodeEnum, NodeEnumMut, NodeEnumRef,
    NodeType,
};
use std::sync::Arc;

type Disc = Vec<u8>;

fn file(name: &str, bytes: &[u8]) -> File<Disc> {
    let data = FileDataSource::Box(Arc::new(Mutex::new(bytes.to_vec().into_boxed_slice())));
    File::new(data, name, 0, bytes.len(), 0)
}

fn sample() -> Directory<Disc> {
    let mut root: Directory<Disc> = Directory::new("");
    root.add_file(file("a.txt", b"a"));
    let sub = root.mkdir("sub".to_string());
    sub.add_file(file("b.txt", b"bb"));
    let deep = sub.mkdir("deep".to_string());
    deep.add_file(file("c.txt", b"ccc"));
    root.add_file(file("d.txt", b"dddd"));
    root
}

fn names(dir: &Directory<Disc>) -> Vec<String> {
    dir.iter_recurse().iter().map(|f| f.name().to_string()).collect()
}

#[test]
fn new_directory_is_empty() {
    let dir: Directory<Disc> = Directory::new("x");
    assert_eq!(dir.name(), "x");
    assert_eq!(dir.iter().count(), 0);
    let owned: Directory<Disc> = Directory::new(String::from("y"));
    assert_eq!(owned.name(), "y");
}

#[test]
fn resolve_node_follows_directories() {
    let root = sample();
    for (path, len) in [("a.txt", 1), ("sub/b.txt", 2), ("sub/deep/c.txt", 3), ("d.txt", 4)] {
        match root.resolve_node(path) {
            Some(NodeEnumRef::File(f)) => assert_eq!(f.len(), len),
            _ => panic!("{}", path),
        }
    }
}

#[test]
fn resolve_node_refuses_other_paths() {
    let root = sample();
    for path in ["", "sub", "sub/", "/a.txt", "a.txt/", "sub//b.txt", "sub/x", "deep/c.txt", "a"] {
        assert!(root.resolve_node(path).is_none(), "{}", path);
    }
}

#[test]
fn an_empty_segment_is_a_name() {
    let mut root: Directory<Disc> = Directory::new("");
    root.mkdir(String::new()).add_file(file("", b"x"));
    assert!(matches!(root.resolve_node("/"), Some(NodeEnumRef::File(_))));
    assert!(root.resolve_node("").is_none());
}

#[test]
fn resolve_node_mut_changes_the_tree() {
    let mut root = sample();
    match root.resolve_node_mut("sub/deep/c.txt") {
        Some(NodeEnumMut::File(f)) => f.set_data(vec![1, 2, 3, 4, 5].into_boxed_slice()),
        _ => panic!("not found"),
    }
    assert_eq!(root.get_file("sub/deep/c.txt").unwrap().len(), 5);
    assert_eq!(root.get_file("sub/b.txt").unwrap().len(), 2);
    assert!(root.resolve_node_mut("sub/deep").is_none());
}

#[test]
fn get_file_names_what_is_missing() {
    let mut root = sample();
    let e = root.get_file("nope").err().unwrap();
    assert_eq!(e.message(), "\"nope\" not found in the directory \"\"");
    assert!(matches!(e, FsError::NotFound { .. }));
    let sub = root.mkdir("sub".to_string());
    let e = sub.get_file_mut("deep").err().unwrap();
    assert_eq!(e.message(), "\"deep\" not found in the directory \"sub\"");
    assert_eq!(sub.get_file_mut("deep/c.txt").unwrap().len(), 3);
}

#[test]
fn get_dir_never_finds_a_directory() {
    let mut root = sample();
    let e = root.get_dir("sub").err().unwrap();
    assert_eq!(e.message(), "\"sub\" not found in the directory \"\"");
    let e = root.get_dir("a.txt").err().unwrap();
    assert_eq!(e.message(), "\"a.txt\" is not a Directory!");
    assert!(matches!(e, FsError::NotADirectory { .. }));
    let e = root.get_dir_mut("sub/b.txt").err().unwrap();
    assert_eq!(e.message(), "\"sub/b.txt\" is not a Directory!");
    assert!(matches!(root.get_dir_mut("sub/deep"), Err(FsError::NotFound { .. })));
    assert_eq!(names(&root), ["a.txt", "b.txt", "c.txt", "d.txt"]);
}

#[test]
fn messages_of_the_other_errors() {
    let e = FsError::NotAFile { path: "p".to_string() };
    assert_eq!(e.message(), "\"p\" is not a File!");
    let e = FsError::InvalidName { bytes: vec![0xFF], text: "why".to_string() };
    assert_eq!(e.message(), "why");
}

#[test]
fn mkdir_finds_what_is_there() {
    let mut root = sample();
    assert_eq!(root.mkdir("sub".to_string()).iter().count(), 2);
    assert_eq!(root.mkdir("new".to_string()).iter().count(), 0);
    assert_eq!(root.iter().count(), 4);
    root.mkdir("new".to_string());
    assert_eq!(root.iter().count(), 4);
}

#[test]
fn add_file_keeps_what_is_there() {
    let mut root = sample();
    assert_eq!(root.add_file(file("a.txt", b"other")).len(), 1);
    assert_eq!(root.iter().count(), 3);
    assert_eq!(root.add_file(file("e.txt", b"other")).len(), 5);
    assert_eq!(root.get_file("e.txt").unwrap().len(), 5);
    root.add_file(file("e.txt", b"")).set_data(vec![9].into_boxed_slice());
    assert_eq!(root.get_file("e.txt").unwrap().len(), 1);
}

#[test]
fn can_hold_asks_for_the_kind() {
    let root = sample();
    assert!(root.can_hold("sub", NodeType::Directory));
    assert!(!root.can_hold("sub", NodeType::File));
    assert!(root.can_hold("a.txt", NodeType::File));
    assert!(!root.can_hold("a.txt", NodeType::Directory));
    assert!(root.can_hold("new", NodeType::File) && root.can_hold("new", NodeType::Directory));
}

#[test]
fn iter_gives_the_nodes_in_order() {
    let mut root = sample();
    let kinds: Vec<(String, NodeType)> =
        root.iter().map(|n| (n.name().to_string(), n.get_type())).collect();
    assert_eq!(
        kinds,
        [
            ("a.txt".to_string(), NodeType::File),
            ("sub".to_string(), NodeType::Directory),
            ("d.txt".to_string(), NodeType::File),
        ]
    );
    for node in root.iter_mut() {
        if let NodeEnum::File(f) = node {
            f.set_data(Vec::new().into_boxed_slice());
        }
    }
    assert!(root.get_file("a.txt").unwrap().is_empty());
    assert!(root.get_file("d.txt").unwrap().is_empty());
    assert_eq!(root.get_file("sub/b.txt").unwrap().len(), 2);
}

#[test]
fn iter_recurse_goes_depth_first() {
    assert_eq!(names(&sample()), ["a.txt", "b.txt", "c.txt", "d.txt"]);
}

#[test]
fn iter_recurse_mut_changes_the_files() {
    let mut root = sample();
    for (i, f) in root.iter_recurse_mut().into_iter().enumerate() {
        f.set_data(vec![0; 10 * (i + 1)].into_boxed_slice());
    }
    let lens: Vec<usize> = root.iter_recurse().iter().map(|f| f.len()).collect();
    assert_eq!(lens, [10, 20, 30, 40]);
    assert_eq!(names(&root), ["a.txt", "b.txt", "c.txt", "d.txt"]);
}

#[test]
fn nodes_are_what_they_are() {
    let mut f = file("f", b"xy");
    assert_eq!(f.get_type(), NodeType::File);
    assert!(f.as_directory_ref().is_none() && f.as_directory_mut().is_none());
    assert_eq!(f.as_file_ref().unwrap().len(), 2);
    assert!(matches!(f.as_enum_ref(), NodeEnumRef::File(_)));
    assert!(matches!(f.as_enum_mut(), NodeEnumMut::File(_)));
    assert!(f.clone().into_directory().is_none());
    assert!(matches!(f.into_enum(), NodeEnum::File(_)));

    let mut d = sample();
    assert_eq!(d.get_type(), NodeType::Directory);
    assert!(d.as_file_ref().is_none() && d.as_file_mut().is_none());
    assert!(matches!(d.as_enum_ref(), NodeEnumRef::Directory(_)));
    d.as_directory_mut().unwrap().mkdir("z".to_string());
    assert_eq!(d.as_directory_ref().unwrap().iter().count(), 4);
    assert!(matches!(d.into_enum(), NodeEnum::Directory(_)));
    assert!(sample().into_file().is_none());
}

#[test]
fn a_file_system_is_its_root_as_a_node() {
    let mut fs: GeckoFS<Disc> = GeckoFS::new();
    assert_eq!(fs.name(), "");
    assert_eq!(fs.sys().name(), "&&systemdata");
    assert_eq!(fs.get_type(), NodeType::Directory);
    fs.root_mut().add_file(file("f", b"x"));
    fs.sys_mut().add_file(file("s", b"y"));
    assert_eq!(fs.as_directory_ref().unwrap().iter().count(), 1);
    assert!(fs.as_file_ref().is_none());
    assert!(fs.sys().get_file("s").is_ok() && fs.root().get_file("s").is_err());
    assert_eq!(fs.into_directory().unwrap().get_file("f").unwrap().len(), 1);
    let empty: GeckoFS<Disc> = Default::default();
    assert_eq!(empty.root().iter().count() + empty.sys().iter().count(), 0);
}

#[test]
fn changing_a_file_system_as_a_node_keeps_the_system() {
    let mut fs: GeckoFS<Disc> = GeckoFS::new();
    fs.sys_mut().add_file(file("s", b"y"));
    match fs.as_enum_mut() {
        NodeEnumMut::Directory(root) => {
            root.add_file(file("f", b"x"));
        }
        NodeEnumMut::File(_) => panic!("a file system is no file"),
    }
    assert!(fs.root().get_file("f").is_ok());
    assert!(fs.sys().get_file("s").is_ok());
    assert_eq!((fs.root().iter().count(), fs.sys().iter().count()), (1, 1));
}

#[test]
fn a_resolved_file_is_among_all_files() {
    let root = sample();
    let f = root.get_file("sub/deep/c.txt").unwrap();
    assert!(root.iter_recurse().iter().any(|g| std::ptr::eq(*g, f)));
}

#[test]
fn putting_a_file_back_changes_nothing_else() {
    let mut root = sample();
    let before = root.get_file("sub/b.txt").unwrap().clone();
    *root.get_file_mut("sub/b.txt").unwrap() = before;
    assert_eq!(root.get_file("sub/b.txt").unwrap().len(), 2);
    assert_eq!(root.get_file("sub/deep/c.txt").unwrap().len(), 3);
    assert_eq!(names(&root), ["a.txt", "b.txt", "c.txt", "d.txt"]);
}

#[test]
fn what_was_added_stays_while_the_tree_grows() {
    let mut root: Directory<Disc> = Directory::new("");
    root.mkdir("a".to_string()).add_file(file("f", b"four"));
    root.add_file(file("f", b"x"));
    root.mkdir("b".to_string());
    let a = root.mkdir("a".to_string());
    a.add_file(file("f", b"other"));
    a.mkdir("g".to_string()).add_file(file("f", b"deeper"));
    assert_eq!(root.get_file("a/f").unwrap().len(), 4);
    assert_eq!(root.get_file("f").unwrap().len(), 1);
    assert_eq!(root.get_file("a/g/f").unwrap().len(), 6);
}

#[test]
fn a_walk_that_changes_nothing_changes_nothing() {
    let mut root = sample();
    assert_eq!(root.iter_recurse_mut().len(), 4);
    assert_eq!(names(&root), ["a.txt", "b.txt", "c.txt", "d.txt"]);
    assert_eq!(root.get_file("sub/deep/c.txt").unwrap().len(), 3);
}
