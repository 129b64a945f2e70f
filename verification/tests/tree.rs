use requester::storage::{build_tree, insert_node, is_shown, name_le, stands_before, FileNode, WalkEntry};
use std::path::{Path, PathBuf};

fn file(dir: &str, name: &str) -> WalkEntry {
    let path = Path::new(dir).join(name);
    WalkEntry::File {
        name: Some(name.to_string()),
        extension: path.extension().and_then(|e| e.to_str()).map(|e| e.to_string()),
        path,
    }
}

fn dir(parent: &str, name: &str, entries: Vec<WalkEntry>) -> WalkEntry {
    WalkEntry::Dir { name: Some(name.to_string()), path: Path::new(parent).join(name), entries }
}

fn file_node(path: &str, name: &str) -> FileNode {
    FileNode::File { name: name.to_string(), path: PathBuf::from(path) }
}

fn folder_node(path: &str, name: &str, children: Vec<FileNode>) -> FileNode {
    FileNode::Folder { name: name.to_string(), path: PathBuf::from(path), children }
}

fn names(node: &FileNode) -> Vec<String> {
    match node {
        FileNode::Folder { children, .. } => children.iter().map(|c| c.name().to_string()).collect(),
        FileNode::File { .. } => Vec::new(),
    }
}

#[test]
fn folders_come_first_and_each_kind_by_name() {
    let walk = dir(
        "/home/u",
        "requester",
        vec![
            file("/home/u/requester", "b.req"),
            file("/home/u/requester", "a.req"),
            dir("/home/u/requester", "z", vec![]),
        ],
    );
    let tree = build_tree(&walk);
    assert_eq!(names(&tree), vec!["z", "a.req", "b.req"]);
    assert_eq!(
        tree,
        folder_node(
            "/home/u/requester",
            "requester",
            vec![
                folder_node("/home/u/requester/z", "z", vec![]),
                file_node("/home/u/requester/a.req", "a.req"),
                file_node("/home/u/requester/b.req", "b.req"),
            ],
        )
    );
}

#[test]
fn a_file_without_the_request_extension_is_not_in_the_tree() {
    let walk = dir(
        "/r",
        "requester",
        vec![
            file("/r/requester", "notes.txt"),
            file("/r/requester", "a.req"),
            file("/r/requester", "req"),
            file("/r/requester", ".req"),
            file("/r/requester", "b.REQ"),
            file("/r/requester", "c.req.bak"),
            dir(
                "/r/requester",
                "sub.txt",
                vec![file("/r/requester/sub.txt", "notes.txt"), file("/r/requester/sub.txt", "x.tar.req")],
            ),
        ],
    );
    let tree = build_tree(&walk);
    assert_eq!(names(&tree), vec!["sub.txt", "a.req"]);
    match &tree {
        FileNode::Folder { children, .. } => assert_eq!(names(&children[0]), vec!["x.tar.req"]),
        FileNode::File { .. } => panic!("the base is a folder"),
    }
}

#[test]
fn a_walk_gives_the_same_tree_each_time() {
    let walk = dir(
        "/r",
        "requester",
        vec![
            file("/r/requester", "b.req"),
            dir("/r/requester", "k", vec![file("/r/requester/k", "z.req"), file("/r/requester/k", "y.req")]),
            file("/r/requester", "a.req"),
        ],
    );
    assert_eq!(build_tree(&walk), build_tree(&walk));
    assert_eq!(build_tree(&walk.clone()), build_tree(&walk));
}

#[test]
fn an_entry_without_a_name_is_named_after_the_base_folder() {
    let walk = WalkEntry::Dir {
        name: None,
        path: PathBuf::from("/"),
        entries: vec![WalkEntry::File {
            name: None,
            extension: Some("req".to_string()),
            path: PathBuf::from("/x.req"),
        }],
    };
    let tree = build_tree(&walk);
    assert_eq!(tree.name(), "requester");
    assert_eq!(names(&tree), vec!["requester"]);
}

#[test]
fn a_base_that_is_a_file_is_a_file_node() {
    let walk = file("/home/u", "requester");
    let tree = build_tree(&walk);
    assert_eq!(tree, file_node("/home/u/requester", "requester"));
}

#[test]
fn an_empty_directory_is_a_folder_without_children() {
    let tree = build_tree(&dir("/home/u", "requester", vec![]));
    assert_eq!(tree, folder_node("/home/u/requester", "requester", vec![]));
}

#[test]
fn name_and_path_are_those_of_the_node() {
    let f = file_node("/a/b.req", "b.req");
    assert_eq!(f.name(), "b.req");
    assert_eq!(f.path().as_path(), Path::new("/a/b.req"));
    let d = folder_node("/a", "a", vec![f]);
    assert_eq!(d.name(), "a");
    assert_eq!(d.path().as_path(), Path::new("/a"));
}

#[test]
fn names_are_ordered_as_std_orders_strings() {
    let samples =
        ["", "a", "A", "ab", "b", "a.req", "a req", "Z", "z", "\u{e9}", "e\u{301}", "\u{10000}", "\u{ffff}", "10", "9"];
    for a in samples {
        for b in samples {
            assert_eq!(name_le(a, b), a <= b, "{:?} {:?}", a, b);
        }
    }
}

#[test]
fn a_folder_stands_before_a_file_whatever_the_names() {
    let f = file_node("/a", "a");
    let d = folder_node("/z", "z", vec![]);
    assert!(stands_before(&d, &f));
    assert!(!stands_before(&f, &d));
    assert!(stands_before(&f, &f));
    assert!(stands_before(&file_node("/a", "a"), &file_node("/b", "b")));
    assert!(!stands_before(&folder_node("/b", "b", vec![]), &folder_node("/a", "a", vec![])));
}

#[test]
fn insert_node_goes_behind_its_equals() {
    let mut children = vec![
        folder_node("/1", "m", vec![]),
        file_node("/2", "a"),
        file_node("/3", "c"),
    ];
    insert_node(&mut children, file_node("/4", "a"));
    insert_node(&mut children, folder_node("/5", "z", vec![]));
    insert_node(&mut children, folder_node("/6", "a", vec![]));
    insert_node(&mut children, file_node("/7", "b"));
    let paths: Vec<&str> = children.iter().map(|c| c.path().to_str().unwrap()).collect();
    assert_eq!(paths, vec!["/6", "/1", "/5", "/2", "/4", "/7", "/3"]);
}

#[test]
fn the_tree_is_ordered_as_a_stable_sort_orders_it() {
    let raw = ["b.req", "a.req", "c.req", "B.req", "10.req", "9.req", "a.req"];
    let mut entries: Vec<WalkEntry> =
        raw.iter().enumerate().map(|(i, n)| file(&format!("/d{}", i), n)).collect();
    entries.insert(2, dir("/d", "y", vec![]));
    entries.push(dir("/d", "x", vec![]));
    let tree = build_tree(&dir("/", "requester", entries.clone()));
    let mut want: Vec<FileNode> = entries.iter().map(build_tree).collect();
    want.sort_by(|a, b| match (a, b) {
        (FileNode::Folder { .. }, FileNode::File { .. }) => std::cmp::Ordering::Less,
        (FileNode::File { .. }, FileNode::Folder { .. }) => std::cmp::Ordering::Greater,
        _ => a.name().cmp(b.name()),
    });
    match tree {
        FileNode::Folder { children, .. } => assert_eq!(children, want),
        FileNode::File { .. } => panic!("the base is a folder"),
    }
}

#[test]
fn is_shown_goes_by_kind_and_extension() {
    assert!(is_shown(&dir("/", "notes.txt", vec![])));
    assert!(is_shown(&file("/", "a.req")));
    assert!(!is_shown(&file("/", "a.txt")));
    assert!(!is_shown(&file("/", "req")));
    assert!(!is_shown(&WalkEntry::File { name: Some("a.req".to_string()), extension: None, path: PathBuf::from("/a.req") }));
}

#[test]
fn a_copy_of_a_node_equals_the_node() {
    let d = folder_node("/a", "a", vec![file_node("/a/b.req", "b.req"), folder_node("/a/c", "c", vec![])]);
    assert_eq!(d.clone(), d);
}

#[test]
fn the_tree_does_not_depend_on_the_order_of_the_listing() {
    let one = vec![
        file("/r", "b.req"),
        dir("/r", "k", vec![file("/r/k", "z.req"), file("/r/k", "y.req")]),
        file("/r", "a.req"),
        dir("/r", "c", vec![]),
        file("/r", "skip.txt"),
    ];
    let want = build_tree(&dir("/", "r", one.clone()));
    let orders: [[usize; 5]; 4] = [[4, 3, 2, 1, 0], [1, 0, 3, 2, 4], [2, 4, 0, 3, 1], [3, 1, 4, 0, 2]];
    for order in orders {
        let mut other: Vec<WalkEntry> = order.iter().map(|&i| one[i].clone()).collect();
        if let WalkEntry::Dir { entries, .. } = &mut other[order.iter().position(|&i| i == 1).unwrap()] {
            entries.reverse();
        }
        assert_eq!(build_tree(&dir("/", "r", other)), want);
    }
}
