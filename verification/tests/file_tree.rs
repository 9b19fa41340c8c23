use code_reader::error::Error;
use code_reader::file_explorer::{hidden_name, sort_nodes, FileExplorer, FileNode, FsEntry};

fn file(name: &str, path: &str) -> FsEntry {
    FsEntry::File { file_name: Some(name.to_string()), path: path.to_string() }
}

fn dir(name: &str, path: &str, entries: Vec<FsEntry>) -> FsEntry {
    FsEntry::Directory { file_name: Some(name.to_string()), path: path.to_string(), entries }
}

fn child_names(node: &FileNode) -> Vec<String> {
    match node {
        FileNode::File { .. } => Vec::new(),
        FileNode::Directory { children, .. } => {
            children.iter().map(|c| c.name().clone()).collect()
        }
    }
}

fn child_paths(node: &FileNode) -> Vec<String> {
    match node {
        FileNode::File { .. } => Vec::new(),
        FileNode::Directory { children, .. } => {
            children.iter().map(|c| c.path().clone()).collect()
        }
    }
}

fn expanded(node: &FileNode) -> bool {
    match node {
        FileNode::File { .. } => false,
        FileNode::Directory { is_expanded, .. } => *is_expanded,
    }
}

fn strings(names: &[&str]) -> Vec<String> {
    names.iter().map(|n| n.to_string()).collect()
}

fn proj() -> FsEntry {
    dir(
        "proj",
        "/proj",
        vec![
            dir(".git", "/proj/.git", vec![file("config", "/proj/.git/config")]),
            file("README.md", "/proj/README.md"),
            dir("src", "/proj/src", vec![file("main.x", "/proj/src/main.x")]),
        ],
    )
}

#[test]
fn workspace_scenario_hides_git_and_puts_src_first() {
    let mut explorer = FileExplorer::new();
    assert_eq!(explorer.set_root(Ok(proj())), Ok(()));
    let root = explorer.root().unwrap();
    assert_eq!(child_names(root), strings(&["src", "README.md"]));
    match root {
        FileNode::Directory { name, path, children, is_expanded } => {
            assert_eq!(name, "proj");
            assert_eq!(path, "/proj");
            assert!(!*is_expanded);
            assert_eq!(children.len(), 2);
            match &children[0] {
                FileNode::Directory { name, children, is_expanded, .. } => {
                    assert_eq!(name, "src");
                    assert!(!*is_expanded);
                    assert_eq!(children.len(), 1);
                    assert_eq!(children[0].name(), "main.x");
                    assert_eq!(children[0].path(), "/proj/src/main.x");
                    assert!(!children[0].is_directory());
                }
                FileNode::File { .. } => panic!("src is a directory"),
            }
            assert!(!children[1].is_directory());
            assert_eq!(children[1].path(), "/proj/README.md");
        }
        FileNode::File { .. } => panic!("the root is a directory"),
    }
}

#[test]
fn new_explorer_has_no_root() {
    let explorer = FileExplorer::new();
    assert!(explorer.root().is_none());
}

#[test]
fn set_root_refuses_a_file() {
    let mut explorer = FileExplorer::new();
    assert_eq!(explorer.set_root(Ok(file("a.txt", "/a.txt"))), Err(Error::NotADirectory));
    assert!(explorer.root().is_none());
}

#[test]
fn failed_scan_keeps_the_tree_that_was_there() {
    let mut explorer = FileExplorer::new();
    assert_eq!(explorer.set_root(Ok(proj())), Ok(()));
    assert_eq!(explorer.set_root(Err(Error::Io)), Err(Error::Io));
    assert_eq!(child_names(explorer.root().unwrap()), strings(&["src", "README.md"]));
    assert_eq!(explorer.set_root(Ok(file("x", "/x"))), Err(Error::NotADirectory));
    assert_eq!(explorer.root().unwrap().path(), "/proj");
}

#[test]
fn set_root_replaces_the_tree() {
    let mut explorer = FileExplorer::new();
    assert_eq!(explorer.set_root(Ok(proj())), Ok(()));
    assert_eq!(explorer.set_root(Ok(dir("other", "/other", vec![file("b", "/other/b")]))), Ok(()));
    let root = explorer.root().unwrap();
    assert_eq!(root.name(), "other");
    assert_eq!(child_names(root), strings(&["b"]));
}

#[test]
fn directories_stand_before_files_and_each_kind_is_sorted_by_name() {
    let listing = dir(
        "w",
        "/w",
        vec![
            file("zeta.txt", "/w/zeta.txt"),
            dir("lib", "/w/lib", vec![]),
            file("Alpha.txt", "/w/Alpha.txt"),
            dir("Docs", "/w/Docs", vec![]),
            file("alpha.txt", "/w/alpha.txt"),
            dir("app", "/w/app", vec![]),
            file("b", "/w/b"),
            file("a10", "/w/a10"),
            file("a2", "/w/a2"),
        ],
    );
    let tree = FileNode::from_entry(&listing);
    assert_eq!(
        child_names(&tree),
        strings(&["Docs", "app", "lib", "Alpha.txt", "a10", "a2", "alpha.txt", "b", "zeta.txt"])
    );
}

#[test]
fn names_are_ordered_by_their_bytes() {
    let listing = dir(
        "w",
        "/w",
        vec![
            file("\u{e9}t\u{e9}", "/w/1"),
            file("z", "/w/2"),
            file("ab", "/w/3"),
            file("a", "/w/4"),
            file("", "/w/5"),
            file("\u{1f600}", "/w/6"),
            file("~", "/w/7"),
        ],
    );
    let tree = FileNode::from_entry(&listing);
    assert_eq!(
        child_names(&tree),
        strings(&["", "a", "ab", "z", "~", "\u{e9}t\u{e9}", "\u{1f600}"])
    );
    let mut expected = strings(&["\u{e9}t\u{e9}", "z", "ab", "a", "", "\u{1f600}", "~"]);
    expected.sort();
    assert_eq!(child_names(&tree), expected);
}

#[test]
fn nodes_of_one_name_keep_the_order_of_the_listing() {
    let listing = dir(
        "w",
        "/w",
        vec![
            file("same", "/w/first"),
            file("a", "/w/a"),
            file("same", "/w/second"),
            dir("same", "/w/third", vec![]),
            file("same", "/w/fourth"),
        ],
    );
    let tree = FileNode::from_entry(&listing);
    assert_eq!(
        child_paths(&tree),
        strings(&["/w/third", "/w/a", "/w/first", "/w/second", "/w/fourth"])
    );
}

#[test]
fn hidden_entries_are_left_out_at_every_depth() {
    let listing = dir(
        "w",
        "/w",
        vec![
            file(".env", "/w/.env"),
            dir(
                "src",
                "/w/src",
                vec![
                    file(".hidden", "/w/src/.hidden"),
                    file("lib.x", "/w/src/lib.x"),
                    dir(".cache", "/w/src/.cache", vec![file("blob", "/w/src/.cache/blob")]),
                ],
            ),
            file("..", "/w/.."),
            file(".", "/w/."),
            file("a.b", "/w/a.b"),
        ],
    );
    let tree = FileNode::from_entry(&listing);
    assert_eq!(child_names(&tree), strings(&["src", "a.b"]));
    match &tree {
        FileNode::Directory { children, .. } => {
            assert_eq!(child_names(&children[0]), strings(&["lib.x"]));
        }
        FileNode::File { .. } => panic!("a directory was built"),
    }
}

#[test]
fn a_hidden_root_is_still_built() {
    let tree = FileNode::from_entry(&dir(".config", "/home/u/.config", vec![file("a", "/a")]));
    assert_eq!(tree.name(), ".config");
    assert_eq!(child_names(&tree), strings(&["a"]));
}

#[test]
fn hidden_name_looks_at_the_first_character() {
    assert!(hidden_name(&Some(".git".to_string())));
    assert!(hidden_name(&Some(".".to_string())));
    assert!(!hidden_name(&Some("a.git".to_string())));
    assert!(!hidden_name(&Some("".to_string())));
    assert!(!hidden_name(&Some("\u{e9}.".to_string())));
    assert!(!hidden_name(&None));
}

#[test]
fn a_path_without_file_name_is_shown_by_its_path() {
    let root = FsEntry::Directory {
        file_name: None,
        path: "/".to_string(),
        entries: vec![
            FsEntry::File { file_name: None, path: "./..".to_string() },
            file("etc", "/etc"),
        ],
    };
    let tree = FileNode::from_entry(&root);
    assert_eq!(tree.name(), "/");
    assert_eq!(tree.path(), "/");
    assert_eq!(child_names(&tree), strings(&["./..", "etc"]));
}

#[test]
fn a_file_entry_gives_a_file_node() {
    let node = FileNode::from_entry(&file("a.txt", "/d/a.txt"));
    match node {
        FileNode::File { name, path } => {
            assert_eq!(name, "a.txt");
            assert_eq!(path, "/d/a.txt");
        }
        FileNode::Directory { .. } => panic!("a file was built"),
    }
}

#[test]
fn an_empty_directory_has_no_children() {
    let node = FileNode::from_entry(&dir("e", "/e", vec![]));
    assert!(node.is_directory());
    assert!(child_names(&node).is_empty());
}

#[test]
fn may_precede_orders_kinds_then_names() {
    let d = FileNode::from_entry(&dir("z", "/z", vec![]));
    let f = FileNode::from_entry(&file("a", "/a"));
    let g = FileNode::from_entry(&file("b", "/b"));
    assert!(d.may_precede(&f));
    assert!(!f.may_precede(&d));
    assert!(f.may_precede(&g));
    assert!(!g.may_precede(&f));
    assert!(f.may_precede(&f));
}

#[test]
fn sort_nodes_is_a_stable_sort() {
    let mut listing = Vec::new();
    let mut seed: u32 = 12345;
    for i in 0..500 {
        seed = seed.wrapping_mul(1103515245).wrapping_add(12345);
        let name = format!("n{}", (seed >> 16) % 40);
        let path = format!("/w/{}", i);
        if (seed >> 8) % 3 == 0 {
            listing.push(dir(&name, &path, vec![]));
        } else {
            listing.push(file(&name, &path));
        }
    }
    let nodes: Vec<FileNode> = listing.iter().map(FileNode::from_entry).collect();
    let mut expected: Vec<(bool, String, String)> =
        nodes.iter().map(|n| (!n.is_directory(), n.name().clone(), n.path().clone())).collect();
    expected.sort_by(|a, b| (a.0, &a.1).cmp(&(b.0, &b.1)));
    let sorted = sort_nodes(nodes);
    let got: Vec<(bool, String, String)> =
        sorted.iter().map(|n| (!n.is_directory(), n.name().clone(), n.path().clone())).collect();
    assert_eq!(got, expected);
}

#[test]
fn sort_nodes_on_short_lists() {
    assert!(sort_nodes(Vec::new()).is_empty());
    let one = sort_nodes(vec![FileNode::from_entry(&file("a", "/a"))]);
    assert_eq!(one.len(), 1);
    assert_eq!(one[0].path(), "/a");
    let two = sort_nodes(vec![
        FileNode::from_entry(&file("b", "/1")),
        FileNode::from_entry(&file("a", "/2")),
    ]);
    let paths: Vec<String> = two.iter().map(|n| n.path().clone()).collect();
    assert_eq!(paths, strings(&["/2", "/1"]));
    let ties = sort_nodes(vec![
        FileNode::from_entry(&file("m", "/1")),
        FileNode::from_entry(&file("a", "/2")),
        FileNode::from_entry(&file("m", "/3")),
        FileNode::from_entry(&dir("x", "/4", vec![])),
        FileNode::from_entry(&file("m", "/5")),
    ]);
    let paths: Vec<String> = ties.iter().map(|n| n.path().clone()).collect();
    assert_eq!(paths, strings(&["/4", "/2", "/1", "/3", "/5"]));
}

#[test]
fn a_large_directory_is_sorted() {
    let mut entries = Vec::new();
    for i in 0..20000u32 {
        let name = format!("f{:05}", (i.wrapping_mul(7919)) % 20000);
        entries.push(file(&name, &format!("/big/{}", name)));
    }
    let tree = FileNode::from_entry(&dir("big", "/big", entries));
    let names = child_names(&tree);
    assert_eq!(names.len(), 20000);
    assert_eq!(names[0], "f00000");
    assert_eq!(names[19999], "f19999");
    assert!(names.windows(2).all(|w| w[0] <= w[1]));
}

#[test]
fn toggle_flips_the_directory_with_that_path_only() {
    let mut explorer = FileExplorer::new();
    assert_eq!(explorer.set_root(Ok(proj())), Ok(()));
    explorer.toggle(&"/proj/src".to_string());
    {
        let root = explorer.root().unwrap();
        assert!(!expanded(root));
        match root {
            FileNode::Directory { children, .. } => {
                assert!(expanded(&children[0]));
                assert!(!expanded(&children[1]));
            }
            FileNode::File { .. } => panic!("the root is a directory"),
        }
    }
    explorer.toggle(&"/proj".to_string());
    explorer.toggle(&"/proj/README.md".to_string());
    explorer.toggle(&"/nowhere".to_string());
    {
        let root = explorer.root().unwrap();
        assert!(expanded(root));
        assert_eq!(child_names(root), strings(&["src", "README.md"]));
        match root {
            FileNode::Directory { children, .. } => assert!(expanded(&children[0])),
            FileNode::File { .. } => panic!("the root is a directory"),
        }
    }
    explorer.toggle(&"/proj/src".to_string());
    match explorer.root().unwrap() {
        FileNode::Directory { children, is_expanded, .. } => {
            assert!(*is_expanded);
            assert!(!expanded(&children[0]));
        }
        FileNode::File { .. } => panic!("the root is a directory"),
    }
}

#[test]
fn toggle_without_a_tree_does_nothing() {
    let mut explorer = FileExplorer::new();
    explorer.toggle(&"/proj".to_string());
    assert!(explorer.root().is_none());
}
