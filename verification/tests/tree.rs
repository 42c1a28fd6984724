use ziff::hunks::count_changes;
use ziff::tree::{build_level, read_file_tree};
use ziff::types::{Changes, CountedFile, TreeNode};

fn names(nodes: &[TreeNode]) -> Vec<&str> {
    nodes
        .iter()
        .map(|node| match node {
            TreeNode::Dir { name, .. } | TreeNode::File { name, .. } => name.as_str(),
        })
        .collect()
}

fn paths(list: &[&str]) -> Vec<String> {
    list.iter().map(|p| p.to_string()).collect()
}

#[test]
fn build_level_of_no_paths_is_an_empty_tree() {
    assert!(build_level(&[], &Vec::new(), &Vec::new(), "", 0).is_empty());
}

#[test]
fn build_level_nests_a_file_under_its_directories() {
    let tree = build_level(&paths(&["file.txt", "src/deep/main.rs"]), &Vec::new(), &Vec::new(), "", 0);
    let TreeNode::Dir { name, path, children } = &tree[0] else {
        panic!("expected a dir first, got {tree:?}");
    };
    assert_eq!((name.as_str(), path.as_str()), ("src", "src"));
    let TreeNode::Dir { path, children, .. } = &children[0] else {
        panic!("expected a nested dir, got {children:?}");
    };
    assert_eq!(path, "src/deep");
    assert_eq!(names(children), ["main.rs"]);
    let TreeNode::File { path, .. } = &children[0] else {
        panic!("expected a file");
    };
    assert_eq!(path, "src/deep/main.rs");
}

#[test]
fn build_level_puts_directories_before_files() {
    let tree = build_level(&paths(&["a.txt", "file.txt", "src/main.rs"]), &Vec::new(), &Vec::new(), "", 0);
    assert_eq!(names(&tree), ["src", "a.txt", "file.txt"]);
}

#[test]
fn build_level_marks_a_changed_file_with_its_counts() {
    let changes = vec![("file.txt".to_string(), Changes { add: 2, del: 1 })];
    let tree = build_level(&paths(&["file.txt", "other.txt"]), &changes, &Vec::new(), "", 0);
    let TreeNode::File { changes, .. } = &tree[0] else {
        panic!("expected a file, got {tree:?}");
    };
    let c = changes.expect("counts");
    assert_eq!((c.add, c.del), (2, 1));
    let TreeNode::File { changes, .. } = &tree[1] else {
        panic!("expected a file, got {tree:?}");
    };
    assert!(changes.is_none());
}

#[test]
fn build_level_takes_the_last_counts_given_for_a_path() {
    let changes = vec![
        ("file.txt".to_string(), Changes { add: 1, del: 1 }),
        ("file.txt".to_string(), Changes { add: 5, del: 0 }),
    ];
    let tree = build_level(&paths(&["file.txt"]), &changes, &Vec::new(), "", 0);
    let TreeNode::File { changes, .. } = &tree[0] else {
        panic!("expected a file");
    };
    assert_eq!(changes.map(|c| (c.add, c.del)), Some((5, 0)));
}

#[test]
fn build_level_keeps_sibling_directories_apart() {
    let tree = build_level(&paths(&["a/x.rs", "a/y.rs", "ab/z.rs", "b.rs"]), &Vec::new(), &Vec::new(), "", 0);
    assert_eq!(names(&tree), ["a", "ab", "b.rs"]);
    let TreeNode::Dir { children, .. } = &tree[0] else {
        panic!("expected a dir");
    };
    assert_eq!(names(children), ["x.rs", "y.rs"]);
}

#[test]
fn build_level_under_a_prefix_names_the_next_component() {
    let tree = build_level(&paths(&["src/lib.rs", "src/util/mod.rs"]), &Vec::new(), &Vec::new(), "src/", 1);
    assert_eq!(names(&tree), ["util", "lib.rs"]);
    let TreeNode::Dir { path, .. } = &tree[0] else {
        panic!("expected a dir");
    };
    assert_eq!(path, "src/util");
}

#[test]
fn the_tree_keeps_a_file_that_did_not_change() {
    let tree = read_file_tree(&Vec::new(), &paths(&["file.txt"]));
    assert!(matches!(tree.as_slice(), [TreeNode::File { changes: None, .. }]));
}

#[test]
fn the_tree_marks_a_changed_file_with_its_counts() {
    let changed = vec![CountedFile {
        path: "file.txt".to_string(),
        old_path: None,
        changes: count_changes(b"one\ntwo\nthree\n", b"one\ntwo\nthree\nfour\n"),
    }];
    let tree = read_file_tree(&changed, &paths(&["file.txt"]));
    let TreeNode::File { changes, .. } = &tree[0] else {
        panic!("expected a file, got {tree:?}");
    };
    assert_eq!(changes.map(|c| (c.add, c.del)), Some((1, 0)));
}

#[test]
fn the_tree_nests_a_file_under_its_directories() {
    let tree = read_file_tree(&Vec::new(), &paths(&["file.txt", "src/deep/main.rs"]));
    let TreeNode::Dir { children, .. } = &tree[0] else {
        panic!("expected a dir first, got {tree:?}");
    };
    let TreeNode::Dir { children, .. } = &children[0] else {
        panic!("expected a nested dir, got {children:?}");
    };
    assert_eq!(names(children), ["main.rs"]);
}

#[test]
fn the_tree_puts_directories_before_files() {
    let tree = read_file_tree(&Vec::new(), &paths(&["file.txt", "src/main.rs"]));
    assert_eq!(names(&tree), ["src", "file.txt"]);
}

#[test]
fn the_tree_carries_in_a_file_the_index_no_longer_has() {
    let changed = vec![CountedFile {
        path: "gone.txt".to_string(),
        old_path: None,
        changes: Changes { add: 0, del: 3 },
    }];
    let tree = read_file_tree(&changed, &paths(&["file.txt"]));
    assert_eq!(names(&tree), ["file.txt", "gone.txt"]);
}

fn moved_file() -> Vec<CountedFile> {
    vec![CountedFile {
        path: "moved.txt".to_string(),
        old_path: Some("big.txt".to_string()),
        changes: Changes { add: 0, del: 0 },
    }]
}

#[test]
fn the_tree_drops_the_path_a_file_moved_away_from() {
    let tree = read_file_tree(&moved_file(), &paths(&["big.txt", "file.txt"]));
    assert_eq!(names(&tree), ["file.txt", "moved.txt"]);
}

#[test]
fn the_tree_says_where_a_moved_file_came_from() {
    let tree = read_file_tree(&moved_file(), &paths(&["big.txt", "file.txt"]));
    let renamed: Vec<_> = tree
        .iter()
        .filter_map(|node| match node {
            TreeNode::File { renamed_from, .. } => renamed_from.as_deref(),
            TreeNode::Dir { .. } => None,
        })
        .collect();
    assert_eq!(renamed, ["big.txt"]);
}

#[test]
fn the_tree_sorts_and_dedups_what_it_is_given() {
    let changed = vec![CountedFile {
        path: "b.txt".to_string(),
        old_path: None,
        changes: Changes { add: 1, del: 0 },
    }];
    let tree = read_file_tree(&changed, &paths(&["c.txt", "b.txt", "a.txt"]));
    assert_eq!(names(&tree), ["a.txt", "b.txt", "c.txt"]);
}

fn file_paths(nodes: &[TreeNode], out: &mut Vec<String>) {
    for node in nodes {
        match node {
            TreeNode::Dir { children, .. } => file_paths(children, out),
            TreeNode::File { path, .. } => out.push(path.clone()),
        }
    }
}

#[test]
fn the_tree_lists_every_path_once() {
    let input = paths(&["Cargo.toml", "src/lib.rs", "src/a/b/c.rs", "src/a/d.rs", "src/z.rs", "tests/t.rs"]);
    let tree = build_level(&input, &Vec::new(), &Vec::new(), "", 0);
    let mut listed = Vec::new();
    file_paths(&tree, &mut listed);
    let mut expected = input.clone();
    listed.sort();
    expected.sort();
    assert_eq!(listed, expected);
}

#[test]
fn every_level_lists_directories_before_files() {
    let tree = build_level(&paths(&["a.rs", "b/x.rs", "c.rs", "d/y.rs", "d/z/w.rs"]), &Vec::new(), &Vec::new(), "", 0);
    assert_eq!(names(&tree), ["b", "d", "a.rs", "c.rs"]);
    let TreeNode::Dir { children, .. } = &tree[1] else {
        panic!("expected a dir");
    };
    assert_eq!(names(children), ["z", "y.rs"]);
}

#[test]
fn each_directory_appears_once_holding_every_path_under_it() {
    let tree = build_level(&paths(&["a/x.rs", "a/y/z.rs", "a/z.rs", "b.rs", "c/d.rs"]), &Vec::new(), &Vec::new(), "", 0);
    assert_eq!(names(&tree), ["a", "c", "b.rs"]);
    let TreeNode::Dir { children, .. } = &tree[0] else {
        panic!("expected a dir");
    };
    assert_eq!(names(children), ["y", "x.rs", "z.rs"]);
}
