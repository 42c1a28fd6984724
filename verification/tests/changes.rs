use ziff::changes::{base_side_of, worktree_side_of};
use ziff::changes::{
    branch_file, branch_paths, find_changed, origin_of, sort_by_path, staged, tracked_paths, unstaged,
    EntryStatus, StatusItem, TreeIndexChange, WorktreeItem,
};
use ziff::types::{ChangedFile, Side};

fn s(x: &str) -> String {
    x.to_string()
}

fn file(path: &str, old: Side, new: Side) -> ChangedFile {
    ChangedFile { path: s(path), old_path: None, old, new }
}

fn paths_of(files: &[ChangedFile]) -> Vec<&str> {
    files.iter().map(|f| f.path.as_str()).collect()
}

#[test]
fn unstaged_lists_a_file_edited_in_the_worktree() {
    let items = vec![WorktreeItem::Modification {
        path: s("file.txt"),
        entry_id: s("abc123"),
        status: EntryStatus::Other,
    }];
    let files = unstaged(&items);
    assert_eq!(paths_of(&files), ["file.txt"]);
    assert_eq!(files[0].old, Side::Blob(s("abc123")));
    assert_eq!(files[0].new, Side::Worktree(s("file.txt")));
}

#[test]
fn unstaged_lists_an_untracked_file() {
    let items = vec![WorktreeItem::DirectoryContents { path: s("brand-new.txt") }];
    let files = unstaged(&items);
    assert_eq!(paths_of(&files), ["brand-new.txt"]);
    assert_eq!(files[0].old, Side::Missing);
}

#[test]
fn unstaged_leaves_out_an_entry_whose_stat_cache_alone_is_stale() {
    let items = vec![WorktreeItem::Modification {
        path: s("file.txt"),
        entry_id: s("abc123"),
        status: EntryStatus::NeedsUpdate,
    }];
    assert!(unstaged(&items).is_empty());
}

#[test]
fn unstaged_reads_a_removed_file_as_missing_on_the_new_side() {
    let items = vec![WorktreeItem::Modification {
        path: s("gone.txt"),
        entry_id: s("abc123"),
        status: EntryStatus::Removed,
    }];
    let files = unstaged(&items);
    assert_eq!((files[0].old.clone(), files[0].new.clone()), (Side::Blob(s("abc123")), Side::Missing));
}

#[test]
fn unstaged_reads_an_intent_to_add_file_as_missing_on_the_old_side() {
    let items = vec![WorktreeItem::Modification {
        path: s("new.txt"),
        entry_id: s("000000"),
        status: EntryStatus::IntentToAdd,
    }];
    let files = unstaged(&items);
    assert_eq!(files[0].old, Side::Missing);
    assert_eq!(files[0].new, Side::Worktree(s("new.txt")));
}

#[test]
fn unstaged_says_where_a_moved_file_came_from_and_skips_copies() {
    let items = vec![
        WorktreeItem::Rewrite { path: s("moved.txt"), source: Some((s("big.txt"), s("b1"))) },
        WorktreeItem::Rewrite { path: s("copy.txt"), source: None },
    ];
    let files = unstaged(&items);
    assert_eq!(paths_of(&files), ["moved.txt"]);
    assert_eq!(files[0].old_path.as_deref(), Some("big.txt"));
    assert_eq!(files[0].old, Side::Blob(s("b1")));
}

#[test]
fn staged_lists_only_what_was_added_to_the_index() {
    let changes = vec![TreeIndexChange::Addition { path: s("staged.txt"), id: s("s1") }];
    let files = staged(&changes);
    assert_eq!(paths_of(&files), ["staged.txt"]);
    assert_eq!((files[0].old.clone(), files[0].new.clone()), (Side::Missing, Side::Blob(s("s1"))));
}

#[test]
fn staged_reads_each_kind_of_change_into_its_two_sides() {
    let changes = vec![
        TreeIndexChange::Deletion { path: s("gone.txt"), id: s("g1") },
        TreeIndexChange::Modification { path: s("file.txt"), previous_id: s("f1"), id: s("f2") },
    ];
    let files = staged(&changes);
    assert_eq!((files[0].old.clone(), files[0].new.clone()), (Side::Blob(s("g1")), Side::Missing));
    assert_eq!((files[1].old.clone(), files[1].new.clone()), (Side::Blob(s("f1")), Side::Blob(s("f2"))));
}

#[test]
fn staged_says_where_a_moved_file_came_from() {
    let changes = vec![TreeIndexChange::Rewrite {
        source_path: s("big.txt"),
        source_id: s("b1"),
        path: s("moved.txt"),
        id: s("m1"),
    }];
    let files = staged(&changes);
    assert_eq!(files[0].old_path.as_deref(), Some("big.txt"));
    assert_eq!(files[0].path, "moved.txt");
}

#[test]
fn tracked_paths_lists_files_that_did_not_change() {
    assert_eq!(tracked_paths(&vec![s("file.txt")], &Vec::new()), vec!["file.txt"]);
}

#[test]
fn tracked_paths_carries_in_a_path_the_index_no_longer_has() {
    assert_eq!(tracked_paths(&vec![s("file.txt")], &vec![s("gone.txt")]), vec!["file.txt", "gone.txt"]);
}

#[test]
fn tracked_paths_are_sorted_and_each_listed_once() {
    let index = vec![s("b.txt"), s("a.txt")];
    let extra = vec![s("b.txt"), s("c.txt"), s("a.txt")];
    assert_eq!(tracked_paths(&index, &extra), vec!["a.txt", "b.txt", "c.txt"]);
}

#[test]
fn branch_spans_a_file_changed_in_a_commit_and_again_in_the_worktree() {
    let items = vec![
        StatusItem::TreeIndex(TreeIndexChange::Modification {
            path: s("file.txt"),
            previous_id: s("f1"),
            id: s("f2"),
        }),
        StatusItem::IndexWorktree(WorktreeItem::Modification {
            path: s("file.txt"),
            entry_id: s("f2"),
            status: EntryStatus::Other,
        }),
    ];
    let (paths, sources) = branch_paths(&items);
    assert_eq!(paths, vec!["file.txt"]);
    assert!(sources.is_empty());
}

#[test]
fn branch_leaves_out_a_stale_stat_cache_and_a_copy() {
    let items = vec![
        StatusItem::IndexWorktree(WorktreeItem::Modification {
            path: s("file.txt"),
            entry_id: s("f1"),
            status: EntryStatus::NeedsUpdate,
        }),
        StatusItem::IndexWorktree(WorktreeItem::Rewrite { path: s("copy.txt"), source: None }),
        StatusItem::IndexWorktree(WorktreeItem::DirectoryContents { path: s("brand-new.txt") }),
    ];
    let (paths, _) = branch_paths(&items);
    assert_eq!(paths, vec!["brand-new.txt"]);
}

#[test]
fn branch_follows_a_rename_back_across_both_legs() {
    // Committed big.txt -> mid.txt on the branch, then moved mid.txt -> moved.txt in the
    // worktree: the merge-base knows the file as big.txt.
    let items = vec![
        StatusItem::IndexWorktree(WorktreeItem::Rewrite {
            path: s("moved.txt"),
            source: Some((s("mid.txt"), s("m1"))),
        }),
        StatusItem::TreeIndex(TreeIndexChange::Rewrite {
            source_path: s("big.txt"),
            source_id: s("b1"),
            path: s("mid.txt"),
            id: s("m1"),
        }),
    ];
    let (paths, sources) = branch_paths(&items);
    assert_eq!(paths, vec!["mid.txt", "moved.txt"]);
    assert_eq!(origin_of(&s("moved.txt"), &sources), "big.txt");
    assert_eq!(origin_of(&s("mid.txt"), &sources), "big.txt");
    assert_eq!(origin_of(&s("other.txt"), &sources), "other.txt");
}

#[test]
fn origin_of_stops_on_a_rename_that_loops_back() {
    let sources = vec![(s("a.txt"), s("b.txt")), (s("b.txt"), s("a.txt"))];
    // Two recorded renames, so two steps: a -> b -> a.
    assert_eq!(origin_of(&s("a.txt"), &sources), "a.txt");
}

#[test]
fn branch_paths_keeps_the_last_source_recorded_for_a_path() {
    let items = vec![
        StatusItem::TreeIndex(TreeIndexChange::Rewrite {
            source_path: s("first.txt"),
            source_id: s("1"),
            path: s("moved.txt"),
            id: s("m"),
        }),
        StatusItem::TreeIndex(TreeIndexChange::Rewrite {
            source_path: s("second.txt"),
            source_id: s("2"),
            path: s("moved.txt"),
            id: s("m"),
        }),
    ];
    let (_, sources) = branch_paths(&items);
    assert_eq!(sources.len(), 1);
    assert_eq!(origin_of(&s("moved.txt"), &sources), "second.txt");
}

#[test]
fn branch_says_where_a_moved_file_came_from() {
    let f = branch_file(s("moved.txt"), s("big.txt"), Some((s("b1"), true)), true, false)
        .expect("a changed file");
    assert_eq!(f.old_path.as_deref(), Some("big.txt"));
    assert_eq!(f.old, Side::Blob(s("b1")));
    assert_eq!(f.new, Side::Worktree(s("moved.txt")));
}

#[test]
fn branch_file_names_no_old_path_for_a_file_that_stayed_put() {
    let f = branch_file(s("file.txt"), s("file.txt"), Some((s("f1"), true)), true, false)
        .expect("a changed file");
    assert!(f.old_path.is_none());
}

#[test]
fn branch_file_drops_a_path_with_no_content_on_either_side() {
    // A submodule: a commit in the merge-base tree, a directory in the worktree.
    assert!(branch_file(s("sub"), s("sub"), Some((s("c1"), false)), true, true).is_none());
    // Added on the branch, then removed from the worktree.
    assert!(branch_file(s("gone.txt"), s("gone.txt"), None, false, false).is_none());
}

#[test]
fn sort_by_path_orders_files_and_keeps_equal_paths_in_order() {
    let files = vec![
        file("b.txt", Side::Missing, Side::Blob(s("1"))),
        file("a.txt", Side::Missing, Side::Blob(s("2"))),
        file("b.txt", Side::Missing, Side::Blob(s("3"))),
        file("B.txt", Side::Missing, Side::Blob(s("4"))),
    ];
    let sorted = sort_by_path(files);
    assert_eq!(paths_of(&sorted), ["B.txt", "a.txt", "b.txt", "b.txt"]);
    assert_eq!(sorted[2].new, Side::Blob(s("1")));
    assert_eq!(sorted[3].new, Side::Blob(s("3")));
}

#[test]
fn find_changed_finds_the_file_for_a_path() {
    let changed = vec![
        file("a.txt", Side::Missing, Side::Blob(s("1"))),
        file("b.txt", Side::Missing, Side::Blob(s("2"))),
    ];
    assert_eq!(find_changed(&changed, "b.txt"), Some(1));
    assert_eq!(find_changed(&changed, "c.txt"), None);
}

#[test]
fn branch_mode_needs_a_base_branch() {
    let mut spec = ziff::types::DiffSpec {
        repo_id: s("/unused"),
        branch: s("feature"),
        diff_mode: ziff::types::DiffMode::Branch,
        base_branch: None,
    };
    assert_eq!(
        ziff::changes::base_branch(&spec),
        Err(s("Branch mode needs a Base Branch to compare against"))
    );
    spec.base_branch = Some(s("main"));
    assert_eq!(ziff::changes::base_branch(&spec), Ok(s("main")));
}

#[test]
fn sorting_keeps_every_file_it_was_given() {
    let files = vec![
        file("z.txt", Side::Missing, Side::Blob(s("1"))),
        file("a/b.txt", Side::Blob(s("2")), Side::Missing),
        file("a.txt", Side::Missing, Side::Worktree(s("a.txt"))),
        file("z.txt", Side::Missing, Side::Blob(s("4"))),
    ];
    let mut before: Vec<String> = files.iter().map(|f| format!("{:?}", f)).collect();
    let sorted = sort_by_path(files);
    let mut after: Vec<String> = sorted.iter().map(|f| format!("{:?}", f)).collect();
    before.sort();
    after.sort();
    assert_eq!(before, after);
    assert_eq!(paths_of(&sorted), ["a.txt", "a/b.txt", "z.txt", "z.txt"]);
}

#[test]
fn branch_lists_a_change_that_is_not_committed_yet() {
    // Edited only in the worktree: the new side is the worktree copy, never a blob.
    let items = vec![StatusItem::IndexWorktree(WorktreeItem::Modification {
        path: s("file.txt"),
        entry_id: s("f1"),
        status: EntryStatus::Other,
    })];
    let (paths, sources) = branch_paths(&items);
    assert_eq!(paths, vec!["file.txt"]);
    let origin = origin_of(&paths[0], &sources);
    let f = branch_file(paths[0].clone(), origin, Some((s("f1"), true)), true, false).expect("listed");
    assert_eq!(f.old, Side::Blob(s("f1")));
    assert_eq!(f.new, Side::Worktree(s("file.txt")));
}

#[test]
fn branch_lists_a_file_that_was_never_added_to_the_index() {
    let items = vec![StatusItem::IndexWorktree(WorktreeItem::DirectoryContents { path: s("brand-new.txt") })];
    let (paths, _) = branch_paths(&items);
    let f = branch_file(paths[0].clone(), paths[0].clone(), None, true, false).expect("listed");
    assert_eq!((f.old.clone(), f.new.clone()), (Side::Missing, Side::Worktree(s("brand-new.txt"))));
}

#[test]
fn a_branch_file_deleted_in_the_worktree_has_no_new_side() {
    let f = branch_file(s("gone.txt"), s("gone.txt"), Some((s("g1"), true)), false, false).expect("listed");
    assert_eq!((f.old.clone(), f.new.clone()), (Side::Blob(s("g1")), Side::Missing));
}

#[test]
fn the_two_branch_sides_follow_the_tree_entry_and_the_worktree() {
    assert_eq!(base_side_of(Some((s("b1"), true))), Side::Blob(s("b1")));
    assert_eq!(base_side_of(Some((s("c1"), false))), Side::Missing);
    assert_eq!(base_side_of(None), Side::Missing);
    assert_eq!(worktree_side_of(s("a.txt"), true, false), Side::Worktree(s("a.txt")));
    assert_eq!(worktree_side_of(s("sub"), true, true), Side::Missing);
    assert_eq!(worktree_side_of(s("gone.txt"), false, false), Side::Missing);
}
