use ziff::repos::{add_repo, confine_to_repo, default_branch, find_repo_root, remove_repo, repo_at};
use ziff::types::Repo;

fn repo(id: &str) -> Repo {
    Repo {
        id: id.to_string(),
        name: "repo".to_string(),
        path: id.to_string(),
        default_branch: "main".to_string(),
    }
}

#[test]
fn paths_find_repo_root_rejects_an_id_that_is_not_in_the_list() {
    let err = find_repo_root(&[], "/not/added").expect_err("should reject");
    assert_eq!(err, "No such repo: /not/added");
}

#[test]
fn commands_find_repo_root_rejects_an_id_that_is_not_in_the_list() {
    let err = find_repo_root(&[], "/not/added").expect_err("should reject");
    assert_eq!(err, "No such repo: /not/added");
}

#[test]
fn find_repo_root_gives_the_folder_a_repo_was_added_from() {
    let repos = vec![repo("/work/a"), repo("/work/b")];
    assert_eq!(find_repo_root(&repos, "/work/b"), Ok("/work/b".to_string()));
}

#[test]
fn find_repo_root_rejects_an_id_that_only_shares_a_prefix() {
    let repos = vec![repo("/work/ab")];
    assert_eq!(find_repo_root(&repos, "/work/a"), Err("No such repo: /work/a".to_string()));
}

#[test]
fn adding_a_repo_appends_it_and_hands_it_back() {
    let mut repos = vec![repo("/work/a")];
    let added = add_repo(&mut repos, repo("/work/b"));
    assert_eq!(added.id, "/work/b");
    let ids: Vec<_> = repos.iter().map(|r| r.id.as_str()).collect();
    assert_eq!(ids, ["/work/a", "/work/b"]);
}

#[test]
fn adding_the_same_folder_twice_keeps_one_entry() {
    let mut repos = Vec::new();
    add_repo(&mut repos, repo("/work/a"));
    let mut again = repo("/work/a");
    again.name = "renamed".to_string();
    let kept = add_repo(&mut repos, again);
    assert_eq!(repos.len(), 1);
    // The Repo already on the list is the one handed back.
    assert_eq!(kept.name, "repo");
}

#[test]
fn removing_a_repo_drops_only_that_repo() {
    let mut repos = vec![repo("/work/a"), repo("/work/b"), repo("/work/c")];
    remove_repo(&mut repos, "/work/b");
    let ids: Vec<_> = repos.iter().map(|r| r.id.as_str()).collect();
    assert_eq!(ids, ["/work/a", "/work/c"]);
}

#[test]
fn removing_a_repo_that_is_not_there_changes_nothing() {
    let mut repos = vec![repo("/work/a")];
    remove_repo(&mut repos, "/work/z");
    assert_eq!(repos.len(), 1);
}

#[test]
fn a_removed_repo_can_no_longer_be_found() {
    let mut repos = vec![repo("/work/a")];
    remove_repo(&mut repos, "/work/a");
    assert!(find_repo_root(&repos, "/work/a").is_err());
}

#[test]
fn default_branch_comes_from_origin_head() {
    let branch = default_branch(
        Some("origin/main".to_string()),
        Some("feature/xlsx-api-upgrade".to_string()),
    );
    assert_eq!(branch, "main");
}

#[test]
fn default_branch_falls_back_to_the_checked_out_branch_without_a_remote() {
    assert_eq!(default_branch(None, Some("develop".to_string())), "develop");
}

#[test]
fn default_branch_ignores_an_origin_head_outside_origin() {
    assert_eq!(
        default_branch(Some("upstream/main".to_string()), Some("develop".to_string())),
        "develop"
    );
}

#[test]
fn default_branch_is_main_when_nothing_names_one() {
    assert_eq!(default_branch(None, None), "main");
}

#[test]
fn a_repo_is_named_after_its_folder_and_keyed_by_its_path() {
    let repo = repo_at("/home/me/my-repo".to_string(), "main".to_string());
    assert_eq!(repo.name, "my-repo");
    assert_eq!(repo.id, repo.path);
    assert_eq!(repo.path, "/home/me/my-repo");
    assert_eq!(repo.default_branch, "main");
}

#[test]
fn a_repo_at_the_root_is_named_after_its_whole_path() {
    let repo = repo_at("/".to_string(), "main".to_string());
    assert_eq!(repo.name, "/");
}

#[test]
fn confine_to_repo_accepts_a_file_inside_the_repo() {
    let resolved = confine_to_repo("/tmp/root", "/tmp/root/src/main.rs".to_string(), "src/main.rs");
    assert_eq!(resolved, Ok("/tmp/root/src/main.rs".to_string()));
}

#[test]
fn confine_to_repo_rejects_a_path_that_climbed_out() {
    let err = confine_to_repo("/tmp/root/repo", "/tmp/root/secret.txt".to_string(), "../secret.txt")
        .expect_err("should reject");
    assert_eq!(err, "../secret.txt is outside the repo");
}

#[test]
fn confine_to_repo_compares_whole_components() {
    let err = confine_to_repo("/tmp/repo", "/tmp/repository/x".to_string(), "link.txt")
        .expect_err("should reject");
    assert_eq!(err, "link.txt is outside the repo");
}

#[test]
fn removing_a_repo_just_added_gives_the_list_back() {
    let mut repos = vec![repo("/work/a"), repo("/work/b")];
    add_repo(&mut repos, repo("/work/c"));
    remove_repo(&mut repos, "/work/c");
    let ids: Vec<_> = repos.iter().map(|r| r.id.as_str()).collect();
    assert_eq!(ids, ["/work/a", "/work/b"]);
}

#[test]
fn an_added_repo_can_be_found() {
    let mut repos = Vec::new();
    add_repo(&mut repos, repo("/work/a"));
    assert_eq!(find_repo_root(&repos, "/work/a"), Ok("/work/a".to_string()));
}
