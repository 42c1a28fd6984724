use ziff::branches::{
    check_transport, explain, fetch_result, no_remote_message, read_branches, summarize, BranchRow,
    FetchOutcome, RefUpdate,
};

fn row(name: &str, committed_at: i64) -> BranchRow {
    BranchRow { name: name.to_string(), committed_at, ahead: None, behind: None }
}

fn update(name: &str, mode: &str) -> RefUpdate {
    RefUpdate { moved: true, edit_name: Some(name.to_string()), mode: mode.to_string() }
}

#[test]
fn read_branches_marks_the_checked_out_branch_as_current() {
    let list = read_branches(Some("main".to_string()), vec![row("main", 10), row("other", 10)], None);
    let current: Vec<_> = list.branches.iter().filter(|b| b.is_current).map(|b| b.name.as_str()).collect();
    assert_eq!(current, ["main"]);
}

#[test]
fn read_branches_marks_nothing_as_current_when_head_is_detached() {
    let list = read_branches(None, vec![row("main", 10)], Some("abc1234".to_string()));
    assert!(!list.branches.iter().any(|b| b.is_current));
}

#[test]
fn read_branches_names_the_commit_a_detached_head_sits_on() {
    let list = read_branches(None, vec![row("main", 10)], Some("abc1234".to_string()));
    assert_eq!(list.detached_head.as_deref(), Some("abc1234"));
}

#[test]
fn read_branches_reports_no_detached_head_while_on_a_branch() {
    let list = read_branches(Some("main".to_string()), vec![row("main", 10)], Some("abc1234".to_string()));
    assert_eq!(list.detached_head, None);
}

#[test]
fn read_branches_puts_the_most_recently_committed_branch_first() {
    let list = read_branches(Some("main".to_string()), vec![row("main", 1577836800), row("newer", 1622505600)], None);
    let names: Vec<_> = list.branches.iter().map(|b| b.name.as_str()).collect();
    assert_eq!(names, ["newer", "main"]);
}

#[test]
fn read_branches_breaks_a_tie_by_name() {
    let list = read_branches(None, vec![row("zeta", 5), row("alpha", 5), row("old", 1)], None);
    let names: Vec<_> = list.branches.iter().map(|b| b.name.as_str()).collect();
    assert_eq!(names, ["alpha", "zeta", "old"]);
}

#[test]
fn read_branches_reports_no_counts_for_a_branch_without_an_upstream() {
    let list = read_branches(Some("main".to_string()), vec![row("main", 10)], None);
    assert_eq!((list.branches[0].ahead, list.branches[0].behind), (None, None));
}

#[test]
fn read_branches_keeps_the_counts_of_each_branch() {
    let mut ahead = row("main", 10);
    ahead.ahead = Some(1);
    ahead.behind = Some(0);
    let list = read_branches(Some("main".to_string()), vec![ahead], None);
    assert_eq!((list.branches[0].ahead, list.branches[0].behind), (Some(1), Some(0)));
}

#[test]
fn fetch_reports_nothing_to_do_for_a_repo_without_a_remote() {
    assert_eq!(no_remote_message(), "This repo has no remote, so there is nothing to fetch.");
}

#[test]
fn fetch_explains_itself_when_the_remote_is_an_https_url() {
    let message = check_transport(true, "https://github.com/zhowzeng/ziff.git").expect_err("should refuse");
    assert!(message.starts_with("Ziff fetches over ssh only,"), "got: {message}");
    assert!(message.contains("https://github.com/zhowzeng/ziff.git"));
}

#[test]
fn fetch_lets_an_ssh_remote_through() {
    assert_eq!(check_transport(false, "git@github.com:zhowzeng/ziff.git"), Ok(()));
}

#[test]
fn fetch_says_so_when_the_remote_has_not_moved() {
    let unmoved = RefUpdate { moved: false, edit_name: Some("origin/main".to_string()), mode: "no-change".to_string() };
    assert_eq!(summarize(&vec![unmoved]), "Already up to date.");
    assert_eq!(summarize(&Vec::new()), "Already up to date.");
}

#[test]
fn fetch_names_the_refs_it_moved() {
    assert_eq!(summarize(&vec![update("origin/main", "fast-forward")]), "Updated origin/main (fast-forward)");
}

#[test]
fn fetch_names_up_to_three_refs() {
    let updates = vec![update("origin/a", "new"), update("origin/b", "forced"), update("origin/c", "fast-forward")];
    assert_eq!(summarize(&updates), "Updated origin/a (new), origin/b (forced), origin/c (fast-forward)");
}

#[test]
fn fetch_counts_rather_than_names_past_three_refs() {
    let updates = vec![
        update("origin/a", "new"),
        update("origin/b", "new"),
        RefUpdate { moved: true, edit_name: None, mode: "new".to_string() },
        update("origin/c", "new"),
        update("origin/d", "new"),
    ];
    assert_eq!(
        summarize(&updates),
        "Updated 4 refs: origin/a (new), origin/b (new), origin/c (new), ..."
    );
}

#[test]
fn explain_lists_each_cause_after_the_context() {
    let chain = vec!["Fetch failed".to_string(), "io error".to_string(), "connection refused".to_string()];
    assert_eq!(
        explain("Cannot reach the remote", &chain),
        "Cannot reach the remote: Fetch failed: io error: connection refused"
    );
}

#[test]
fn a_fetch_that_hangs_is_given_up() {
    let result = fetch_result(FetchOutcome::TimedOut);
    assert!(!result.success);
    assert_eq!(
        result.message,
        "Gave up after 60s. The remote may be unreachable, or it asked for credentials Ziff cannot prompt for."
    );
}

#[test]
fn a_fetch_whose_thread_went_away_says_so() {
    let result = fetch_result(FetchOutcome::Stopped);
    assert!(!result.success);
    assert_eq!(result.message, "Fetch stopped unexpectedly.");
}

#[test]
fn a_finished_fetch_passes_its_answer_on() {
    let ok = fetch_result(FetchOutcome::Finished(Ok("Already up to date.".to_string())));
    assert!(ok.success);
    assert_eq!(ok.message, "Already up to date.");
    let failed = fetch_result(FetchOutcome::Finished(Err("Fetch failed: x".to_string())));
    assert!(!failed.success);
    assert_eq!(failed.message, "Fetch failed: x");
}
