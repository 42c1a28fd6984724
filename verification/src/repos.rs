//! The user's Repo list -- adding a folder once, dropping one, finding one by id --
//! and what a repository says about itself when it is added: its name and its default
//! branch. Resolving a path the frontend names, and refusing one outside the Repo.

use vstd::prelude::*;

use crate::paths::starts_with;
use crate::text::{append_str, chars_of, string_of};
use crate::types::Repo;

verus! {

/// `i` is the first place in `repos` whose id is `id`.
pub open spec fn first_with_id(repos: Seq<Repo>, id: Seq<char>, i: int) -> bool {
    &&& 0 <= i < repos.len()
    &&& repos[i].id@ == id
    &&& forall|j: int| 0 <= j < i ==> (#[trigger] repos[j]).id@ != id
}

/// Some Repo in `repos` has the id `id`.
pub open spec fn has_id(repos: Seq<Repo>, id: Seq<char>) -> bool {
    exists|i: int| 0 <= i < repos.len() && (#[trigger] repos[i]).id@ == id
}

/// The list after adding `repo`: unchanged when a Repo with its id is already there.
pub open spec fn added(repos: Seq<Repo>, repo: Repo) -> Seq<Repo> {
    if has_id(repos, repo.id@) {
        repos
    } else {
        repos.push(repo)
    }
}

/// `repos` without the Repos whose id is `id`, in order.
pub open spec fn without_id(repos: Seq<Repo>, id: Seq<char>) -> Seq<Repo>
    decreases repos.len(),
{
    if repos.len() == 0 {
        seq![]
    } else {
        let r = without_id(repos.drop_last(), id);
        if repos.last().id@ == id {
            r
        } else {
            r.push(repos.last())
        }
    }
}

fn copy_repo(r: &Repo) -> (c: Repo)
    ensures
        c == *r,
{
    Repo {
        id: r.id.clone(),
        name: r.name.clone(),
        path: r.path.clone(),
        default_branch: r.default_branch.clone(),
    }
}

/// Where the first Repo with id `id` stands in `repos`, if any does.
fn position_of_id(repos: &[Repo], id: &str) -> (r: Option<usize>)
    ensures
        match r {
            Some(i) => first_with_id(repos@, id@, i as int),
            None => !has_id(repos@, id@),
        },
{
    let want = chars_of(id);
    let mut i: usize = 0;
    while i < repos.len()
        invariant
            i <= repos@.len(),
            want@ == id@,
            forall|j: int| 0 <= j < i ==> (#[trigger] repos@[j]).id@ != id@,
        decreases repos.len() - i,
    {
        let have = chars_of(repos[i].id.as_str());
        if crate::text::chars_equal(&have, &want) {
            return Some(i);
        }
        i = i + 1;
    }
    None
}

/// Adds `repo` to the list, unless a Repo with its id is already there: the id is the
/// folder's canonical path, so adding the same folder twice does not duplicate it.
/// Returns the Repo the list now holds under that id.
pub fn add_repo(repos: &mut Vec<Repo>, repo: Repo) -> (r: Repo)
    ensures
        final(repos)@ == added(old(repos)@, repo),
        has_id(old(repos)@, repo.id@) ==> exists|i: int|
            first_with_id(old(repos)@, repo.id@, i) && r == old(repos)@[i],
        !has_id(old(repos)@, repo.id@) ==> r == repo,
{
    match position_of_id(repos.as_slice(), repo.id.as_str()) {
        Some(i) => copy_repo(&repos[i]),
        None => {
            let kept = copy_repo(&repo);
            repos.push(repo);
            kept
        },
    }
}

/// Drops every Repo whose id is `id` from the list. Only the list changes: the folder on
/// disk is left alone.
pub fn remove_repo(repos: &mut Vec<Repo>, id: &str)
    ensures
        final(repos)@ == without_id(old(repos)@, id@),
{
    let mut all: Vec<Repo> = Vec::new();
    std::mem::swap(&mut all, repos);
    let want = chars_of(id);
    let mut i: usize = 0;
    proof {
        assert(all@.take(0).len() == 0);
    }
    while i < all.len()
        invariant
            i <= all@.len(),
            want@ == id@,
            all@ == old(repos)@,
            repos@ == without_id(all@.take(i as int), id@),
        decreases all.len() - i,
    {
        proof {
            assert(all@.take(i + 1).drop_last() =~= all@.take(i as int));
            assert(all@.take(i + 1).last() == all@[i as int]);
        }
        let have = chars_of(all[i].id.as_str());
        if !crate::text::chars_equal(&have, &want) {
            repos.push(copy_repo(&all[i]));
        }
        i = i + 1;
    }
    proof {
        assert(all@.take(i as int) =~= all@);
    }
}

/// The folder the Repo with id `repo_id` was added from: the first Repo with that id,
/// or the error the frontend shows when there is none. The folder can have been moved
/// or deleted since, so the caller resolves it on disk again rather than trusting it.
pub fn find_repo_root(repos: &[Repo], repo_id: &str) -> (r: Result<String, String>)
    ensures
        match r {
            Ok(p) => exists|i: int| first_with_id(repos@, repo_id@, i) && p@ == repos@[i].path@,
            Err(e) => !has_id(repos@, repo_id@) && e@ == "No such repo: "@ + repo_id@,
        },
{
    match position_of_id(repos, repo_id) {
        Some(i) => Ok(repos[i].path.clone()),
        None => {
            let mut e = String::new();
            append_str(&mut e, "No such repo: ");
            append_str(&mut e, repo_id);
            Err(e)
        },
    }
}

/// The branch a Branch-mode diff compares against by default: what `origin/HEAD` points
/// at (given shortened, as `origin/<branch>`), else the branch that is checked out
/// (`head`, shortened), else `main`.
pub open spec fn default_branch_of(origin_head: Option<String>, head: Option<String>) -> Seq<char> {
    if origin_head is Some && "origin/"@.is_prefix_of(origin_head->0@) {
        origin_head->0@.skip("origin/"@.len() as int)
    } else {
        match head {
            Some(h) => h@,
            None => "main"@,
        }
    }
}

/// The Repo's default branch: what `origin/HEAD` points at, falling back to whatever
/// branch is checked out for a repository with no remote.
pub fn default_branch(origin_head: Option<String>, head: Option<String>) -> (r: String)
    ensures
        r@ == default_branch_of(origin_head, head),
{
    if let Some(target) = &origin_head {
        let t = chars_of(target.as_str());
        let pre = chars_of("origin/");
        if starts_with(&t, &pre) {
            return string_of(crate::text::chars_from(&t, pre.len()).as_slice());
        }
    }
    match head {
        Some(h) => h,
        None => {
            let mut m = String::new();
            append_str(&mut m, "main");
            m
        },
    }
}

/// The final component of a path, as `std::path::Path::file_name` reads it.
pub uninterp spec fn final_component(path: Seq<char>) -> Option<Seq<char>>;

/// `std::path::Path::file_name`, read back as text: the final component of `path`, or
/// none when there is no such component (a root, or a path that ends in `..`). Stated:
/// the result is what `final_component` names, nothing more. Which characters separate
/// components, and how the component is found (repeated or trailing separators, `.`,
/// a platform's verbatim prefixes), is left unsaid: it differs between platforms.
#[verifier::external_body]
fn file_name(path: &str) -> (r: Option<String>)
    ensures
        match r {
            Some(n) => final_component(path@) == Some(n@),
            None => final_component(path@) is None,
        },
{
    match std::path::Path::new(path).file_name() {
        Some(n) => Some(n.to_string_lossy().into_owned()),
        None => None,
    }
}

/// The Repo for the git repository whose folder resolves to `canonical`: identified by
/// that path, so the same folder added twice keeps one id, and named after its last
/// component (or the whole path, for a root).
pub fn repo_at(canonical: String, default_branch: String) -> (r: Repo)
    ensures
        r.id@ == canonical@,
        r.path@ == canonical@,
        r.default_branch@ == default_branch@,
        r.name@ == match final_component(canonical@) {
            Some(n) => n,
            None => canonical@,
        },
{
    let name = match file_name(canonical.as_str()) {
        Some(n) => n,
        None => canonical.clone(),
    };
    Repo { id: canonical.clone(), name, path: canonical, default_branch }
}

/// Whether `path` lies under `base`, as `std::path::Path::starts_with` decides it: by
/// whole components.
pub uninterp spec fn path_under(path: Seq<char>, base: Seq<char>) -> bool;

/// `std::path::Path::starts_with`: whether `base` is a prefix of `path`, comparing whole
/// components. Stated: the result is what `path_under` names, and a path lies under
/// itself. How components are compared is left unsaid.
#[verifier::external_body]
fn starts_with_path(path: &str, base: &str) -> (r: bool)
    ensures
        r == path_under(path@, base@),
        path@ == base@ ==> r,
{
    std::path::Path::new(path).starts_with(base)
}

/// Keeps a Repo-relative `path` from the frontend inside the Repo: `resolved` is where it
/// landed once resolved on disk (so `../` and a symlink pointing out are both already
/// followed), and anything not under `root` is refused.
pub fn confine_to_repo(root: &str, resolved: String, path: &str) -> (r: Result<String, String>)
    ensures
        path_under(resolved@, root@) ==> (r matches Ok(p) && p@ == resolved@),
        !path_under(resolved@, root@) ==> (r matches Err(e) && e@ == path@
            + " is outside the repo"@),
{
    if !starts_with_path(resolved.as_str(), root) {
        let mut e = String::new();
        append_str(&mut e, path);
        append_str(&mut e, " is outside the repo");
        return Err(e);
    }
    Ok(resolved)
}

/// Adding a folder that is already on the list changes nothing: adding the same Repo
/// twice leaves the list as adding it once did.
pub proof fn law_adding_twice_is_adding_once(repos: Seq<Repo>, repo: Repo)
    ensures
        added(added(repos, repo), repo) == added(repos, repo),
{
    if !has_id(repos, repo.id@) {
        let l = repos.push(repo);
        assert(l[repos.len() as int] == repo);
        assert(has_id(l, repo.id@));
    }
}

/// A Repo just added can be found by its id, and the list holds it once.
pub proof fn law_an_added_repo_is_listed_once(repos: Seq<Repo>, repo: Repo)
    requires
        forall|i: int, j: int|
            0 <= i < j < repos.len() ==> (#[trigger] repos[i]).id@ != (#[trigger] repos[j]).id@,
    ensures
        has_id(added(repos, repo), repo.id@),
        forall|i: int, j: int|
            0 <= i < j < added(repos, repo).len() ==> (#[trigger] added(repos, repo)[i]).id@
                != (#[trigger] added(repos, repo)[j]).id@,
{
    let l = added(repos, repo);
    if !has_id(repos, repo.id@) {
        assert(l[repos.len() as int] == repo);
        assert forall|i: int, j: int| 0 <= i < j < l.len() implies (#[trigger] l[i]).id@
            != (#[trigger] l[j]).id@ by {
            if j == repos.len() {
                assert(l[i] == repos[i]);
            } else {
                assert(l[i] == repos[i] && l[j] == repos[j]);
            }
        }
    }
}

proof fn lemma_without_id(repos: Seq<Repo>, id: Seq<char>)
    ensures
        forall|k: int|
            0 <= k < without_id(repos, id).len() ==> (exists|i: int|
                0 <= i < repos.len() && #[trigger] without_id(repos, id)[k] == repos[i]
                    && repos[i].id@ != id),
        forall|i: int|
            0 <= i < repos.len() && (#[trigger] repos[i]).id@ != id ==> without_id(
                repos,
                id,
            ).contains(repos[i]),
        !has_id(repos, id) ==> without_id(repos, id) == repos,
    decreases repos.len(),
{
    if repos.len() > 0 {
        let t = repos.drop_last();
        lemma_without_id(t, id);
        let r = without_id(t, id);
        assert(repos.last() == repos[repos.len() - 1]);
        assert forall|k: int| 0 <= k < without_id(repos, id).len() implies (exists|i: int|
            0 <= i < repos.len() && #[trigger] without_id(repos, id)[k] == repos[i] && repos[i].id@
                != id) by {
            if k < r.len() {
                let i = choose|i: int| 0 <= i < t.len() && r[k] == t[i] && t[i].id@ != id;
                assert(repos[i] == t[i]);
            } else {
                assert(without_id(repos, id)[k] == repos[repos.len() - 1]);
            }
        }
        assert forall|i: int| 0 <= i < repos.len() && (#[trigger] repos[i]).id@ != id implies without_id(
            repos,
            id,
        ).contains(repos[i]) by {
            if i < t.len() {
                assert(t[i] == repos[i]);
                let k = choose|k: int| 0 <= k < r.len() && r[k] == t[i];
                assert(without_id(repos, id)[k] == repos[i]);
            } else {
                assert(without_id(repos, id)[r.len() as int] == repos[i]);
            }
        }
        if !has_id(repos, id) {
            assert(!has_id(t, id)) by {
                if has_id(t, id) {
                    let i = choose|i: int| 0 <= i < t.len() && (#[trigger] t[i]).id@ == id;
                    assert(repos[i] == t[i]);
                }
            }
            assert(repos.last().id@ != id);
            assert(r.push(repos.last()) =~= repos);
        }
    }
}

/// Removing a Repo takes every entry with its id off the list and keeps every other
/// entry: afterwards no Repo has that id, and each Repo with another id is still there.
pub proof fn law_removing_drops_only_that_repo(repos: Seq<Repo>, id: Seq<char>)
    ensures
        !has_id(without_id(repos, id), id),
        forall|i: int|
            0 <= i < repos.len() && (#[trigger] repos[i]).id@ != id ==> without_id(
                repos,
                id,
            ).contains(repos[i]),
{
    lemma_without_id(repos, id);
    if has_id(without_id(repos, id), id) {
        let k = choose|k: int|
            0 <= k < without_id(repos, id).len() && (#[trigger] without_id(repos, id)[k]).id@ == id;
        let i = choose|i: int|
            0 <= i < repos.len() && #[trigger] without_id(repos, id)[k] == repos[i] && repos[i].id@
                != id;
    }
}

/// Removing a Repo that was just added, and was not on the list before, gives the list
/// back as it was.
pub proof fn law_removing_undoes_adding(repos: Seq<Repo>, repo: Repo)
    requires
        !has_id(repos, repo.id@),
    ensures
        without_id(added(repos, repo), repo.id@) == repos,
{
    let l = repos.push(repo);
    assert(l.drop_last() =~= repos);
    assert(l.last() == repo);
    lemma_without_id(repos, repo.id@);
}

} // verus!
