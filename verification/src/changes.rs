//! Which files differ between the two sides a Diff Mode names: the decisions made over
//! the index, worktree and tree events gix reports, and the ordering of the result.

use vstd::prelude::*;

use crate::order::{
    insert_sorted, lemma_less_asymmetric, lemma_less_irreflexive, lemma_less_total,
    lemma_less_transitive, lemma_push_to_set, seq_less, string_less, strictly_sorted, views,
};
use crate::text::{append_str, chars_equal, chars_of};
use crate::types::{ChangedFile, DiffSpec, Side};

verus! {

/// How an index entry stands against the worktree, as far as choosing its two sides goes.
#[derive(Clone, Copy, Debug, PartialEq, Eq, Structural)]
pub enum EntryStatus {
    /// Only the stat cache is stale: the content is identical.
    NeedsUpdate,
    /// The worktree no longer has the file.
    Removed,
    /// Added with `git add -N`: there is no blob for it yet.
    IntentToAdd,
    /// Any other change.
    Other,
}

/// One event of an index-to-worktree status walk.
#[derive(Clone, Debug)]
pub enum WorktreeItem {
    /// An index entry that differs from the worktree, with the id of its blob.
    Modification { path: String, entry_id: String, status: EntryStatus },
    /// An untracked file.
    DirectoryContents { path: String },
    /// A file moved in the worktree: `source` is where it came from in the index, with
    /// that entry's blob id, or nothing for a copy.
    Rewrite { path: String, source: Option<(String, String)> },
}

/// One event of a tree-to-index diff, with blob ids.
#[derive(Clone, Debug)]
pub enum TreeIndexChange {
    Addition { path: String, id: String },
    Deletion { path: String, id: String },
    Modification { path: String, previous_id: String, id: String },
    Rewrite { source_path: String, source_id: String, path: String, id: String },
}

/// One event of the combined tree-to-index-to-worktree status walk.
#[derive(Clone, Debug)]
pub enum StatusItem {
    TreeIndex(TreeIndexChange),
    IndexWorktree(WorktreeItem),
}

/// The changed file an index-to-worktree event stands for, if any.
pub open spec fn unstaged_file(item: WorktreeItem) -> Option<ChangedFile> {
    match item {
        WorktreeItem::Modification { path, entry_id, status } => {
            if status == EntryStatus::NeedsUpdate {
                None
            } else {
                Some(
                    ChangedFile {
                        path,
                        old_path: None,
                        old: if status == EntryStatus::IntentToAdd { Side::Missing } else { Side::Blob(entry_id) },
                        new: if status == EntryStatus::Removed { Side::Missing } else { Side::Worktree(path) },
                    },
                )
            }
        },
        WorktreeItem::DirectoryContents { path } => Some(
            ChangedFile { path, old_path: None, old: Side::Missing, new: Side::Worktree(path) },
        ),
        WorktreeItem::Rewrite { path, source } => match source {
            Some(src) => Some(
                ChangedFile {
                    path,
                    old_path: Some(src.0),
                    old: Side::Blob(src.1),
                    new: Side::Worktree(path),
                },
            ),
            None => None,
        },
    }
}

/// The changed files a run of index-to-worktree events stands for, in order.
pub open spec fn unstaged_files_of(items: Seq<WorktreeItem>) -> Seq<ChangedFile>
    decreases items.len(),
{
    if items.len() == 0 {
        seq![]
    } else {
        let r = unstaged_files_of(items.drop_last());
        match unstaged_file(items.last()) {
            Some(f) => r.push(f),
            None => r,
        }
    }
}

/// index vs worktree: the changed files of an index-to-worktree walk, in the order the
/// walk reported them. Untracked files count as changes: a file the user just wrote
/// is usually the first thing they want to look at. An entry whose stat cache alone is
/// stale has identical content and is left out, as is a copy (only renames are tracked).
pub fn unstaged(items: &Vec<WorktreeItem>) -> (r: Vec<ChangedFile>)
    ensures
        r@ == unstaged_files_of(items@),
{
    let mut out: Vec<ChangedFile> = Vec::new();
    let mut i: usize = 0;
    while i < items.len()
        invariant
            i <= items@.len(),
            out@ == unstaged_files_of(items@.take(i as int)),
        decreases items.len() - i,
    {
        proof {
            assert(items@.take(i + 1).drop_last() =~= items@.take(i as int));
            assert(items@.take(i + 1).last() == items@[i as int]);
        }
        match &items[i] {
            WorktreeItem::Modification { path, entry_id, status } => {
                match status {
                    EntryStatus::NeedsUpdate => {},
                    _ => {
                        let new = match status {
                            EntryStatus::Removed => Side::Missing,
                            _ => Side::Worktree(path.clone()),
                        };
                        let old = match status {
                            EntryStatus::IntentToAdd => Side::Missing,
                            _ => Side::Blob(entry_id.clone()),
                        };
                        out.push(ChangedFile { path: path.clone(), old_path: None, old, new });
                    },
                }
            },
            WorktreeItem::DirectoryContents { path } => {
                out.push(
                    ChangedFile {
                        path: path.clone(),
                        old_path: None,
                        old: Side::Missing,
                        new: Side::Worktree(path.clone()),
                    },
                );
            },
            WorktreeItem::Rewrite { path, source } => {
                match source {
                    Some(src) => {
                        out.push(
                            ChangedFile {
                                old: Side::Blob(src.1.clone()),
                                new: Side::Worktree(path.clone()),
                                old_path: Some(src.0.clone()),
                                path: path.clone(),
                            },
                        );
                    },
                    // Only ever produced for copies, which are not tracked.
                    None => {},
                }
            },
        }
        i = i + 1;
    }
    proof {
        assert(items@.take(i as int) =~= items@);
    }
    out
}

/// The changed file a tree-to-index event stands for.
pub open spec fn staged_file(c: TreeIndexChange) -> ChangedFile {
    match c {
        TreeIndexChange::Addition { path, id } => ChangedFile {
            path,
            old_path: None,
            old: Side::Missing,
            new: Side::Blob(id),
        },
        TreeIndexChange::Deletion { path, id } => ChangedFile {
            path,
            old_path: None,
            old: Side::Blob(id),
            new: Side::Missing,
        },
        TreeIndexChange::Modification { path, previous_id, id } => ChangedFile {
            path,
            old_path: None,
            old: Side::Blob(previous_id),
            new: Side::Blob(id),
        },
        TreeIndexChange::Rewrite { source_path, source_id, path, id } => ChangedFile {
            path,
            old_path: Some(source_path),
            old: Side::Blob(source_id),
            new: Side::Blob(id),
        },
    }
}

/// HEAD vs index: one changed file per tree-to-index event, in order.
pub fn staged(changes: &Vec<TreeIndexChange>) -> (r: Vec<ChangedFile>)
    ensures
        r@ == changes@.map_values(|c: TreeIndexChange| staged_file(c)),
{
    let mut out: Vec<ChangedFile> = Vec::new();
    let mut i: usize = 0;
    while i < changes.len()
        invariant
            i <= changes@.len(),
            out@ == changes@.take(i as int).map_values(|c: TreeIndexChange| staged_file(c)),
        decreases changes.len() - i,
    {
        let file = match &changes[i] {
            TreeIndexChange::Addition { path, id } => ChangedFile {
                path: path.clone(),
                old_path: None,
                old: Side::Missing,
                new: Side::Blob(id.clone()),
            },
            TreeIndexChange::Deletion { path, id } => ChangedFile {
                path: path.clone(),
                old_path: None,
                old: Side::Blob(id.clone()),
                new: Side::Missing,
            },
            TreeIndexChange::Modification { path, previous_id, id } => ChangedFile {
                path: path.clone(),
                old_path: None,
                old: Side::Blob(previous_id.clone()),
                new: Side::Blob(id.clone()),
            },
            TreeIndexChange::Rewrite { source_path, source_id, path, id } => ChangedFile {
                path: path.clone(),
                old_path: Some(source_path.clone()),
                old: Side::Blob(source_id.clone()),
                new: Side::Blob(id.clone()),
            },
        };
        out.push(file);
        proof {
            assert(changes@.take(i + 1).map_values(|c: TreeIndexChange| staged_file(c)) =~= changes@.take(
                i as int,
            ).map_values(|c: TreeIndexChange| staged_file(c)).push(staged_file(changes@[i as int])));
        }
        i = i + 1;
    }
    proof {
        assert(changes@.take(i as int) =~= changes@);
    }
    out
}

/// Every file the checkout tracks, plus anything `extra` adds (untracked files and files
/// deleted on this side show up that way): repo-relative, sorted, each once.
pub fn tracked_paths(index_paths: &Vec<String>, extra: &Vec<String>) -> (r: Vec<String>)
    ensures
        strictly_sorted(views(r@)),
        views(r@).to_set() == views(index_paths@).to_set() + views(extra@).to_set(),
{
    let mut out: Vec<String> = Vec::new();
    let mut i: usize = 0;
    proof {
        assert(views(out@).to_set() =~= views(index_paths@).take(0).to_set());
    }
    while i < index_paths.len()
        invariant
            i <= index_paths@.len(),
            strictly_sorted(views(out@)),
            views(out@).to_set() == views(index_paths@).take(i as int).to_set(),
        decreases index_paths.len() - i,
    {
        insert_sorted(&mut out, index_paths[i].clone());
        proof {
            assert(views(index_paths@).take(i + 1) =~= views(index_paths@).take(i as int).push(
                index_paths@[i as int]@,
            ));
            lemma_push_to_set(views(index_paths@).take(i as int), index_paths@[i as int]@);
        }
        i = i + 1;
    }
    let mut j: usize = 0;
    proof {
        assert(views(index_paths@).take(i as int) =~= views(index_paths@));
        assert(views(extra@).take(0).to_set() =~= Set::<Seq<char>>::empty());
        assert(views(out@).to_set() =~= views(index_paths@).to_set() + views(extra@).take(0).to_set());
    }
    while j < extra.len()
        invariant
            j <= extra@.len(),
            strictly_sorted(views(out@)),
            views(out@).to_set() == views(index_paths@).to_set() + views(extra@).take(j as int).to_set(),
        decreases extra.len() - j,
    {
        insert_sorted(&mut out, extra[j].clone());
        proof {
            assert(views(extra@).take(j + 1) =~= views(extra@).take(j as int).push(extra@[j as int]@));
            lemma_push_to_set(views(extra@).take(j as int), extra@[j as int]@);
            assert(views(out@).to_set() =~= views(index_paths@).to_set() + views(extra@).take(j + 1).to_set());
        }
        j = j + 1;
    }
    proof {
        assert(views(extra@).take(j as int) =~= views(extra@));
    }
    out
}

/// The path a status event brings into a Branch-mode diff, if any. An entry whose stat
/// cache alone is stale has the index's content, so whether it differs from the
/// merge-base is the tree leg's to say; a copy is not tracked.
pub open spec fn event_path(item: StatusItem) -> Option<Seq<char>> {
    match item {
        StatusItem::TreeIndex(c) => Some(
            match c {
                TreeIndexChange::Addition { path, .. } => path@,
                TreeIndexChange::Deletion { path, .. } => path@,
                TreeIndexChange::Modification { path, .. } => path@,
                TreeIndexChange::Rewrite { path, .. } => path@,
            },
        ),
        StatusItem::IndexWorktree(w) => match w {
            WorktreeItem::Modification { path, status, .. } => {
                if status == EntryStatus::NeedsUpdate {
                    None
                } else {
                    Some(path@)
                }
            },
            WorktreeItem::DirectoryContents { path } => Some(path@),
            WorktreeItem::Rewrite { path, source } => match source {
                Some(_) => Some(path@),
                None => None,
            },
        },
    }
}

/// The rename a status event records, as (new path, where it came from), if any.
pub open spec fn event_source(item: StatusItem) -> Option<(Seq<char>, Seq<char>)> {
    match item {
        StatusItem::TreeIndex(TreeIndexChange::Rewrite { source_path, path, .. }) => Some(
            (path@, source_path@),
        ),
        StatusItem::IndexWorktree(WorktreeItem::Rewrite { path, source: Some(src) }) => Some(
            (path@, src.0@),
        ),
        _ => None,
    }
}

/// Every path a run of status events brings into a Branch-mode diff.
pub open spec fn event_paths(items: Seq<StatusItem>) -> Set<Seq<char>>
    decreases items.len(),
{
    if items.len() == 0 {
        Set::empty()
    } else {
        let r = event_paths(items.drop_last());
        match event_path(items.last()) {
            Some(p) => r.insert(p),
            None => r,
        }
    }
}

/// Where the last rename among `items` that produced `q` says it came from.
pub open spec fn source_in(items: Seq<StatusItem>, q: Seq<char>) -> Option<Seq<char>>
    decreases items.len(),
{
    if items.len() == 0 {
        None
    } else {
        match event_source(items.last()) {
            Some(kv) => if kv.0 == q {
                Some(kv.1)
            } else {
                source_in(items.drop_last(), q)
            },
            None => source_in(items.drop_last(), q),
        }
    }
}

pub open spec fn pair_views(s: Seq<(String, String)>) -> Seq<(Seq<char>, Seq<char>)> {
    s.map_values(|p: (String, String)| (p.0@, p.1@))
}

/// What a list of (key, value) pairs maps `q` to; a later pair wins.
pub open spec fn lookup(s: Seq<(Seq<char>, Seq<char>)>, q: Seq<char>) -> Option<Seq<char>>
    decreases s.len(),
{
    if s.len() == 0 {
        None
    } else if s.last().0 == q {
        Some(s.last().1)
    } else {
        lookup(s.drop_last(), q)
    }
}

/// No key occurs twice: the pairs are a map.
pub open spec fn keys_unique(s: Seq<(Seq<char>, Seq<char>)>) -> bool {
    forall|i: int, j: int| 0 <= i < j < s.len() ==> (#[trigger] s[i]).0 != (#[trigger] s[j]).0
}

proof fn lemma_lookup_absent(s: Seq<(Seq<char>, Seq<char>)>, q: Seq<char>)
    requires
        forall|i: int| 0 <= i < s.len() ==> (#[trigger] s[i]).0 != q,
    ensures
        lookup(s, q) is None,
    decreases s.len(),
{
    if s.len() > 0 {
        assert(s.last() == s[s.len() - 1]);
        assert forall|i: int| 0 <= i < s.drop_last().len() implies (#[trigger] s.drop_last()[i]).0
            != q by {
            assert(s.drop_last()[i] == s[i]);
        }
        lemma_lookup_absent(s.drop_last(), q);
    }
}

proof fn lemma_lookup_update(s: Seq<(Seq<char>, Seq<char>)>, i: int, v: Seq<char>, q: Seq<char>)
    requires
        keys_unique(s),
        0 <= i < s.len(),
    ensures
        lookup(s.update(i, (s[i].0, v)), q) == if q == s[i].0 {
            Some(v)
        } else {
            lookup(s, q)
        },
    decreases s.len(),
{
    let t = s.update(i, (s[i].0, v));
    assert(t.last() == t[t.len() - 1]);
    assert(s.last() == s[s.len() - 1]);
    if i == s.len() - 1 {
        assert(t.drop_last() =~= s.drop_last());
    } else {
        assert(s.last().0 != s[i].0);
        assert(t.drop_last() =~= s.drop_last().update(i, (s[i].0, v)));
        assert(keys_unique(s.drop_last())) by {
            assert forall|a: int, b: int| 0 <= a < b < s.drop_last().len() implies (
            #[trigger] s.drop_last()[a]).0 != (#[trigger] s.drop_last()[b]).0 by {
                assert(s.drop_last()[a] == s[a]);
                assert(s.drop_last()[b] == s[b]);
            }
        }
        assert(s.drop_last()[i] == s[i]);
        lemma_lookup_update(s.drop_last(), i, v, q);
    }
}

/// Records that `path` came from `source`, replacing what was recorded for `path`.
fn record_source(sources: &mut Vec<(String, String)>, path: String, source: String)
    requires
        keys_unique(pair_views(old(sources)@)),
    ensures
        keys_unique(pair_views(final(sources)@)),
        forall|q: Seq<char>|
            #[trigger] lookup(pair_views(final(sources)@), q) == if q == path@ {
                Some(source@)
            } else {
                lookup(pair_views(old(sources)@), q)
            },
{
    let ghost s0 = pair_views(sources@);
    let mut i: usize = 0;
    while i < sources.len()
        invariant
            sources@ == old(sources)@,
            s0 == pair_views(sources@),
            keys_unique(s0),
            i <= sources@.len(),
            forall|j: int| 0 <= j < i ==> (#[trigger] s0[j]).0 != path@,
        decreases sources.len() - i,
    {
        if sources[i].0 == path {
            proof {
                assert(s0[i as int].0 == path@);
            }
            let ghost sv = source@;
            sources[i] = (path, source);
            proof {
                let s1 = pair_views(sources@);
                assert(s1 =~= s0.update(i as int, (s0[i as int].0, sv)));
                assert forall|q: Seq<char>| #[trigger]
                    lookup(s1, q) == if q == s0[i as int].0 {
                        Some(sv)
                    } else {
                        lookup(s0, q)
                    } by {
                    lemma_lookup_update(s0, i as int, sv, q);
                }
                assert forall|a: int, b: int| 0 <= a < b < s1.len() implies (#[trigger] s1[a]).0
                    != (#[trigger] s1[b]).0 by {
                    assert(s0[a].0 == s1[a].0);
                    assert(s0[b].0 == s1[b].0);
                }
            }
            return;
        }
        i = i + 1;
    }
    let ghost pv = path@;
    let ghost sv = source@;
    sources.push((path, source));
    proof {
        let s1 = pair_views(sources@);
        assert(s1 =~= s0.push((pv, sv)));
        assert(s1.drop_last() =~= s0);
        assert forall|a: int, b: int| 0 <= a < b < s1.len() implies (#[trigger] s1[a]).0 != (
        #[trigger] s1[b]).0 by {
            if b == s1.len() - 1 {
                assert(s1[a] == s0[a]);
            } else {
                assert(s1[a] == s0[a]);
                assert(s1[b] == s0[b]);
            }
        }
        assert(s1.last() == s1[s1.len() - 1]);
    }
}

/// The paths a merge-base-to-index-to-worktree walk brings into a Branch-mode diff,
/// sorted and each once, with where each renamed path came from.
///
/// The walk arrives as two kinds of event in no guaranteed order, and a file changed in
/// a commit and again in the worktree shows up twice: the events are read for the paths
/// that took part and nothing else, which is what makes a path land once.
pub fn branch_paths(items: &Vec<StatusItem>) -> (r: (Vec<String>, Vec<(String, String)>))
    ensures
        strictly_sorted(views(r.0@)),
        views(r.0@).to_set() == event_paths(items@),
        keys_unique(pair_views(r.1@)),
        forall|q: Seq<char>| #[trigger] lookup(pair_views(r.1@), q) == source_in(items@, q),
{
    let mut paths: Vec<String> = Vec::new();
    let mut sources: Vec<(String, String)> = Vec::new();
    let mut i: usize = 0;
    proof {
        assert(views(paths@).to_set() =~= Set::<Seq<char>>::empty());
        assert(items@.take(0).len() == 0);
    }
    while i < items.len()
        invariant
            i <= items@.len(),
            strictly_sorted(views(paths@)),
            views(paths@).to_set() == event_paths(items@.take(i as int)),
            keys_unique(pair_views(sources@)),
            forall|q: Seq<char>| #[trigger]
                lookup(pair_views(sources@), q) == source_in(items@.take(i as int), q),
        decreases items.len() - i,
    {
        let ghost pre = items@.take(i as int);
        proof {
            assert(items@.take(i + 1).drop_last() =~= pre);
            assert(items@.take(i + 1).last() == items@[i as int]);
        }
        let ghost paths0 = views(paths@).to_set();
        let ghost src0 = pair_views(sources@);
        match &items[i] {
            StatusItem::TreeIndex(c) => {
                match c {
                    TreeIndexChange::Addition { path, .. } => {
                        insert_sorted(&mut paths, path.clone());
                    },
                    TreeIndexChange::Deletion { path, .. } => {
                        insert_sorted(&mut paths, path.clone());
                    },
                    TreeIndexChange::Modification { path, .. } => {
                        insert_sorted(&mut paths, path.clone());
                    },
                    TreeIndexChange::Rewrite { source_path, path, .. } => {
                        record_source(&mut sources, path.clone(), source_path.clone());
                        insert_sorted(&mut paths, path.clone());
                    },
                }
            },
            StatusItem::IndexWorktree(w) => {
                match w {
                    WorktreeItem::Modification { path, status, .. } => {
                        match status {
                            EntryStatus::NeedsUpdate => {},
                            _ => {
                                insert_sorted(&mut paths, path.clone());
                            },
                        }
                    },
                    WorktreeItem::DirectoryContents { path } => {
                        insert_sorted(&mut paths, path.clone());
                    },
                    WorktreeItem::Rewrite { path, source } => {
                        match source {
                            Some(src) => {
                                record_source(&mut sources, path.clone(), src.0.clone());
                                insert_sorted(&mut paths, path.clone());
                            },
                            // Only ever produced for copies, which are not tracked.
                            None => {},
                        }
                    },
                }
            },
        }
        proof {
            let post = items@.take(i + 1);
            assert forall|q: Seq<char>| #[trigger]
                lookup(pair_views(sources@), q) == source_in(post, q) by {
                assert(lookup(src0, q) == source_in(pre, q));
            }
        }
        i = i + 1;
    }
    proof {
        assert(items@.take(i as int) =~= items@);
    }
    (paths, sources)
}

/// The path a file had `n` renames back, following `sources` until it names no source.
pub open spec fn follow(s: Seq<(Seq<char>, Seq<char>)>, p: Seq<char>, n: nat) -> Seq<char>
    decreases n,
{
    if n == 0 {
        p
    } else {
        match lookup(s, p) {
            Some(src) => follow(s, src, (n - 1) as nat),
            None => p,
        }
    }
}

/// What `sources` says `key` came from; a later pair wins.
fn find_source<'a>(sources: &'a Vec<(String, String)>, key: &String) -> (r: Option<&'a String>)
    ensures
        match r {
            Some(v) => lookup(pair_views(sources@), key@) == Some(v@),
            None => lookup(pair_views(sources@), key@) is None,
        },
{
    let ghost s = pair_views(sources@);
    let mut i: usize = sources.len();
    proof {
        assert(s.take(i as int) =~= s);
    }
    while i > 0
        invariant
            i <= sources@.len(),
            s == pair_views(sources@),
            lookup(s, key@) == lookup(s.take(i as int), key@),
        decreases i,
    {
        let ghost t = s.take(i as int);
        proof {
            assert(t.last() == s[i - 1]);
            assert(t.drop_last() =~= s.take(i - 1));
        }
        if sources[i - 1].0 == *key {
            return Some(&sources[i - 1].1);
        }
        i = i - 1;
    }
    proof {
        assert(s.take(0).len() == 0);
    }
    None
}

/// The path a file had in the merge-base. A rename can be recorded on either leg -- one
/// the branch committed, or one done in the worktree since -- so the sources are followed
/// back. The bound, one step per recorded rename, is what keeps a rename that loops back
/// on itself from spinning.
pub fn origin_of(path: &String, sources: &Vec<(String, String)>) -> (r: String)
    ensures
        r@ == follow(pair_views(sources@), path@, sources@.len()),
{
    let ghost s = pair_views(sources@);
    let n = sources.len();
    let mut origin: String = path.clone();
    let mut k: usize = 0;
    while k < n
        invariant
            n == sources@.len(),
            s == pair_views(sources@),
            k <= n,
            follow(s, path@, n as nat) == follow(s, origin@, (n - k) as nat),
        decreases n - k,
    {
        match find_source(sources, &origin) {
            Some(src) => {
                origin = src.clone();
            },
            None => {
                return origin;
            },
        }
        k = k + 1;
    }
    origin
}

/// The old side of a Branch-mode file: the merge-base tree's entry for its origin, as
/// the entry's blob id and whether it is a blob or a symlink. Anything else there (a
/// directory, a submodule) or nothing at all has no content on that side.
pub open spec fn base_side(entry: Option<(String, bool)>) -> Side {
    match entry {
        Some(e) => if e.1 {
            Side::Blob(e.0)
        } else {
            Side::Missing
        },
        None => Side::Missing,
    }
}

/// The new side of a Branch-mode file: always the worktree copy, never the branch tip,
/// so uncommitted work is part of what the branch did. It is present when something that
/// is not a directory stands at `path` (a symlink counts even when it points at nothing);
/// a directory there is a submodule, which has no content to show.
pub open spec fn worktree_side(path: String, present: bool, is_dir: bool) -> Side {
    if present && !is_dir {
        Side::Worktree(path)
    } else {
        Side::Missing
    }
}

/// The old side of a Branch-mode file, as `base_side` says.
pub fn base_side_of(entry: Option<(String, bool)>) -> (r: Side)
    ensures
        r == base_side(entry),
{
    match entry {
        Some((id, true)) => Side::Blob(id),
        _ => Side::Missing,
    }
}

/// The new side of a Branch-mode file, as `worktree_side` says.
pub fn worktree_side_of(path: String, present: bool, is_dir: bool) -> (r: Side)
    ensures
        r == worktree_side(path, present, is_dir),
{
    if present && !is_dir {
        Side::Worktree(path)
    } else {
        Side::Missing
    }
}

/// The changed file a Branch-mode path stands for. Its old side is the merge-base tree's
/// entry for `origin` (`base_entry`: the blob id, and whether the entry is a blob or a
/// symlink); its new side is the worktree copy of `path`, when something that is not a
/// directory stands there. None when neither side has content (a file this branch added
/// and the worktree has since removed, or a submodule, which has none either way).
/// `origin` is the path the file had in the merge-base; it is reported as `old_path` only
/// when it differs.
pub fn branch_file(
    path: String,
    origin: String,
    base_entry: Option<(String, bool)>,
    present: bool,
    is_dir: bool,
) -> (r: Option<ChangedFile>)
    ensures
        (base_side(base_entry) is Missing && worktree_side(path, present, is_dir) is Missing)
            <==> r is None,
        r matches Some(f) ==> {
            &&& f.path@ == path@
            &&& f.old == base_side(base_entry)
            &&& f.new == worktree_side(path, present, is_dir)
            &&& if origin@ == path@ {
                f.old_path is None
            } else {
                f.old_path matches Some(o) && o@ == origin@
            }
        },
{
    let old = base_side_of(base_entry);
    let new = worktree_side_of(path.clone(), present, is_dir);
    match (&old, &new) {
        (Side::Missing, Side::Missing) => {
            return None;
        },
        _ => {},
    }
    let old_path = if origin == path {
        None
    } else {
        Some(origin)
    };
    Some(ChangedFile { path, old_path, old, new })
}

/// The changed files among `s` whose path is `q`, in the order `s` has them.
pub open spec fn with_path(s: Seq<ChangedFile>, q: Seq<char>) -> Seq<ChangedFile>
    decreases s.len(),
{
    if s.len() == 0 {
        seq![]
    } else {
        let r = with_path(s.drop_last(), q);
        if s.last().path@ == q {
            r.push(s.last())
        } else {
            r
        }
    }
}

/// No file sorts before one that comes ahead of it.
pub open spec fn sorted_by_path(s: Seq<ChangedFile>) -> bool {
    forall|i: int, j: int|
        0 <= i < j < s.len() ==> !seq_less((#[trigger] s[j]).path@, (#[trigger] s[i]).path@)
}

proof fn lemma_with_path_concat(a: Seq<ChangedFile>, b: Seq<ChangedFile>, q: Seq<char>)
    ensures
        with_path(a + b, q) == with_path(a, q) + with_path(b, q),
    decreases b.len(),
{
    if b.len() == 0 {
        assert(a + b =~= a);
        assert(with_path(a, q) + with_path(b, q) =~= with_path(a, q));
    } else {
        assert((a + b).drop_last() =~= a + b.drop_last());
        assert((a + b).last() == b.last());
        lemma_with_path_concat(a, b.drop_last(), q);
        if b.last().path@ == q {
            assert(with_path(a, q) + with_path(b.drop_last(), q).push(b.last()) =~= (with_path(a, q)
                + with_path(b.drop_last(), q)).push(b.last()));
        }
    }
}

proof fn lemma_with_path_none(a: Seq<ChangedFile>, q: Seq<char>)
    requires
        forall|i: int| 0 <= i < a.len() ==> (#[trigger] a[i]).path@ != q,
    ensures
        with_path(a, q) == Seq::<ChangedFile>::empty(),
    decreases a.len(),
{
    if a.len() > 0 {
        assert(a.last() == a[a.len() - 1]);
        assert forall|i: int| 0 <= i < a.drop_last().len() implies (#[trigger] a.drop_last()[i]).path@
            != q by {
            assert(a.drop_last()[i] == a[i]);
        }
        lemma_with_path_none(a.drop_last(), q);
    }
}

/// `files` sorted by path, keeping files with the same path in the order they came: the
/// order the sidebar lists them in.
pub fn sort_by_path(files: Vec<ChangedFile>) -> (r: Vec<ChangedFile>)
    ensures
        r@.len() == files@.len(),
        sorted_by_path(r@),
        forall|q: Seq<char>| #[trigger] with_path(r@, q) == with_path(files@, q),
{
    let ghost all = files@;
    let n_files = files.len();
    let mut rest = files;
    let mut out: Vec<ChangedFile> = Vec::new();
    let mut k: usize = 0;
    proof {
        assert(all.take(0).len() == 0);
        assert(all.skip(0) =~= all);
    }
    while rest.len() > 0
        invariant
            k <= all.len(),
            all.len() == n_files,
            rest@ == all.skip(k as int),
            out@.len() == k,
            sorted_by_path(out@),
            forall|q: Seq<char>| #[trigger] with_path(out@, q) == with_path(all.take(k as int), q),
        decreases rest.len(),
    {
        let f = rest.remove(0);
        proof {
            assert(f == all[k as int]);
            assert(rest@ =~= all.skip(k + 1));
        }
        let ghost o = out@;
        let mut p: usize = 0;
        while p < out.len() && !string_less(&f.path, &out[p].path)
            invariant
                out@ == o,
                p <= o.len(),
                forall|j: int| 0 <= j < p ==> !seq_less(f.path@, (#[trigger] o[j]).path@),
            decreases out.len() - p,
        {
            p = p + 1;
        }
        proof {
            // Everything from `p` on sorts after `f`.
            assert forall|j: int| p <= j < o.len() implies seq_less(f.path@, (#[trigger] o[j]).path@) by {
                assert(seq_less(f.path@, o[p as int].path@));
                if j > p {
                    assert(!seq_less(o[j].path@, o[p as int].path@));
                    lemma_less_total(o[j].path@, o[p as int].path@);
                    if o[j].path@ != o[p as int].path@ {
                        lemma_less_transitive(f.path@, o[p as int].path@, o[j].path@);
                    }
                }
            }
        }
        let ghost fv = f;
        out.insert(p, f);
        proof {
            let n = out@;
            assert(n =~= o.take(p as int) + seq![fv] + o.skip(p as int));
            assert(o =~= o.take(p as int) + o.skip(p as int));
            assert forall|i: int, j: int| 0 <= i < j < n.len() implies !seq_less(
                (#[trigger] n[j]).path@,
                (#[trigger] n[i]).path@,
            ) by {
                if j < p {
                    assert(n[i] == o[i] && n[j] == o[j]);
                } else if j == p {
                    assert(n[i] == o[i]);
                } else if i == p {
                    assert(n[j] == o[j - 1]);
                    assert(seq_less(fv.path@, o[j - 1].path@));
                    lemma_less_asymmetric(fv.path@, o[j - 1].path@);
                } else if i < p {
                    assert(n[i] == o[i] && n[j] == o[j - 1]);
                } else {
                    assert(n[i] == o[i - 1] && n[j] == o[j - 1]);
                }
            }
            assert(all.take(k + 1) =~= all.take(k as int).push(fv));
            assert(all.take(k + 1).drop_last() =~= all.take(k as int));
            assert forall|q: Seq<char>| #[trigger] with_path(n, q) == with_path(all.take(k + 1), q) by {
                lemma_with_path_concat(o.take(p as int) + seq![fv], o.skip(p as int), q);
                lemma_with_path_concat(o.take(p as int), seq![fv], q);
                lemma_with_path_concat(o.take(p as int), o.skip(p as int), q);
                assert(seq![fv].drop_last() =~= Seq::<ChangedFile>::empty());
                assert(with_path(Seq::<ChangedFile>::empty(), q) =~= Seq::<ChangedFile>::empty());
                if fv.path@ == q {
                    assert forall|i: int| 0 <= i < o.skip(p as int).len() implies (
                    #[trigger] o.skip(p as int)[i]).path@ != q by {
                        assert(o.skip(p as int)[i] == o[p + i]);
                        assert(seq_less(fv.path@, o[p + i].path@));
                        lemma_less_irreflexive(fv.path@);
                    }
                    lemma_with_path_none(o.skip(p as int), q);
                    assert(with_path(seq![fv], q) =~= seq![fv]);
                    assert(with_path(o.take(p as int), q) + with_path(o.skip(p as int), q) =~= with_path(o.take(p as int), q));
                    assert(with_path(o.take(p as int), q) + seq![fv] =~= with_path(o.take(p as int), q).push(fv));
                } else {
                    assert(with_path(seq![fv], q) =~= Seq::<ChangedFile>::empty());
                    assert(with_path(o.take(p as int), q) + Seq::<ChangedFile>::empty() =~= with_path(o.take(p as int), q));
                }
            }
        }
        k = k + 1;
    }
    proof {
        assert(all.take(k as int) =~= all);
    }
    out
}

/// Where the file at `path` stands among the changed files of a Diff Mode: the first
/// one with that path, or none when the path does not differ in this mode.
pub fn find_changed(changed: &Vec<ChangedFile>, path: &str) -> (r: Option<usize>)
    ensures
        match r {
            Some(i) => i < changed@.len() && changed@[i as int].path@ == path@ && forall|j: int|
                0 <= j < i ==> (#[trigger] changed@[j]).path@ != path@,
            None => forall|j: int| 0 <= j < changed@.len() ==> (#[trigger] changed@[j]).path@ != path@,
        },
{
    let want = chars_of(path);
    let mut i: usize = 0;
    while i < changed.len()
        invariant
            i <= changed@.len(),
            want@ == path@,
            forall|j: int| 0 <= j < i ==> (#[trigger] changed@[j]).path@ != path@,
        decreases changed.len() - i,
    {
        if chars_equal(&chars_of(changed[i].path.as_str()), &want) {
            return Some(i);
        }
        i = i + 1;
    }
    None
}

proof fn lemma_count_by_path(s: Seq<ChangedFile>, f: ChangedFile)
    ensures
        s.to_multiset().count(f) == with_path(s, f.path@).to_multiset().count(f),
    decreases s.len(),
{
    broadcast use vstd::seq_lib::group_to_multiset_ensures;
    broadcast use vstd::multiset::group_multiset_axioms;

    if s.len() == 0 {
        assert(with_path(s, f.path@) =~= Seq::<ChangedFile>::empty());
    } else {
        let t = s.drop_last();
        let x = s.last();
        assert(t.push(x) =~= s);
        vstd::seq_lib::to_multiset_build(t, x);
        lemma_count_by_path(t, f);
        if x.path@ == f.path@ {
            vstd::seq_lib::to_multiset_build(with_path(t, f.path@), x);
        }
    }
}

/// Sorting by path neither loses nor invents a file: the files that come out are the
/// files that went in, each as many times.
pub proof fn law_sorting_keeps_every_file(files: Seq<ChangedFile>, sorted: Seq<ChangedFile>)
    requires
        forall|q: Seq<char>| #[trigger] with_path(sorted, q) == with_path(files, q),
    ensures
        sorted.to_multiset() == files.to_multiset(),
{
    assert forall|f: ChangedFile| sorted.to_multiset().count(f) == files.to_multiset().count(f) by {
        lemma_count_by_path(sorted, f);
        lemma_count_by_path(files, f);
        assert(with_path(sorted, f.path@) == with_path(files, f.path@));
    }
    assert(sorted.to_multiset() =~= files.to_multiset());
}

/// The Base Branch a Branch-mode diff compares against, or the error the frontend shows
/// when the spec names none.
pub fn base_branch(spec: &DiffSpec) -> (r: Result<String, String>)
    ensures
        match spec.base_branch {
            Some(b) => r matches Ok(n) && n@ == b@,
            None => r matches Err(e) && e@ == "Branch mode needs a Base Branch to compare against"@,
        },
{
    match &spec.base_branch {
        Some(b) => Ok(b.clone()),
        None => {
            let mut e = String::new();
            append_str(&mut e, "Branch mode needs a Base Branch to compare against");
            Err(e)
        },
    }
}

proof fn lemma_unstaged_files_of(items: Seq<WorktreeItem>)
    ensures
        forall|k: int|
            0 <= k < items.len() && (#[trigger] unstaged_file(items[k])) is Some ==> unstaged_files_of(
                items,
            ).contains(unstaged_file(items[k])->0),
        forall|f: ChangedFile|
            unstaged_files_of(items).contains(f) ==> exists|k: int|
                0 <= k < items.len() && #[trigger] unstaged_file(items[k]) == Some(f),
    decreases items.len(),
{
    if items.len() > 0 {
        let t = items.drop_last();
        lemma_unstaged_files_of(t);
        let r = unstaged_files_of(t);
        assert(items.last() == items[items.len() - 1]);
        assert forall|k: int|
            0 <= k < items.len() && (#[trigger] unstaged_file(items[k])) is Some implies unstaged_files_of(
            items,
        ).contains(unstaged_file(items[k])->0) by {
            if k < t.len() {
                assert(t[k] == items[k]);
                let f = unstaged_file(items[k])->0;
                let j = choose|j: int| 0 <= j < r.len() && r[j] == f;
                assert(unstaged_files_of(items)[j] == f);
            } else {
                let f = unstaged_file(items[k])->0;
                assert(unstaged_files_of(items) == r.push(f));
                assert(unstaged_files_of(items)[r.len() as int] == f);
            }
        }
        assert forall|f: ChangedFile| unstaged_files_of(items).contains(f) implies exists|k: int|
            0 <= k < items.len() && #[trigger] unstaged_file(items[k]) == Some(f) by {
            let j = choose|j: int| 0 <= j < unstaged_files_of(items).len() && unstaged_files_of(items)[j] == f;
            if j < r.len() {
                match unstaged_file(items.last()) {
                    Some(g) => {
                        assert(unstaged_files_of(items) == r.push(g));
                    },
                    None => {},
                }
                assert(r[j] == f);
                assert(r.contains(f));
                let k = choose|k: int| 0 <= k < t.len() && #[trigger] unstaged_file(t[k]) == Some(f);
                assert(t[k] == items[k]);
            } else {
                assert(unstaged_file(items[items.len() - 1]) == Some(f));
            }
        }
    }
}

/// Unstaged mode lists what each index-to-worktree event says changed, and nothing else:
/// an untracked file with nothing on the old side and its own worktree copy on the new;
/// a modified entry (unless only its stat cache is stale) with its index blob on the old
/// side (nothing for an intent-to-add entry) and its worktree copy on the new (nothing
/// when the worktree no longer has it); a rename with its source's path and blob on the
/// old side and the worktree copy on the new. Every listed file comes from such an event
/// at its own path; a stale stat cache and a copy list nothing.
pub proof fn law_unstaged_lists_each_change(items: Seq<WorktreeItem>, k: int)
    requires
        0 <= k < items.len(),
    ensures
        match items[k] {
            WorktreeItem::DirectoryContents { path } => unstaged_files_of(items).contains(
                ChangedFile { path, old_path: None, old: Side::Missing, new: Side::Worktree(path) },
            ),
            WorktreeItem::Modification { path, entry_id, status } => status == EntryStatus::NeedsUpdate
                || unstaged_files_of(items).contains(
                ChangedFile {
                    path,
                    old_path: None,
                    old: if status == EntryStatus::IntentToAdd {
                        Side::Missing
                    } else {
                        Side::Blob(entry_id)
                    },
                    new: if status == EntryStatus::Removed {
                        Side::Missing
                    } else {
                        Side::Worktree(path)
                    },
                },
            ),
            WorktreeItem::Rewrite { path, source } => match source {
                Some(src) => unstaged_files_of(items).contains(
                    ChangedFile {
                        path,
                        old_path: Some(src.0),
                        old: Side::Blob(src.1),
                        new: Side::Worktree(path),
                    },
                ),
                None => true,
            },
        },
        forall|f: ChangedFile|
            #[trigger] unstaged_files_of(items).contains(f) ==> exists|j: int|
                0 <= j < items.len() && match #[trigger] items[j] {
                    WorktreeItem::DirectoryContents { path } => path == f.path && f.old is Missing
                        && f.new == Side::Worktree(path),
                    WorktreeItem::Modification { path, status, .. } => path == f.path && status
                        != EntryStatus::NeedsUpdate,
                    WorktreeItem::Rewrite { path, source } => path == f.path && source is Some
                        && f.new == Side::Worktree(path),
                },
{
    lemma_unstaged_files_of(items);
    assert(unstaged_file(items[k]) == unstaged_file(items[k]));
    assert forall|f: ChangedFile| #[trigger] unstaged_files_of(items).contains(f) implies exists|j: int|
        0 <= j < items.len() && match #[trigger] items[j] {
            WorktreeItem::DirectoryContents { path } => path == f.path && f.old is Missing && f.new
                == Side::Worktree(path),
            WorktreeItem::Modification { path, status, .. } => path == f.path && status
                != EntryStatus::NeedsUpdate,
            WorktreeItem::Rewrite { path, source } => path == f.path && source is Some && f.new
                == Side::Worktree(path),
        } by {
        let j = choose|j: int| 0 <= j < items.len() && #[trigger] unstaged_file(items[j]) == Some(f);
    }
}

/// Staged mode reads each HEAD-to-index event into one changed file at the event's path,
/// in order. The new side is the blob the index now holds, or nothing exactly for a
/// deletion; the old side is the blob HEAD held (for a rename, the source's blob), or
/// nothing exactly for an addition; `old_path` names the source exactly for a rename. So
/// a rename whose content changed is diffed against what it was, not against itself.
pub proof fn law_staged_reads_each_event(changes: Seq<TreeIndexChange>, k: int)
    requires
        0 <= k < changes.len(),
    ensures
        changes.map_values(|c: TreeIndexChange| staged_file(c)).len() == changes.len(),
        ({
            let f = changes.map_values(|c: TreeIndexChange| staged_file(c))[k];
            &&& f.old is Missing <==> changes[k] is Addition
            &&& f.new is Missing <==> changes[k] is Deletion
            &&& f.old_path is Some <==> changes[k] is Rewrite
            &&& match changes[k] {
                TreeIndexChange::Addition { path, id } => f.path == path && f.new == Side::Blob(id),
                TreeIndexChange::Deletion { path, id } => f.path == path && f.old == Side::Blob(id),
                TreeIndexChange::Modification { path, previous_id, id } => f.path == path && f.old
                    == Side::Blob(previous_id) && f.new == Side::Blob(id),
                TreeIndexChange::Rewrite { source_path, source_id, path, id } => {
                    &&& f.path == path
                    &&& f.old_path == Some(source_path)
                    &&& f.old == Side::Blob(source_id)
                    &&& f.new == Side::Blob(id)
                    &&& source_id@ != id@ ==> f.old != f.new
                },
            }
        }),
{
}

/// A rename event: `item` records that `q` came from `v`.
pub open spec fn renames(item: StatusItem, q: Seq<char>, v: Seq<char>) -> bool {
    match item {
        StatusItem::TreeIndex(TreeIndexChange::Rewrite { source_path, path, .. }) => path@ == q
            && source_path@ == v,
        StatusItem::IndexWorktree(WorktreeItem::Rewrite { path, source: Some(src) }) => path@ == q
            && src.0@ == v,
        _ => false,
    }
}

proof fn lemma_event_paths(items: Seq<StatusItem>)
    ensures
        forall|k: int|
            0 <= k < items.len() && (#[trigger] event_path(items[k])) is Some ==> event_paths(
                items,
            ).contains(event_path(items[k])->0),
        forall|p: Seq<char>|
            event_paths(items).contains(p) ==> exists|k: int|
                0 <= k < items.len() && #[trigger] event_path(items[k]) == Some(p),
    decreases items.len(),
{
    if items.len() > 0 {
        let t = items.drop_last();
        lemma_event_paths(t);
        assert(items.last() == items[items.len() - 1]);
        assert forall|k: int|
            0 <= k < items.len() && (#[trigger] event_path(items[k])) is Some implies event_paths(
            items,
        ).contains(event_path(items[k])->0) by {
            if k < t.len() {
                assert(t[k] == items[k]);
            }
        }
        assert forall|p: Seq<char>| event_paths(items).contains(p) implies exists|k: int|
            0 <= k < items.len() && #[trigger] event_path(items[k]) == Some(p) by {
            if event_paths(t).contains(p) {
                let k = choose|k: int| 0 <= k < t.len() && #[trigger] event_path(t[k]) == Some(p);
                assert(t[k] == items[k]);
            } else {
                assert(event_path(items[items.len() - 1]) == Some(p));
            }
        }
    }
}

proof fn lemma_source_in(items: Seq<StatusItem>, q: Seq<char>)
    ensures
        forall|k: int, v: Seq<char>|
            0 <= k < items.len() && #[trigger] renames(items[k], q, v) && (forall|j: int, w: Seq<char>|
                k < j < items.len() ==> !#[trigger] renames(items[j], q, w))
                ==> source_in(items, q) == Some(v),
        (forall|k: int, w: Seq<char>| 0 <= k < items.len() ==> !#[trigger] renames(items[k], q, w))
            ==> source_in(items, q) is None,
    decreases items.len(),
{
    if items.len() > 0 {
        let t = items.drop_last();
        lemma_source_in(t, q);
        let last = items[items.len() - 1];
        assert(items.last() == last);
        assert forall|k: int, v: Seq<char>|
            0 <= k < items.len() && #[trigger] renames(items[k], q, v) && (forall|j: int, w: Seq<char>|
                k < j < items.len() ==> !#[trigger] renames(items[j], q, w))
                implies source_in(items, q) == Some(v) by {
            if k < items.len() - 1 {
                assert(t[k] == items[k]);
                match event_source(last) {
                    Some(kv) => {
                        if kv.0 == q {
                            assert(renames(items[items.len() - 1], q, kv.1));
                        }
                    },
                    None => {},
                }
                assert forall|j: int, w: Seq<char>| k < j < t.len() implies !#[trigger] renames(t[j], q, w) by {
                    assert(t[j] == items[j]);
                }
            }
        }
        if forall|k: int, w: Seq<char>| 0 <= k < items.len() ==> !#[trigger] renames(items[k], q, w) {
            assert forall|k: int, w: Seq<char>| 0 <= k < t.len() implies !#[trigger] renames(t[k], q, w) by {
                assert(t[k] == items[k]);
            }
            match event_source(last) {
                Some(kv) => {
                    assert(!renames(items[items.len() - 1], q, kv.1));
                },
                None => {},
            }
        }
    }
}

/// Branch mode lists every path the walk names and only those: every path a
/// HEAD-tree-to-index event names (an addition, a deletion, a modification or a rename),
/// and every path an index-to-worktree event names (an untracked file, a modified entry
/// whose content may differ, a rename), each once. A renamed path is traced to the source
/// the last rename of it recorded, and a path no event renamed has no source.
pub proof fn law_branch_lists_every_event_path(items: Seq<StatusItem>, k: int, q: Seq<char>)
    requires
        0 <= k < items.len(),
    ensures
        match items[k] {
            StatusItem::TreeIndex(TreeIndexChange::Addition { path, .. }) => event_paths(items).contains(path@),
            StatusItem::TreeIndex(TreeIndexChange::Deletion { path, .. }) => event_paths(items).contains(path@),
            StatusItem::TreeIndex(TreeIndexChange::Modification { path, .. }) => event_paths(items).contains(path@),
            StatusItem::TreeIndex(TreeIndexChange::Rewrite { path, .. }) => event_paths(items).contains(path@),
            StatusItem::IndexWorktree(WorktreeItem::DirectoryContents { path }) => event_paths(items).contains(path@),
            StatusItem::IndexWorktree(WorktreeItem::Modification { path, status, .. }) => status
                == EntryStatus::NeedsUpdate || event_paths(items).contains(path@),
            StatusItem::IndexWorktree(WorktreeItem::Rewrite { path, source }) => source is None
                || event_paths(items).contains(path@),
        },
        event_paths(items).contains(q) ==> exists|j: int|
            0 <= j < items.len() && match #[trigger] items[j] {
                StatusItem::TreeIndex(TreeIndexChange::Addition { path, .. }) => path@ == q,
                StatusItem::TreeIndex(TreeIndexChange::Deletion { path, .. }) => path@ == q,
                StatusItem::TreeIndex(TreeIndexChange::Modification { path, .. }) => path@ == q,
                StatusItem::TreeIndex(TreeIndexChange::Rewrite { path, .. }) => path@ == q,
                StatusItem::IndexWorktree(WorktreeItem::DirectoryContents { path }) => path@ == q,
                StatusItem::IndexWorktree(WorktreeItem::Modification { path, status, .. }) => path@
                    == q && status != EntryStatus::NeedsUpdate,
                StatusItem::IndexWorktree(WorktreeItem::Rewrite { path, source }) => path@ == q
                    && source is Some,
            },
        forall|v: Seq<char>|
            #[trigger] renames(items[k], q, v) && (forall|j: int, w: Seq<char>|
                k < j < items.len() ==> !#[trigger] renames(items[j], q, w))
                ==> source_in(items, q) == Some(v),
        (forall|j: int, w: Seq<char>| 0 <= j < items.len() ==> !#[trigger] renames(items[j], q, w))
            ==> source_in(items, q) is None,
{
    lemma_event_paths(items);
    lemma_source_in(items, q);
    assert(event_path(items[k]) == event_path(items[k]));
    if event_paths(items).contains(q) {
        let j = choose|j: int| 0 <= j < items.len() && #[trigger] event_path(items[j]) == Some(q);
        assert(event_path(items[j]) == Some(q));
    }
}

} // verus!
