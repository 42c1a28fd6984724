//! The sidebar's file tree: how the flat, sorted list of repo-relative paths becomes the
//! nested tree the frontend renders.

use vstd::prelude::*;

use crate::paths::{
    dir_prefix, file_at, lemma_components_len, lemma_dir_under, lemma_prefix_depth,
    name_at, prefix_ok, split_components, starts_with,
};
use crate::text::{chars_equal, chars_of, concat_chars, string_of};
use crate::hunks::seqs;
use crate::types::{Changes, CountedFile, TreeNode};
use crate::changes::tracked_paths;
use crate::order::{
    lemma_less_irreflexive, lemma_push_to_set, lemma_strictly_sorted_no_duplicates, seq_less,
    strictly_sorted, views,
};

verus! {

/// A tree node as the contracts speak of it.
pub enum NodeSpec {
    Dir { name: Seq<char>, path: Seq<char>, children: Seq<NodeSpec> },
    File {
        name: Seq<char>,
        path: Seq<char>,
        changes: Option<Changes>,
        renamed_from: Option<Seq<char>>,
    },
}

/// The counts recorded for path `p`: the last entry for it, as a map written in that order
/// would hold.
pub open spec fn changes_for(entries: Seq<(String, Changes)>, p: Seq<char>) -> Option<Changes>
    decreases entries.len(),
{
    if entries.len() == 0 {
        None
    } else if entries.last().0@ == p {
        Some(entries.last().1)
    } else {
        changes_for(entries.drop_last(), p)
    }
}

/// Where path `p` was renamed from: the last entry for it.
pub open spec fn rename_for(entries: Seq<(String, String)>, p: Seq<char>) -> Option<Seq<char>>
    decreases entries.len(),
{
    if entries.len() == 0 {
        None
    } else if entries.last().0@ == p {
        Some(entries.last().1@)
    } else {
        rename_for(entries.drop_last(), p)
    }
}

/// How many paths from `i` on, in a row, lie under the directory prefix `dp`.
pub open spec fn run_len(paths: Seq<Seq<char>>, i: int, dp: Seq<char>) -> int
    decreases paths.len() - i,
{
    if 0 <= i < paths.len() && dp.is_prefix_of(paths[i]) {
        1 + run_len(paths, i + 1, dp)
    } else {
        0
    }
}

pub proof fn lemma_run_len_bounds(paths: Seq<Seq<char>>, i: int, dp: Seq<char>)
    requires
        0 <= i,
    ensures
        0 <= run_len(paths, i, dp),
        i + run_len(paths, i, dp) <= paths.len() || run_len(paths, i, dp) == 0,
        forall|j: int| i <= j < i + run_len(paths, i, dp) ==> dp.is_prefix_of(#[trigger] paths[j]),
        i + run_len(paths, i, dp) < paths.len() ==> !dp.is_prefix_of(paths[i + run_len(paths, i, dp)]),
    decreases paths.len() - i,
{
    if 0 <= i < paths.len() && dp.is_prefix_of(paths[i]) {
        lemma_run_len_bounds(paths, i + 1, dp);
    }
}

pub proof fn lemma_entry_end(paths: Seq<Seq<char>>, pre: Seq<char>, d: int, i: int)
    requires
        0 <= i < paths.len(),
    ensures
        i < entry_end(paths, pre, d, i) <= paths.len(),
{
    lemma_run_len_bounds(paths, i, dir_prefix(pre, name_at(paths[i], d)));
}

/// Where the entry that starts at path `i` ends: after the file itself, or after every
/// path in a row under the directory it names.
pub open spec fn entry_end(paths: Seq<Seq<char>>, pre: Seq<char>, d: int, i: int) -> int {
    if file_at(paths[i], d) {
        i + 1
    } else {
        let r = run_len(paths, i, dir_prefix(pre, name_at(paths[i], d)));
        if r > 0 { i + r } else { i + 1 }
    }
}

/// The file nodes of one level, from path `i` on, in order.
pub open spec fn level_files(
    paths: Seq<Seq<char>>,
    pre: Seq<char>,
    d: int,
    i: int,
    ch: Seq<(String, Changes)>,
    rn: Seq<(String, String)>,
) -> Seq<NodeSpec>
    decreases paths.len() - i,
{
    if i < 0 || i >= paths.len() {
        seq![]
    } else {
        proof {
            lemma_entry_end(paths, pre, d, i);
        }
        let rest = level_files(paths, pre, d, entry_end(paths, pre, d, i), ch, rn);
        let p = paths[i];
        if file_at(p, d) {
            seq![
                NodeSpec::File {
                    name: name_at(p, d),
                    path: p,
                    changes: changes_for(ch, p),
                    renamed_from: rename_for(rn, p),
                },
            ] + rest
        } else {
            rest
        }
    }
}

/// The directory nodes of one level, from path `i` on, in order, each holding the tree
/// of the paths under it.
pub open spec fn level_dirs(
    paths: Seq<Seq<char>>,
    pre: Seq<char>,
    d: int,
    i: int,
    fuel: nat,
    ch: Seq<(String, Changes)>,
    rn: Seq<(String, String)>,
) -> Seq<NodeSpec>
    decreases fuel, paths.len() - i,
{
    if i < 0 || i >= paths.len() || fuel == 0 {
        seq![]
    } else {
        proof {
            lemma_entry_end(paths, pre, d, i);
        }
        let rest = level_dirs(paths, pre, d, entry_end(paths, pre, d, i), fuel, ch, rn);
        let p = paths[i];
        if file_at(p, d) {
            rest
        } else {
            let name = name_at(p, d);
            let dp = dir_prefix(pre, name);
            let r = run_len(paths, i, dp);
            seq![
                NodeSpec::Dir {
                    name,
                    path: pre + name,
                    children: tree_level(paths.subrange(i, i + r), dp, d + 1, (fuel - 1) as nat, ch, rn),
                },
            ] + rest
        }
    }
}

/// The nodes of the level of the tree at depth `d` under prefix `pre`, directories
/// first: each path that ends at this depth is a file, and each run of paths under one
/// directory is that directory, with their own tree inside it. `fuel` bounds the depth.
pub open spec fn tree_level(
    paths: Seq<Seq<char>>,
    pre: Seq<char>,
    d: int,
    fuel: nat,
    ch: Seq<(String, Changes)>,
    rn: Seq<(String, String)>,
) -> Seq<NodeSpec>
    decreases fuel, paths.len() + 1,
{
    if fuel == 0 {
        seq![]
    } else {
        level_dirs(paths, pre, d, 0, fuel, ch, rn) + level_files(paths, pre, d, 0, ch, rn)
    }
}

pub open spec fn opt_str_is(o: Option<String>, s: Option<Seq<char>>) -> bool {
    match (o, s) {
        (None, None) => true,
        (Some(a), Some(b)) => a@ == b,
        _ => false,
    }
}

/// Node `n` is the node `s` describes, children included.
pub open spec fn node_is(n: TreeNode, s: NodeSpec) -> bool
    decreases n,
{
    match n {
        TreeNode::File { name, path, changes, renamed_from } => match s {
            NodeSpec::File { name: sn, path: sp, changes: sc, renamed_from: sr } => {
                &&& name@ == sn
                &&& path@ == sp
                &&& changes == sc
                &&& opt_str_is(renamed_from, sr)
            },
            _ => false,
        },
        TreeNode::Dir { name, path, children } => match s {
            NodeSpec::Dir { name: sn, path: sp, children: sc } => {
                &&& name@ == sn
                &&& path@ == sp
                &&& children@.len() == sc.len()
                &&& forall|i: int| 0 <= i < sc.len() ==> node_is(#[trigger] children@[i], sc[i])
            },
            _ => false,
        },
    }
}

pub open spec fn nodes_are(ns: Seq<TreeNode>, ss: Seq<NodeSpec>) -> bool {
    &&& ns.len() == ss.len()
    &&& forall|i: int| 0 <= i < ss.len() ==> node_is(#[trigger] ns[i], ss[i])
}



/// The counts recorded for `p`, the last entry for it winning.
fn find_changes(ch: &Vec<(String, Changes)>, p: &Vec<char>) -> (r: Option<Changes>)
    ensures
        r == changes_for(ch@, p@),
{
    let mut k = ch.len();
    proof {
        assert(ch@.take(k as int) =~= ch@);
    }
    while k > 0
        invariant
            k <= ch@.len(),
            changes_for(ch@, p@) == changes_for(ch@.take(k as int), p@),
        decreases k,
    {
        k = k - 1;
        proof {
            assert(ch@.take(k + 1).drop_last() =~= ch@.take(k as int));
            assert(ch@.take(k + 1).last() == ch@[k as int]);
        }
        if chars_equal(&chars_of(ch[k].0.as_str()), p) {
            return Some(ch[k].1);
        }
    }
    None
}

/// Where `p` was renamed from, the last entry for it winning.
fn find_rename(rn: &Vec<(String, String)>, p: &Vec<char>) -> (r: Option<String>)
    ensures
        opt_str_is(r, rename_for(rn@, p@)),
{
    let mut k = rn.len();
    proof {
        assert(rn@.take(k as int) =~= rn@);
    }
    while k > 0
        invariant
            k <= rn@.len(),
            rename_for(rn@, p@) == rename_for(rn@.take(k as int), p@),
        decreases k,
    {
        k = k - 1;
        proof {
            assert(rn@.take(k + 1).drop_last() =~= rn@.take(k as int));
            assert(rn@.take(k + 1).last() == rn@[k as int]);
        }
        if chars_equal(&chars_of(rn[k].0.as_str()), p) {
            return Some(rn[k].1.clone());
        }
    }
    None
}

/// One level of the tree for `paths[lo..hi]`, all of which lie under `pre`, recursing per
/// directory. Sorted input is what makes each directory's paths one run.
fn build_level_in(
    paths: &Vec<Vec<char>>,
    lo: usize,
    hi: usize,
    ch: &Vec<(String, Changes)>,
    rn: &Vec<(String, String)>,
    pre: &Vec<char>,
    depth: usize,
    Ghost(fuel): Ghost<nat>,
) -> (r: Vec<TreeNode>)
    requires
        lo <= hi <= paths@.len(),
        prefix_ok(pre@, depth as int),
        forall|j: int| lo <= j < hi ==> pre@.is_prefix_of(#[trigger] paths@[j]@),
        forall|j: int| lo <= j < hi ==> (#[trigger] paths@[j]@).len() < pre@.len() + fuel,
    ensures
        nodes_are(r@, tree_level(seqs(paths@).subrange(lo as int, hi as int), pre@, depth as int, fuel, ch@, rn@)),
    decreases fuel,
{
    let ghost ps = seqs(paths@).subrange(lo as int, hi as int);
    if lo == hi {
        proof {
            assert(level_dirs(ps, pre@, depth as int, 0, fuel, ch@, rn@) =~= Seq::<NodeSpec>::empty());
            assert(level_files(ps, pre@, depth as int, 0, ch@, rn@) =~= Seq::<NodeSpec>::empty());
            assert(tree_level(ps, pre@, depth as int, fuel, ch@, rn@) =~= Seq::<NodeSpec>::empty());
        }
        return Vec::new();
    }
    proof {
        assert(pre@.is_prefix_of(paths@[lo as int]@));
        assert(fuel > 0);
        lemma_prefix_depth(pre@, depth as int);
    }
    let mut dirs: Vec<TreeNode> = Vec::new();
    let mut files: Vec<TreeNode> = Vec::new();
    let ghost mut ds: Seq<NodeSpec> = seq![];
    let ghost mut fs: Seq<NodeSpec> = seq![];
    let mut i = lo;
    while i < hi
        invariant
            lo <= i <= hi <= paths@.len(),
            ps == seqs(paths@).subrange(lo as int, hi as int),
            fuel > 0,
            prefix_ok(pre@, depth as int),
            depth <= pre@.len(),
            forall|j: int| lo <= j < hi ==> pre@.is_prefix_of(#[trigger] paths@[j]@),
            forall|j: int| lo <= j < hi ==> (#[trigger] paths@[j]@).len() < pre@.len() + fuel,
            nodes_are(dirs@, ds),
            nodes_are(files@, fs),
            ds + level_dirs(ps, pre@, depth as int, i - lo, fuel, ch@, rn@) == level_dirs(ps, pre@, depth as int, 0, fuel, ch@, rn@),
            fs + level_files(ps, pre@, depth as int, i - lo, ch@, rn@) == level_files(ps, pre@, depth as int, 0, ch@, rn@),
        decreases hi - i,
    {
        let ghost k = i - lo;
        let ghost p = paths@[i as int]@;
        proof {
            assert(ps[k] == p);
            assert(pre@.is_prefix_of(p));
            lemma_components_len(p);
        }
        let mut comps = split_components(&paths[i]);
        proof {
            assert(comps@.map_values(|c: Vec<char>| c@).len() == comps@.len());
        }
        let count = comps.len();
        if count - 1 == depth {
            // A file at this depth.
            let ghost cv = comps@.map_values(|c: Vec<char>| c@);
            let name = comps.remove(depth);
            proof {
                assert(cv[depth as int] == name@);
            }
            let node = TreeNode::File {
                name: string_of(name.as_slice()),
                path: string_of(paths[i].as_slice()),
                changes: find_changes(ch, &paths[i]),
                renamed_from: find_rename(rn, &paths[i]),
            };
            let ghost spec_node = NodeSpec::File {
                name: name_at(p, depth as int),
                path: p,
                changes: changes_for(ch@, p),
                renamed_from: rename_for(rn@, p),
            };
            proof {
                assert(node_is(node, spec_node));
                assert(entry_end(ps, pre@, depth as int, k) == k + 1);
                assert(level_files(ps, pre@, depth as int, k, ch@, rn@) == seq![spec_node] + level_files(ps, pre@, depth as int, k + 1, ch@, rn@));
                assert(level_dirs(ps, pre@, depth as int, k, fuel, ch@, rn@) == level_dirs(ps, pre@, depth as int, k + 1, fuel, ch@, rn@));
            }
            files.push(node);
            proof {
                assert(fs + seq![spec_node] + level_files(ps, pre@, depth as int, k + 1, ch@, rn@) =~= fs + level_files(ps, pre@, depth as int, k, ch@, rn@));
                fs = fs.push(spec_node);
                assert(fs + level_files(ps, pre@, depth as int, k + 1, ch@, rn@) =~= fs.drop_last() + seq![spec_node] + level_files(ps, pre@, depth as int, k + 1, ch@, rn@));
            }
            i = i + 1;
        } else {
            // A directory: this path and every one after it under the same prefix.
            let ghost rest_p = p.skip(pre@.len() as int);
            proof {
                assert(p =~= pre@ + rest_p);
                crate::paths::lemma_components_under(pre@, depth as int, rest_p);
                lemma_components_len(rest_p);
                assert(!file_at(p, depth as int));
                lemma_dir_under(pre@, depth as int, p);
            }
            let ghost cv = comps@.map_values(|c: Vec<char>| c@);
            let name = comps.remove(depth);
            proof {
                assert(cv[depth as int] == name@);
            }
            let dir_path = concat_chars(pre, &name);
            let slash: Vec<char> = vec!['/'];
            let dp = concat_chars(&dir_path, &slash);
            proof {
                assert(name@ == name_at(p, depth as int));
                assert(dp@ =~= dir_prefix(pre@, name_at(p, depth as int)));
            }
            let mut len: usize = 0;
            while i + len < hi && starts_with(&paths[i + len], &dp)
                invariant
                    lo <= i < hi <= paths@.len(),
                    k == i - lo,
                    ps == seqs(paths@).subrange(lo as int, hi as int),
                    i + len <= hi,
                    run_len(ps, k, dp@) == len + run_len(ps, k + len, dp@),
                    forall|j: int| i <= j < i + len ==> dp@.is_prefix_of(#[trigger] paths@[j]@),
                decreases hi - i - len,
            {
                proof {
                    assert(ps[k + len] == paths@[i + len]@);
                }
                len = len + 1;
            }
            proof {
                if i + len < hi {
                    assert(ps[k + len] == paths@[i + len]@);
                }
                assert(run_len(ps, k + len, dp@) == 0);
                assert(ps[k] == paths@[i as int]@);
                assert(len > 0);
            }
            let children = build_level_in(
                paths,
                i,
                i + len,
                ch,
                rn,
                &dp,
                depth + 1,
                Ghost((fuel - 1) as nat),
            );
            let ghost spec_children = tree_level(
                ps.subrange(k, k + len),
                dp@,
                depth + 1,
                (fuel - 1) as nat,
                ch@,
                rn@,
            );
            proof {
                assert(ps.subrange(k, k + len) =~= seqs(paths@).subrange(i as int, i + len));
            }
            let node = TreeNode::Dir {
                name: string_of(name.as_slice()),
                path: string_of(dir_path.as_slice()),
                children,
            };
            let ghost spec_node = NodeSpec::Dir {
                name: name_at(p, depth as int),
                path: pre@ + name_at(p, depth as int),
                children: spec_children,
            };
            proof {
                assert(node_is(node, spec_node));
                assert(entry_end(ps, pre@, depth as int, k) == k + len);
                assert(level_dirs(ps, pre@, depth as int, k, fuel, ch@, rn@) == seq![spec_node]
                    + level_dirs(ps, pre@, depth as int, k + len, fuel, ch@, rn@));
                assert(level_files(ps, pre@, depth as int, k, ch@, rn@) == level_files(
                    ps,
                    pre@,
                    depth as int,
                    k + len,
                    ch@,
                    rn@,
                ));
            }
            dirs.push(node);
            proof {
                assert(ds + seq![spec_node] + level_dirs(ps, pre@, depth as int, k + len, fuel, ch@, rn@)
                    =~= ds + level_dirs(ps, pre@, depth as int, k, fuel, ch@, rn@));
                ds = ds.push(spec_node);
                assert(ds + level_dirs(ps, pre@, depth as int, k + len, fuel, ch@, rn@) =~= ds.drop_last()
                    + seq![spec_node] + level_dirs(ps, pre@, depth as int, k + len, fuel, ch@, rn@));
            }
            i = i + len;
        }
    }
    proof {
        assert(level_dirs(ps, pre@, depth as int, hi - lo, fuel, ch@, rn@) =~= Seq::<NodeSpec>::empty());
        assert(level_files(ps, pre@, depth as int, hi - lo, ch@, rn@) =~= Seq::<NodeSpec>::empty());
        assert(ds =~= level_dirs(ps, pre@, depth as int, 0, fuel, ch@, rn@));
        assert(fs =~= level_files(ps, pre@, depth as int, 0, ch@, rn@));
    }
    let ghost d0 = dirs@;
    let ghost f0 = files@;
    dirs.append(&mut files);
    proof {
        assert(dirs@ =~= d0 + f0);
        assert forall|j: int| 0 <= j < (ds + fs).len() implies node_is(#[trigger] dirs@[j], (ds + fs)[j]) by {
            if j < ds.len() {
                assert(dirs@[j] == d0[j]);
            } else {
                assert(dirs@[j] == f0[j - ds.len()]);
            }
        }
    }
    dirs
}


/// The length of the longest path.
pub open spec fn max_len(paths: Seq<Seq<char>>) -> nat
    decreases paths.len(),
{
    if paths.len() == 0 {
        0
    } else {
        let m = max_len(paths.drop_last());
        if paths.last().len() > m { paths.last().len() } else { m }
    }
}

proof fn lemma_max_len(paths: Seq<Seq<char>>)
    ensures
        forall|j: int| 0 <= j < paths.len() ==> (#[trigger] paths[j]).len() <= max_len(paths),
    decreases paths.len(),
{
    if paths.len() > 0 {
        lemma_max_len(paths.drop_last());
        assert forall|j: int| 0 <= j < paths.len() implies (#[trigger] paths[j]).len() <= max_len(paths) by {
            if j < paths.len() - 1 {
                assert(paths[j] == paths.drop_last()[j]);
            }
        }
    }
}

/// The tree of `paths`, all of which lie under the `d`-component prefix `pre`.
pub open spec fn tree_of(
    paths: Seq<Seq<char>>,
    pre: Seq<char>,
    d: int,
    ch: Seq<(String, Changes)>,
    rn: Seq<(String, String)>,
) -> Seq<NodeSpec> {
    tree_level(paths, pre, d, max_len(paths) + 1, ch, rn)
}


/// Groups sorted repo-relative paths into one level of the tree, recursing per
/// directory, directories first. `changes` and `renames` give each file its counts and
/// the path it moved from; a path with several entries takes the last.
///
/// Sorted input is what makes this work: everything under one directory is adjacent, so
/// a directory's children are one contiguous run. Every path lies under `prefix`, which
/// is `depth` whole components (empty at the top).
pub fn build_level(
    paths: &[String],
    changes: &Vec<(String, Changes)>,
    renames: &Vec<(String, String)>,
    prefix: &str,
    depth: usize,
) -> (r: Vec<TreeNode>)
    requires
        prefix_ok(prefix@, depth as int),
        forall|j: int| 0 <= j < paths@.len() ==> prefix@.is_prefix_of(#[trigger] paths@[j]@),
    ensures
        nodes_are(r@, tree_of(views(paths@), prefix@, depth as int, changes@, renames@)),
{
    let mut cs: Vec<Vec<char>> = Vec::new();
    let mut i: usize = 0;
    while i < paths.len()
        invariant
            i <= paths@.len(),
            seqs(cs@) == views(paths@).take(i as int),
        decreases paths.len() - i,
    {
        let c = chars_of(paths[i].as_str());
        let ghost before = seqs(cs@);
        cs.push(c);
        proof {
            assert(seqs(cs@) =~= before.push(c@));
            assert(views(paths@).take(i + 1) =~= views(paths@).take(i as int).push(paths@[i as int]@));
        }
        i = i + 1;
    }
    let pre = chars_of(prefix);
    let ghost ps = views(paths@);
    proof {
        assert(seqs(cs@) =~= ps);
        assert(seqs(cs@).subrange(0, cs@.len() as int) =~= ps);
        lemma_max_len(ps);
        assert forall|j: int| 0 <= j < cs@.len() implies (#[trigger] cs@[j]@).len() < pre@.len() + max_len(ps) + 1 by {
            assert(cs@[j]@ == ps[j]);
        }
        assert forall|j: int| 0 <= j < cs@.len() implies pre@.is_prefix_of(#[trigger] cs@[j]@) by {
            assert(cs@[j]@ == ps[j]);
        }
    }
    build_level_in(&cs, 0, cs.len(), changes, renames, &pre, depth, Ghost((max_len(ps) + 1) as nat))
}


/// Whether `x` is one of `v`.
pub fn contains_string(v: &Vec<String>, x: &String) -> (r: bool)
    ensures
        r == views(v@).contains(x@),
{
    let mut i: usize = 0;
    while i < v.len()
        invariant
            i <= v@.len(),
            forall|j: int| 0 <= j < i ==> v@[j]@ != x@,
        decreases v.len() - i,
    {
        if v[i] == *x {
            proof {
                assert(views(v@)[i as int] == x@);
            }
            return true;
        }
        i = i + 1;
    }
    proof {
        if views(v@).contains(x@) {
            let j = choose|j: int| 0 <= j < views(v@).len() && views(v@)[j] == x@;
            assert(v@[j]@ == x@);
        }
    }
    false
}

/// The counts the tree gives each changed path, in the order they were found.
pub open spec fn change_entries(files: Seq<CountedFile>) -> Seq<(String, Changes)> {
    files.map_values(|f: CountedFile| (f.path, f.changes))
}

/// Where each renamed path came from, in the order they were found.
pub open spec fn rename_entries(files: Seq<CountedFile>) -> Seq<(String, String)>
    decreases files.len(),
{
    if files.len() == 0 {
        seq![]
    } else {
        let r = rename_entries(files.drop_last());
        match files.last().old_path {
            Some(o) => r.push((files.last().path, o)),
            None => r,
        }
    }
}

/// File `f` was renamed away from `p`.
pub open spec fn moved_from(f: CountedFile, p: Seq<char>) -> bool {
    f.old_path matches Some(o) && o@ == p
}

/// The paths files were renamed away from.
pub open spec fn moved_away(files: Seq<CountedFile>) -> Set<Seq<char>> {
    Set::new(
        |p: Seq<char>|
            exists|k: int| 0 <= k < files.len() && moved_from(#[trigger] files[k], p),
    )
}

/// The paths the sidebar lists: every tracked path and every changed one, except the
/// paths a renamed file moved away from.
pub open spec fn tree_paths(files: Seq<CountedFile>, index: Seq<String>) -> Set<Seq<char>> {
    (views(index).to_set() + files.map_values(|f: CountedFile| f.path@).to_set()).difference(
        moved_away(files),
    )
}

/// The sidebar's tree: every file the checkout tracks (`index_paths`), with `changes` on
/// the ones that differ in this Diff Mode (`changed`).
///
/// Unchanged files are in here on purpose: the sidebar can browse the whole project, and
/// File View comments on files with no diff. A file deleted on this side is no longer in
/// the index, so it is carried in from the change list; a renamed file's old path is
/// still in the index until the rename is committed, and is left out so the file is not
/// listed twice.
pub fn read_file_tree(changed: &Vec<CountedFile>, index_paths: &Vec<String>) -> (r: Vec<TreeNode>)
    ensures
        exists|ps: Seq<Seq<char>>|
            {
                &&& strictly_sorted(ps)
                &&& ps.to_set() == tree_paths(changed@, index_paths@)
                &&& nodes_are(
                    r@,
                    tree_of(ps, Seq::empty(), 0, change_entries(changed@), rename_entries(changed@)),
                )
            },
{
    let mut ch: Vec<(String, Changes)> = Vec::new();
    let mut rn: Vec<(String, String)> = Vec::new();
    let mut moved: Vec<String> = Vec::new();
    let mut extra: Vec<String> = Vec::new();
    let mut k: usize = 0;
    while k < changed.len()
        invariant
            k <= changed@.len(),
            ch@ == change_entries(changed@.take(k as int)),
            rn@ == rename_entries(changed@.take(k as int)),
            views(extra@) == changed@.take(k as int).map_values(|f: CountedFile| f.path@),
            views(moved@).to_set() == moved_away(changed@.take(k as int)),
        decreases changed.len() - k,
    {
        let f = &changed[k];
        let ghost t0 = changed@.take(k as int);
        let ghost t1 = changed@.take(k + 1);
        proof {
            assert(t1 =~= t0.push(*f));
            assert(t1.drop_last() =~= t0);
        }
        ch.push((f.path.clone(), f.changes));
        proof {
            assert(ch@ =~= change_entries(t1));
        }
        let ghost moved_before = views(moved@);
        match &f.old_path {
            Some(o) => {
                rn.push((f.path.clone(), o.clone()));
                moved.push(o.clone());
                proof {
                    assert(views(moved@) =~= moved_before.push(o@));
                    lemma_push_to_set(moved_before, o@);
                }
            },
            None => {},
        }
        proof {
            assert(rn@ =~= rename_entries(t1));
            assert forall|p: Seq<char>| moved_away(t1).contains(p) <==> views(moved@).to_set().contains(p) by {
                if moved_away(t1).contains(p) {
                    let j = choose|j: int| 0 <= j < t1.len() && moved_from(#[trigger] t1[j], p);
                    if j < t0.len() {
                        assert(t0[j] == t1[j]);
                        assert(moved_away(t0).contains(p));
                    }
                }
                if moved_away(t0).contains(p) {
                    let j = choose|j: int| 0 <= j < t0.len() && moved_from(#[trigger] t0[j], p);
                    assert(t1[j] == t0[j]);
                }
                if f.old_path is Some && f.old_path.unwrap()@ == p {
                    assert(t1[k as int] == *f);
                }
            }
            assert(views(moved@).to_set() =~= moved_away(t1));
        }
        let ghost extra_before = views(extra@);
        extra.push(f.path.clone());
        proof {
            assert(views(extra@) =~= extra_before.push(f.path@));
            assert(t1.map_values(|g: CountedFile| g.path@) =~= t0.map_values(|g: CountedFile| g.path@).push(f.path@));
        }
        k = k + 1;
    }
    proof {
        assert(changed@.take(k as int) =~= changed@);
    }
    let all = tracked_paths(index_paths, &extra);
    // A renamed file's old path would list a file the worktree no longer has, right
    // next to the same file under its new name.
    let mut kept: Vec<String> = Vec::new();
    let mut i: usize = 0;
    while i < all.len()
        invariant
            i <= all@.len(),
            strictly_sorted(views(all@)),
            strictly_sorted(views(kept@)),
            views(kept@).to_set() == views(all@).take(i as int).to_set().difference(views(moved@).to_set()),
        decreases all.len() - i,
    {
        let ghost kept_before = views(kept@);
        if !contains_string(&moved, &all[i]) {
            kept.push(all[i].clone());
            proof {
                assert(views(kept@) =~= kept_before.push(all@[i as int]@));
                assert forall|a: int, b: int| 0 <= a < b < views(kept@).len() implies crate::order::seq_less(#[trigger] views(kept@)[a], #[trigger] views(kept@)[b]) by {
                    if b == views(kept@).len() - 1 {
                        assert(kept_before.to_set().contains(kept_before[a]));
                        assert(views(all@).take(i as int).to_set().contains(kept_before[a]));
                        let c = choose|c: int| 0 <= c < i && views(all@).take(i as int)[c] == kept_before[a];
                        assert(views(all@)[c] == kept_before[a]);
                        assert(crate::order::seq_less(views(all@)[c], views(all@)[i as int]));
                    } else {
                        assert(crate::order::seq_less(kept_before[a], kept_before[b]));
                    }
                }
                lemma_push_to_set(kept_before, all@[i as int]@);
            }
        }
        proof {
            assert(views(all@).take(i + 1) =~= views(all@).take(i as int).push(all@[i as int]@));
            lemma_push_to_set(views(all@).take(i as int), all@[i as int]@);
            assert(views(kept@).to_set() =~= views(all@).take(i + 1).to_set().difference(views(moved@).to_set()));
        }
        i = i + 1;
    }
    proof {
        assert(views(all@).take(i as int) =~= views(all@));
        assert(views(kept@).to_set() =~= tree_paths(changed@, index_paths@));
        assert forall|j: int| 0 <= j < kept@.len() implies Seq::<char>::empty().is_prefix_of(#[trigger] kept@[j]@) by {
            assert(Seq::<char>::empty() =~= kept@[j]@.subrange(0, 0));
        }
    }
    let top = String::new();
    let r = build_level(kept.as_slice(), &ch, &rn, top.as_str(), 0);
    proof {
    }
    r
}

/// The paths of the file nodes of a tree, depth first, in order.
pub open spec fn file_paths(ns: Seq<NodeSpec>) -> Seq<Seq<char>>
    decreases ns,
{
    if ns.len() == 0 {
        seq![]
    } else {
        let head = match ns[0] {
            NodeSpec::File { path, .. } => seq![path],
            NodeSpec::Dir { children, .. } => file_paths(children),
        };
        head + file_paths(ns.drop_first())
    }
}

proof fn lemma_file_paths_concat(x: Seq<NodeSpec>, y: Seq<NodeSpec>)
    ensures
        file_paths(x + y) == file_paths(x) + file_paths(y),
    decreases x.len(),
{
    if x.len() == 0 {
        assert(x + y =~= y);
        assert(file_paths(x) + file_paths(y) =~= file_paths(y));
    } else {
        assert((x + y)[0] == x[0]);
        assert((x + y).drop_first() =~= x.drop_first() + y);
        lemma_file_paths_concat(x.drop_first(), y);
        let head = match x[0] {
            NodeSpec::File { path, .. } => seq![path],
            NodeSpec::Dir { children, .. } => file_paths(children),
        };
        assert(head + (file_paths(x.drop_first()) + file_paths(y)) =~= head + file_paths(
            x.drop_first(),
        ) + file_paths(y));
    }
}

/// The files of one level, from path `i` on, are those paths.
proof fn lemma_level_paths(
    ps: Seq<Seq<char>>,
    pre: Seq<char>,
    d: int,
    i: int,
    fuel: nat,
    ch: Seq<(String, Changes)>,
    rn: Seq<(String, String)>,
)
    requires
        d >= 0,
        prefix_ok(pre, d),
        forall|j: int|
            0 <= j < ps.len() ==> pre.is_prefix_of(#[trigger] ps[j]) && ps[j].len() < pre.len()
                + fuel,
        0 <= i <= ps.len(),
    ensures
        (file_paths(level_dirs(ps, pre, d, i, fuel, ch, rn)) + file_paths(
            level_files(ps, pre, d, i, ch, rn),
        )).to_multiset() == ps.skip(i).to_multiset(),
    decreases fuel, ps.len() - i,
{
    broadcast use vstd::seq_lib::lemma_multiset_commutative;
    broadcast use vstd::multiset::group_multiset_axioms;

    if i == ps.len() {
        assert(level_dirs(ps, pre, d, i, fuel, ch, rn) =~= Seq::<NodeSpec>::empty());
        assert(level_files(ps, pre, d, i, ch, rn) =~= Seq::<NodeSpec>::empty());
        assert(file_paths(Seq::<NodeSpec>::empty()) =~= Seq::<Seq<char>>::empty());
        assert(ps.skip(i) =~= Seq::<Seq<char>>::empty());
        assert(Seq::<Seq<char>>::empty() + Seq::<Seq<char>>::empty() =~= Seq::<Seq<char>>::empty());
    } else {
        let p = ps[i];
        assert(pre.is_prefix_of(p) && p.len() < pre.len() + fuel);
        assert(fuel > 0);
        lemma_entry_end(ps, pre, d, i);
        let n = entry_end(ps, pre, d, i);
        lemma_level_paths(ps, pre, d, n, fuel, ch, rn);
        let dirs_n = file_paths(level_dirs(ps, pre, d, n, fuel, ch, rn));
        let files_n = file_paths(level_files(ps, pre, d, n, ch, rn));
        if file_at(p, d) {
            let f = NodeSpec::File {
                name: name_at(p, d),
                path: p,
                changes: changes_for(ch, p),
                renamed_from: rename_for(rn, p),
            };
            assert(level_files(ps, pre, d, i, ch, rn) == seq![f] + level_files(ps, pre, d, n, ch, rn));
            lemma_file_paths_concat(seq![f], level_files(ps, pre, d, n, ch, rn));
            assert(seq![f][0] == f);
            assert(seq![f].drop_first() =~= Seq::<NodeSpec>::empty());
            assert(file_paths(Seq::<NodeSpec>::empty()) =~= Seq::<Seq<char>>::empty());
            assert(file_paths(seq![f]) == seq![p] + file_paths(Seq::<NodeSpec>::empty()));
            assert(file_paths(seq![f]) =~= seq![p]);
            assert(ps.skip(i) =~= seq![p] + ps.skip(n));
            assert((dirs_n + (seq![p] + files_n)).to_multiset() =~= (seq![p] + (dirs_n
                + files_n)).to_multiset());
        } else {
            lemma_dir_under(pre, d, p);
            let name = name_at(p, d);
            let dp = dir_prefix(pre, name);
            let r = run_len(ps, i, dp);
            lemma_run_len_bounds(ps, i, dp);
            lemma_run_len_bounds(ps, i + 1, dp);
            assert(r > 0);
            let sub = ps.subrange(i, i + r);
            assert forall|j: int| 0 <= j < sub.len() implies dp.is_prefix_of(#[trigger] sub[j])
                && sub[j].len() < dp.len() + (fuel - 1) as nat by {
                assert(sub[j] == ps[i + j]);
                assert(dp.is_prefix_of(ps[i + j]));
            }
            assert(sub[0] == p);
            assert((fuel - 1) as nat > 0);
            lemma_level_paths(sub, dp, d + 1, 0, (fuel - 1) as nat, ch, rn);
            let kids = tree_level(sub, dp, d + 1, (fuel - 1) as nat, ch, rn);
            assert(kids == level_dirs(sub, dp, d + 1, 0, (fuel - 1) as nat, ch, rn) + level_files(
                sub,
                dp,
                d + 1,
                0,
                ch,
                rn,
            ));
            lemma_file_paths_concat(
                level_dirs(sub, dp, d + 1, 0, (fuel - 1) as nat, ch, rn),
                level_files(sub, dp, d + 1, 0, ch, rn),
            );
            assert(sub.skip(0) =~= sub);
            let dn = NodeSpec::Dir { name, path: pre + name, children: kids };
            assert(level_dirs(ps, pre, d, i, fuel, ch, rn) == seq![dn] + level_dirs(
                ps,
                pre,
                d,
                n,
                fuel,
                ch,
                rn,
            ));
            assert(level_files(ps, pre, d, i, ch, rn) == level_files(ps, pre, d, n, ch, rn));
            lemma_file_paths_concat(seq![dn], level_dirs(ps, pre, d, n, fuel, ch, rn));
            assert(seq![dn][0] == dn);
            assert(seq![dn].drop_first() =~= Seq::<NodeSpec>::empty());
            assert(file_paths(Seq::<NodeSpec>::empty()) =~= Seq::<Seq<char>>::empty());
            assert(file_paths(seq![dn]) == file_paths(kids) + file_paths(Seq::<NodeSpec>::empty()));
            assert(file_paths(seq![dn]) =~= file_paths(kids));
            assert(n == i + r);
            assert(ps.skip(i) =~= sub + ps.skip(n));
            assert(file_paths(kids) + dirs_n + files_n =~= file_paths(kids) + (dirs_n + files_n));
        }
    }
}

/// The tree lists each of its paths as a file exactly as often as the paths name it, and
/// nothing else: built from the sorted, repeat-free paths `read_file_tree` collects, every
/// tracked or changed file is in the sidebar once.
pub proof fn law_tree_lists_every_path(
    ps: Seq<Seq<char>>,
    pre: Seq<char>,
    d: int,
    ch: Seq<(String, Changes)>,
    rn: Seq<(String, String)>,
)
    requires
        d >= 0,
        prefix_ok(pre, d),
        forall|j: int| 0 <= j < ps.len() ==> pre.is_prefix_of(#[trigger] ps[j]),
    ensures
        file_paths(tree_of(ps, pre, d, ch, rn)).to_multiset() == ps.to_multiset(),
{
    let fuel = max_len(ps) + 1;
    lemma_max_len(ps);
    lemma_level_paths(ps, pre, d, 0, fuel, ch, rn);
    lemma_file_paths_concat(level_dirs(ps, pre, d, 0, fuel, ch, rn), level_files(ps, pre, d, 0, ch, rn));
    assert(ps.skip(0) =~= ps);
}

proof fn lemma_level_kinds(
    ps: Seq<Seq<char>>,
    pre: Seq<char>,
    d: int,
    i: int,
    fuel: nat,
    ch: Seq<(String, Changes)>,
    rn: Seq<(String, String)>,
)
    ensures
        forall|k: int|
            0 <= k < level_dirs(ps, pre, d, i, fuel, ch, rn).len() ==> (#[trigger] level_dirs(
                ps,
                pre,
                d,
                i,
                fuel,
                ch,
                rn,
            )[k]) is Dir,
        forall|k: int|
            0 <= k < level_files(ps, pre, d, i, ch, rn).len() ==> (#[trigger] level_files(
                ps,
                pre,
                d,
                i,
                ch,
                rn,
            )[k]) is File,
    decreases ps.len() - i,
{
    if 0 <= i < ps.len() {
        lemma_entry_end(ps, pre, d, i);
        let n = entry_end(ps, pre, d, i);
        lemma_level_kinds(ps, pre, d, n, fuel, ch, rn);
        let dn = level_dirs(ps, pre, d, n, fuel, ch, rn);
        let fl = level_files(ps, pre, d, n, ch, rn);
        assert forall|k: int|
            0 <= k < level_dirs(ps, pre, d, i, fuel, ch, rn).len() implies (#[trigger] level_dirs(
            ps,
            pre,
            d,
            i,
            fuel,
            ch,
            rn,
        )[k]) is Dir by {
            if !file_at(ps[i], d) && fuel > 0 && k > 0 {
                assert(level_dirs(ps, pre, d, i, fuel, ch, rn)[k] == dn[k - 1]);
            }
        }
        assert forall|k: int|
            0 <= k < level_files(ps, pre, d, i, ch, rn).len() implies (#[trigger] level_files(
            ps,
            pre,
            d,
            i,
            ch,
            rn,
        )[k]) is File by {
            if file_at(ps[i], d) && k > 0 {
                assert(level_files(ps, pre, d, i, ch, rn)[k] == fl[k - 1]);
            }
        }
    }
}

/// Each level of the tree lists its directories before its files, the way a file tree is
/// normally read.
pub proof fn law_directories_come_first(
    ps: Seq<Seq<char>>,
    pre: Seq<char>,
    d: int,
    fuel: nat,
    ch: Seq<(String, Changes)>,
    rn: Seq<(String, String)>,
)
    ensures
        forall|i: int, j: int|
            0 <= i < j < tree_level(ps, pre, d, fuel, ch, rn).len() ==> !((#[trigger] tree_level(
                ps,
                pre,
                d,
                fuel,
                ch,
                rn,
            )[i]) is File && (#[trigger] tree_level(ps, pre, d, fuel, ch, rn)[j]) is Dir),
{
    if fuel > 0 {
        lemma_level_kinds(ps, pre, d, 0, fuel, ch, rn);
        let dn = level_dirs(ps, pre, d, 0, fuel, ch, rn);
        let fl = level_files(ps, pre, d, 0, ch, rn);
        let t = tree_level(ps, pre, d, fuel, ch, rn);
        assert(t == dn + fl);
        assert forall|i: int, j: int| 0 <= i < j < t.len() implies !((#[trigger] t[i]) is File
            && (#[trigger] t[j]) is Dir) by {
            if i < dn.len() {
                assert(t[i] == dn[i]);
            } else {
                assert(t[j] == fl[j - dn.len()]);
            }
        }
    }
}

/// In the sidebar's tree, every path `read_file_tree` lists appears as a file exactly
/// once, and nothing else does: those paths are sorted and repeat-free.
pub proof fn law_sidebar_lists_each_path_once(
    ps: Seq<Seq<char>>,
    ch: Seq<(String, Changes)>,
    rn: Seq<(String, String)>,
)
    requires
        strictly_sorted(ps),
    ensures
        forall|p: Seq<char>|
            #[trigger] file_paths(tree_of(ps, Seq::empty(), 0, ch, rn)).to_multiset().count(p) == if ps.contains(
                p,
            ) {
                1nat
            } else {
                0nat
            },
{
    broadcast use vstd::seq_lib::group_to_multiset_ensures;

    assert forall|j: int| 0 <= j < ps.len() implies Seq::<char>::empty().is_prefix_of(#[trigger] ps[j]) by {
        assert(Seq::<char>::empty() =~= ps[j].subrange(0, 0));
    }
    law_tree_lists_every_path(ps, Seq::empty(), 0, ch, rn);
    lemma_strictly_sorted_no_duplicates(ps);
    ps.lemma_multiset_has_no_duplicates();
    assert forall|p: Seq<char>|
        #[trigger] file_paths(tree_of(ps, Seq::empty(), 0, ch, rn)).to_multiset().count(p) == if ps.contains(
            p,
        ) {
            1nat
        } else {
            0nat
        } by {
        if ps.contains(p) {
            assert(ps.to_multiset().count(p) > 0);
        }
    }
}

/// A node's name.
pub open spec fn node_name(n: NodeSpec) -> Seq<char> {
    match n {
        NodeSpec::Dir { name, .. } => name,
        NodeSpec::File { name, .. } => name,
    }
}

/// Some path at or after `i` that does not end at depth `d` has `name` there.
pub open spec fn dir_named_from(ps: Seq<Seq<char>>, d: int, i: int, name: Seq<char>) -> bool {
    exists|k: int| i <= k < ps.len() && !file_at(ps[k], d) && name == #[trigger] name_at(ps[k], d)
}

/// Some path at or after `i` that ends at depth `d` has `name` there.
pub open spec fn file_named_from(ps: Seq<Seq<char>>, d: int, i: int, name: Seq<char>) -> bool {
    exists|k: int| i <= k < ps.len() && file_at(ps[k], d) && name == #[trigger] name_at(ps[k], d)
}

/// Each directory node of a level from path `i` on is named after a path at or after `i`
/// that does not end at this depth.
proof fn lemma_level_dirs_named(
    ps: Seq<Seq<char>>,
    pre: Seq<char>,
    d: int,
    i: int,
    fuel: nat,
    ch: Seq<(String, Changes)>,
    rn: Seq<(String, String)>,
)
    requires
        0 <= i,
    ensures
        forall|m: int|
            0 <= m < level_dirs(ps, pre, d, i, fuel, ch, rn).len() ==> dir_named_from(
                ps,
                d,
                i,
                node_name(#[trigger] level_dirs(ps, pre, d, i, fuel, ch, rn)[m]),
            ),
    decreases ps.len() - i,
{
    if i < ps.len() && fuel > 0 {
        lemma_entry_end(ps, pre, d, i);
        let n = entry_end(ps, pre, d, i);
        lemma_level_dirs_named(ps, pre, d, n, fuel, ch, rn);
        let rest = level_dirs(ps, pre, d, n, fuel, ch, rn);
        let l = level_dirs(ps, pre, d, i, fuel, ch, rn);
        assert forall|m: int| 0 <= m < l.len() implies dir_named_from(ps, d, i, node_name(#[trigger] l[m])) by {
            if file_at(ps[i], d) {
                assert(l[m] == rest[m]);
                assert(dir_named_from(ps, d, n, node_name(rest[m])));
            } else if m == 0 {
                assert(node_name(l[0]) == name_at(ps[i], d));
            } else {
                assert(l[m] == rest[m - 1]);
                assert(dir_named_from(ps, d, n, node_name(rest[m - 1])));
            }
        }
    } else {
        assert(level_dirs(ps, pre, d, i, fuel, ch, rn) =~= Seq::<NodeSpec>::empty());
    }
}

/// Each file node of a level from path `i` on is a path at or after `i` that ends at this
/// depth, named after its last component.
proof fn lemma_level_files_named(
    ps: Seq<Seq<char>>,
    pre: Seq<char>,
    d: int,
    i: int,
    ch: Seq<(String, Changes)>,
    rn: Seq<(String, String)>,
)
    requires
        0 <= i,
    ensures
        forall|m: int|
            0 <= m < level_files(ps, pre, d, i, ch, rn).len() ==> file_named_from(
                ps,
                d,
                i,
                node_name(#[trigger] level_files(ps, pre, d, i, ch, rn)[m]),
            ),
    decreases ps.len() - i,
{
    if i < ps.len() {
        lemma_entry_end(ps, pre, d, i);
        let n = entry_end(ps, pre, d, i);
        lemma_level_files_named(ps, pre, d, n, ch, rn);
        let rest = level_files(ps, pre, d, n, ch, rn);
        let l = level_files(ps, pre, d, i, ch, rn);
        assert forall|m: int| 0 <= m < l.len() implies file_named_from(ps, d, i, node_name(#[trigger] l[m])) by {
            if !file_at(ps[i], d) {
                assert(l[m] == rest[m]);
                assert(file_named_from(ps, d, n, node_name(rest[m])));
            } else if m == 0 {
                assert(node_name(l[0]) == name_at(ps[i], d));
            } else {
                assert(l[m] == rest[m - 1]);
                assert(file_named_from(ps, d, n, node_name(rest[m - 1])));
            }
        }
    } else {
        assert(level_files(ps, pre, d, i, ch, rn) =~= Seq::<NodeSpec>::empty());
    }
}

/// A path that ends at depth `d` below `pre` is `pre` followed by its last component.
proof fn lemma_file_is_prefix_and_name(pre: Seq<char>, d: int, p: Seq<char>)
    requires
        d >= 0,
        prefix_ok(pre, d),
        pre.is_prefix_of(p),
        file_at(p, d),
    ensures
        p == pre + name_at(p, d),
{
    let rest = p.skip(pre.len() as int);
    assert(p =~= pre + rest);
    crate::paths::lemma_components_under(pre, d, rest);
    crate::paths::lemma_first_slash(rest, 0);
    if crate::paths::first_slash(rest, 0) < rest.len() {
        crate::paths::lemma_components_len(rest.skip(crate::paths::first_slash(rest, 0) + 1));
    }
    assert(name_at(p, d) == rest);
}

proof fn lemma_sorted_le(ps: Seq<Seq<char>>, i: int, j: int)
    requires
        strictly_sorted(ps),
        0 <= i <= j < ps.len(),
    ensures
        ps[i] == ps[j] || seq_less(ps[i], ps[j]),
{
    if i < j {
        assert(seq_less(ps[i], ps[j]));
    }
}

/// With sorted paths, no two directories of a level from path `i` on share a name.
proof fn lemma_dir_names_distinct(
    ps: Seq<Seq<char>>,
    pre: Seq<char>,
    d: int,
    i: int,
    fuel: nat,
    ch: Seq<(String, Changes)>,
    rn: Seq<(String, String)>,
)
    requires
        strictly_sorted(ps),
        d >= 0,
        prefix_ok(pre, d),
        forall|j: int| 0 <= j < ps.len() ==> pre.is_prefix_of(#[trigger] ps[j]),
        0 <= i,
    ensures
        forall|m1: int, m2: int|
            0 <= m1 < m2 < level_dirs(ps, pre, d, i, fuel, ch, rn).len() ==> node_name(
                #[trigger] level_dirs(ps, pre, d, i, fuel, ch, rn)[m1],
            ) != node_name(#[trigger] level_dirs(ps, pre, d, i, fuel, ch, rn)[m2]),
    decreases ps.len() - i,
{
    if i < ps.len() && fuel > 0 {
        lemma_entry_end(ps, pre, d, i);
        let n = entry_end(ps, pre, d, i);
        lemma_dir_names_distinct(ps, pre, d, n, fuel, ch, rn);
        lemma_level_dirs_named(ps, pre, d, n, fuel, ch, rn);
        let rest = level_dirs(ps, pre, d, n, fuel, ch, rn);
        let l = level_dirs(ps, pre, d, i, fuel, ch, rn);
        if file_at(ps[i], d) {
            assert forall|m1: int, m2: int| 0 <= m1 < m2 < l.len() implies node_name(#[trigger] l[m1])
                != node_name(#[trigger] l[m2]) by {
                assert(l[m1] == rest[m1] && l[m2] == rest[m2]);
            }
        } else {
            let name = name_at(ps[i], d);
            let dp = dir_prefix(pre, name);
            lemma_dir_under(pre, d, ps[i]);
            lemma_run_len_bounds(ps, i, dp);
            lemma_run_len_bounds(ps, i + 1, dp);
            assert forall|m1: int, m2: int| 0 <= m1 < m2 < l.len() implies node_name(#[trigger] l[m1])
                != node_name(#[trigger] l[m2]) by {
                if m1 == 0 {
                    assert(l[m2] == rest[m2 - 1]);
                    assert(dir_named_from(ps, d, n, node_name(rest[m2 - 1])));
                    let k = choose|k: int|
                        n <= k < ps.len() && !file_at(ps[k], d) && node_name(rest[m2 - 1]) == #[trigger] name_at(
                            ps[k],
                            d,
                        );
                    if node_name(l[0]) == node_name(l[m2]) {
                        lemma_dir_under(pre, d, ps[k]);
                        assert(dp.is_prefix_of(ps[k]));
                        let e = i + run_len(ps, i, dp);
                        assert(e == n);
                        assert(!dp.is_prefix_of(ps[e]));
                        lemma_sorted_le(ps, i, e);
                        lemma_sorted_le(ps, e, k);
                        crate::order::lemma_prefix_between(dp, ps[i], ps[e], ps[k]);
                    }
                } else {
                    assert(l[m1] == rest[m1 - 1] && l[m2] == rest[m2 - 1]);
                }
            }
        }
    }
}

/// With sorted, repeat-free paths, no two files of a level from path `i` on share a name.
proof fn lemma_file_names_distinct(
    ps: Seq<Seq<char>>,
    pre: Seq<char>,
    d: int,
    i: int,
    ch: Seq<(String, Changes)>,
    rn: Seq<(String, String)>,
)
    requires
        strictly_sorted(ps),
        d >= 0,
        prefix_ok(pre, d),
        forall|j: int| 0 <= j < ps.len() ==> pre.is_prefix_of(#[trigger] ps[j]),
        0 <= i,
    ensures
        forall|m1: int, m2: int|
            0 <= m1 < m2 < level_files(ps, pre, d, i, ch, rn).len() ==> node_name(
                #[trigger] level_files(ps, pre, d, i, ch, rn)[m1],
            ) != node_name(#[trigger] level_files(ps, pre, d, i, ch, rn)[m2]),
    decreases ps.len() - i,
{
    if i < ps.len() {
        lemma_entry_end(ps, pre, d, i);
        let n = entry_end(ps, pre, d, i);
        lemma_file_names_distinct(ps, pre, d, n, ch, rn);
        lemma_level_files_named(ps, pre, d, n, ch, rn);
        let rest = level_files(ps, pre, d, n, ch, rn);
        let l = level_files(ps, pre, d, i, ch, rn);
        if !file_at(ps[i], d) {
            assert forall|m1: int, m2: int| 0 <= m1 < m2 < l.len() implies node_name(#[trigger] l[m1])
                != node_name(#[trigger] l[m2]) by {
                assert(l[m1] == rest[m1] && l[m2] == rest[m2]);
            }
        } else {
            assert forall|m1: int, m2: int| 0 <= m1 < m2 < l.len() implies node_name(#[trigger] l[m1])
                != node_name(#[trigger] l[m2]) by {
                if m1 == 0 {
                    assert(l[m2] == rest[m2 - 1]);
                    assert(file_named_from(ps, d, n, node_name(rest[m2 - 1])));
                    let k = choose|k: int|
                        n <= k < ps.len() && file_at(ps[k], d) && node_name(rest[m2 - 1]) == #[trigger] name_at(
                            ps[k],
                            d,
                        );
                    if node_name(l[0]) == node_name(l[m2]) {
                        lemma_file_is_prefix_and_name(pre, d, ps[i]);
                        lemma_file_is_prefix_and_name(pre, d, ps[k]);
                        assert(seq_less(ps[i], ps[k]));
                        lemma_less_irreflexive(ps[i]);
                    }
                } else {
                    assert(l[m1] == rest[m1 - 1] && l[m2] == rest[m2 - 1]);
                }
            }
        }
    }
}

/// With sorted, repeat-free paths, the directories of each level have distinct names, and
/// so do its files: everything under one directory is one run of the sorted paths, so a
/// directory appears once, holding every path below it.
pub proof fn law_sibling_names_are_distinct(
    ps: Seq<Seq<char>>,
    pre: Seq<char>,
    d: int,
    fuel: nat,
    ch: Seq<(String, Changes)>,
    rn: Seq<(String, String)>,
)
    requires
        strictly_sorted(ps),
        d >= 0,
        prefix_ok(pre, d),
        forall|j: int| 0 <= j < ps.len() ==> pre.is_prefix_of(#[trigger] ps[j]),
    ensures
        forall|i: int, j: int|
            0 <= i < j < tree_level(ps, pre, d, fuel, ch, rn).len() && (#[trigger] tree_level(
                ps,
                pre,
                d,
                fuel,
                ch,
                rn,
            )[i] is Dir) == (#[trigger] tree_level(ps, pre, d, fuel, ch, rn)[j] is Dir) ==> node_name(
                tree_level(ps, pre, d, fuel, ch, rn)[i],
            ) != node_name(tree_level(ps, pre, d, fuel, ch, rn)[j]),
{
    if fuel > 0 {
        lemma_level_kinds(ps, pre, d, 0, fuel, ch, rn);
        lemma_dir_names_distinct(ps, pre, d, 0, fuel, ch, rn);
        lemma_file_names_distinct(ps, pre, d, 0, ch, rn);
        let dn = level_dirs(ps, pre, d, 0, fuel, ch, rn);
        let fl = level_files(ps, pre, d, 0, ch, rn);
        let t = tree_level(ps, pre, d, fuel, ch, rn);
        assert(t == dn + fl);
        assert forall|i: int, j: int|
            0 <= i < j < t.len() && (#[trigger] t[i] is Dir) == (#[trigger] t[j] is Dir) implies node_name(
            t[i],
        ) != node_name(t[j]) by {
            if j < dn.len() {
                assert(t[i] == dn[i] && t[j] == dn[j]);
            } else if i >= dn.len() {
                assert(t[i] == fl[i - dn.len()] && t[j] == fl[j - dn.len()]);
            } else {
                assert(t[i] == dn[i] && t[j] == fl[j - dn.len()]);
            }
        }
    }
}

/// `c` is what the last entry of `ch` keyed by `p` records, or none when no entry is.
pub open spec fn last_counts(ch: Seq<(String, Changes)>, p: Seq<char>, c: Option<Changes>) -> bool {
    match c {
        Some(x) => exists|k: int|
            0 <= k < ch.len() && (#[trigger] ch[k]).0@ == p && ch[k].1 == x && (forall|j: int|
                k < j < ch.len() ==> (#[trigger] ch[j]).0@ != p),
        None => forall|k: int| 0 <= k < ch.len() ==> (#[trigger] ch[k]).0@ != p,
    }
}

/// `r` is the source the last entry of `rn` keyed by `p` records, or none when no entry is.
pub open spec fn last_source(rn: Seq<(String, String)>, p: Seq<char>, r: Option<Seq<char>>) -> bool {
    match r {
        Some(x) => exists|k: int|
            0 <= k < rn.len() && (#[trigger] rn[k]).0@ == p && rn[k].1@ == x && (forall|j: int|
                k < j < rn.len() ==> (#[trigger] rn[j]).0@ != p),
        None => forall|k: int| 0 <= k < rn.len() ==> (#[trigger] rn[k]).0@ != p,
    }
}

/// The file nodes of a tree, at any depth, depth first, in order.
pub open spec fn file_nodes(ns: Seq<NodeSpec>) -> Seq<NodeSpec>
    decreases ns,
{
    if ns.len() == 0 {
        seq![]
    } else {
        let head = match ns[0] {
            NodeSpec::File { .. } => seq![ns[0]],
            NodeSpec::Dir { children, .. } => file_nodes(children),
        };
        head + file_nodes(ns.drop_first())
    }
}

/// A file node carries the counts and the source recorded under its own full path.
pub open spec fn carries_own(n: NodeSpec, ch: Seq<(String, Changes)>, rn: Seq<(String, String)>) -> bool {
    match n {
        NodeSpec::File { path, changes, renamed_from, .. } => last_counts(ch, path, changes)
            && last_source(rn, path, renamed_from),
        NodeSpec::Dir { .. } => true,
    }
}

pub open spec fn all_carry(fs: Seq<NodeSpec>, ch: Seq<(String, Changes)>, rn: Seq<(String, String)>) -> bool {
    forall|i: int| 0 <= i < fs.len() ==> #[trigger] carries_own(fs[i], ch, rn)
}

proof fn lemma_file_nodes_concat(x: Seq<NodeSpec>, y: Seq<NodeSpec>)
    ensures
        file_nodes(x + y) == file_nodes(x) + file_nodes(y),
    decreases x.len(),
{
    if x.len() == 0 {
        assert(x + y =~= y);
        assert(file_nodes(x) + file_nodes(y) =~= file_nodes(y));
    } else {
        assert((x + y)[0] == x[0]);
        assert((x + y).drop_first() =~= x.drop_first() + y);
        lemma_file_nodes_concat(x.drop_first(), y);
        let head = match x[0] {
            NodeSpec::File { .. } => seq![x[0]],
            NodeSpec::Dir { children, .. } => file_nodes(children),
        };
        assert(head + (file_nodes(x.drop_first()) + file_nodes(y)) =~= head + file_nodes(
            x.drop_first(),
        ) + file_nodes(y));
    }
}

proof fn lemma_all_carry_concat(x: Seq<NodeSpec>, y: Seq<NodeSpec>, ch: Seq<(String, Changes)>, rn: Seq<(String, String)>)
    requires
        all_carry(x, ch, rn),
        all_carry(y, ch, rn),
    ensures
        all_carry(x + y, ch, rn),
{
    assert forall|i: int| 0 <= i < (x + y).len() implies #[trigger] carries_own((x + y)[i], ch, rn) by {
        if i < x.len() {
            assert((x + y)[i] == x[i]);
        } else {
            assert((x + y)[i] == y[i - x.len()]);
        }
    }
}

proof fn lemma_one_node(n: NodeSpec)
    ensures
        n is File ==> file_nodes(seq![n]) == seq![n],
        n matches NodeSpec::Dir { children, .. } ==> file_nodes(seq![n]) == file_nodes(children),
{
    assert(seq![n][0] == n);
    assert(seq![n].drop_first() =~= Seq::<NodeSpec>::empty());
    assert(file_nodes(Seq::<NodeSpec>::empty()) =~= Seq::<NodeSpec>::empty());
    match n {
        NodeSpec::File { .. } => {
            assert(file_nodes(seq![n]) =~= seq![n]);
        },
        NodeSpec::Dir { children, .. } => {
            assert(file_nodes(seq![n]) =~= file_nodes(children));
        },
    }
}

proof fn lemma_changes_for_last(ch: Seq<(String, Changes)>, p: Seq<char>)
    ensures
        last_counts(ch, p, changes_for(ch, p)),
    decreases ch.len(),
{
    if ch.len() > 0 {
        let t = ch.drop_last();
        if ch.last().0@ == p {
            let k = ch.len() - 1;
            assert(ch[k].0@ == p && ch[k].1 == ch.last().1);
        } else {
            lemma_changes_for_last(t, p);
            assert forall|j: int| 0 <= j < t.len() implies #[trigger] ch[j] == t[j] by {}
            match changes_for(t, p) {
                Some(x) => {
                    let k = choose|k: int|
                        0 <= k < t.len() && (#[trigger] t[k]).0@ == p && t[k].1 == x && (forall|j: int|
                            k < j < t.len() ==> (#[trigger] t[j]).0@ != p);
                    assert(ch[k] == t[k]);
                    assert forall|j: int| k < j < ch.len() implies (#[trigger] ch[j]).0@ != p by {
                        if j < t.len() {
                            assert(ch[j] == t[j]);
                            assert(t[j].0@ != p);
                        }
                    }
                },
                None => {
                    assert forall|j: int| 0 <= j < ch.len() implies (#[trigger] ch[j]).0@ != p by {
                        if j < t.len() {
                            assert(ch[j] == t[j]);
                            assert(t[j].0@ != p);
                        }
                    }
                },
            }
        }
    }
}

proof fn lemma_rename_for_last(rn: Seq<(String, String)>, p: Seq<char>)
    ensures
        last_source(rn, p, rename_for(rn, p)),
    decreases rn.len(),
{
    if rn.len() > 0 {
        let t = rn.drop_last();
        if rn.last().0@ == p {
            let k = rn.len() - 1;
            assert(rn[k].0@ == p && rn[k].1@ == rn.last().1@);
        } else {
            lemma_rename_for_last(t, p);
            assert forall|j: int| 0 <= j < t.len() implies #[trigger] rn[j] == t[j] by {}
            match rename_for(t, p) {
                Some(x) => {
                    let k = choose|k: int|
                        0 <= k < t.len() && (#[trigger] t[k]).0@ == p && t[k].1@ == x && (forall|j: int|
                            k < j < t.len() ==> (#[trigger] t[j]).0@ != p);
                    assert(rn[k] == t[k]);
                    assert forall|j: int| k < j < rn.len() implies (#[trigger] rn[j]).0@ != p by {
                        if j < t.len() {
                            assert(rn[j] == t[j]);
                            assert(t[j].0@ != p);
                        }
                    }
                },
                None => {
                    assert forall|j: int| 0 <= j < rn.len() implies (#[trigger] rn[j]).0@ != p by {
                        if j < t.len() {
                            assert(rn[j] == t[j]);
                            assert(t[j].0@ != p);
                        }
                    }
                },
            }
        }
    }
}

proof fn lemma_levels_carry(
    ps: Seq<Seq<char>>,
    pre: Seq<char>,
    d: int,
    i: int,
    fuel: nat,
    ch: Seq<(String, Changes)>,
    rn: Seq<(String, String)>,
)
    ensures
        all_carry(file_nodes(level_dirs(ps, pre, d, i, fuel, ch, rn)), ch, rn),
        all_carry(file_nodes(level_files(ps, pre, d, i, ch, rn)), ch, rn),
    decreases fuel, ps.len() - i,
{
    if 0 <= i < ps.len() {
        lemma_entry_end(ps, pre, d, i);
        let n = entry_end(ps, pre, d, i);
        lemma_levels_carry(ps, pre, d, n, fuel, ch, rn);
        let p = ps[i];
        let dn = level_dirs(ps, pre, d, n, fuel, ch, rn);
        let fl = level_files(ps, pre, d, n, ch, rn);
        if file_at(p, d) {
            lemma_changes_for_last(ch, p);
            lemma_rename_for_last(rn, p);
            let f = NodeSpec::File {
                name: name_at(p, d),
                path: p,
                changes: changes_for(ch, p),
                renamed_from: rename_for(rn, p),
            };
            assert(level_files(ps, pre, d, i, ch, rn) == seq![f] + fl);
            lemma_file_nodes_concat(seq![f], fl);
            lemma_one_node(f);
            assert(carries_own(f, ch, rn));
            assert(all_carry(seq![f], ch, rn));
            lemma_all_carry_concat(seq![f], file_nodes(fl), ch, rn);
            assert(level_dirs(ps, pre, d, i, fuel, ch, rn) == dn);
        } else {
            assert(level_files(ps, pre, d, i, ch, rn) == fl);
            if fuel > 0 {
                let name = name_at(p, d);
                let dp = dir_prefix(pre, name);
                let r = run_len(ps, i, dp);
                let sub = ps.subrange(i, i + r);
                let kids = tree_level(sub, dp, d + 1, (fuel - 1) as nat, ch, rn);
                if (fuel - 1) as nat > 0 {
                    lemma_levels_carry(sub, dp, d + 1, 0, (fuel - 1) as nat, ch, rn);
                    let a = level_dirs(sub, dp, d + 1, 0, (fuel - 1) as nat, ch, rn);
                    let b = level_files(sub, dp, d + 1, 0, ch, rn);
                    assert(kids == a + b);
                    lemma_file_nodes_concat(a, b);
                    lemma_all_carry_concat(file_nodes(a), file_nodes(b), ch, rn);
                } else {
                    assert(kids =~= Seq::<NodeSpec>::empty());
                    assert(file_nodes(kids) =~= Seq::<NodeSpec>::empty());
                }
                let node = NodeSpec::Dir { name, path: pre + name, children: kids };
                assert(level_dirs(ps, pre, d, i, fuel, ch, rn) == seq![node] + dn);
                lemma_file_nodes_concat(seq![node], dn);
                lemma_one_node(node);
                lemma_all_carry_concat(file_nodes(kids), file_nodes(dn), ch, rn);
            } else {
                assert(level_dirs(ps, pre, d, i, fuel, ch, rn) =~= Seq::<NodeSpec>::empty());
                assert(file_nodes(Seq::<NodeSpec>::empty()) =~= Seq::<NodeSpec>::empty());
            }
        }
    } else {
        assert(level_dirs(ps, pre, d, i, fuel, ch, rn) =~= Seq::<NodeSpec>::empty());
        assert(level_files(ps, pre, d, i, ch, rn) =~= Seq::<NodeSpec>::empty());
        assert(file_nodes(Seq::<NodeSpec>::empty()) =~= Seq::<NodeSpec>::empty());
    }
}

/// Every file in the tree, at any depth, carries the counts recorded under its own full
/// repo-relative path (the last such entry, when there are several; none when there is
/// none) and the source recorded for that path in the same way -- never those of another
/// path, nor of its bare name.
pub proof fn law_tree_files_carry_their_counts(
    ps: Seq<Seq<char>>,
    pre: Seq<char>,
    d: int,
    fuel: nat,
    ch: Seq<(String, Changes)>,
    rn: Seq<(String, String)>,
)
    ensures
        forall|i: int|
            0 <= i < file_nodes(tree_level(ps, pre, d, fuel, ch, rn)).len() ==> match #[trigger] file_nodes(
                tree_level(ps, pre, d, fuel, ch, rn),
            )[i] {
                NodeSpec::File { path, changes, renamed_from, .. } => last_counts(ch, path, changes)
                    && last_source(rn, path, renamed_from),
                NodeSpec::Dir { .. } => false,
            },
{
    let t = tree_level(ps, pre, d, fuel, ch, rn);
    if fuel > 0 {
        lemma_levels_carry(ps, pre, d, 0, fuel, ch, rn);
        let a = level_dirs(ps, pre, d, 0, fuel, ch, rn);
        let b = level_files(ps, pre, d, 0, ch, rn);
        assert(t == a + b);
        lemma_file_nodes_concat(a, b);
        lemma_all_carry_concat(file_nodes(a), file_nodes(b), ch, rn);
    } else {
        assert(t =~= Seq::<NodeSpec>::empty());
        assert(file_nodes(t) =~= Seq::<NodeSpec>::empty());
    }
    lemma_file_nodes_are_files(t);
    assert forall|i: int| 0 <= i < file_nodes(t).len() implies match #[trigger] file_nodes(t)[i] {
        NodeSpec::File { path, changes, renamed_from, .. } => last_counts(ch, path, changes)
            && last_source(rn, path, renamed_from),
        NodeSpec::Dir { .. } => false,
    } by {
        assert(carries_own(file_nodes(t)[i], ch, rn));
    }
}

proof fn lemma_file_nodes_are_files(ns: Seq<NodeSpec>)
    ensures
        forall|i: int| 0 <= i < file_nodes(ns).len() ==> (#[trigger] file_nodes(ns)[i]) is File,
    decreases ns,
{
    if ns.len() > 0 {
        lemma_file_nodes_are_files(ns.drop_first());
        let head = match ns[0] {
            NodeSpec::File { .. } => seq![ns[0]],
            NodeSpec::Dir { children, .. } => file_nodes(children),
        };
        match ns[0] {
            NodeSpec::File { .. } => {},
            NodeSpec::Dir { children, .. } => {
                lemma_file_nodes_are_files(children);
            },
        }
        let all = head + file_nodes(ns.drop_first());
        assert forall|i: int| 0 <= i < all.len() implies (#[trigger] all[i]) is File by {
            if i < head.len() {
                assert(all[i] == head[i]);
            } else {
                assert(all[i] == file_nodes(ns.drop_first())[i - head.len()]);
            }
        }
    }
}

/// In the sidebar's tree, every file at any depth shows the +/- counts of the changed file
/// at its own path (the last one, when a path was counted twice), renamed or not, and no
/// counts when nothing at its path changed.
pub proof fn law_sidebar_files_carry_their_counts(changed: Seq<CountedFile>, ps: Seq<Seq<char>>)
    ensures
        forall|i: int|
            0 <= i < file_nodes(tree_of(ps, Seq::empty(), 0, change_entries(changed), rename_entries(changed))).len()
                ==> match #[trigger] file_nodes(
                tree_of(ps, Seq::empty(), 0, change_entries(changed), rename_entries(changed)),
            )[i] {
                NodeSpec::File { path, changes, .. } => match changes {
                    Some(x) => exists|k: int|
                        0 <= k < changed.len() && (#[trigger] changed[k]).path@ == path
                            && changed[k].changes == x && (forall|j: int|
                            k < j < changed.len() ==> (#[trigger] changed[j]).path@ != path),
                    None => forall|k: int| 0 <= k < changed.len() ==> (#[trigger] changed[k]).path@ != path,
                },
                NodeSpec::Dir { .. } => false,
            },
{
    let ch = change_entries(changed);
    let rn = rename_entries(changed);
    let fs = file_nodes(tree_of(ps, Seq::empty(), 0, ch, rn));
    law_tree_files_carry_their_counts(ps, Seq::empty(), 0, max_len(ps) + 1, ch, rn);
    assert(ch.len() == changed.len());
    assert forall|k: int| 0 <= k < ch.len() implies (#[trigger] ch[k]).0 == changed[k].path && ch[k].1
        == changed[k].changes by {}
    assert forall|i: int| 0 <= i < fs.len() implies match #[trigger] fs[i] {
        NodeSpec::File { path, changes, .. } => match changes {
            Some(x) => exists|k: int|
                0 <= k < changed.len() && (#[trigger] changed[k]).path@ == path && changed[k].changes
                    == x && (forall|j: int| k < j < changed.len() ==> (#[trigger] changed[j]).path@ != path),
            None => forall|k: int| 0 <= k < changed.len() ==> (#[trigger] changed[k]).path@ != path,
        },
        NodeSpec::Dir { .. } => false,
    } by {
        match fs[i] {
            NodeSpec::File { path, changes, .. } => {
                assert(last_counts(ch, path, changes));
                match changes {
                    Some(x) => {
                        let k = choose|k: int|
                            0 <= k < ch.len() && (#[trigger] ch[k]).0@ == path && ch[k].1 == x && (forall|j: int|
                                k < j < ch.len() ==> (#[trigger] ch[j]).0@ != path);
                        assert(changed[k].path@ == path && changed[k].changes == x);
                        assert forall|j: int| k < j < changed.len() implies (#[trigger] changed[j]).path@ != path by {
                            assert(ch[j].0@ != path);
                        }
                    },
                    None => {
                        assert forall|k: int| 0 <= k < changed.len() implies (#[trigger] changed[k]).path@ != path by {
                            assert(ch[k].0@ != path);
                        }
                    },
                }
            },
            NodeSpec::Dir { .. } => {},
        }
    }
}

} // verus!
