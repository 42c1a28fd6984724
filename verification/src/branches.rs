//! The Repo's branches as the Base Branch picker lists them, and what a Fetch tells the
//! user: which refs moved, why it failed, or that it gave up.

use vstd::prelude::*;

use crate::text::{append_str, decimal, decimal_chars, string_of};
use crate::order::{
    lemma_less_asymmetric, lemma_less_irreflexive, lemma_less_total, lemma_less_transitive,
    seq_less, string_less,
};
use crate::types::{Branch, BranchList, FetchResult};

verus! {

/// How long a Fetch may run before Ziff gives up on it, in seconds. Fetching goes
/// through the system `ssh`, which can sit waiting on a prompt this app cannot answer.
pub const FETCH_TIMEOUT_SECS: u64 = 60;

/// A gix error message with the messages of its causes after it, each behind `": "`.
pub open spec fn with_causes(message: Seq<char>, causes: Seq<String>) -> Seq<char>
    decreases causes.len(),
{
    if causes.len() == 0 {
        message
    } else {
        with_causes(message, causes.drop_last()) + ": "@ + causes.last()@
    }
}

/// A gix error together with its causes, behind `context`: the outermost message is
/// usually the vaguest one ("Fetch failed"), and the user needs the layer that names
/// the real problem. `chain` holds the error's message, then each cause's in turn.
pub fn explain(context: &str, chain: &Vec<String>) -> (r: String)
    ensures
        r@ == with_causes(context@, chain@),
{
    let mut message = String::new();
    append_str(&mut message, context);
    let mut i: usize = 0;
    proof {
        assert(chain@.take(0).len() == 0);
    }
    while i < chain.len()
        invariant
            i <= chain@.len(),
            message@ == with_causes(context@, chain@.take(i as int)),
        decreases chain.len() - i,
    {
        proof {
            assert(chain@.take(i + 1).drop_last() =~= chain@.take(i as int));
            assert(chain@.take(i + 1).last() == chain@[i as int]);
        }
        append_str(&mut message, ": ");
        append_str(&mut message, chain[i].as_str());
        i = i + 1;
    }
    proof {
        assert(chain@.take(i as int) =~= chain@);
    }
    message
}

/// What a Fetch says of a Repo that was never cloned from anywhere: an ordinary state
/// for a local repo, not a failure.
pub fn no_remote_message() -> (r: String)
    ensures
        r@ == "This repo has no remote, so there is nothing to fetch."@,
{
    let mut m = String::new();
    append_str(&mut m, "This repo has no remote, so there is nothing to fetch.");
    m
}

/// Ziff is built without an HTTP transport, so a remote at an `http(s)` URL is refused in
/// the user's terms (gix's own answer names cargo features); any other is let through.
pub fn check_transport(is_http: bool, url: &str) -> (r: Result<(), String>)
    ensures
        is_http <==> r is Err,
        r matches Err(e) ==> e@ == "Ziff fetches over ssh only, and this repo's remote is "@
            + url@ + ". Pointing it at the ssh form of the same repo (git remote set-url) makes Fetch work."@,
{
    if is_http {
        let mut e = String::new();
        append_str(&mut e, "Ziff fetches over ssh only, and this repo's remote is ");
        append_str(&mut e, url);
        append_str(
            &mut e,
            ". Pointing it at the ssh form of the same repo (git remote set-url) makes Fetch work.",
        );
        Err(e)
    } else {
        Ok(())
    }
}

/// How a fetch run on its own thread came back.
pub enum FetchOutcome {
    /// The fetch finished: what to tell the user, and whether it worked.
    Finished(Result<String, String>),
    /// It ran past `FETCH_TIMEOUT_SECS` and was abandoned.
    TimedOut,
    /// Its thread went away without an answer.
    Stopped,
}

/// The message for a fetch given up after `secs` seconds.
pub open spec fn gave_up_message(secs: nat) -> Seq<char> {
    "Gave up after "@ + decimal(secs)
        + "s. The remote may be unreachable, or it asked for credentials Ziff cannot prompt for."@
}

/// What the user is told of a fetch, however it came back: a spinner that never
/// stops is the worst answer, so a fetch that hangs is reported as given up.
pub fn fetch_result(outcome: FetchOutcome) -> (r: FetchResult)
    ensures
        match outcome {
            FetchOutcome::Finished(Ok(m)) => r.success && r.message@ == m@,
            FetchOutcome::Finished(Err(m)) => !r.success && r.message@ == m@,
            FetchOutcome::TimedOut => !r.success && r.message@ == gave_up_message(
                FETCH_TIMEOUT_SECS as nat,
            ),
            FetchOutcome::Stopped => !r.success && r.message@ == "Fetch stopped unexpectedly."@,
        },
{
    match outcome {
        FetchOutcome::Finished(Ok(message)) => FetchResult { success: true, message },
        FetchOutcome::Finished(Err(message)) => FetchResult { success: false, message },
        FetchOutcome::TimedOut => {
            let mut message = String::new();
            append_str(&mut message, "Gave up after ");
            let secs = string_of(decimal_chars(FETCH_TIMEOUT_SECS).as_slice());
            append_str(&mut message, secs.as_str());
            append_str(
                &mut message,
                "s. The remote may be unreachable, or it asked for credentials Ziff cannot prompt for.",
            );
            FetchResult { success: false, message }
        },
        FetchOutcome::Stopped => {
            let mut message = String::new();
            append_str(&mut message, "Fetch stopped unexpectedly.");
            FetchResult { success: false, message }
        },
    }
}

/// One ref update a fetch reports, in plain values.
pub struct RefUpdate {
    /// The update changed the ref: its mode is not "no change needed".
    pub moved: bool,
    /// The short name of the ref edit the update points at, when it points at one.
    pub edit_name: Option<String>,
    /// How the ref moved, in gix's words ("fast-forward", "forced", ...).
    pub mode: String,
}

/// `name (mode)` for each update that moved a ref it can name, in order.
pub open spec fn moved_refs(updates: Seq<RefUpdate>) -> Seq<Seq<char>>
    decreases updates.len(),
{
    if updates.len() == 0 {
        seq![]
    } else {
        let r = moved_refs(updates.drop_last());
        let u = updates.last();
        if u.moved && u.edit_name is Some {
            r.push(u.edit_name->0@ + " ("@ + u.mode@ + ")"@)
        } else {
            r
        }
    }
}

/// The items of `s` with `", "` between them.
pub open spec fn joined(s: Seq<Seq<char>>) -> Seq<char>
    decreases s.len(),
{
    if s.len() == 0 {
        seq![]
    } else if s.len() == 1 {
        s[0]
    } else {
        joined(s.drop_last()) + ", "@ + s.last()
    }
}

/// What a fetch changed, as a toast says it.
pub open spec fn summary(updates: Seq<RefUpdate>) -> Seq<char> {
    let moved = moved_refs(updates);
    if moved.len() == 0 {
        "Already up to date."@
    } else if moved.len() > 3 {
        "Updated "@ + decimal(moved.len()) + " refs: "@ + joined(moved.take(3)) + ", ..."@
    } else {
        "Updated "@ + joined(moved)
    }
}

/// `s` with `", "` between its items.
fn join_names(s: &Vec<String>) -> (r: String)
    ensures
        r@ == joined(s@.map_values(|n: String| n@)),
{
    let ghost v = s@.map_values(|n: String| n@);
    let mut out = String::new();
    let mut i: usize = 0;
    proof {
        assert(v.take(0) =~= Seq::<Seq<char>>::empty());
    }
    while i < s.len()
        invariant
            i <= s@.len(),
            v == s@.map_values(|n: String| n@),
            out@ == joined(v.take(i as int)),
        decreases s.len() - i,
    {
        proof {
            assert(v.take(i + 1).drop_last() =~= v.take(i as int));
            assert(v.take(i + 1).last() == s@[i as int]@);
        }
        if i > 0 {
            append_str(&mut out, ", ");
        } else {
            proof {
                assert(out@ =~= Seq::<char>::empty());
                assert(v.take(1)[0] == s@[0]@);
            }
        }
        append_str(&mut out, s[i].as_str());
        proof {
            if i == 0 {
                assert(out@ =~= joined(v.take(1)));
            }
        }
        i = i + 1;
    }
    proof {
        assert(v.take(i as int) =~= v);
    }
    out
}

/// What changed, in the terms the user cares about: which refs moved, and how. A
/// toast is not a log, so past three refs the count says more than the names would.
pub fn summarize(updates: &Vec<RefUpdate>) -> (r: String)
    ensures
        r@ == summary(updates@),
{
    let mut moved: Vec<String> = Vec::new();
    let mut i: usize = 0;
    proof {
        assert(updates@.take(0).len() == 0);
    }
    while i < updates.len()
        invariant
            i <= updates@.len(),
            moved@.map_values(|n: String| n@) == moved_refs(updates@.take(i as int)),
        decreases updates.len() - i,
    {
        proof {
            assert(updates@.take(i + 1).drop_last() =~= updates@.take(i as int));
            assert(updates@.take(i + 1).last() == updates@[i as int]);
        }
        let u = &updates[i];
        if u.moved {
            if let Some(name) = &u.edit_name {
                let mut item = String::new();
                append_str(&mut item, name.as_str());
                append_str(&mut item, " (");
                append_str(&mut item, u.mode.as_str());
                append_str(&mut item, ")");
                let ghost before = moved@;
                moved.push(item);
                proof {
                    assert(moved@.map_values(|n: String| n@) =~= before.map_values(|n: String| n@).push(
                        item@,
                    ));
                }
            }
        }
        i = i + 1;
    }
    proof {
        assert(updates@.take(i as int) =~= updates@);
    }
    let ghost names = moved@.map_values(|n: String| n@);
    if moved.len() == 0 {
        let mut m = String::new();
        append_str(&mut m, "Already up to date.");
        return m;
    }
    let total = moved.len();
    let mut m = String::new();
    append_str(&mut m, "Updated ");
    if total > 3 {
        let count = string_of(decimal_chars(total as u64).as_slice());
        append_str(&mut m, count.as_str());
        append_str(&mut m, " refs: ");
        moved.truncate(3);
        proof {
            assert(moved@.map_values(|n: String| n@) =~= names.take(3));
        }
        let shown = join_names(&moved);
        append_str(&mut m, shown.as_str());
        append_str(&mut m, ", ...");
    } else {
        let shown = join_names(&moved);
        append_str(&mut m, shown.as_str());
    }
    m
}

/// A local branch as read from the repository, before it is placed in the list.
pub struct BranchRow {
    pub name: String,
    /// When the branch tip was committed, in seconds since the epoch.
    pub committed_at: i64,
    pub ahead: Option<u32>,
    pub behind: Option<u32>,
}

/// `a` is listed before `b`: it was committed more recently, or at the same second under
/// a name that sorts first.
pub open spec fn row_before(a: BranchRow, b: BranchRow) -> bool {
    a.committed_at > b.committed_at || (a.committed_at == b.committed_at && seq_less(
        a.name@,
        b.name@,
    ))
}

/// No row is listed before one that comes ahead of it.
pub open spec fn rows_in_order(s: Seq<BranchRow>) -> bool {
    forall|i: int, j: int| 0 <= i < j < s.len() ==> !row_before(#[trigger] s[j], #[trigger] s[i])
}

/// The rows of `s` committed at `t` under the name `n`, in the order `s` has them.
pub open spec fn with_key(s: Seq<BranchRow>, t: i64, n: Seq<char>) -> Seq<BranchRow>
    decreases s.len(),
{
    if s.len() == 0 {
        seq![]
    } else {
        let r = with_key(s.drop_last(), t, n);
        if s.last().committed_at == t && s.last().name@ == n {
            r.push(s.last())
        } else {
            r
        }
    }
}

/// The branch a row stands for, with `current` the checked-out branch, if any.
pub open spec fn branch_of(row: BranchRow, current: Option<String>) -> Branch {
    Branch {
        name: row.name,
        is_current: current is Some && current->0@ == row.name@,
        ahead: row.ahead,
        behind: row.behind,
    }
}

proof fn lemma_row_before_after(a: BranchRow, b: BranchRow, c: BranchRow)
    requires
        row_before(a, b),
        !row_before(c, b),
    ensures
        row_before(a, c),
        !row_before(c, a),
{
    lemma_less_total(c.name@, b.name@);
    if a.committed_at == b.committed_at && b.committed_at == c.committed_at {
        if b.name@ != c.name@ {
            lemma_less_transitive(a.name@, b.name@, c.name@);
        }
        lemma_less_asymmetric(a.name@, c.name@);
    }
}

proof fn lemma_row_not_before_itself(a: BranchRow, b: BranchRow)
    requires
        row_before(a, b),
    ensures
        !(a.committed_at == b.committed_at && a.name@ == b.name@),
{
    if a.committed_at == b.committed_at && a.name@ == b.name@ {
        lemma_less_irreflexive(a.name@);
    }
}

proof fn lemma_with_key_concat(a: Seq<BranchRow>, b: Seq<BranchRow>, t: i64, n: Seq<char>)
    ensures
        with_key(a + b, t, n) == with_key(a, t, n) + with_key(b, t, n),
    decreases b.len(),
{
    if b.len() == 0 {
        assert(a + b =~= a);
        assert(with_key(a, t, n) + with_key(b, t, n) =~= with_key(a, t, n));
    } else {
        assert((a + b).drop_last() =~= a + b.drop_last());
        assert((a + b).last() == b.last());
        lemma_with_key_concat(a, b.drop_last(), t, n);
        if b.last().committed_at == t && b.last().name@ == n {
            assert(with_key(a, t, n) + with_key(b.drop_last(), t, n).push(b.last()) =~= (with_key(
                a,
                t,
                n,
            ) + with_key(b.drop_last(), t, n)).push(b.last()));
        }
    }
}

proof fn lemma_with_key_none(a: Seq<BranchRow>, t: i64, n: Seq<char>)
    requires
        forall|i: int|
            0 <= i < a.len() ==> !((#[trigger] a[i]).committed_at == t && a[i].name@ == n),
    ensures
        with_key(a, t, n) == Seq::<BranchRow>::empty(),
    decreases a.len(),
{
    if a.len() > 0 {
        assert(a.last() == a[a.len() - 1]);
        assert forall|i: int| 0 <= i < a.drop_last().len() implies !((
        #[trigger] a.drop_last()[i]).committed_at == t && a.drop_last()[i].name@ == n) by {
            assert(a.drop_last()[i] == a[i]);
        }
        lemma_with_key_none(a.drop_last(), t, n);
    }
}

/// Whether `a` is listed before `b`.
fn row_less(a: &BranchRow, b: &BranchRow) -> (r: bool)
    ensures
        r == row_before(*a, *b),
{
    a.committed_at > b.committed_at || (a.committed_at == b.committed_at && string_less(
        &a.name,
        &b.name,
    ))
}

/// The rows most recently committed first, ties by name, rows with the same time and
/// name kept in the order they came.
fn sort_rows(rows: Vec<BranchRow>) -> (r: Vec<BranchRow>)
    ensures
        r@.len() == rows@.len(),
        rows_in_order(r@),
        forall|t: i64, n: Seq<char>| #[trigger] with_key(r@, t, n) == with_key(rows@, t, n),
{
    let ghost all = rows@;
    let n_rows = rows.len();
    let mut rest = rows;
    let mut out: Vec<BranchRow> = Vec::new();
    let mut k: usize = 0;
    proof {
        assert(all.take(0).len() == 0);
        assert(all.skip(0) =~= all);
    }
    while rest.len() > 0
        invariant
            k <= all.len(),
            all.len() == n_rows,
            rest@ == all.skip(k as int),
            out@.len() == k,
            rows_in_order(out@),
            forall|t: i64, n: Seq<char>| #[trigger]
                with_key(out@, t, n) == with_key(all.take(k as int), t, n),
        decreases rest.len(),
    {
        let x = rest.remove(0);
        proof {
            assert(x == all[k as int]);
            assert(rest@ =~= all.skip(k + 1));
        }
        let ghost o = out@;
        let mut p: usize = 0;
        while p < out.len() && !row_less(&x, &out[p])
            invariant
                out@ == o,
                p <= o.len(),
                forall|j: int| 0 <= j < p ==> !row_before(x, #[trigger] o[j]),
            decreases out.len() - p,
        {
            p = p + 1;
        }
        proof {
            assert forall|j: int| p <= j < o.len() implies row_before(x, #[trigger] o[j]) by {
                if j > p {
                    assert(!row_before(o[j], o[p as int]));
                    lemma_row_before_after(x, o[p as int], o[j]);
                }
            }
        }
        let ghost xv = x;
        out.insert(p, x);
        proof {
            let nw = out@;
            assert(nw =~= o.take(p as int) + seq![xv] + o.skip(p as int));
            assert(o =~= o.take(p as int) + o.skip(p as int));
            assert forall|i: int, j: int| 0 <= i < j < nw.len() implies !row_before(
                #[trigger] nw[j],
                #[trigger] nw[i],
            ) by {
                if j < p {
                    assert(nw[i] == o[i] && nw[j] == o[j]);
                } else if j == p {
                    assert(nw[i] == o[i]);
                } else if i == p {
                    assert(nw[j] == o[j - 1]);
                    assert(row_before(xv, o[j - 1]));
                    assert(!row_before(o[j - 1], o[j - 1])) by {
                        lemma_less_irreflexive(o[j - 1].name@);
                    }
                    lemma_row_before_after(xv, o[j - 1], o[j - 1]);
                } else if i < p {
                    assert(nw[i] == o[i] && nw[j] == o[j - 1]);
                } else {
                    assert(nw[i] == o[i - 1] && nw[j] == o[j - 1]);
                }
            }
            assert(all.take(k + 1) =~= all.take(k as int).push(xv));
            assert(all.take(k + 1).drop_last() =~= all.take(k as int));
            assert forall|t: i64, n: Seq<char>| #[trigger]
                with_key(nw, t, n) == with_key(all.take(k + 1), t, n) by {
                lemma_with_key_concat(o.take(p as int) + seq![xv], o.skip(p as int), t, n);
                lemma_with_key_concat(o.take(p as int), seq![xv], t, n);
                lemma_with_key_concat(o.take(p as int), o.skip(p as int), t, n);
                assert(seq![xv].drop_last() =~= Seq::<BranchRow>::empty());
                assert(with_key(Seq::<BranchRow>::empty(), t, n) =~= Seq::<BranchRow>::empty());
                if xv.committed_at == t && xv.name@ == n {
                    assert forall|i: int| 0 <= i < o.skip(p as int).len() implies !((
                    #[trigger] o.skip(p as int)[i]).committed_at == t && o.skip(p as int)[i].name@
                        == n) by {
                        assert(o.skip(p as int)[i] == o[p + i]);
                        lemma_row_not_before_itself(xv, o[p + i]);
                    }
                    lemma_with_key_none(o.skip(p as int), t, n);
                    assert(with_key(seq![xv], t, n) =~= seq![xv]);
                    assert(with_key(o.take(p as int), t, n) + with_key(o.skip(p as int), t, n)
                        =~= with_key(o.take(p as int), t, n));
                    assert(with_key(o.take(p as int), t, n) + seq![xv] =~= with_key(
                        o.take(p as int),
                        t,
                        n,
                    ).push(xv));
                } else {
                    assert(with_key(seq![xv], t, n) =~= Seq::<BranchRow>::empty());
                    assert(with_key(o.take(p as int), t, n) + Seq::<BranchRow>::empty() =~= with_key(
                        o.take(p as int),
                        t,
                        n,
                    ));
                }
            }
        }
        k = k + 1;
    }
    proof {
        assert(all.take(k as int) =~= all);
    }
    out
}

/// The Repo's local branches, most recently committed first, with the checked-out one
/// (`current`, absent when HEAD is detached) marked. Recency rather than alphabetical
/// order: this list is the Base Branch picker, and the branch a user wants to compare
/// against is far more likely to be one they have touched. A detached HEAD is on no
/// branch at all, so `detached`, the commit it sits on, is reported only then.
pub fn read_branches(current: Option<String>, rows: Vec<BranchRow>, detached: Option<String>) -> (r:
    BranchList)
    ensures
        exists|s: Seq<BranchRow>|
            {
                &&& s.len() == rows@.len()
                &&& rows_in_order(s)
                &&& forall|t: i64, n: Seq<char>| #[trigger] with_key(s, t, n) == with_key(rows@, t, n)
                &&& r.branches@ == s.map_values(|row: BranchRow| branch_of(row, current))
            },
        r.detached_head == if current is Some {
            None
        } else {
            detached
        },
{
    let sorted = sort_rows(rows);
    let ghost s = sorted@;
    let n_rows = sorted.len();
    let mut branches: Vec<Branch> = Vec::new();
    let mut rest = sorted;
    let mut k: usize = 0;
    proof {
        assert(s.skip(0) =~= s);
    }
    while rest.len() > 0
        invariant
            k <= s.len(),
            s.len() == n_rows,
            rest@ == s.skip(k as int),
            branches@ == s.take(k as int).map_values(|row: BranchRow| branch_of(row, current)),
        decreases rest.len(),
    {
        let row = rest.remove(0);
        proof {
            assert(row == s[k as int]);
            assert(rest@ =~= s.skip(k + 1));
        }
        let is_current = match &current {
            Some(c) => *c == row.name,
            None => false,
        };
        let ghost rv = row;
        branches.push(Branch { name: row.name, is_current, ahead: row.ahead, behind: row.behind });
        proof {
            assert(s.take(k + 1).map_values(|row: BranchRow| branch_of(row, current)) =~= s.take(
                k as int,
            ).map_values(|row: BranchRow| branch_of(row, current)).push(branch_of(rv, current)));
        }
        k = k + 1;
    }
    proof {
        assert(s.take(k as int) =~= s);
    }
    let detached_head = match current {
        Some(_) => None,
        None => detached,
    };
    BranchList { branches, detached_head }
}

/// Only the checked-out branch is marked current: with HEAD detached no branch is, and on
/// a branch, among rows with distinct names, at most one is.
pub proof fn law_at_most_one_branch_is_current(rows: Seq<BranchRow>, current: Option<String>)
    requires
        forall|i: int, j: int|
            0 <= i < j < rows.len() ==> (#[trigger] rows[i]).name@ != (#[trigger] rows[j]).name@,
    ensures
        current is None ==> forall|i: int|
            0 <= i < rows.len() ==> !(#[trigger] branch_of(rows[i], current)).is_current,
        forall|i: int, j: int|
            0 <= i < j < rows.len() ==> !(#[trigger] branch_of(rows[i], current).is_current
                && #[trigger] branch_of(rows[j], current).is_current),
{
}

} // verus!
