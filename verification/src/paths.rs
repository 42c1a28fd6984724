//! Repo-relative paths as the tree reads them: `'/'`-separated components.

use vstd::prelude::*;

verus! {

/// Index of the first `'/'` of `s` at or after `i`, or the length of `s` when there is none.
pub open spec fn first_slash(s: Seq<char>, i: int) -> int
    decreases s.len() - i,
{
    if i >= s.len() {
        s.len() as int
    } else if s[i] == '/' {
        i
    } else {
        first_slash(s, i + 1)
    }
}

pub proof fn lemma_first_slash(s: Seq<char>, i: int)
    requires
        0 <= i <= s.len(),
    ensures
        i <= first_slash(s, i) <= s.len(),
        first_slash(s, i) < s.len() ==> s[first_slash(s, i)] == '/',
        forall|j: int| i <= j < first_slash(s, i) ==> s[j] != '/',
    decreases s.len() - i,
{
    if i < s.len() && s[i] != '/' {
        lemma_first_slash(s, i + 1);
    }
}

/// The components of `s`, split at every `'/'`, as `str::split('/')` gives them: there is
/// always at least one, and empty ones are kept.
pub open spec fn components(s: Seq<char>) -> Seq<Seq<char>>
    decreases s.len(),
{
    let k = first_slash(s, 0);
    if k >= s.len() {
        seq![s]
    } else {
        proof {
            lemma_first_slash(s, 0);
        }
        seq![s.take(k)] + components(s.skip(k + 1))
    }
}

/// The `d`-th component of `p`, or nothing when `p` has fewer.
pub open spec fn name_at(p: Seq<char>, d: int) -> Seq<char> {
    if 0 <= d < components(p).len() {
        components(p)[d]
    } else {
        seq![]
    }
}

/// `p` ends at its `d`-th component.
pub open spec fn file_at(p: Seq<char>, d: int) -> bool {
    components(p).len() == d + 1
}

/// `pre` is the text of `d` whole components, each followed by its `'/'`.
pub open spec fn prefix_ok(pre: Seq<char>, d: int) -> bool {
    if d == 0 {
        pre.len() == 0
    } else {
        &&& pre.len() > 0
        &&& pre.last() == '/'
        &&& components(pre.drop_last()).len() == d
    }
}

/// The prefix naming directory `name` under `pre`.
pub open spec fn dir_prefix(pre: Seq<char>, name: Seq<char>) -> Seq<char> {
    pre + name + seq!['/']
}

proof fn lemma_components_no_slash(s: Seq<char>)
    requires
        forall|j: int| 0 <= j < s.len() ==> s[j] != '/',
    ensures
        components(s) == seq![s],
{
    lemma_first_slash(s, 0);
    if first_slash(s, 0) < s.len() {
        assert(s[first_slash(s, 0)] != '/');
    }
}

/// Splitting `q / r` splits `q` and `r` and keeps both lists.
proof fn lemma_components_join(q: Seq<char>, r: Seq<char>)
    ensures
        components(q + seq!['/'] + r) == components(q) + components(r),
    decreases q.len(),
{
    let s = q + seq!['/'] + r;
    lemma_first_slash(q, 0);
    lemma_first_slash(s, 0);
    let kq = first_slash(q, 0);
    let ks = first_slash(s, 0);
    if kq >= q.len() {
        // No '/' in q: the first one in s is the one after q.
        assert(s[q.len() as int] == '/');
        if ks < q.len() {
            assert(q[ks] == s[ks]);
        }
        assert(ks == q.len());
        assert(s.take(ks) =~= q);
        assert(s.skip(ks + 1) =~= r);
        lemma_components_no_slash(q);
    } else {
        assert(s[kq] == q[kq]);
        if ks < kq {
            assert(s[ks] == q[ks]);
        }
        assert(ks == kq);
        assert(s.take(ks) =~= q.take(kq));
        assert(s.skip(ks + 1) =~= q.skip(kq + 1) + seq!['/'] + r);
        lemma_components_join(q.skip(kq + 1), r);
        assert(components(q) == seq![q.take(kq)] + components(q.skip(kq + 1)));
        assert(seq![q.take(kq)] + (components(q.skip(kq + 1)) + components(r)) =~= seq![
            q.take(kq),
        ] + components(q.skip(kq + 1)) + components(r));
    }
}

/// Below a well-formed prefix, a path's components are the prefix's followed by those of
/// the rest of the path.
pub proof fn lemma_components_under(pre: Seq<char>, d: int, rest: Seq<char>)
    requires
        d >= 0,
        prefix_ok(pre, d),
    ensures
        components(pre + rest).len() == d + components(rest).len(),
        name_at(pre + rest, d) == components(rest)[0],
        file_at(pre + rest, d) <==> components(rest).len() == 1,
{
    if d == 0 {
        assert(pre + rest =~= rest);
    } else {
        let q = pre.drop_last();
        assert(pre + rest =~= q + seq!['/'] + rest);
        lemma_components_join(q, rest);
        assert((components(q) + components(rest))[d] == components(rest)[0]);
    }
}

/// A path below `pre` that does not end at depth `d` lies in the directory its `d`-th
/// component names, and that directory's prefix is well formed one level down.
pub proof fn lemma_dir_under(pre: Seq<char>, d: int, p: Seq<char>)
    requires
        d >= 0,
        prefix_ok(pre, d),
        pre.is_prefix_of(p),
        !file_at(p, d),
    ensures
        dir_prefix(pre, name_at(p, d)).is_prefix_of(p),
        prefix_ok(dir_prefix(pre, name_at(p, d)), d + 1),
        name_at(p, d).len() < p.len() - pre.len(),
{
    let rest = p.skip(pre.len() as int);
    assert(p =~= pre + rest);
    lemma_components_under(pre, d, rest);
    lemma_first_slash(rest, 0);
    let k = first_slash(rest, 0);
    // `rest` has a '/', or it would be a single component and `p` would end at depth d.
    assert(k < rest.len());
    let name = rest.take(k);
    assert(components(rest)[0] == name);
    let dp = dir_prefix(pre, name);
    assert(dp =~= p.subrange(0, dp.len() as int));
    assert forall|j: int| 0 <= j < name.len() implies name[j] != '/' by {
        assert(name[j] == rest[j]);
    }
    lemma_components_no_slash(name);
    if d == 0 {
        assert(dp.drop_last() =~= name);
    } else {
        let q = pre.drop_last();
        assert(dp.drop_last() =~= q + seq!['/'] + name);
        lemma_components_join(q, name);
    }
}


proof fn lemma_first_slash_at(s: Seq<char>, i: int, k: int)
    requires
        0 <= i <= k <= s.len(),
        k < s.len() ==> s[k] == '/',
        forall|j: int| i <= j < k ==> s[j] != '/',
    ensures
        first_slash(s, i) == k,
    decreases k - i,
{
    if i < k {
        lemma_first_slash_at(s, i + 1, k);
    }
}

/// The components of `p`.
pub fn split_components(p: &Vec<char>) -> (r: Vec<Vec<char>>)
    ensures
        r@.map_values(|c: Vec<char>| c@) == components(p@),
{
    let mut out: Vec<Vec<char>> = Vec::new();
    let mut cur: Vec<char> = Vec::new();
    let ghost mut start: int = 0;
    let mut i: usize = 0;
    proof {
        assert(p@.skip(0) =~= p@);
    }
    while i < p.len()
        invariant
            0 <= start <= i <= p@.len(),
            cur@ == p@.subrange(start, i as int),
            forall|j: int| start <= j < i ==> p@[j] != '/',
            out@.map_values(|c: Vec<char>| c@) + components(p@.skip(start)) == components(p@),
        decreases p.len() - i,
    {
        if p[i] == '/' {
            proof {
                let t = p@.skip(start);
                lemma_first_slash_at(t, 0, i - start);
                assert(t.take(i - start) =~= cur@);
                assert(t.skip(i - start + 1) =~= p@.skip(i + 1));
                assert(components(t) == seq![cur@] + components(p@.skip(i + 1)));
            }
            let ghost before = out@.map_values(|c: Vec<char>| c@);
            let piece = cur;
            out.push(piece);
            cur = Vec::new();
            proof {
                assert(out@.map_values(|c: Vec<char>| c@) =~= before.push(piece@));
                start = i + 1;
            }
        } else {
            cur.push(p[i]);
        }
        i = i + 1;
    }
    proof {
        let t = p@.skip(start);
        lemma_first_slash_at(t, 0, t.len() as int);
        assert(t =~= cur@);
        assert(components(t) == seq![cur@]);
    }
    let ghost before = out@.map_values(|c: Vec<char>| c@);
    let last = cur;
    out.push(last);
    proof {
        assert(out@.map_values(|c: Vec<char>| c@) =~= before.push(last@));
    }
    out
}

/// Whether `pre` is a prefix of `p`.
pub fn starts_with(p: &Vec<char>, pre: &Vec<char>) -> (r: bool)
    ensures
        r == pre@.is_prefix_of(p@),
{
    if pre.len() > p.len() {
        return false;
    }
    let mut i: usize = 0;
    while i < pre.len()
        invariant
            pre@.len() <= p@.len(),
            i <= pre@.len(),
            forall|j: int| 0 <= j < i ==> pre@[j] == p@[j],
        decreases pre.len() - i,
    {
        if pre[i] != p[i] {
            proof {
                assert(p@.subrange(0, pre@.len() as int)[i as int] == p@[i as int]);
            }
            return false;
        }
        i = i + 1;
    }
    proof {
        assert(pre@ =~= p@.subrange(0, pre@.len() as int));
    }
    true
}


pub proof fn lemma_components_len(s: Seq<char>)
    ensures
        1 <= components(s).len() <= s.len() + 1,
    decreases s.len(),
{
    lemma_first_slash(s, 0);
    let k = first_slash(s, 0);
    if k < s.len() {
        lemma_components_len(s.skip(k + 1));
    }
}

/// The depth a well-formed prefix names is at most its length.
pub proof fn lemma_prefix_depth(pre: Seq<char>, d: int)
    requires
        d >= 0,
        prefix_ok(pre, d),
    ensures
        d <= pre.len(),
{
    if d > 0 {
        lemma_components_len(pre.drop_last());
    }
}

} // verus!
