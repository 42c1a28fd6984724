//! The order Rust gives `String`s (byte by byte, which for UTF-8 is code point by code
//! point), and the sorted sets of paths built on it.

use vstd::prelude::*;

use crate::text::chars_of;

verus! {

/// `a` sorts before `b`: at the first place they differ `a` has the smaller character, or
/// `a` is a proper prefix of `b`.
pub open spec fn seq_less(a: Seq<char>, b: Seq<char>) -> bool
    decreases a.len(),
{
    if a.len() == 0 {
        b.len() > 0
    } else if b.len() == 0 {
        false
    } else if a[0] != b[0] {
        (a[0] as u32) < (b[0] as u32)
    } else {
        seq_less(a.drop_first(), b.drop_first())
    }
}

pub proof fn lemma_less_irreflexive(a: Seq<char>)
    ensures
        !seq_less(a, a),
    decreases a.len(),
{
    if a.len() > 0 {
        lemma_less_irreflexive(a.drop_first());
    }
}

pub proof fn lemma_less_transitive(a: Seq<char>, b: Seq<char>, c: Seq<char>)
    requires
        seq_less(a, b),
        seq_less(b, c),
    ensures
        seq_less(a, c),
    decreases a.len(),
{
    if a.len() > 0 && b.len() > 0 && c.len() > 0 {
        if a[0] == b[0] && b[0] == c[0] {
            lemma_less_transitive(a.drop_first(), b.drop_first(), c.drop_first());
        }
    }
}

/// Two different sequences are ordered one way or the other.
pub proof fn lemma_less_total(a: Seq<char>, b: Seq<char>)
    ensures
        a == b || seq_less(a, b) || seq_less(b, a),
    decreases a.len(),
{
    if a.len() > 0 && b.len() > 0 {
        if a[0] == b[0] {
            lemma_less_total(a.drop_first(), b.drop_first());
            if a.drop_first() == b.drop_first() {
                assert(a =~= seq![a[0]] + a.drop_first());
                assert(b =~= seq![b[0]] + b.drop_first());
            }
        } else {
            let x = a[0] as u32;
            let y = b[0] as u32;
            assert(x != y) by {
                vstd::utf8::char_u32_cast(a[0], x);
                vstd::utf8::char_u32_cast(b[0], y);
            }
        }
    } else if a.len() == 0 && b.len() == 0 {
        assert(a =~= b);
    }
}

pub proof fn lemma_less_asymmetric(a: Seq<char>, b: Seq<char>)
    requires
        seq_less(a, b),
    ensures
        !seq_less(b, a),
{
    if seq_less(b, a) {
        lemma_less_transitive(a, b, a);
        lemma_less_irreflexive(a);
    }
}

/// Whether `a` sorts before `b`.
pub fn chars_less(a: &Vec<char>, b: &Vec<char>) -> (r: bool)
    ensures
        r == seq_less(a@, b@),
{
    let mut i: usize = 0;
    proof {
        assert(a@.skip(0) =~= a@);
        assert(b@.skip(0) =~= b@);
    }
    while i < a.len() && i < b.len()
        invariant
            i <= a@.len(),
            i <= b@.len(),
            seq_less(a@, b@) == seq_less(a@.skip(i as int), b@.skip(i as int)),
        decreases a.len() - i,
    {
        if a[i] != b[i] {
            proof {
                assert(a@.skip(i as int)[0] == a@[i as int]);
                assert(b@.skip(i as int)[0] == b@[i as int]);
            }
            return (a[i] as u32) < (b[i] as u32);
        }
        proof {
            assert(a@.skip(i as int).drop_first() =~= a@.skip(i + 1));
            assert(b@.skip(i as int).drop_first() =~= b@.skip(i + 1));
        }
        i = i + 1;
    }
    proof {
        assert(a@.skip(i as int).len() == 0 || b@.skip(i as int).len() == 0);
    }
    i < b.len()
}

/// Whether `a` sorts before `b`, as Rust orders `String`s.
pub fn string_less(a: &String, b: &String) -> (r: bool)
    ensures
        r == seq_less(a@, b@),
{
    chars_less(&chars_of(a.as_str()), &chars_of(b.as_str()))
}

/// Each element sorts strictly before the next: sorted, with no repeats.
pub open spec fn strictly_sorted(s: Seq<Seq<char>>) -> bool {
    forall|i: int, j: int| 0 <= i < j < s.len() ==> seq_less(#[trigger] s[i], #[trigger] s[j])
}

pub open spec fn views(v: Seq<String>) -> Seq<Seq<char>> {
    v.map_values(|s: String| s@)
}

/// Appending `x` adds `x` to the set of elements.
pub proof fn lemma_push_to_set<A>(s: Seq<A>, x: A)
    ensures
        s.push(x).to_set() == s.to_set().insert(x),
{
    assert forall|y: A| s.push(x).to_set().contains(y) <==> s.to_set().insert(x).contains(y) by {
        if s.push(x).to_set().contains(y) {
            let k = choose|k: int| 0 <= k < s.push(x).len() && s.push(x)[k] == y;
            if k < s.len() {
                assert(s[k] == y);
            }
        }
        if s.to_set().contains(y) {
            let k = choose|k: int| 0 <= k < s.len() && s[k] == y;
            assert(s.push(x)[k] == y);
        }
        if y == x {
            assert(s.push(x)[s.len() as int] == y);
        }
    }
    assert(s.push(x).to_set() =~= s.to_set().insert(x));
}

/// A strictly sorted sequence has no repeats.
pub proof fn lemma_strictly_sorted_no_duplicates(s: Seq<Seq<char>>)
    requires
        strictly_sorted(s),
    ensures
        s.no_duplicates(),
{
    assert forall|i: int, j: int| 0 <= i < s.len() && 0 <= j < s.len() && i != j implies s[i] != s[j] by {
        if i < j {
            assert(seq_less(s[i], s[j]));
        } else {
            assert(seq_less(s[j], s[i]));
        }
        lemma_less_irreflexive(s[i]);
    }
}

/// Adds `x` to the strictly sorted set `v`, where it belongs, unless it is already there.
pub fn insert_sorted(v: &mut Vec<String>, x: String)
    requires
        strictly_sorted(views(old(v)@)),
    ensures
        strictly_sorted(views(final(v)@)),
        views(final(v)@).to_set() == views(old(v)@).to_set().insert(x@),
{
    let ghost s0 = views(v@);
    let mut p: usize = 0;
    while p < v.len() && string_less(&v[p], &x)
        invariant
            v@ == old(v)@,
            s0 == views(v@),
            strictly_sorted(s0),
            p <= v@.len(),
            forall|j: int| 0 <= j < p ==> seq_less(#[trigger] s0[j], x@),
        decreases v.len() - p,
    {
        p = p + 1;
    }
    // Now every element before `p` sorts before `x`, and `v[p]`, if any, does not.
    if p < v.len() && !string_less(&x, &v[p]) {
        proof {
            lemma_less_total(s0[p as int], x@);
            assert(s0[p as int] == x@);
            assert(s0.to_set().insert(x@) =~= s0.to_set());
        }
        return;
    }
    proof {
        if p < v@.len() {
            assert(seq_less(x@, s0[p as int]));
        }
    }
    v.insert(p, x);
    proof {
        let s1 = views(v@);
        assert(s1 =~= s0.insert(p as int, x@));
        assert forall|i: int, j: int| 0 <= i < j < s1.len() implies seq_less(
            #[trigger] s1[i],
            #[trigger] s1[j],
        ) by {
            if j < p {
                assert(seq_less(s0[i], s0[j]));
            } else if j == p {
                assert(s1[i] == s0[i]);
            } else if i < p {
                assert(seq_less(s0[i], x@));
                assert(seq_less(x@, s0[p as int]));
                lemma_less_transitive(s0[i], x@, s0[p as int]);
                if j - 1 > p {
                    assert(seq_less(s0[p as int], s0[j - 1]));
                    lemma_less_transitive(s0[i], s0[p as int], s0[j - 1]);
                }
            } else if i == p {
                assert(seq_less(x@, s0[p as int]));
                if j - 1 > p {
                    assert(seq_less(s0[p as int], s0[j - 1]));
                    lemma_less_transitive(x@, s0[p as int], s0[j - 1]);
                }
            } else {
                assert(seq_less(s0[i - 1], s0[j - 1]));
            }
        }
        assert forall|y: Seq<char>| s1.to_set().contains(y) <==> s0.to_set().insert(x@).contains(y) by {
            if s1.to_set().contains(y) {
                let k = choose|k: int| 0 <= k < s1.len() && s1[k] == y;
                if k < p {
                    assert(s0[k] == y);
                } else if k > p {
                    assert(s0[k - 1] == y);
                }
            }
            if s0.to_set().contains(y) {
                let k = choose|k: int| 0 <= k < s0.len() && s0[k] == y;
                if k < p {
                    assert(s1[k] == y);
                } else {
                    assert(s1[k + 1] == y);
                }
            }
            if y == x@ {
                assert(s1[p as int] == y);
            }
        }
        assert(s1.to_set() =~= s0.to_set().insert(x@));
    }
}

/// Strings that share a prefix sit together in sorted order: whatever sorts between two
/// of them shares it too.
pub proof fn lemma_prefix_between(dp: Seq<char>, a: Seq<char>, b: Seq<char>, c: Seq<char>)
    requires
        dp.is_prefix_of(a),
        dp.is_prefix_of(c),
        a == b || seq_less(a, b),
        b == c || seq_less(b, c),
    ensures
        dp.is_prefix_of(b),
    decreases dp.len(),
{
    if dp.len() == 0 {
        assert(dp =~= b.subrange(0, 0));
    } else if a == b || b == c {
    } else {
        assert(a[0] == dp[0]);
        assert(c[0] == dp[0]);
        assert(b.len() > 0);
        assert(a[0] == b[0]);
        assert(b[0] == c[0]);
        assert(dp.drop_first().is_prefix_of(a.drop_first())) by {
            assert(dp.drop_first() =~= a.drop_first().subrange(0, dp.len() - 1));
        }
        assert(dp.drop_first().is_prefix_of(c.drop_first())) by {
            assert(dp.drop_first() =~= c.drop_first().subrange(0, dp.len() - 1));
        }
        lemma_prefix_between(dp.drop_first(), a.drop_first(), b.drop_first(), c.drop_first());
        assert(dp =~= b.subrange(0, dp.len() as int)) by {
            assert forall|j: int| 0 <= j < dp.len() implies dp[j] == b[j] by {
                if j > 0 {
                    assert(dp.drop_first()[j - 1] == b.drop_first()[j - 1]);
                }
            }
        }
    }
}

} // verus!
