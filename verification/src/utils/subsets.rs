//! Counting arguments over the subsets of `{0, .., n-1}`: a search that rules
//! out, at every round, a set of choices it has just made can only run a
//! bounded number of rounds.

use vstd::prelude::*;

verus! {

/// Every subset of `{0, .., n-1}`.
pub open spec fn subsets_below(n: nat) -> Set<Set<int>>
    decreases n,
{
    if n == 0 {
        Set::empty().insert(Set::empty())
    } else {
        let p = subsets_below((n - 1) as nat);
        p.union(p.map(|s: Set<int>| s.insert(n - 1)))
    }
}

/// All members of `s` lie in `{0, .., n-1}`.
pub open spec fn within(s: Set<int>, n: nat) -> bool {
    forall|x: int| s.contains(x) ==> 0 <= x < n
}

/// There are finitely many subsets of `{0, .., n-1}`.
pub proof fn lemma_subsets_below_finite(n: nat)
    ensures
        subsets_below(n).finite(),
    decreases n,
{
    if n > 0 {
        lemma_subsets_below_finite((n - 1) as nat);
        let p = subsets_below((n - 1) as nat);
        p.lemma_map_finite(|s: Set<int>| s.insert(n - 1));
    }
}

/// Every subset of `{0, .., n-1}` is listed.
pub proof fn lemma_subsets_below_complete(n: nat, s: Set<int>)
    requires
        within(s, n),
    ensures
        subsets_below(n).contains(s),
    decreases n,
{
    if n == 0 {
        assert(s =~= Set::<int>::empty());
    } else {
        let p = subsets_below((n - 1) as nat);
        let f = |t: Set<int>| t.insert(n - 1);
        if s.contains(n - 1) {
            let t = s.remove(n - 1);
            lemma_subsets_below_complete((n - 1) as nat, t);
            assert(t.insert(n - 1) =~= s);
            assert(f(t) == s);
            assert(p.map(f).contains(s));
        } else {
            lemma_subsets_below_complete((n - 1) as nat, s);
        }
    }
}

/// The subsets of `{0, .., n-1}` that include none of the `excluded` sets.
pub open spec fn open_subsets(n: nat, excluded: Seq<Set<int>>) -> Set<Set<int>> {
    subsets_below(n).filter(|s: Set<int>| forall|k: int| 0 <= k < excluded.len() ==> !(#[trigger] excluded[k]).subset_of(s))
}

/// Excluding a part `b` of a still open choice `s` leaves fewer open subsets.
pub proof fn lemma_open_subsets_shrink(n: nat, excluded: Seq<Set<int>>, b: Set<int>, s: Set<int>)
    requires
        within(s, n),
        forall|k: int| 0 <= k < excluded.len() ==> !(#[trigger] excluded[k]).subset_of(s),
        b.subset_of(s),
    ensures
        open_subsets(n, excluded.push(b)).len() < open_subsets(n, excluded).len(),
{
    lemma_subsets_below_finite(n);
    lemma_subsets_below_complete(n, s);
    let before = open_subsets(n, excluded);
    let after = open_subsets(n, excluded.push(b));
    subsets_below(n).lemma_len_filter(|t: Set<int>| forall|k: int| 0 <= k < excluded.len() ==> !(#[trigger] excluded[k]).subset_of(t));
    assert(before.contains(s));
    assert(after.subset_of(before.remove(s))) by {
        assert forall|t: Set<int>| after.contains(t) implies before.remove(s).contains(t) by {
            assert forall|k: int| 0 <= k < excluded.len() implies !(#[trigger] excluded[k]).subset_of(t) by {
                assert(excluded.push(b)[k] == excluded[k]);
            }
            assert(excluded.push(b)[excluded.len() as int] == b);
            if t == s {
                assert(b.subset_of(t));
            }
        }
    }
    vstd::set_lib::lemma_len_subset(after, before.remove(s));
}

/// Excluding more sets, the first of which is part of a still open choice
/// `s`, leaves fewer open subsets.
pub proof fn lemma_open_subsets_extend(n: nat, excluded: Seq<Set<int>>, extra: Seq<Set<int>>, s: Set<int>)
    requires
        within(s, n),
        forall|k: int| 0 <= k < excluded.len() ==> !(#[trigger] excluded[k]).subset_of(s),
        extra.len() > 0,
        extra[0].subset_of(s),
    ensures
        open_subsets(n, excluded + extra).len() < open_subsets(n, excluded).len(),
{
    let a = open_subsets(n, excluded + extra);
    let b = open_subsets(n, excluded.push(extra[0]));
    lemma_subsets_below_finite(n);
    subsets_below(n).lemma_len_filter(|t: Set<int>| forall|k: int| 0 <= k < excluded.push(extra[0]).len() ==> !(#[trigger] excluded.push(extra[0])[k]).subset_of(t));
    assert forall|t: Set<int>| a.contains(t) implies b.contains(t) by {
        assert forall|k: int| 0 <= k < excluded.push(extra[0]).len() implies !(#[trigger] excluded.push(extra[0])[k]).subset_of(t) by {
            if k < excluded.len() {
                assert((excluded + extra)[k] == excluded[k]);
            } else {
                assert((excluded + extra)[excluded.len() as int] == extra[0]);
            }
        }
    }
    vstd::set_lib::lemma_len_subset(a, b);
    lemma_open_subsets_shrink(n, excluded, extra[0], s);
}

/// Under the choice `s` (the members are true, the others false), some literal
/// of the clause `c` holds.
pub open spec fn set_satisfies(s: Set<int>, c: Seq<(usize, bool)>) -> bool {
    exists|i: int| 0 <= i < c.len() && (if (#[trigger] c[i]).1 { s.contains(c[i].0 as int) } else { !s.contains(c[i].0 as int) })
}

/// The subsets of `{0, .., n-1}` under which every clause of `cs` holds.
pub open spec fn satisfying_subsets(n: nat, cs: Seq<Seq<(usize, bool)>>) -> Set<Set<int>> {
    subsets_below(n).filter(|s: Set<int>| forall|k: int| 0 <= k < cs.len() ==> set_satisfies(s, #[trigger] cs[k]))
}

/// A clause that fails under a choice satisfying all clauses so far leaves
/// fewer satisfying choices.
pub proof fn lemma_satisfying_shrink(n: nat, cs: Seq<Seq<(usize, bool)>>, c: Seq<(usize, bool)>, s: Set<int>)
    requires
        within(s, n),
        forall|k: int| 0 <= k < cs.len() ==> set_satisfies(s, #[trigger] cs[k]),
        !set_satisfies(s, c),
    ensures
        satisfying_subsets(n, cs.push(c)).len() < satisfying_subsets(n, cs).len(),
{
    lemma_subsets_below_finite(n);
    lemma_subsets_below_complete(n, s);
    let before = satisfying_subsets(n, cs);
    let after = satisfying_subsets(n, cs.push(c));
    subsets_below(n).lemma_len_filter(|t: Set<int>| forall|k: int| 0 <= k < cs.len() ==> set_satisfies(t, #[trigger] cs[k]));
    assert(before.contains(s));
    assert forall|t: Set<int>| after.contains(t) implies before.remove(s).contains(t) by {
        assert forall|k: int| 0 <= k < cs.len() implies set_satisfies(t, #[trigger] cs[k]) by {
            assert(cs.push(c)[k] == cs[k]);
        }
        assert(cs.push(c)[cs.len() as int] == c);
    }
    vstd::set_lib::lemma_len_subset(after, before.remove(s));
}

} // verus!
