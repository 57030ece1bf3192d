//! Sorting with duplicates removed.

use vstd::prelude::*;

verus! {

/// `s` is strictly increasing.
pub open spec fn strictly_increasing(s: Seq<usize>) -> bool {
    forall|i: int, j: int| 0 <= i < j < s.len() ==> s[i] < s[j]
}

proof fn lemma_push_to_set(s: Seq<usize>, x: usize)
    ensures
        s.push(x).to_set() == s.to_set().insert(x),
{
    let t = s.push(x);
    assert forall|y: usize| t.to_set().contains(y) implies s.to_set().insert(x).contains(y) by {
        let k = choose|k: int| 0 <= k < t.len() && t[k] == y;
        if k < s.len() { assert(s[k] == y); }
    }
    assert forall|y: usize| s.to_set().insert(x).contains(y) implies t.to_set().contains(y) by {
        if y == x { assert(t[s.len() as int] == y); } else {
            let k = choose|k: int| 0 <= k < s.len() && s[k] == y;
            assert(t[k] == y);
        }
    }
    assert(t.to_set() =~= s.to_set().insert(x));
}

/// Sorts `v` in increasing order and removes repeated values
/// (what `sort` followed by `dedup` does).
pub fn sort_dedup(v: &mut Vec<usize>)
    ensures
        strictly_increasing(final(v)@),
        final(v)@.to_set() == old(v)@.to_set(),
{
    let ghost src = v@;
    let mut out: Vec<usize> = Vec::new();
    let mut i: usize = 0;
    while i < v.len()
        invariant
            src == v@,
            i <= src.len(),
            strictly_increasing(out@),
            out@.to_set() == src.take(i as int).to_set(),
        decreases src.len() - i,
    {
        let x = v[i];
        // position of the first element not below x
        let mut p: usize = 0;
        while p < out.len() && out[p] < x
            invariant
                p <= out@.len(),
                strictly_increasing(out@),
                forall|q: int| 0 <= q < p ==> out@[q] < x,
            decreases out@.len() - p,
        {
            p = p + 1;
        }
        let ghost before = out@;
        if p < out.len() && out[p] == x {
        } else {
            out.insert(p, x);
            proof {
                assert forall|a: int, b: int| 0 <= a < b < out@.len() implies out@[a] < out@[b] by {
                    if b < p { } else if b == p { } else if a < p { } else if a == p {
                        assert(before[b - 1] >= x);
                    } else { }
                }
                assert(out@.to_set() =~= before.to_set().insert(x)) by {
                    assert forall|y: usize| out@.to_set().contains(y) implies before.to_set().insert(x).contains(y) by {
                        let k = choose|k: int| 0 <= k < out@.len() && out@[k] == y;
                        if k < p { assert(before[k] == y); } else if k > p { assert(before[k - 1] == y); }
                    }
                    assert forall|y: usize| before.to_set().insert(x).contains(y) implies out@.to_set().contains(y) by {
                        if y == x { assert(out@[p as int] == y); } else {
                            let k = choose|k: int| 0 <= k < before.len() && before[k] == y;
                            if k < p { assert(out@[k] == y); } else { assert(out@[k + 1] == y); }
                        }
                    }
                }
            }
        }
        proof {
            assert(src.take(i + 1) =~= src.take(i as int).push(x));
            lemma_push_to_set(src.take(i as int), x);
            if p < before.len() && before[p as int] == x {
                assert(before.to_set().contains(x));
                assert(before.to_set().insert(x) =~= before.to_set());
            }
        }
        i = i + 1;
    }
    proof { assert(src.take(src.len() as int) =~= src); }
    *v = out;
}

} // verus!
