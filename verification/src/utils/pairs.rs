//! Small sets of index pairs kept in vectors without repetition.

use vstd::prelude::*;

verus! {

/// Whether `v` holds `x`.
pub fn pairs_contain(v: &Vec<(usize, usize)>, x: (usize, usize)) -> (r: bool)
    ensures
        r == v@.contains(x),
{
    let mut i: usize = 0;
    while i < v.len()
        invariant
            i <= v@.len(),
            forall|j: int| 0 <= j < i ==> v@[j] != x,
        decreases v@.len() - i,
    {
        if v[i].0 == x.0 && v[i].1 == x.1 {
            return true;
        }
        i = i + 1;
    }
    false
}

/// Adds `x` to `v` unless it is there already.
pub fn pairs_insert(v: &mut Vec<(usize, usize)>, x: (usize, usize))
    requires
        old(v)@.no_duplicates(),
    ensures
        final(v)@.no_duplicates(),
        final(v)@.to_set() == old(v)@.to_set().insert(x),
        old(v)@.contains(x) ==> final(v)@ == old(v)@,
        !old(v)@.contains(x) ==> final(v)@ == old(v)@.push(x),
{
    if !pairs_contain(v, x) {
        let ghost before = v@;
        v.push(x);
        proof {
            assert(v@.to_set() =~= before.to_set().insert(x)) by {
                assert forall|y: (usize, usize)| v@.to_set().contains(y) implies before.to_set().insert(x).contains(y) by {
                    let k = choose|k: int| 0 <= k < v@.len() && v@[k] == y;
                    if k < before.len() { assert(before[k] == y); }
                }
                assert forall|y: (usize, usize)| before.to_set().insert(x).contains(y) implies v@.to_set().contains(y) by {
                    if y == x { assert(v@[before.len() as int] == y); } else {
                        let k = choose|k: int| 0 <= k < before.len() && before[k] == y;
                        assert(v@[k] == y);
                    }
                }
            }
        }
    } else {
        proof {
            assert(v@.to_set() =~= v@.to_set().insert(x));
        }
    }
}

/// Whether the two vectors hold the same pairs.
pub fn pairs_same_set(a: &Vec<(usize, usize)>, b: &Vec<(usize, usize)>) -> (r: bool)
    ensures
        r == (a@.to_set() == b@.to_set()),
{
    let mut i: usize = 0;
    while i < a.len()
        invariant
            i <= a@.len(),
            forall|j: int| 0 <= j < i ==> b@.contains(a@[j]),
        decreases a@.len() - i,
    {
        if !pairs_contain(b, a[i]) {
            proof {
                assert(a@.to_set().contains(a@[i as int]));
                assert(!b@.to_set().contains(a@[i as int]));
            }
            return false;
        }
        i = i + 1;
    }
    let mut k: usize = 0;
    while k < b.len()
        invariant
            k <= b@.len(),
            forall|j: int| 0 <= j < a@.len() ==> b@.contains(a@[j]),
            forall|j: int| 0 <= j < k ==> a@.contains(b@[j]),
        decreases b@.len() - k,
    {
        if !pairs_contain(a, b[k]) {
            proof {
                assert(b@.to_set().contains(b@[k as int]));
                assert(!a@.to_set().contains(b@[k as int]));
            }
            return false;
        }
        k = k + 1;
    }
    proof {
        assert forall|y: (usize, usize)| a@.to_set().contains(y) implies b@.to_set().contains(y) by {
            let q = choose|q: int| 0 <= q < a@.len() && a@[q] == y;
        }
        assert forall|y: (usize, usize)| b@.to_set().contains(y) implies a@.to_set().contains(y) by {
            let q = choose|q: int| 0 <= q < b@.len() && b@[q] == y;
        }
        assert(a@.to_set() =~= b@.to_set());
    }
    true
}

} // verus!
