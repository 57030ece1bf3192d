//! The problem a flexible-time solver works on: requests with alternatives and
//! the constraints between them.

use vstd::prelude::*;
use crate::request::{ReservationParameters, ReservationRequestAlternative, SharedCostFunction, StartTimeRange};
use crate::utils::nested_view;

verus! {

/// A map from alternative to alternative, kept in insertion order without
/// repeated keys.
#[derive(Debug)]
pub struct PairMap {
    entries: Vec<((usize, usize), (usize, usize))>,
}

/// The keys of `s` are pairwise distinct.
pub open spec fn keys_unique(s: Seq<((usize, usize), (usize, usize))>) -> bool {
    forall|i: int, j: int| 0 <= i < j < s.len() ==> s[i].0 != s[j].0
}

/// The map held by the entry list `s`.
pub open spec fn entries_to_map(s: Seq<((usize, usize), (usize, usize))>) -> Map<(usize, usize), (usize, usize)> {
    Map::new(
        |k: (usize, usize)| exists|i: int| 0 <= i < s.len() && s[i].0 == k,
        |k: (usize, usize)| s[choose|i: int| 0 <= i < s.len() && s[i].0 == k].1,
    )
}

impl PairMap {
    #[verifier::type_invariant]
    spec fn well_formed(self) -> bool {
        keys_unique(self.entries@)
    }

    /// The entries, in insertion order.
    pub closed spec fn entries(&self) -> Seq<((usize, usize), (usize, usize))> {
        self.entries@
    }

    /// The map.
    pub open spec fn map(&self) -> Map<(usize, usize), (usize, usize)> {
        entries_to_map(self.entries())
    }

    /// No entry.
    pub fn new() -> (r: Self)
        ensures
            r.entries() == Seq::<((usize, usize), (usize, usize))>::empty(),
    {
        PairMap { entries: Vec::new() }
    }

    /// Number of entries.
    pub fn len(&self) -> (r: usize)
        ensures
            r == self.entries().len(),
            keys_unique(self.entries()),
    {
        proof { use_type_invariant(self); }
        self.entries.len()
    }

    /// Entry `i`.
    pub fn entry(&self, i: usize) -> (r: ((usize, usize), (usize, usize)))
        requires
            i < self.entries().len(),
        ensures
            r == self.entries()[i as int],
    {
        self.entries[i]
    }

    /// The value of `k`, if it has one.
    pub fn get(&self, k: (usize, usize)) -> (r: Option<(usize, usize)>)
        ensures
            r == (if self.map().contains_key(k) { Some(self.map()[k]) } else { None }),
    {
        proof { use_type_invariant(self); }
        let mut i: usize = 0;
        while i < self.entries.len()
            invariant
                i <= self.entries@.len(),
                keys_unique(self.entries@),
                forall|j: int| 0 <= j < i ==> self.entries@[j].0 != k,
            decreases self.entries@.len() - i,
        {
            if self.entries[i].0.0 == k.0 && self.entries[i].0.1 == k.1 {
                proof {
                    let c = choose|c: int| 0 <= c < self.entries@.len() && self.entries@[c].0 == k;
                    assert(c == i) by {
                        if c != i as int {
                            if c < i { } else { assert(self.entries@[i as int].0 == self.entries@[c].0); }
                        }
                    }
                }
                return Some(self.entries[i].1);
            }
            i = i + 1;
        }
        None
    }

    /// Maps `k` to `v`, replacing the value of `k` if it has one.
    pub fn insert(&mut self, k: (usize, usize), v: (usize, usize))
        ensures
            final(self).map() == old(self).map().insert(k, v),
            (exists|i: int| 0 <= i < old(self).entries().len() && old(self).entries()[i].0 == k) ==> {
                let i = choose|i: int| 0 <= i < old(self).entries().len() && old(self).entries()[i].0 == k;
                final(self).entries() == old(self).entries().update(i, (k, v))
            },
            !(exists|i: int| 0 <= i < old(self).entries().len() && old(self).entries()[i].0 == k)
                ==> final(self).entries() == old(self).entries().push((k, v)),
    {
        proof { use_type_invariant(&*self); }
        let ghost before = self.entries@;
        let mut i: usize = 0;
        while i < self.entries.len()
            invariant
                i <= self.entries@.len(),
                self.entries@ == before,
                old(self).entries() == before,
                keys_unique(before),
                forall|j: int| 0 <= j < i ==> before[j].0 != k,
            decreases self.entries@.len() - i,
        {
            if self.entries[i].0.0 == k.0 && self.entries[i].0.1 == k.1 {
                let mut entries = Vec::new();
                std::mem::swap(&mut entries, &mut self.entries);
                entries.set(i, (k, v));
                proof {
                    let c = choose|c: int| 0 <= c < before.len() && before[c].0 == k;
                    assert(c == i) by {
                        if c != i as int {
                            if c < i { } else { assert(before[i as int].0 == before[c].0); }
                        }
                    }
                    assert(keys_unique(entries@)) by {
                        assert forall|a: int, b: int| 0 <= a < b < entries@.len() implies entries@[a].0 != entries@[b].0 by {
                            if a != i && b != i { assert(entries@[a] == before[a] && entries@[b] == before[b]); }
                            else if a == i { assert(entries@[b] == before[b]); assert(before[a].0 == k); }
                            else { assert(entries@[a] == before[a]); assert(before[b].0 == k); }
                        }
                    }
                    assert(entries_to_map(entries@) =~= entries_to_map(before).insert(k, v)) by {
                        assert forall|key: (usize, usize)| entries_to_map(entries@).dom().contains(key)
                            <==> entries_to_map(before).insert(k, v).dom().contains(key) by {
                            if exists|c: int| 0 <= c < before.len() && before[c].0 == key {
                                let c = choose|c: int| 0 <= c < before.len() && before[c].0 == key;
                                assert(entries@[c].0 == key);
                            }
                            if exists|c: int| 0 <= c < entries@.len() && entries@[c].0 == key {
                                let c = choose|c: int| 0 <= c < entries@.len() && entries@[c].0 == key;
                                if c != i { assert(before[c].0 == key); }
                            }
                        }
                        assert forall|key: (usize, usize)| #[trigger] entries_to_map(entries@).dom().contains(key)
                            implies entries_to_map(entries@)[key] == entries_to_map(before).insert(k, v)[key] by {
                            let c = choose|c: int| 0 <= c < entries@.len() && entries@[c].0 == key;
                            if key == k {
                                assert(c == i) by { if c != i { assert(entries@[c] == before[c]); } }
                            } else {
                                assert(entries@[c] == before[c]);
                                let c2 = choose|c2: int| 0 <= c2 < before.len() && before[c2].0 == key;
                                assert(c2 == c) by { if c2 != c { assert(c2 != i); assert(entries@[c2] == before[c2]); } }
                            }
                        }
                    }
                }
                self.entries = entries;
                return;
            }
            i = i + 1;
        }
        let mut entries = Vec::new();
        std::mem::swap(&mut entries, &mut self.entries);
        entries.push((k, v));
        proof {
            assert(keys_unique(entries@)) by {
                assert forall|a: int, b: int| 0 <= a < b < entries@.len() implies entries@[a].0 != entries@[b].0 by {
                    if b == before.len() { assert(entries@[a] == before[a]); } else { assert(entries@[a] == before[a] && entries@[b] == before[b]); }
                }
            }
            assert(entries_to_map(entries@) =~= entries_to_map(before).insert(k, v)) by {
                assert forall|key: (usize, usize)| entries_to_map(entries@).dom().contains(key)
                    <==> entries_to_map(before).insert(k, v).dom().contains(key) by {
                    if exists|c: int| 0 <= c < before.len() && before[c].0 == key {
                        let c = choose|c: int| 0 <= c < before.len() && before[c].0 == key;
                        assert(entries@[c].0 == key);
                    }
                    if key == k { assert(entries@[before.len() as int].0 == key); }
                    if exists|c: int| 0 <= c < entries@.len() && entries@[c].0 == key {
                        let c = choose|c: int| 0 <= c < entries@.len() && entries@[c].0 == key;
                        if c < before.len() { assert(before[c].0 == key); }
                    }
                }
                assert forall|key: (usize, usize)| #[trigger] entries_to_map(entries@).dom().contains(key)
                    implies entries_to_map(entries@)[key] == entries_to_map(before).insert(k, v)[key] by {
                    let c = choose|c: int| 0 <= c < entries@.len() && entries@[c].0 == key;
                    if key == k {
                        assert(c == before.len()) by { if c < before.len() { assert(before[c].0 == key); } }
                    } else {
                        assert(c < before.len());
                        assert(entries@[c] == before[c]);
                        let c2 = choose|c2: int| 0 <= c2 < before.len() && before[c2].0 == key;
                        assert(c2 == c) by { if c2 != c { assert(entries@[c2] == before[c2]); } }
                    }
                }
            }
        }
        self.entries = entries;
    }
}

impl Clone for PairMap {
    fn clone(&self) -> (r: Self)
        ensures
            r.entries() == self.entries(),
    {
        proof { use_type_invariant(self); }
        let mut entries: Vec<((usize, usize), (usize, usize))> = Vec::new();
        let mut i: usize = 0;
        while i < self.entries.len()
            invariant
                i <= self.entries@.len(),
                entries@ == self.entries@.take(i as int),
            decreases self.entries@.len() - i,
        {
            entries.push(self.entries[i]);
            proof { assert(entries@ =~= self.entries@.take(i + 1)); }
            i = i + 1;
        }
        proof { assert(entries@ =~= self.entries@); }
        PairMap { entries }
    }
}

/// The requests of a problem: for each request, its alternatives.
pub open spec fn problem_requests(p: &Problem) -> Seq<Seq<ReservationRequestAlternative>> {
    nested_view(p.requests@)
}

/// `x` names an alternative of `reqs`.
pub open spec fn is_alternative(reqs: Seq<Seq<ReservationRequestAlternative>>, x: (usize, usize)) -> bool {
    x.0 < reqs.len() && x.1 < reqs[x.0 as int].len()
}

/// A snapshot of the requests to be solved and of the constraints between
/// their alternatives.
#[derive(Clone)]
pub struct Problem {
    /// For each request, its alternatives: a solved problem grants at most one
    /// alternative of each request.
    pub requests: Vec<Vec<ReservationRequestAlternative>>,
    /// Groups of alternatives of which one is wanted.
    pub one_of_dependencies: Vec<Vec<(usize, usize)>>,
    /// `(a, b)`: granting alternative `a` requires granting alternative `b`.
    pub dependencies: Vec<((usize, usize), (usize, usize))>,
    /// `(a, b)`: if both are granted, `b` must come immediately after `a`.
    pub must_be_immediately_after: Vec<((usize, usize), (usize, usize))>,
    /// `a -> b`: `a` and `b` must start at the same time.
    pub same_start: PairMap,
}

impl Default for Problem {
    fn default() -> (r: Self)
        ensures
            r.requests@.len() == 0,
            r.one_of_dependencies@.len() == 0,
            r.dependencies@.len() == 0,
            r.must_be_immediately_after@.len() == 0,
            r.same_start.entries().len() == 0,
    {
        Problem {
            requests: Vec::new(),
            one_of_dependencies: Vec::new(),
            dependencies: Vec::new(),
            must_be_immediately_after: Vec::new(),
            same_start: PairMap::new(),
        }
    }
}

/// `a` and `b` name alternatives of `reqs`.
pub open spec fn both_alternatives(reqs: Seq<Seq<ReservationRequestAlternative>>, a: (usize, usize), b: (usize, usize)) -> bool {
    is_alternative(reqs, a) && is_alternative(reqs, b)
}

/// Name of the resource of alternative `x`.
pub open spec fn resource_of(reqs: Seq<Seq<ReservationRequestAlternative>>, x: (usize, usize)) -> Seq<char> {
    reqs[x.0 as int][x.1 as int].parameters.resource_name@
}

impl Problem {
    /// Adds a request granted with exactly one of `alternatives`; returns its id.
    pub fn request_one_of(&mut self, alternatives: Vec<ReservationRequestAlternative>) -> (r: usize)
        requires
            old(self).requests@.len() < usize::MAX,
        ensures
            r == old(self).requests@.len(),
            final(self).requests@ == old(self).requests@.push(alternatives),
            final(self).one_of_dependencies == old(self).one_of_dependencies,
            final(self).dependencies == old(self).dependencies,
            final(self).must_be_immediately_after == old(self).must_be_immediately_after,
            final(self).same_start == old(self).same_start,
    {
        self.requests.push(alternatives);
        self.requests.len() - 1
    }

    /// Adds a request granted with one of `alternatives` or with none of them:
    /// a last alternative on the resource named `""`, lasting zero
    /// milliseconds at any time and costing nothing, stands for "none".
    pub fn request_one_of_or_none(&mut self, alternatives: Vec<ReservationRequestAlternative>) -> (r: usize)
        requires
            old(self).requests@.len() < usize::MAX,
            alternatives@.len() < usize::MAX,
        ensures
            r == old(self).requests@.len(),
            final(self).requests@.len() == old(self).requests@.len() + 1,
            final(self).requests@.take(r as int) == old(self).requests@,
            final(self).requests@[r as int]@.len() == alternatives@.len() + 1,
            final(self).requests@[r as int]@.take(alternatives@.len() as int) == alternatives@,
            ({
                let none = final(self).requests@[r as int]@[alternatives@.len() as int];
                &&& none.parameters.resource_name@ == Seq::<char>::empty()
                &&& none.parameters.duration == Some(0i64)
                &&& none.parameters.start_time.earliest_start is None
                &&& none.parameters.start_time.latest_start is None
            }),
            final(self).one_of_dependencies == old(self).one_of_dependencies,
            final(self).dependencies == old(self).dependencies,
            final(self).must_be_immediately_after == old(self).must_be_immediately_after,
            final(self).same_start == old(self).same_start,
    {
        let mut alternatives = alternatives;
        let ghost given = alternatives@;
        alternatives.push(ReservationRequestAlternative {
            parameters: ReservationParameters {
                resource_name: String::new(),
                duration: Some(0),
                start_time: StartTimeRange::no_specifics(),
            },
            cost_function: SharedCostFunction::from_static(0),
        });
        proof { assert(alternatives@.take(given.len() as int) =~= given); }
        let ghost before = self.requests@;
        self.requests.push(alternatives);
        proof { assert(self.requests@.take(before.len() as int) =~= before); }
        self.requests.len() - 1
    }

    /// Granting alternative `a` requires granting alternative `b`.
    pub fn implies(&mut self, a: &(usize, usize), b: &(usize, usize)) -> (r: Result<(), String>)
        ensures
            r is Ok <==> both_alternatives(problem_requests(old(self)), *a, *b),
            r matches Err(e) ==> e@ == "Request and alternative was not found."@,
            r is Ok ==> final(self).dependencies@ == old(self).dependencies@.push((*a, *b)),
            r is Err ==> final(self).dependencies == old(self).dependencies,
            final(self).requests == old(self).requests,
            final(self).one_of_dependencies == old(self).one_of_dependencies,
            final(self).must_be_immediately_after == old(self).must_be_immediately_after,
            final(self).same_start == old(self).same_start,
    {
        if a.0 >= self.requests.len() || a.1 >= self.requests[a.0].len()
            || b.0 >= self.requests.len() || b.1 >= self.requests[b.0].len()
        {
            return Err("Request and alternative was not found.".to_string());
        }
        self.dependencies.push((*a, *b));
        Ok(())
    }

    /// If `a` and `b` are both granted, `b` must come immediately after `a`.
    /// Both must be on the same resource.
    pub fn must_come_immediately_after(&mut self, a: &(usize, usize), b: &(usize, usize)) -> (r: Result<(), String>)
        ensures
            r is Ok <==> both_alternatives(problem_requests(old(self)), *a, *b)
                && resource_of(problem_requests(old(self)), *a) == resource_of(problem_requests(old(self)), *b),
            r matches Err(e) ==> e@ == "Request and alternative was not found or between two different resources"@,
            r is Ok ==> final(self).must_be_immediately_after@ == old(self).must_be_immediately_after@.push((*a, *b)),
            r is Err ==> final(self).must_be_immediately_after == old(self).must_be_immediately_after,
            final(self).requests == old(self).requests,
            final(self).one_of_dependencies == old(self).one_of_dependencies,
            final(self).dependencies == old(self).dependencies,
            final(self).same_start == old(self).same_start,
    {
        if a.0 >= self.requests.len() || a.1 >= self.requests[a.0].len()
            || b.0 >= self.requests.len() || b.1 >= self.requests[b.0].len()
            || self.requests[b.0][b.1].parameters.resource_name != self.requests[a.0][a.1].parameters.resource_name
        {
            return Err("Request and alternative was not found or between two different resources".to_string());
        }
        self.must_be_immediately_after.push((*a, *b));
        Ok(())
    }

    /// `a` and `b`, on two different resources, must start at the same time.
    pub fn must_start_at_same_time(&mut self, a: &(usize, usize), b: &(usize, usize)) -> (r: Result<(), String>)
        ensures
            r is Ok <==> both_alternatives(problem_requests(old(self)), *a, *b)
                && resource_of(problem_requests(old(self)), *a) != resource_of(problem_requests(old(self)), *b),
            r matches Err(e) ==> e@ == "Request and alternative was not found or between two different resources"@,
            r is Ok ==> final(self).same_start.map() == old(self).same_start.map().insert(*a, *b).insert(*b, *a),
            r is Err ==> final(self).same_start == old(self).same_start,
            final(self).requests == old(self).requests,
            final(self).one_of_dependencies == old(self).one_of_dependencies,
            final(self).dependencies == old(self).dependencies,
            final(self).must_be_immediately_after == old(self).must_be_immediately_after,
    {
        if a.0 >= self.requests.len() || a.1 >= self.requests[a.0].len()
            || b.0 >= self.requests.len() || b.1 >= self.requests[b.0].len()
            || self.requests[b.0][b.1].parameters.resource_name == self.requests[a.0][a.1].parameters.resource_name
        {
            return Err("Request and alternative was not found or between two different resources".to_string());
        }
        self.same_start.insert(*a, *b);
        self.same_start.insert(*b, *a);
        Ok(())
    }
}

} // verus!
