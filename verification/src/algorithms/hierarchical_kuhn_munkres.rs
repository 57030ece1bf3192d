//! Fixed-time scheduling by conflict detection and greedy branch and bound.
//!
//! Every alternative must have an earliest start (taken as its start time)
//! and a duration. Each alternative becomes a "fake resource" of its own;
//! two alternatives conflict when they use the same real resource and their
//! time spans overlap.

use vstd::prelude::*;
use std::collections::HashMap;
use crate::utils::multimap::{UniqueMultiHashMap, multimap_keys_obey};
use crate::request::{ReservationParameters, ReservationRequestAlternative, known_cost};
use crate::text::{format_three_numbers, three_numbers_label};
use crate::utils::pairs::{pairs_contain, pairs_insert};
use crate::utils::nested_view;
use crate::algorithms::sat_flexible_time_model::solver::{total_alternatives, lemma_total_prefix};
use crate::utils::subsets::{subsets_below, within, lemma_subsets_below_finite, lemma_subsets_below_complete};
pub use crate::scenario_generation::generate_test_scenario_with_known_best;
use crate::scenario_generation::scenario_ok;

verus! {

broadcast use vstd::std_specs::hash::group_hash_axioms;

/// `name` is one of `resources`.
pub open spec fn has_resource(resources: Seq<String>, name: Seq<char>) -> bool {
    exists|i: int| 0 <= i < resources.len() && resources[i]@ == name
}

/// The last index of `name` in `resources`.
pub open spec fn resource_index(resources: Seq<String>, name: Seq<char>) -> int {
    choose|i: int| 0 <= i < resources.len() && resources[i]@ == name
        && forall|j: int| i < j < resources.len() ==> resources[j]@ != name
}

/// Every alternative of every request uses one of `resources`.
pub open spec fn all_on_resources(resources: Seq<String>, reqs: Seq<Seq<ReservationRequestAlternative>>) -> bool {
    forall|r: int, a: int| 0 <= r < reqs.len() && 0 <= a < reqs[r].len()
        ==> has_resource(resources, #[trigger] reqs[r][a].parameters.resource_name@)
}

/// Every alternative has a start time and a duration.
pub open spec fn all_fixed_time(reqs: Seq<Seq<ReservationRequestAlternative>>) -> bool {
    forall|r: int, a: int| 0 <= r < reqs.len() && 0 <= a < reqs[r].len()
        ==> (#[trigger] reqs[r][a]).parameters.start_time.earliest_start is Some
            && reqs[r][a].parameters.duration is Some
}

/// `x` names an alternative of `reqs`.
pub open spec fn valid_id<T>(reqs: Seq<Seq<T>>, x: (usize, usize)) -> bool {
    x.0 < reqs.len() && x.1 < reqs[x.0 as int].len()
}

/// Start of a fixed-time reservation.
pub open spec fn start_of(p: ReservationParameters) -> int {
    p.start_time.earliest_start.unwrap() as int
}

/// End of a fixed-time reservation.
pub open spec fn end_of(p: ReservationParameters) -> int {
    start_of(p) + p.duration.unwrap()
}

/// `q` starts with `p` or while `p` runs, or `q` started before `p` and
/// still runs when `p` starts. A reservation may start at the very instant
/// the one before it ends.
pub open spec fn overlaps_from(p: ReservationParameters, q: ReservationParameters) -> bool {
    ||| (start_of(p) <= start_of(q) && (start_of(q) < end_of(p) || start_of(q) == start_of(p)))
    ||| (start_of(q) < start_of(p) && end_of(q) > start_of(p))
}

/// Two distinct alternatives on the same resource whose time spans overlap.
pub open spec fn alternatives_conflict(reqs: Seq<Seq<ReservationRequestAlternative>>, x: (usize, usize), y: (usize, usize)) -> bool {
    &&& valid_id(reqs, x)
    &&& valid_id(reqs, y)
    &&& x != y
    &&& reqs[x.0 as int][x.1 as int].parameters.resource_name@ == reqs[y.0 as int][y.1 as int].parameters.resource_name@
    &&& (overlaps_from(reqs[x.0 as int][x.1 as int].parameters, reqs[y.0 as int][y.1 as int].parameters)
        || overlaps_from(reqs[y.0 as int][y.1 as int].parameters, reqs[x.0 as int][x.1 as int].parameters))
}

/// Conflict is symmetric: `x` conflicts with `y` exactly when `y` conflicts with `x`.
pub proof fn lemma_conflict_symmetric(reqs: Seq<Seq<ReservationRequestAlternative>>, x: (usize, usize), y: (usize, usize))
    ensures
        alternatives_conflict(reqs, x, y) == alternatives_conflict(reqs, y, x),
{
}

/// Two distinct fixed-time alternatives on one resource conflict whenever the
/// second starts at or after the first starts and before the first ends, also
/// when it lies wholly inside the first; they do not conflict when the second
/// starts later than the first and no sooner than the first ends.
pub proof fn lemma_conflict_by_time(reqs: Seq<Seq<ReservationRequestAlternative>>, x: (usize, usize), y: (usize, usize))
    requires
        valid_id(reqs, x),
        valid_id(reqs, y),
        x != y,
        reqs[x.0 as int][x.1 as int].parameters.resource_name@ == reqs[y.0 as int][y.1 as int].parameters.resource_name@,
    ensures
        ({
            let px = reqs[x.0 as int][x.1 as int].parameters;
            let py = reqs[y.0 as int][y.1 as int].parameters;
            let sx = px.start_time.earliest_start.unwrap() as int;
            let sy = py.start_time.earliest_start.unwrap() as int;
            let ex = sx + px.duration.unwrap() as int;
            &&& sx <= sy < ex ==> alternatives_conflict(reqs, x, y)
            &&& sx < sy && ex <= sy ==> !alternatives_conflict(reqs, x, y)
        }),
{
}

/// In a generated scenario, the first alternatives of any two requests do
/// not conflict: choosing them all is a conflict-free allocation.
pub proof fn lemma_known_best_conflict_free(reqs: Seq<Seq<ReservationRequestAlternative>>, names: Seq<String>, q1: int, q2: int)
    requires
        scenario_ok(reqs, names),
        0 <= q1 < reqs.len(),
        0 <= q2 < reqs.len(),
        q1 != q2,
    ensures
        !alternatives_conflict(reqs, (q1 as usize, 0usize), (q2 as usize, 0usize)),
{
    assert(reqs[q1].len() >= 1);
    assert(reqs[q2].len() >= 1);
    let p = reqs[q1][0].parameters;
    let q = reqs[q2][0].parameters;
    assert(crate::scenario_generation::fixed_slot(p));
    assert(crate::scenario_generation::fixed_slot(q));
}

/// Collects requests for resources and turns them into a conflict model.
pub struct TimeBasedBranchAndBound {
    base_resources: Vec<String>,
    requests: Vec<Vec<ReservationRequestAlternative>>,
}

impl TimeBasedBranchAndBound {
    #[verifier::type_invariant]
    spec fn well_formed(self) -> bool {
        all_on_resources(self.base_resources@, nested_view(self.requests@))
    }

    /// The resources.
    pub closed spec fn resources(&self) -> Seq<String> {
        self.base_resources@
    }

    /// The requests, by request id.
    pub closed spec fn requests(&self) -> Seq<Seq<ReservationRequestAlternative>> {
        nested_view(self.requests@)
    }

    /// A system for `resources` with no request.
    pub fn create_with_resources(resources: &Vec<String>) -> (r: Self)
        ensures
            r.resources() == resources@,
            r.requests() == Seq::<Seq<ReservationRequestAlternative>>::empty(),
    {
        let base_resources = resources.clone();
        proof { assert(base_resources@ =~= resources@); }
        Self { base_resources, requests: Vec::new() }
    }

    /// The last index of `name` among the resources.
    fn find_resource(&self, name: &String) -> (r: Option<usize>)
        ensures
            r is None ==> !has_resource(self.resources(), name@),
            r matches Some(i) ==> i == resource_index(self.resources(), name@) && has_resource(self.resources(), name@)
                && i < self.resources().len(),
    {
        let mut i = self.base_resources.len();
        while i > 0
            invariant
                i <= self.base_resources@.len(),
                forall|j: int| i <= j < self.base_resources@.len() ==> self.base_resources@[j]@ != name@,
            decreases i,
        {
            i = i - 1;
            if self.base_resources[i] == *name {
                proof {
                    let k = resource_index(self.resources(), name@);
                    assert(self.base_resources@[i as int]@ == name@);
                    if k < i { assert(self.base_resources@[i as int]@ != name@); }
                    if k > i { assert(self.base_resources@[k]@ != name@); }
                }
                return Some(i);
            }
        }
        None
    }

    /// Adds a request made of `request`'s alternatives. Returns its id, or
    /// `None` (and changes nothing) when an alternative names an unknown resource.
    #[verifier::spinoff_prover]
    pub fn request_resources(&mut self, request: Vec<ReservationRequestAlternative>) -> (r: Option<usize>)
        requires
            old(self).requests().len() < usize::MAX,
        ensures
            (forall|a: int| 0 <= a < request@.len() ==> has_resource(old(self).resources(), #[trigger] request@[a].parameters.resource_name@)) ==> {
                &&& r == Some(old(self).requests().len() as usize)
                &&& final(self).requests() == old(self).requests().push(request@)
            },
            !(forall|a: int| 0 <= a < request@.len() ==> has_resource(old(self).resources(), #[trigger] request@[a].parameters.resource_name@)) ==> {
                &&& r is None
                &&& final(self).requests() == old(self).requests()
            },
            final(self).resources() == old(self).resources(),
    {
        proof { use_type_invariant(&*self); }
        let req_id = self.requests.len();
        let mut r_id: usize = 0;
        while r_id < request.len()
            invariant
                r_id <= request@.len(),
                forall|a: int| 0 <= a < r_id ==> has_resource(self.base_resources@, #[trigger] request@[a].parameters.resource_name@),
            decreases request@.len() - r_id,
        {
            if self.find_resource(&request[r_id].parameters.resource_name).is_none() {
                return None;
            }
            r_id = r_id + 1;
        }
        let mut all = Vec::new();
        std::mem::swap(&mut all, &mut self.requests);
        let ghost before = all@;
        all.push(request);
        proof {
            assert forall|r: int, a: int| 0 <= r < all@.len() && 0 <= a < all@[r]@.len()
                implies has_resource(self.base_resources@, #[trigger] all@[r]@[a].parameters.resource_name@) by {
                if r < req_id {
                    assert(all@[r] == before[r]);
                    assert(nested_view(before)[r][a] == before[r]@[a]);
                } else {
                    assert(all@[r] == request);
                }
            }
            assert(nested_view(all@) =~= nested_view(before).push(request@));
        }
        self.requests = all;
        proof {
        }
        Some(req_id)
    }

    /// Builds the conflict model: each alternative renamed to a resource of
    /// its own, its cost evaluated once at its start time, and its conflict set.
    pub fn generate_literals_and_remap_requests(&self) -> (r: SparseScheduleConflictHillClimber)
        requires
            all_fixed_time(self.requests()),
        ensures
            r.requests().len() == self.requests().len(),
            forall|q: int| 0 <= q < r.requests().len() ==> #[trigger] r.requests()[q].len() == self.requests()[q].len(),
            forall|q: int, a: int| 0 <= q < r.requests().len() && 0 <= a < r.requests()[q].len() ==> {
                let orig = self.requests()[q][a];
                let fake = #[trigger] r.requests()[q][a];
                &&& fake.parameters.duration == orig.parameters.duration
                &&& fake.parameters.start_time == orig.parameters.start_time
                &&& fake.cost_function == orig.cost_function
                &&& fake.parameters.resource_name@ == three_numbers_label(
                    resource_index(self.resources(), orig.parameters.resource_name@) as usize, q as usize, a as usize)
            },
            forall|x: (usize, usize), y: (usize, usize)| valid_id(self.requests(), x) ==>
                (#[trigger] r.conflict_set(x).contains(y) <==> alternatives_conflict(self.requests(), x, y)),
            forall|q: int, a: int| 0 <= q < r.requests().len() && 0 <= a < r.requests()[q].len() ==>
                (known_cost(self.requests()[q][a].cost_function, self.requests()[q][a].parameters.start_time.earliest_start.unwrap()) matches Some(c)
                    ==> #[trigger] r.scores()[q][a] == c),
    {
        proof { use_type_invariant(self); }
        let ghost reqs = nested_view(self.requests@);
        let n = self.requests.len();
        let mut fake_requests: Vec<Vec<ReservationRequestAlternative>> = Vec::new();
        let mut scores: Vec<Vec<i64>> = Vec::new();
        let mut conflict_sets: Vec<Vec<Vec<(usize, usize)>>> = Vec::new();
        let mut q: usize = 0;
        while q < n
            invariant
                reqs == nested_view(self.requests@),
                n == reqs.len(),
                all_fixed_time(reqs),
                all_on_resources(self.base_resources@, reqs),
                q <= n,
                fake_requests@.len() == q,
                scores@.len() == q,
                conflict_sets@.len() == q,
                forall|k: int| 0 <= k < q ==> #[trigger] fake_requests@[k]@.len() == reqs[k].len(),
                forall|k: int| 0 <= k < q ==> #[trigger] scores@[k]@.len() == reqs[k].len(),
                forall|k: int| 0 <= k < q ==> #[trigger] conflict_sets@[k]@.len() == reqs[k].len(),
                forall|k: int, a: int| 0 <= k < q && 0 <= a < reqs[k].len() ==> {
                    let orig = reqs[k][a];
                    let fake = #[trigger] fake_requests@[k]@[a];
                    &&& fake.parameters.duration == orig.parameters.duration
                    &&& fake.parameters.start_time == orig.parameters.start_time
                    &&& fake.cost_function == orig.cost_function
                    &&& fake.parameters.resource_name@ == three_numbers_label(
                        resource_index(self.base_resources@, orig.parameters.resource_name@) as usize, k as usize, a as usize)
                },
                forall|k: int, a: int| 0 <= k < q && 0 <= a < reqs[k].len() ==>
                    conflict_set_of(reqs, (k as usize, a as usize), #[trigger] conflict_sets@[k]@[a]@),
                forall|k: int, a: int| 0 <= k < q && 0 <= a < reqs[k].len() ==>
                    (known_cost(reqs[k][a].cost_function, reqs[k][a].parameters.start_time.earliest_start.unwrap()) matches Some(c)
                        ==> #[trigger] scores@[k]@[a] == c),
            decreases n - q,
        {
            let mut fakes: Vec<ReservationRequestAlternative> = Vec::new();
            let mut sc: Vec<i64> = Vec::new();
            let mut cs: Vec<Vec<(usize, usize)>> = Vec::new();
            let m = self.requests[q].len();
            let mut a: usize = 0;
            while a < m
                invariant
                    reqs == nested_view(self.requests@),
                    n == reqs.len(),
                    q < n,
                    m == reqs[q as int].len(),
                    all_fixed_time(reqs),
                    all_on_resources(self.base_resources@, reqs),
                    a <= m,
                    fakes@.len() == a,
                    sc@.len() == a,
                    cs@.len() == a,
                    forall|b: int| 0 <= b < a ==> {
                        let orig = reqs[q as int][b];
                        let fake = #[trigger] fakes@[b];
                        &&& fake.parameters.duration == orig.parameters.duration
                        &&& fake.parameters.start_time == orig.parameters.start_time
                        &&& fake.cost_function == orig.cost_function
                        &&& fake.parameters.resource_name@ == three_numbers_label(
                            resource_index(self.base_resources@, orig.parameters.resource_name@) as usize, q as usize, b as usize)
                    },
                    forall|b: int| 0 <= b < a ==> conflict_set_of(reqs, (q, b as usize), #[trigger] cs@[b]@),
                    forall|b: int| 0 <= b < a ==>
                        (known_cost(reqs[q as int][b].cost_function, reqs[q as int][b].parameters.start_time.earliest_start.unwrap()) matches Some(c)
                            ==> #[trigger] sc@[b] == c),
                decreases m - a,
            {
                let request = &self.requests[q][a];
                let resource_id = match self.find_resource(&request.parameters.resource_name) {
                    Some(i) => i,
                    None => {
                        proof { assert(has_resource(self.base_resources@, reqs[q as int][a as int].parameters.resource_name@)); }
                        0
                    },
                };
                let mut fake_req = request.clone();
                fake_req.parameters.resource_name = format_three_numbers(resource_id, q, a);
                let instant = match request.parameters.start_time.earliest_start {
                    Some(t) => t,
                    None => 0,
                };
                sc.push(request.cost_function.cost(&request.parameters, instant));
                fakes.push(fake_req);
                let conflicts = self.conflicts_of(q, a);
                cs.push(conflicts);
                a = a + 1;
            }
            fake_requests.push(fakes);
            scores.push(sc);
            conflict_sets.push(cs);
            q = q + 1;
        }
        proof {
            let fr = nested_view(fake_requests@);
            assert forall|q2: int, a2: int, k: int| 0 <= q2 < fr.len() && 0 <= a2 < fr[q2].len() && 0 <= k < conflict_sets@[q2]@[a2]@.len() implies
                valid_id(fr, #[trigger] conflict_sets@[q2]@[a2]@[k]) && conflict_sets@[q2]@[a2]@[k] != (q2 as usize, a2 as usize) by {
                assert(conflict_set_of(reqs, (q2 as usize, a2 as usize), conflict_sets@[q2]@[a2]@));
                assert(conflict_sets@[q2]@[a2]@.contains(conflict_sets@[q2]@[a2]@[k]));
            }
            assert forall|x: (usize, usize), y: (usize, usize)| valid_id(fr, x) && valid_id(fr, y) implies
                (#[trigger] conflict_sets@[x.0 as int]@[x.1 as int]@.contains(y) <==> #[trigger] conflict_sets@[y.0 as int]@[y.1 as int]@.contains(x)) by {
                assert(conflict_set_of(reqs, x, conflict_sets@[x.0 as int]@[x.1 as int]@));
                assert(conflict_set_of(reqs, y, conflict_sets@[y.0 as int]@[y.1 as int]@));
            }
            assert forall|q2: int, a2: int| 0 <= q2 < fr.len() && 0 <= a2 < fr[q2].len() implies
                (#[trigger] conflict_sets@[q2]@[a2])@.no_duplicates() by {
                assert(conflict_set_of(reqs, (q2 as usize, a2 as usize), conflict_sets@[q2]@[a2]@));
            }
        }
        SparseScheduleConflictHillClimber { fake_requests, scores, conflict_sets }
    }

    /// The alternatives that conflict with alternative `a` of request `q`.
    fn conflicts_of(&self, q: usize, a: usize) -> (r: Vec<(usize, usize)>)
        requires
            valid_id(self.requests(), (q, a)),
            all_fixed_time(self.requests()),
        ensures
            conflict_set_of(self.requests(), (q, a), r@),
    {
        let ghost reqs = nested_view(self.requests@);
        let me = &self.requests[q][a];
        let mut out: Vec<(usize, usize)> = Vec::new();
        let n = self.requests.len();
        let mut q2: usize = 0;
        while q2 < n
            invariant
                reqs == nested_view(self.requests@),
                n == reqs.len(),
                valid_id(reqs, (q, a)),
                *me == reqs[q as int][a as int],
                all_fixed_time(reqs),
                q2 <= n,
                out@.no_duplicates(),
                forall|i: int| 0 <= i < out@.len() ==> (#[trigger] out@[i]).0 < q2,
                forall|y: (usize, usize)| y.0 < q2 ==> (out@.contains(y) <==> alternatives_conflict(reqs, (q, a), y)),
            decreases n - q2,
        {
            let m2 = self.requests[q2].len();
            let mut a2: usize = 0;
            while a2 < m2
                invariant
                    reqs == nested_view(self.requests@),
                    n == reqs.len(),
                    valid_id(reqs, (q, a)),
                    *me == reqs[q as int][a as int],
                    all_fixed_time(reqs),
                    q2 < n,
                    m2 == reqs[q2 as int].len(),
                    a2 <= m2,
                    out@.no_duplicates(),
                    forall|i: int| 0 <= i < out@.len() ==> (#[trigger] out@[i]).0 < q2 || (out@[i].0 == q2 && out@[i].1 < a2),
                    forall|y: (usize, usize)| (y.0 < q2 || (y.0 == q2 && y.1 < a2)) ==> (out@.contains(y) <==> alternatives_conflict(reqs, (q, a), y)),
                decreases m2 - a2,
            {
                let other = &self.requests[q2][a2];
                if (q2 != q || a2 != a) && other.parameters.resource_name == me.parameters.resource_name
                    && (overlaps_from_exec(&me.parameters, &other.parameters) || overlaps_from_exec(&other.parameters, &me.parameters))
                {
                    let ghost before = out@;
                    out.push((q2, a2));
                    proof {
                        assert forall|i: int, j: int| 0 <= i < j < out@.len() implies out@[i] != out@[j] by {
                            if j == before.len() { assert(out@[i] == before[i]); }
                        }
                        assert forall|y: (usize, usize)| (y.0 < q2 || (y.0 == q2 && y.1 < a2 + 1)) implies (out@.contains(y) <==> alternatives_conflict(reqs, (q, a), y)) by {
                            if y == (q2, a2) {
                                assert(out@[before.len() as int] == y);
                            } else {
                                if out@.contains(y) {
                                    let i = choose|i: int| 0 <= i < out@.len() && out@[i] == y;
                                    assert(before.contains(y)) by { assert(before[i] == y); }
                                }
                                if before.contains(y) {
                                    let i = choose|i: int| 0 <= i < before.len() && before[i] == y;
                                    assert(out@[i] == y);
                                }
                            }
                        }
                    }
                } else {
                    proof {
                        assert(!alternatives_conflict(reqs, (q, a), (q2, a2)));
                        assert(!out@.contains((q2, a2))) by {
                            if out@.contains((q2, a2)) {
                                let i = choose|i: int| 0 <= i < out@.len() && out@[i] == (q2, a2);
                            }
                        }
                    }
                }
                a2 = a2 + 1;
            }
            proof {
                assert forall|y: (usize, usize)| y.0 < q2 + 1 implies (out@.contains(y) <==> alternatives_conflict(reqs, (q, a), y)) by {
                    if y.0 == q2 && y.1 >= m2 {
                        assert(!alternatives_conflict(reqs, (q, a), y));
                        if out@.contains(y) {
                            let i = choose|i: int| 0 <= i < out@.len() && out@[i] == y;
                        }
                    }
                }
            }
            q2 = q2 + 1;
        }
        proof {
            assert forall|y: (usize, usize)| out@.contains(y) <==> alternatives_conflict(reqs, (q, a), y) by {
                if y.0 >= n {
                    assert(!alternatives_conflict(reqs, (q, a), y));
                    if out@.contains(y) {
                        let i = choose|i: int| 0 <= i < out@.len() && out@[i] == y;
                    }
                }
            }
        }
        out
    }
}

/// `s` lists, without repetition, exactly the alternatives conflicting with `x`.
pub open spec fn conflict_set_of(reqs: Seq<Seq<ReservationRequestAlternative>>, x: (usize, usize), s: Seq<(usize, usize)>) -> bool {
    &&& s.no_duplicates()
    &&& forall|y: (usize, usize)| s.contains(y) <==> alternatives_conflict(reqs, x, y)
}

/// Exec form of [`overlaps_from`].
fn overlaps_from_exec(p: &ReservationParameters, q: &ReservationParameters) -> (r: bool)
    requires
        p.start_time.earliest_start is Some,
        p.duration is Some,
        q.start_time.earliest_start is Some,
        q.duration is Some,
    ensures
        r == overlaps_from(*p, *q),
{
    let sp = p.start_time.earliest_start.unwrap() as i128;
    let ep = sp + p.duration.unwrap() as i128;
    let sq = q.start_time.earliest_start.unwrap() as i128;
    let eq = sq + q.duration.unwrap() as i128;
    (sp <= sq && (sq < ep || sq == sp)) || (sq < sp && eq > sp)
}

/// The conflict model of a set of fixed-time requests.
pub struct SparseScheduleConflictHillClimber {
    fake_requests: Vec<Vec<ReservationRequestAlternative>>,
    scores: Vec<Vec<i64>>,
    conflict_sets: Vec<Vec<Vec<(usize, usize)>>>,
}

/// A copy of `v`.
fn copy_alternative_rows(v: &Vec<Vec<ReservationRequestAlternative>>) -> (r: Vec<Vec<ReservationRequestAlternative>>)
    ensures
        nested_view(r@) == nested_view(v@),
{
    let mut out: Vec<Vec<ReservationRequestAlternative>> = Vec::new();
    let mut i: usize = 0;
    while i < v.len()
        invariant
            i <= v@.len(),
            out@.len() == i,
            forall|k: int| 0 <= k < i ==> (#[trigger] out@[k])@ == v@[k]@,
        decreases v@.len() - i,
    {
        let row = &v[i];
        let mut copy: Vec<ReservationRequestAlternative> = Vec::new();
        let mut j: usize = 0;
        while j < row.len()
            invariant
                j <= row@.len(),
                copy@ == row@.take(j as int),
            decreases row@.len() - j,
        {
            copy.push(row[j].clone());
            proof { assert(copy@ =~= row@.take(j + 1)); }
            j = j + 1;
        }
        proof { assert(row@.take(row@.len() as int) =~= row@); }
        out.push(copy);
        i = i + 1;
    }
    proof { assert(nested_view(out@) =~= nested_view(v@)); }
    out
}

/// A copy of `v`.
fn copy_score_rows(v: &Vec<Vec<i64>>) -> (r: Vec<Vec<i64>>)
    ensures
        r@.len() == v@.len(),
        forall|k: int| 0 <= k < v@.len() ==> (#[trigger] r@[k])@ == v@[k]@,
{
    let mut out: Vec<Vec<i64>> = Vec::new();
    let mut i: usize = 0;
    while i < v.len()
        invariant
            i <= v@.len(),
            out@.len() == i,
            forall|k: int| 0 <= k < i ==> (#[trigger] out@[k])@ == v@[k]@,
        decreases v@.len() - i,
    {
        let row = &v[i];
        let mut copy: Vec<i64> = Vec::new();
        let mut j: usize = 0;
        while j < row.len()
            invariant
                j <= row@.len(),
                copy@ == row@.take(j as int),
            decreases row@.len() - j,
        {
            copy.push(row[j]);
            proof { assert(copy@ =~= row@.take(j + 1)); }
            j = j + 1;
        }
        proof { assert(row@.take(row@.len() as int) =~= row@); }
        out.push(copy);
        i = i + 1;
    }
    out
}

/// A copy of `v`.
fn copy_conflict_rows(v: &Vec<Vec<Vec<(usize, usize)>>>) -> (r: Vec<Vec<Vec<(usize, usize)>>>)
    ensures
        r@.len() == v@.len(),
        forall|k: int| 0 <= k < v@.len() ==> (#[trigger] r@[k])@.len() == v@[k]@.len(),
        forall|k: int, a: int| 0 <= k < v@.len() && 0 <= a < v@[k]@.len() ==> (#[trigger] r@[k]@[a])@ == v@[k]@[a]@,
{
    let mut out: Vec<Vec<Vec<(usize, usize)>>> = Vec::new();
    let mut i: usize = 0;
    while i < v.len()
        invariant
            i <= v@.len(),
            out@.len() == i,
            forall|k: int| 0 <= k < i ==> (#[trigger] out@[k])@.len() == v@[k]@.len(),
            forall|k: int, a: int| 0 <= k < i && 0 <= a < v@[k]@.len() ==> (#[trigger] out@[k]@[a])@ == v@[k]@[a]@,
        decreases v@.len() - i,
    {
        let row = &v[i];
        let mut copy: Vec<Vec<(usize, usize)>> = Vec::new();
        let mut j: usize = 0;
        while j < row.len()
            invariant
                j <= row@.len(),
                copy@.len() == j,
                forall|a: int| 0 <= a < j ==> (#[trigger] copy@[a])@ == row@[a]@,
            decreases row@.len() - j,
        {
            let cell = &row[j];
            let mut c: Vec<(usize, usize)> = Vec::new();
            let mut k: usize = 0;
            while k < cell.len()
                invariant
                    k <= cell@.len(),
                    c@ == cell@.take(k as int),
                decreases cell@.len() - k,
            {
                c.push(cell[k]);
                proof { assert(c@ =~= cell@.take(k + 1)); }
                k = k + 1;
            }
            proof { assert(cell@.take(cell@.len() as int) =~= cell@); }
            copy.push(c);
            j = j + 1;
        }
        out.push(copy);
        i = i + 1;
    }
    out
}

impl Clone for SparseScheduleConflictHillClimber {
    /// A copy: the same requests, scores and conflict sets.
    fn clone(&self) -> (r: Self)
        ensures
            r.requests() == self.requests(),
            r.scores() == self.scores(),
            forall|x: (usize, usize)| #[trigger] r.conflict_set(x) == self.conflict_set(x),
    {
        proof { use_type_invariant(self); }
        let fake_requests = copy_alternative_rows(&self.fake_requests);
        let scores = copy_score_rows(&self.scores);
        let conflict_sets = copy_conflict_rows(&self.conflict_sets);
        proof {
            assert(nested_view(scores@) =~= nested_view(self.scores@));
            assert(nested_view(conflict_sets@).len() == nested_view(self.conflict_sets@).len());
            assert forall|k: int| 0 <= k < conflict_sets@.len() implies (#[trigger] nested_view(conflict_sets@)[k]).len() == nested_view(self.conflict_sets@)[k].len() by {
                assert(conflict_sets@[k]@.len() == self.conflict_sets@[k]@.len());
            }
        }
        let r = SparseScheduleConflictHillClimber { fake_requests, scores, conflict_sets };
        proof {
            assert forall|x: (usize, usize)| #[trigger] r.conflict_set(x) == self.conflict_set(x) by {
                if valid_id(nested_view(r.conflict_sets@), x) {
                    assert(r.conflict_sets@[x.0 as int]@[x.1 as int]@ == self.conflict_sets@[x.0 as int]@[x.1 as int]@);
                }
            }
        }
        r
    }
}

impl SparseScheduleConflictHillClimber {
    #[verifier::type_invariant]
    spec fn well_formed(self) -> bool {
        let reqs = nested_view(self.fake_requests@);
        &&& self.scores@.len() == reqs.len()
        &&& self.conflict_sets@.len() == reqs.len()
        &&& forall|q: int| 0 <= q < reqs.len() ==> (#[trigger] self.scores@[q])@.len() == reqs[q].len()
        &&& forall|q: int| 0 <= q < reqs.len() ==> (#[trigger] self.conflict_sets@[q])@.len() == reqs[q].len()
        &&& forall|q: int, a: int| 0 <= q < reqs.len() && 0 <= a < reqs[q].len() ==>
                (#[trigger] self.conflict_sets@[q]@[a])@.no_duplicates()
        &&& forall|q: int, a: int, k: int| 0 <= q < reqs.len() && 0 <= a < reqs[q].len() && 0 <= k < self.conflict_sets@[q]@[a]@.len() ==>
                valid_id(reqs, #[trigger] self.conflict_sets@[q]@[a]@[k]) && self.conflict_sets@[q]@[a]@[k] != (q as usize, a as usize)
        &&& forall|x: (usize, usize), y: (usize, usize)| valid_id(reqs, x) && valid_id(reqs, y) ==>
                (#[trigger] self.conflict_sets@[x.0 as int]@[x.1 as int]@.contains(y) <==> #[trigger] self.conflict_sets@[y.0 as int]@[y.1 as int]@.contains(x))
    }

    /// The renamed requests, by request id.
    pub closed spec fn requests(&self) -> Seq<Seq<ReservationRequestAlternative>> {
        nested_view(self.fake_requests@)
    }

    /// The cost of each alternative at its start time.
    pub closed spec fn scores(&self) -> Seq<Seq<i64>> {
        nested_view(self.scores@)
    }

    /// The alternatives conflicting with `x`.
    pub closed spec fn conflict_set(&self, x: (usize, usize)) -> Set<(usize, usize)> {
        if valid_id(nested_view(self.conflict_sets@), x) {
            self.conflict_sets@[x.0 as int][x.1 as int]@.to_set()
        } else {
            Set::empty()
        }
    }
}


/// Number of requests left without an alternative in `alloc`.
pub open spec fn count_unallocated(alloc: Seq<Option<usize>>) -> nat
    decreases alloc.len(),
{
    if alloc.len() == 0 { 0 } else { count_unallocated(alloc.drop_last()) + if alloc.last() is None { 1nat } else { 0nat } }
}

/// Total score of the alternatives chosen in `alloc`.
pub open spec fn allocation_cost(scores: Seq<Seq<i64>>, alloc: Seq<Option<usize>>) -> int
    decreases alloc.len(),
{
    if alloc.len() == 0 {
        0
    } else {
        allocation_cost(scores, alloc.drop_last()) + match alloc.last() {
            Some(a) => scores[alloc.len() - 1][a as int] as int,
            None => 0,
        }
    }
}

/// A chosen alternative of a request.
#[derive(Debug)]
pub struct StarvationGroup {
    positive: Vec<(usize, usize)>,
}

impl StarvationGroup {
    /// The alternatives that, chosen, leave some request without an alternative.
    pub closed spec fn members(&self) -> Seq<(usize, usize)> {
        self.positive@
    }
}

/// A node of the search: the constraints it was made with (alternatives
/// forced per request, alternatives banned), the greedy allocation under them,
/// its cost, how many requests it left without an alternative, the chosen
/// alternatives that conflict, and the starvation groups met.
#[derive(Debug)]
pub struct Solution {
    cost: i128,
    unallocated: usize,
    positive_constraints: Vec<Option<usize>>,
    negative_constraints: Vec<Vec<bool>>,
    conflicts: Vec<(usize, usize)>,
    starvation_groups_found: Vec<StarvationGroup>,
}

impl Solution {
    /// Cost.
    pub closed spec fn cost_spec(&self) -> i128 { self.cost }
    /// Requests without an alternative.
    pub closed spec fn unallocated_spec(&self) -> usize { self.unallocated }
    /// Chosen alternatives in conflict.
    pub closed spec fn conflicts_spec(&self) -> Seq<(usize, usize)> { self.conflicts@ }
    /// Forced alternatives.
    pub closed spec fn positive_spec(&self) -> Seq<Option<usize>> { self.positive_constraints@ }
    /// Banned alternatives.
    pub closed spec fn negative_spec(&self) -> Seq<Seq<bool>> { nested_view(self.negative_constraints@) }

    /// Total score of the allocation.
    pub fn cost(&self) -> (r: i128)
        ensures
            r == self.cost_spec(),
    {
        self.cost
    }

    /// Number of requests left without an alternative.
    pub fn unallocated(&self) -> (r: usize)
        ensures
            r == self.unallocated_spec(),
    {
        self.unallocated
    }

    /// Number of chosen alternatives in conflict.
    pub fn num_conflicts(&self) -> (r: usize)
        ensures
            r == self.conflicts_spec().len(),
    {
        self.conflicts.len()
    }
}

/// The chosen alternatives of `alloc` that conflict with another chosen one.
pub open spec fn conflicting_chosen(h: SparseScheduleConflictHillClimber, alloc: Seq<Option<usize>>) -> Set<(usize, usize)> {
    Set::new(|x: (usize, usize)| x.0 < alloc.len() && alloc[x.0 as int] == Some(x.1)
        && exists|q2: int| 0 <= q2 < alloc.len() && q2 != x.0 && (#[trigger] alloc[q2]) is Some
            && h.conflict_set(x).contains((q2 as usize, alloc[q2].unwrap())))
}

/// `a` is the first cheapest alternative of request `q` not banned by `banned`.
pub open spec fn greedy_pick(h: SparseScheduleConflictHillClimber, q: int, banned: Seq<bool>, a: int) -> bool {
    let sc = h.scores()[q];
    &&& 0 <= a < sc.len()
    &&& !banned[a]
    &&& forall|b: int| 0 <= b < a && !banned[b] ==> sc[b] > sc[a]
    &&& forall|b: int| a < b < sc.len() && !banned[b] ==> sc[b] >= sc[a]
}

/// `alloc` is the greedy allocation under the constraints `pos` and `neg`:
/// the forced alternative where there is one, else the first cheapest one not
/// banned, else none.
pub open spec fn greedy_allocation(h: SparseScheduleConflictHillClimber, pos: Seq<Option<usize>>, neg: Seq<Seq<bool>>, alloc: Seq<Option<usize>>) -> bool {
    &&& alloc.len() == h.requests().len()
    &&& forall|q: int| 0 <= q < alloc.len() ==> match pos[q] {
            Some(a) => #[trigger] alloc[q] == Some(a),
            None => match alloc[q] {
                Some(a) => greedy_pick(h, q, neg[q], a as int),
                None => forall|b: int| 0 <= b < h.requests()[q].len() ==> neg[q][b],
            },
        }
}

/// `pos` forces, per request, an alternative of it or nothing; `neg` has a
/// flag per alternative.
pub open spec fn constraints_shaped(h: SparseScheduleConflictHillClimber, pos: Seq<Option<usize>>, neg: Seq<Seq<bool>>) -> bool {
    &&& pos.len() == h.requests().len()
    &&& neg.len() == h.requests().len()
    &&& forall|q: int| 0 <= q < pos.len() ==> (#[trigger] pos[q] matches Some(a) ==> a < h.requests()[q].len())
    &&& forall|q: int| 0 <= q < neg.len() ==> (#[trigger] neg[q]).len() == h.requests()[q].len()
}

impl SparseScheduleConflictHillClimber {
    /// Number of alternatives per request.
    pub fn literals(&self) -> (r: HashMap<usize, usize>)
        ensures
            r@ == Map::new(|q: usize| q < self.requests().len(), |q: usize| self.requests()[q as int].len() as usize),
    {
        let mut m: HashMap<usize, usize> = HashMap::new();
        let mut q: usize = 0;
        while q < self.fake_requests.len()
            invariant
                q <= self.fake_requests@.len(),
                m@ == Map::new(|q2: usize| q2 < q, |q2: usize| self.requests()[q2 as int].len() as usize),
            decreases self.fake_requests@.len() - q,
        {
            m.insert(q, self.fake_requests[q].len());
            proof {
                assert(m@ =~= Map::new(|q2: usize| q2 < q + 1, |q2: usize| self.requests()[q2 as int].len() as usize));
            }
            q = q + 1;
        }
        m
    }

    /// The score of every alternative.
    pub fn score_cache(&self) -> (r: Vec<Vec<i64>>)
        ensures
            nested_view(r@) == self.scores(),
    {
        let mut out: Vec<Vec<i64>> = Vec::new();
        let mut q: usize = 0;
        while q < self.scores.len()
            invariant
                q <= self.scores@.len(),
                out@.len() == q,
                forall|k: int| 0 <= k < q ==> (#[trigger] out@[k])@ == self.scores@[k]@,
            decreases self.scores@.len() - q,
        {
            let row = &self.scores[q];
            let mut copy: Vec<i64> = Vec::new();
            let mut a: usize = 0;
            while a < row.len()
                invariant
                    a <= row@.len(),
                    copy@ == row@.take(a as int),
                decreases row@.len() - a,
            {
                copy.push(row[a]);
                proof { assert(copy@ =~= row@.take(a + 1)); }
                a = a + 1;
            }
            proof { assert(row@.take(row@.len() as int) =~= row@); }
            out.push(copy);
            q = q + 1;
        }
        proof { assert(nested_view(out@) =~= self.scores()); }
        out
    }

    /// For every alternative `x`, the alternatives banned once `x` is chosen
    /// (those conflicting with it, and `x` itself), and the other way round,
    /// for every alternative, those whose choice bans it.
    fn get_implications(&self) -> (r: (Vec<Vec<Vec<(usize, usize)>>>, Vec<Vec<Vec<(usize, usize)>>>))
        ensures
            nested_view(r.0@).len() == self.requests().len(),
            nested_view(r.1@).len() == self.requests().len(),
            forall|q: int| 0 <= q < self.requests().len() ==> (#[trigger] r.0@[q])@.len() == self.requests()[q].len(),
            forall|q: int| 0 <= q < self.requests().len() ==> (#[trigger] r.1@[q])@.len() == self.requests()[q].len(),
            forall|x: (usize, usize), y: (usize, usize)| valid_id(self.requests(), x) ==>
                (#[trigger] r.0@[x.0 as int]@[x.1 as int]@.contains(y) <==> (y == x || self.conflict_set(x).contains(y))),
            forall|x: (usize, usize), y: (usize, usize)| valid_id(self.requests(), x) ==>
                (#[trigger] r.1@[x.0 as int]@[x.1 as int]@.contains(y) <==> (y == x || self.conflict_set(x).contains(y))),
    {
        proof { use_type_invariant(self); }
        let mut banned: Vec<Vec<Vec<(usize, usize)>>> = Vec::new();
        let mut q: usize = 0;
        while q < self.conflict_sets.len()
            invariant
                self.conflict_sets@.len() == self.requests().len(),
                forall|q2: int| 0 <= q2 < self.requests().len() ==> (#[trigger] self.conflict_sets@[q2])@.len() == self.requests()[q2].len(),
                q <= self.conflict_sets@.len(),
                banned@.len() == q,
                forall|q2: int| 0 <= q2 < q ==> (#[trigger] banned@[q2])@.len() == self.requests()[q2].len(),
                forall|x: (usize, usize), y: (usize, usize)| valid_id(self.requests(), x) && x.0 < q ==>
                    (#[trigger] banned@[x.0 as int]@[x.1 as int]@.contains(y) <==> (y == x || self.conflict_set(x).contains(y))),
            decreases self.conflict_sets@.len() - q,
        {
            let row = &self.conflict_sets[q];
            let mut out_row: Vec<Vec<(usize, usize)>> = Vec::new();
            let mut a: usize = 0;
            while a < row.len()
                invariant
                    q < self.conflict_sets@.len(),
                    self.conflict_sets@.len() == self.requests().len(),
                    row@ == self.conflict_sets@[q as int]@,
                    row@.len() == self.requests()[q as int].len(),
                    a <= row@.len(),
                    out_row@.len() == a,
                    forall|a2: int, y: (usize, usize)| 0 <= a2 < a ==>
                        (#[trigger] out_row@[a2]@.contains(y) <==> (y == (q, a2 as usize) || self.conflict_set((q, a2 as usize)).contains(y))),
                decreases row@.len() - a,
            {
                let mut list: Vec<(usize, usize)> = Vec::new();
                let src = &row[a];
                let mut k: usize = 0;
                while k < src.len()
                    invariant
                        k <= src@.len(),
                        list@ == src@.take(k as int),
                    decreases src@.len() - k,
                {
                    list.push(src[k]);
                    proof { assert(list@ =~= src@.take(k + 1)); }
                    k = k + 1;
                }
                proof { assert(src@.take(src@.len() as int) =~= src@); }
                let ghost before = list@;
                list.push((q, a));
                proof {
                    assert(self.conflict_set((q, a)) == src@.to_set());
                    assert forall|y: (usize, usize)| list@.contains(y) <==> (y == (q, a) || self.conflict_set((q, a)).contains(y)) by {
                        if list@.contains(y) {
                            let i = choose|i: int| 0 <= i < list@.len() && list@[i] == y;
                            if i < before.len() { assert(src@.contains(y)); }
                        }
                        if self.conflict_set((q, a)).contains(y) {
                            let i = choose|i: int| 0 <= i < src@.len() && src@[i] == y;
                            assert(list@[i] == y);
                        }
                        if y == (q, a) { assert(list@[before.len() as int] == y); }
                    }
                }
                out_row.push(list);
                a = a + 1;
            }
            banned.push(out_row);
            q = q + 1;
        }
        let backtrace = self.copy_table(&banned);
        proof {
            assert forall|q2: int| 0 <= q2 < self.requests().len() implies (#[trigger] banned@[q2])@.len() == self.requests()[q2].len() && backtrace@[q2]@.len() == self.requests()[q2].len() by {}
        }
        (banned, backtrace)
    }

    /// A copy of a table of alternatives per alternative.
    fn copy_table(&self, t: &Vec<Vec<Vec<(usize, usize)>>>) -> (r: Vec<Vec<Vec<(usize, usize)>>>)
        ensures
            r@.len() == t@.len(),
            forall|q: int| 0 <= q < t@.len() ==> (#[trigger] r@[q])@.len() == t@[q]@.len(),
            forall|q: int, a: int| 0 <= q < t@.len() && 0 <= a < t@[q]@.len() ==> (#[trigger] r@[q]@[a])@ == t@[q]@[a]@,
    {
        let mut out: Vec<Vec<Vec<(usize, usize)>>> = Vec::new();
        let mut q: usize = 0;
        while q < t.len()
            invariant
                q <= t@.len(),
                out@.len() == q,
                forall|q2: int| 0 <= q2 < q ==> (#[trigger] out@[q2])@.len() == t@[q2]@.len(),
                forall|q2: int, a: int| 0 <= q2 < q && 0 <= a < t@[q2]@.len() ==> (#[trigger] out@[q2]@[a])@ == t@[q2]@[a]@,
            decreases t@.len() - q,
        {
            let mut row: Vec<Vec<(usize, usize)>> = Vec::new();
            let mut a: usize = 0;
            while a < t[q].len()
                invariant
                    q < t@.len(),
                    a <= t@[q as int]@.len(),
                    row@.len() == a,
                    forall|a2: int| 0 <= a2 < a ==> (#[trigger] row@[a2])@ == t@[q as int]@[a2]@,
                decreases t@[q as int]@.len() - a,
            {
                let src = &t[q][a];
                let mut list: Vec<(usize, usize)> = Vec::new();
                let mut k: usize = 0;
                while k < src.len()
                    invariant
                        k <= src@.len(),
                        list@ == src@.take(k as int),
                    decreases src@.len() - k,
                {
                    list.push(src[k]);
                    proof { assert(list@ =~= src@.take(k + 1)); }
                    k = k + 1;
                }
                proof { assert(src@.take(src@.len() as int) =~= src@); }
                row.push(list);
                a = a + 1;
            }
            out.push(row);
            q = q + 1;
        }
        out
    }

    /// The alternatives banned once `x` is chosen: `x` and those conflicting with it.
    pub open spec fn banned_set(&self, x: (usize, usize)) -> Set<(usize, usize)> {
        Set::new(|y: (usize, usize)| y == x || self.conflict_set(x).contains(y))
    }

    /// For every alternative `x`, the alternatives whose choice is banned by
    /// choosing `x`: those conflicting with it and `x` itself. The map's
    /// contents are stated only for key types that behave as hash keys should.
    pub fn get_banned_reservation_combinations(&self) -> (r: UniqueMultiHashMap<(usize, usize), (usize, usize)>)
        ensures
            multimap_keys_obey::<(usize, usize), (usize, usize)>() ==>
                r@ == Map::new(|x: (usize, usize)| valid_id(self.requests(), x), |x: (usize, usize)| self.banned_set(x)),
    {
        let (implications, _) = self.get_implications();
        let mut m: UniqueMultiHashMap<(usize, usize), (usize, usize)> = UniqueMultiHashMap::new();
        let ghost reqs = self.requests();
        let mut q: usize = 0;
        while q < implications.len()
            invariant
                reqs == self.requests(),
                implications@.len() == reqs.len(),
                forall|q2: int| 0 <= q2 < reqs.len() ==> (#[trigger] implications@[q2])@.len() == reqs[q2].len(),
                forall|x: (usize, usize), y: (usize, usize)| valid_id(reqs, x) ==>
                    (#[trigger] implications@[x.0 as int]@[x.1 as int]@.contains(y) <==> (y == x || self.conflict_set(x).contains(y))),
                q <= implications@.len(),
                multimap_keys_obey::<(usize, usize), (usize, usize)>() ==>
                    m@ == Map::new(|x: (usize, usize)| valid_id(reqs, x) && x.0 < q, |x: (usize, usize)| self.banned_set(x)),
            decreases implications@.len() - q,
        {
            let mut a: usize = 0;
            while a < implications[q].len()
                invariant
                    reqs == self.requests(),
                    implications@.len() == reqs.len(),
                    q < reqs.len(),
                    forall|q2: int| 0 <= q2 < reqs.len() ==> (#[trigger] implications@[q2])@.len() == reqs[q2].len(),
                    forall|x: (usize, usize), y: (usize, usize)| valid_id(reqs, x) ==>
                        (#[trigger] implications@[x.0 as int]@[x.1 as int]@.contains(y) <==> (y == x || self.conflict_set(x).contains(y))),
                    a <= implications@[q as int]@.len(),
                    multimap_keys_obey::<(usize, usize), (usize, usize)>() ==>
                        m@ == Map::new(|x: (usize, usize)| valid_id(reqs, x) && (x.0 < q || (x.0 == q && x.1 < a)), |x: (usize, usize)| self.banned_set(x)),
                decreases implications@[q as int]@.len() - a,
            {
                let list = &implications[q][a];
                proof {
                    assert(valid_id(reqs, (q, a)));
                    assert(implications@[(q, a).0 as int]@[(q, a).1 as int]@.contains((q, a)));
                    assert(list@.contains((q, a)));
                }
                insert_all(&mut m, (q, a), list);
                proof {
                    if multimap_keys_obey::<(usize, usize), (usize, usize)>() {
                        assert(list@.to_set() =~= self.banned_set((q, a)));
                        assert(m@ =~= Map::new(|x: (usize, usize)| valid_id(reqs, x) && (x.0 < q || (x.0 == q && x.1 < a + 1)), |x: (usize, usize)| self.banned_set(x)));
                    }
                }
                a = a + 1;
            }
            proof {
                if multimap_keys_obey::<(usize, usize), (usize, usize)>() {
                    assert(m@ =~= Map::new(|x: (usize, usize)| valid_id(reqs, x) && x.0 < q + 1, |x: (usize, usize)| self.banned_set(x)));
                }
            }
            q = q + 1;
        }
        proof {
            if multimap_keys_obey::<(usize, usize), (usize, usize)>() {
                assert(m@ =~= Map::new(|x: (usize, usize)| valid_id(self.requests(), x), |x: (usize, usize)| self.banned_set(x)));
            }
        }
        m
    }
}

/// The members of the first `k + 1` items are those of the first `k` and item `k`.
proof fn lemma_take_to_set<A>(s: Seq<A>, k: int)
    requires
        0 <= k < s.len(),
    ensures
        s.take(k + 1).to_set() == s.take(k).to_set().insert(s[k]),
{
    let a = s.take(k + 1);
    let b = s.take(k);
    assert forall|y: A| a.to_set().contains(y) <==> b.to_set().insert(s[k]).contains(y) by {
        if a.to_set().contains(y) {
            let i = choose|i: int| 0 <= i < a.len() && #[trigger] a[i] == y;
            if i < k { assert(b[i] == y); }
        }
        if b.to_set().contains(y) {
            let i = choose|i: int| 0 <= i < b.len() && #[trigger] b[i] == y;
            assert(a[i] == y);
        }
        if y == s[k] { assert(s.take(k + 1)[k] == y); }
    }
    assert(s.take(k + 1).to_set() =~= s.take(k).to_set().insert(s[k]));
}

/// Inserts every member of `list` under `key`, absent so far.
fn insert_all(m: &mut UniqueMultiHashMap<(usize, usize), (usize, usize)>, key: (usize, usize), list: &Vec<(usize, usize)>)
    requires
        list@.len() > 0,
        multimap_keys_obey::<(usize, usize), (usize, usize)>() ==> !old(m)@.contains_key(key),
    ensures
        multimap_keys_obey::<(usize, usize), (usize, usize)>() ==> final(m)@ == old(m)@.insert(key, list@.to_set()),
{
    let ghost m0 = m@;
    let mut k: usize = 0;
    while k < list.len()
        invariant
            k <= list@.len(),
            multimap_keys_obey::<(usize, usize), (usize, usize)>() ==> !m0.contains_key(key),
            k == 0 ==> m@ == m0,
            k > 0 ==> multimap_keys_obey::<(usize, usize), (usize, usize)>() ==> m@ == m0.insert(key, list@.take(k as int).to_set()),
        decreases list@.len() - k,
    {
        m.insert(key, list[k]);
        proof {
            if multimap_keys_obey::<(usize, usize), (usize, usize)>() {
                lemma_take_to_set(list@, k as int);
                if k == 0 {
                    assert(list@.take(0).to_set() =~= Set::<(usize, usize)>::empty());
                    assert(list@.take(1).to_set() =~= set![list@[0]]);
                }
                assert(m@ =~= m0.insert(key, list@.take(k + 1).to_set()));
            }
        }
        k = k + 1;
    }
    proof { assert(list@.take(list@.len() as int) =~= list@); }
}

/// The chosen alternatives among the first `p` requests of `alloc` that
/// conflict with another chosen one among them.
pub open spec fn conflicting_chosen_upto(h: SparseScheduleConflictHillClimber, alloc: Seq<Option<usize>>, p: int) -> Set<(usize, usize)> {
    Set::new(|x: (usize, usize)| x.0 < p && x.0 < alloc.len() && alloc[x.0 as int] == Some(x.1)
        && exists|q2: int| 0 <= q2 < p && q2 < alloc.len() && q2 != x.0 && (#[trigger] alloc[q2]) is Some
            && h.conflict_set(x).contains((q2 as usize, alloc[q2].unwrap())))
}

/// Every chosen alternative of `alloc` is an alternative of its request.
pub open spec fn allocation_valid(h: SparseScheduleConflictHillClimber, alloc: Seq<Option<usize>>) -> bool {
    &&& alloc.len() == h.requests().len()
    &&& forall|q: int| 0 <= q < alloc.len() ==> (#[trigger] alloc[q] matches Some(a) ==> a < h.requests()[q].len())
}

impl SparseScheduleConflictHillClimber {
    /// Number of requests.
    pub fn num_requests(&self) -> (r: usize)
        ensures
            r == self.requests().len(),
            self.requests().len() <= usize::MAX,
            forall|q: int| 0 <= q < self.requests().len() ==> (#[trigger] self.requests()[q]).len() <= usize::MAX,
            self.scores().len() == self.requests().len(),
            forall|q: int| 0 <= q < self.requests().len() ==> (#[trigger] self.scores()[q]).len() == self.requests()[q].len(),
            forall|x: (usize, usize), y: (usize, usize)| #[trigger] self.conflict_set(x).contains(y) ==> valid_id(self.requests(), y) && y != x,
            forall|x: (usize, usize), y: (usize, usize)| valid_id(self.requests(), x) && valid_id(self.requests(), y) ==>
                (#[trigger] self.conflict_set(x).contains(y) <==> #[trigger] self.conflict_set(y).contains(x)),
    {
        proof {
            use_type_invariant(self);
            assert forall|x: (usize, usize), y: (usize, usize)| #[trigger] self.conflict_set(x).contains(y) implies valid_id(self.requests(), y) && y != x by {
                let k = choose|k: int| 0 <= k < self.conflict_sets@[x.0 as int][x.1 as int]@.len() && self.conflict_sets@[x.0 as int][x.1 as int]@[k] == y;
                assert(self.conflict_sets@[x.0 as int]@[x.1 as int]@[k] == y);
            }
            assert forall|x: (usize, usize), y: (usize, usize)| valid_id(self.requests(), x) && valid_id(self.requests(), y) implies
                (#[trigger] self.conflict_set(x).contains(y) <==> #[trigger] self.conflict_set(y).contains(x)) by {
                assert(self.conflict_sets@[x.0 as int]@[x.1 as int]@.contains(y) <==> self.conflict_sets@[y.0 as int]@[y.1 as int]@.contains(x));
            }
            assert(nested_view(self.scores@).len() == self.requests().len());
            assert forall|q: int| 0 <= q < self.requests().len() implies (#[trigger] self.requests()[q]).len() <= usize::MAX by {
                assert(self.fake_requests@[q].len() == self.fake_requests@[q]@.len());
            }
        }
        self.fake_requests.len()
    }

    /// Alternative `a` of request `q`, on the resource of its own.
    pub fn alternative(&self, q: usize, a: usize) -> (r: &ReservationRequestAlternative)
        requires
            q < self.requests().len(),
            a < self.requests()[q as int].len(),
        ensures
            *r == self.requests()[q as int][a as int],
    {
        &self.fake_requests[q][a]
    }

    /// Score of alternative `a` of request `q`.
    pub fn score(&self, q: usize, a: usize) -> (r: i64)
        requires
            valid_id(self.requests(), (q, a)),
        ensures
            r == self.scores()[q as int][a as int],
    {
        proof { use_type_invariant(self); }
        self.scores[q][a]
    }

    /// The alternatives conflicting with alternative `a` of request `q`, each once.
    pub fn conflicts_with(&self, q: usize, a: usize) -> (r: &Vec<(usize, usize)>)
        requires
            valid_id(self.requests(), (q, a)),
        ensures
            r@.to_set() == self.conflict_set((q, a)),
            r@.no_duplicates(),
    {
        proof { use_type_invariant(self); }
        &self.conflict_sets[q][a]
    }

    /// Number of alternatives of request `q`.
    pub fn num_alternatives(&self, q: usize) -> (r: usize)
        requires
            q < self.requests().len(),
        ensures
            r == self.requests()[q as int].len(),
    {
        self.fake_requests[q].len()
    }

    /// The chosen alternatives of `allocations` that conflict with another
    /// chosen one, each once.
    fn get_conflicts(&self, allocations: &Vec<Option<usize>>) -> (r: Vec<(usize, usize)>)
        requires
            allocation_valid(*self, allocations@),
        ensures
            r@.no_duplicates(),
            r@.to_set() == conflicting_chosen(*self, allocations@),
    {
        let n = self.num_requests();
        proof { use_type_invariant(self); }
        let ghost alloc = allocations@;
        let mut conflicts: Vec<(usize, usize)> = Vec::new();
        let mut p: usize = 0;
        while p < allocations.len()
            invariant
                allocation_valid(*self, alloc),
                alloc == allocations@,
                n == self.requests().len(),
                self.conflict_sets@.len() == n,
                forall|q: int| 0 <= q < n ==> (#[trigger] self.conflict_sets@[q])@.len() == self.requests()[q].len(),
                p <= alloc.len(),
                conflicts@.no_duplicates(),
                conflicts@.to_set() == conflicting_chosen_upto(*self, alloc, p as int),
                forall|x: (usize, usize), y: (usize, usize)| valid_id(self.requests(), x) && valid_id(self.requests(), y) ==>
                    (#[trigger] self.conflict_set(x).contains(y) <==> #[trigger] self.conflict_set(y).contains(x)),
                forall|x: (usize, usize), y: (usize, usize)| #[trigger] self.conflict_set(x).contains(y) ==> valid_id(self.requests(), y) && y != x,
            decreases alloc.len() - p,
        {
            let ghost before = conflicts@;
            if let Some(alt1) = allocations[p] {
                let x = (p, alt1);
                proof { assert(alloc[p as int] == Some(alt1)); }
                let list = &self.conflict_sets[p][alt1];
                proof { assert(self.conflict_set(x) == list@.to_set()); }
                let mut k: usize = 0;
                while k < list.len()
                    invariant
                        allocation_valid(*self, alloc),
                        alloc == allocations@,
                        p < alloc.len(),
                        alloc[p as int] == Some(alt1),
                        self.conflict_set(x) == list@.to_set(),
                        k <= list@.len(),
                        conflicts@.no_duplicates(),
                        forall|x2: (usize, usize), y: (usize, usize)| valid_id(self.requests(), x2) && valid_id(self.requests(), y) ==>
                            (#[trigger] self.conflict_set(x2).contains(y) <==> #[trigger] self.conflict_set(y).contains(x2)),
                        forall|x2: (usize, usize), y: (usize, usize)| #[trigger] self.conflict_set(x2).contains(y) ==> valid_id(self.requests(), y) && y != x2,
                        conflicts@.to_set() == conflicting_chosen_upto(*self, alloc, p as int).union(
                            Set::new(|z: (usize, usize)| (z == x || (z.0 < p && self.conflict_set(x).contains(z)))
                                && exists|i: int| 0 <= i < k && list@[i].0 < p && alloc[list@[i].0 as int] == Some(list@[i].1)
                                    && (z == x || z == list@[i]))),
                    decreases list@.len() - k,
                {
                    let y = list[k];
                    if y.0 < p && allocations[y.0] == Some(y.1) {
                        pairs_insert(&mut conflicts, x);
                        pairs_insert(&mut conflicts, y);
                    }
                    proof {
                        assert(list@.to_set().contains(y));
                        let target = |kk: int| conflicting_chosen_upto(*self, alloc, p as int).union(
                            Set::new(|z: (usize, usize)| (z == x || (z.0 < p && self.conflict_set(x).contains(z)))
                                && exists|i: int| 0 <= i < kk && list@[i].0 < p && alloc[list@[i].0 as int] == Some(list@[i].1)
                                    && (z == x || z == list@[i])));
                        assert(conflicts@.to_set() =~= target(k + 1)) by {
                            assert forall|z: (usize, usize)| target(k + 1).contains(z) implies conflicts@.to_set().contains(z) by {
                                if !target(k as int).contains(z) {
                                    assert(y.0 < p && alloc[y.0 as int] == Some(y.1));
                                }
                            }
                            assert forall|z: (usize, usize)| conflicts@.to_set().contains(z) implies target(k + 1).contains(z) by {
                                if !target(k as int).contains(z) {
                                    assert(z == x || z == y);
                                    assert(list@[k as int].0 < p && alloc[list@[k as int].0 as int] == Some(list@[k as int].1) && (z == x || z == list@[k as int]));
                                }
                            }
                        }
                    }
                    k = k + 1;
                }
                proof {
                    assert(conflicts@.to_set() =~= conflicting_chosen_upto(*self, alloc, p + 1)) by {
                        assert forall|z: (usize, usize)| conflicting_chosen_upto(*self, alloc, p + 1).contains(z) implies conflicts@.to_set().contains(z) by {
                            if !conflicting_chosen_upto(*self, alloc, p as int).contains(z) {
                                let q2 = choose|q2: int| 0 <= q2 < p + 1 && q2 < alloc.len() && q2 != z.0 && (#[trigger] alloc[q2]) is Some
                                    && self.conflict_set(z).contains((q2 as usize, alloc[q2].unwrap()));
                                if z.0 == p {
                                    assert(z == x);
                                    let w = (q2 as usize, alloc[q2].unwrap());
                                    assert(list@.to_set().contains(w));
                                    let i = choose|i: int| 0 <= i < list@.len() && list@[i] == w;
                                    assert(list@[i].0 < p && alloc[list@[i].0 as int] == Some(list@[i].1));
                                } else {
                                    assert(q2 == p);
                                    assert(self.conflict_set(z).contains(x));
                                    assert(valid_id(self.requests(), z));
                                    assert(valid_id(self.requests(), x));
                                    assert(self.conflict_set(x).contains(z));
                                    assert(list@.to_set().contains(z));
                                    let i = choose|i: int| 0 <= i < list@.len() && list@[i] == z;
                                    assert(list@[i].0 < p && alloc[list@[i].0 as int] == Some(list@[i].1) && z == list@[i]);
                                }
                            }
                        }
                        assert forall|z: (usize, usize)| conflicts@.to_set().contains(z) implies conflicting_chosen_upto(*self, alloc, p + 1).contains(z) by {
                            if !conflicting_chosen_upto(*self, alloc, p as int).contains(z) {
                                let i = choose|i: int| 0 <= i < list@.len() && list@[i].0 < p && alloc[list@[i].0 as int] == Some(list@[i].1)
                                    && (z == x || z == list@[i]);
                                let w = list@[i];
                                assert(list@.to_set().contains(w));
                                assert(self.conflict_set(x).contains(w));
                                if z == x {
                                    assert(alloc[w.0 as int] is Some && self.conflict_set(z).contains((w.0, alloc[w.0 as int].unwrap())));
                                } else {
                                    assert(z == w);
                                    assert(valid_id(self.requests(), w));
                                    assert(valid_id(self.requests(), x));
                                    assert(self.conflict_set(w).contains(x));
                                    assert(alloc[p as int] is Some && self.conflict_set(z).contains((p, alloc[p as int].unwrap())));
                                }
                            }
                        }
                    }
                }
            } else {
                proof {
                    assert(conflicts@.to_set() =~= conflicting_chosen_upto(*self, alloc, p + 1)) by {
                        assert forall|z: (usize, usize)| conflicting_chosen_upto(*self, alloc, p + 1).contains(z) implies conflicting_chosen_upto(*self, alloc, p as int).contains(z) by {
                            let q2 = choose|q2: int| 0 <= q2 < p + 1 && q2 < alloc.len() && q2 != z.0 && (#[trigger] alloc[q2]) is Some
                                && self.conflict_set(z).contains((q2 as usize, alloc[q2].unwrap()));
                        }
                    }
                }
            }
            p = p + 1;
        }
        proof {
            assert(conflicting_chosen_upto(*self, alloc, alloc.len() as int) =~= conflicting_chosen(*self, alloc));
        }
        conflicts
    }
}

/// Requests of `reqs` without alternatives are left unallocated in `alloc`.
pub open spec fn empty_requests_unallocated(reqs: Seq<Seq<ReservationRequestAlternative>>, alloc: Seq<Option<usize>>) -> bool {
    forall|q: int| 0 <= q < alloc.len() && q < reqs.len() && reqs[q].len() == 0 ==> #[trigger] alloc[q] is None
}

pub proof fn lemma_cost_step(scores: Seq<Seq<i64>>, alloc: Seq<Option<usize>>, q: int)
    requires
        0 <= q < alloc.len(),
    ensures
        allocation_cost(scores, alloc.take(q + 1)) == allocation_cost(scores, alloc.take(q)) + match alloc[q] {
            Some(a) => scores[q][a as int] as int,
            None => 0,
        },
        count_unallocated(alloc.take(q + 1)) == count_unallocated(alloc.take(q)) + if alloc[q] is None { 1nat } else { 0nat },
{
    assert(alloc.take(q + 1).drop_last() =~= alloc.take(q));
}

impl SparseScheduleConflictHillClimber {
    /// The greedy allocation under the constraints `pos` (an alternative
    /// forced per request) and `neg` (banned alternatives): each request gets
    /// its forced alternative, else its first cheapest alternative that is not
    /// banned. A request left without one adds, as a starvation group, the
    /// alternatives whose choice bans one of its alternatives.
    fn greedy_allocate(&self, assignments: &mut Vec<Option<usize>>, pos: Vec<Option<usize>>, neg: Vec<Vec<bool>>,
        backtracker: &Vec<Vec<Vec<(usize, usize)>>>) -> (r: Solution)
        requires
            constraints_shaped(*self, pos@, nested_view(neg@)),
            old(assignments)@.len() == self.requests().len(),
            allocation_valid(*self, old(assignments)@),
            empty_requests_unallocated(self.requests(), old(assignments)@),
            backtracker@.len() == self.requests().len(),
            forall|q: int| 0 <= q < self.requests().len() ==> (#[trigger] backtracker@[q])@.len() == self.requests()[q].len(),
            forall|q: int, a: int, k: int| 0 <= q < backtracker@.len() && 0 <= a < backtracker@[q]@.len() && 0 <= k < backtracker@[q]@[a]@.len() ==>
                valid_id(self.requests(), #[trigger] backtracker@[q]@[a]@[k]),
        ensures
            greedy_allocation(*self, pos@, nested_view(neg@), final(assignments)@),
            allocation_valid(*self, final(assignments)@),
            empty_requests_unallocated(self.requests(), final(assignments)@),
            r.positive_spec() == pos@,
            r.negative_spec() == nested_view(neg@),
            r.unallocated_spec() == count_unallocated(final(assignments)@),
            r.cost_spec() == allocation_cost(self.scores(), final(assignments)@),
            r.conflicts_spec().no_duplicates(),
            r.conflicts_spec().to_set() == conflicting_chosen(*self, final(assignments)@),
            forall|k: int| 0 <= k < r.conflicts_spec().len() ==> valid_id(self.requests(), #[trigger] r.conflicts_spec()[k]),
            r.groups_valid(self.requests()),
    {
        let n = self.num_requests();
        proof { use_type_invariant(self); }
        let ghost negv = nested_view(neg@);
        let mut total: i128 = 0;
        let mut unallocated: usize = 0;
        let mut starvation_groups_found: Vec<StarvationGroup> = Vec::new();
        let mut q: usize = 0;
        while q < n
            invariant
                n == self.requests().len(),
                self.scores@.len() == n,
                forall|q2: int| 0 <= q2 < n ==> (#[trigger] self.scores@[q2])@.len() == self.requests()[q2].len(),
                constraints_shaped(*self, pos@, negv),
                negv == nested_view(neg@),
                backtracker@.len() == n,
                forall|q2: int| 0 <= q2 < n ==> (#[trigger] backtracker@[q2])@.len() == self.requests()[q2].len(),
                forall|q2: int, a: int, k: int| 0 <= q2 < backtracker@.len() && 0 <= a < backtracker@[q2]@.len() && 0 <= k < backtracker@[q2]@[a]@.len() ==>
                    valid_id(self.requests(), #[trigger] backtracker@[q2]@[a]@[k]),
                q <= n,
                assignments@.len() == n,
                empty_requests_unallocated(self.requests(), assignments@),
                forall|q2: int| 0 <= q2 < q ==> match pos@[q2] {
                    Some(a) => #[trigger] assignments@[q2] == Some(a),
                    None => match assignments@[q2] {
                        Some(a) => greedy_pick(*self, q2, negv[q2], a as int),
                        None => forall|b: int| 0 <= b < self.requests()[q2].len() ==> negv[q2][b],
                    },
                },
                forall|q2: int| 0 <= q2 < n ==> (#[trigger] assignments@[q2] matches Some(a) ==> a < self.requests()[q2].len()),
                total == allocation_cost(self.scores(), assignments@.take(q as int)),
                unallocated == count_unallocated(assignments@.take(q as int)),
                unallocated <= q,
                -(q as int) * 0x8000_0000_0000_0000 <= total <= (q as int) * 0x8000_0000_0000_0000,
                forall|g: int, k: int| 0 <= g < starvation_groups_found@.len() && 0 <= k < starvation_groups_found@[g].positive@.len() ==>
                    valid_id(self.requests(), #[trigger] starvation_groups_found@[g].positive@[k]),
            decreases n - q,
        {
            let ghost before = assignments@;
            let row_scores = &self.scores[q];
            let m = row_scores.len();
            match pos[q] {
                Some(alt) => {
                    assignments.set(q, Some(alt));
                    total = total + row_scores[alt] as i128;
                },
                None => {
                    let mut min_score: Option<i64> = None;
                    let mut selected: Option<usize> = None;
                    let mut a: usize = 0;
                    while a < m
                        invariant
                            q < n,
                            n == self.requests().len(),
                            m == self.requests()[q as int].len(),
                            m == row_scores@.len(),
                            self.scores@.len() == n,
                            row_scores@ == self.scores()[q as int],
                            negv == nested_view(neg@),
                            constraints_shaped(*self, pos@, negv),
                            a <= m,
                            assignments@.len() == n,
                            forall|q2: int| 0 <= q2 < n && q2 != q ==> #[trigger] assignments@[q2] == before[q2],
                            a > 0 && (exists|b: int| 0 <= b < a && negv[q as int][b]) ==> assignments@[q as int] is None,
                            (a == 0 || !(exists|b: int| 0 <= b < a && negv[q as int][b])) ==> assignments@[q as int] == before[q as int],
                            selected is None ==> min_score is None && forall|b: int| 0 <= b < a ==> negv[q as int][b],
                            selected matches Some(s) ==> min_score == Some(row_scores@[s as int]) && s < a && !negv[q as int][s as int]
                                && (forall|b: int| 0 <= b < s && !negv[q as int][b] ==> row_scores@[b] > row_scores@[s as int])
                                && (forall|b: int| s < b < a && !negv[q as int][b] ==> row_scores@[b] >= row_scores@[s as int]),
                        decreases m - a,
                    {
                        let score = row_scores[a];
                        proof { assert(neg@[q as int]@[a as int] == negv[q as int][a as int]); }
                        if neg[q][a] {
                            assignments.set(q, None);
                        } else {
                            let better = match min_score {
                                Some(ms) => ms > score,
                                None => true,
                            };
                            if better {
                                min_score = Some(score);
                                selected = Some(a);
                            }
                        }
                        a = a + 1;
                    }
                    match selected {
                        Some(alt) => {
                            total = total + row_scores[alt] as i128;
                            assignments.set(q, Some(alt));
                        },
                        None => {
                            let group = self.starvation_group(q, backtracker);
                            starvation_groups_found.push(group);
                            unallocated = unallocated + 1;
                            proof {
                                if m > 0 { assert(negv[q as int][0]); }
                            }
                        },
                    }
                },
            }
            proof {
                assert(assignments@.take(q as int) =~= before.take(q as int));
                lemma_cost_step(self.scores(), assignments@, q as int);
                assert(self.scores()[q as int] == self.scores@[q as int]@);
            }
            q = q + 1;
        }
        proof {
            assert(assignments@.take(n as int) =~= assignments@);
        }
        let conflicts = self.get_conflicts(assignments);
        proof {
            assert forall|k: int| 0 <= k < conflicts@.len() implies valid_id(self.requests(), #[trigger] conflicts@[k]) by {
                assert(conflicts@.to_set().contains(conflicts@[k]));
            }
        }
        Solution {
            cost: total,
            unallocated,
            positive_constraints: pos,
            negative_constraints: neg,
            conflicts,
            starvation_groups_found,
        }
    }

    /// The alternatives whose choice bans one of the alternatives of request `q`.
    fn starvation_group(&self, q: usize, backtracker: &Vec<Vec<Vec<(usize, usize)>>>) -> (r: StarvationGroup)
        requires
            q < backtracker@.len(),
            forall|a: int, k: int| 0 <= a < backtracker@[q as int]@.len() && 0 <= k < backtracker@[q as int]@[a]@.len() ==>
                valid_id(self.requests(), #[trigger] backtracker@[q as int]@[a]@[k]),
        ensures
            forall|k: int| 0 <= k < r.positive@.len() ==> valid_id(self.requests(), #[trigger] r.positive@[k]),
            r.positive@.no_duplicates(),
            r.positive@.to_set() == row_entries(backtracker@[q as int]@, backtracker@[q as int]@.len() as int, 0),
    {
        let mut group: Vec<(usize, usize)> = Vec::new();
        let row = &backtracker[q];
        let mut a: usize = 0;
        proof { assert(group@.to_set() =~= row_entries(row@, 0, 0)); }
        while a < row.len()
            invariant
                q < backtracker@.len(),
                group@.to_set() == row_entries(row@, a as int, 0),
                row@ == backtracker@[q as int]@,
                a <= row@.len(),
                forall|a2: int, k: int| 0 <= a2 < row@.len() && 0 <= k < row@[a2]@.len() ==>
                    valid_id(self.requests(), #[trigger] row@[a2]@[k]),
                group@.no_duplicates(),
                forall|k: int| 0 <= k < group@.len() ==> valid_id(self.requests(), #[trigger] group@[k]),
            decreases row@.len() - a,
        {
            let list = &row[a];
            let mut k: usize = 0;
            while k < list.len()
                invariant
                    q < backtracker@.len(),
                    a < row@.len(),
                    group@.to_set() == row_entries(row@, a as int, k as int),
                    list@ == row@[a as int]@,
                    k <= list@.len(),
                    forall|k2: int| 0 <= k2 < list@.len() ==> valid_id(self.requests(), #[trigger] list@[k2]),
                    group@.no_duplicates(),
                    forall|k2: int| 0 <= k2 < group@.len() ==> valid_id(self.requests(), #[trigger] group@[k2]),
                decreases list@.len() - k,
            {
                let ghost before = group@;
                pairs_insert(&mut group, list[k]);
                proof {
                    assert forall|k2: int| 0 <= k2 < group@.len() implies valid_id(self.requests(), #[trigger] group@[k2]) by {
                        if k2 < before.len() { assert(group@[k2] == before[k2]); } else { assert(group@[k2] == list@[k as int]); }
                    }
                    assert(row_entries(row@, a as int, k + 1) =~= row_entries(row@, a as int, k as int).insert(list@[k as int])) by {
                        assert forall|x: (usize, usize)| row_entries(row@, a as int, k + 1).contains(x) implies
                            row_entries(row@, a as int, k as int).insert(list@[k as int]).contains(x) by {
                            let (a2, k2) = choose|a2: int, k2: int| #![auto] entry_before(row@, a as int, k + 1, a2, k2) && row@[a2]@[k2] == x;
                            if a2 < a || k2 < k {
                                assert(entry_before(row@, a as int, k as int, a2, k2));
                            } else {
                                assert(x == list@[k as int]);
                            }
                        }
                        assert forall|x: (usize, usize)| row_entries(row@, a as int, k as int).insert(list@[k as int]).contains(x) implies
                            row_entries(row@, a as int, k + 1).contains(x) by {
                            if x == list@[k as int] {
                                assert(entry_before(row@, a as int, k + 1, a as int, k as int));
                            } else {
                                let (a2, k2) = choose|a2: int, k2: int| #![auto] entry_before(row@, a as int, k as int, a2, k2) && row@[a2]@[k2] == x;
                                assert(entry_before(row@, a as int, k + 1, a2, k2));
                            }
                        }
                    }
                }
                k = k + 1;
            }
            proof {
                assert(row_entries(row@, a + 1, 0) =~= row_entries(row@, a as int, list@.len() as int)) by {
                    assert forall|x: (usize, usize)| row_entries(row@, a + 1, 0).contains(x) implies
                        row_entries(row@, a as int, list@.len() as int).contains(x) by {
                        let (a2, k2) = choose|a2: int, k2: int| #![auto] entry_before(row@, a + 1, 0, a2, k2) && row@[a2]@[k2] == x;
                        assert(entry_before(row@, a as int, list@.len() as int, a2, k2));
                    }
                    assert forall|x: (usize, usize)| row_entries(row@, a as int, list@.len() as int).contains(x) implies
                        row_entries(row@, a + 1, 0).contains(x) by {
                        let (a2, k2) = choose|a2: int, k2: int| #![auto] entry_before(row@, a as int, list@.len() as int, a2, k2) && row@[a2]@[k2] == x;
                        assert(entry_before(row@, a + 1, 0, a2, k2));
                    }
                }
            }
            a = a + 1;
        }
        StarvationGroup { positive: group }
    }
}

/// Entry `k2` of list `a2` comes before entry `k` of list `a`.
spec fn entry_before(row: Seq<Vec<(usize, usize)>>, a: int, k: int, a2: int, k2: int) -> bool {
    &&& 0 <= a2 < row.len()
    &&& 0 <= k2 < row[a2]@.len()
    &&& (a2 < a || (a2 == a && k2 < k))
}

/// The entries of the lists `row`, before entry `k` of list `a`.
spec fn row_entries(row: Seq<Vec<(usize, usize)>>, a: int, k: int) -> Set<(usize, usize)> {
    Set::new(|x: (usize, usize)| exists|a2: int, k2: int| #[trigger] entry_before(row, a, k, a2, k2) && row[a2]@[k2] == x)
}

impl Solution {
    /// The members of the starvation groups are alternatives of `reqs`.
    pub closed spec fn groups_valid(&self, reqs: Seq<Seq<ReservationRequestAlternative>>) -> bool {
        forall|g: int, k: int| 0 <= g < self.starvation_groups_found@.len() && 0 <= k < self.starvation_groups_found@[g].positive@.len() ==>
            valid_id(reqs, #[trigger] self.starvation_groups_found@[g].positive@[k])
    }
}

/// Position of alternative `x` when all alternatives are listed request by request.
pub open spec fn flat_index(reqs: Seq<Seq<ReservationRequestAlternative>>, x: (usize, usize)) -> int {
    total_alternatives(reqs.take(x.0 as int)) + x.1
}

proof fn lemma_prefix_monotone(reqs: Seq<Seq<ReservationRequestAlternative>>, q1: int, q2: int)
    requires
        0 <= q1 <= q2 <= reqs.len(),
    ensures
        total_alternatives(reqs.take(q1)) <= total_alternatives(reqs.take(q2)),
    decreases q2 - q1,
{
    if q1 < q2 {
        lemma_prefix_monotone(reqs, q1, q2 - 1);
        lemma_total_prefix(reqs, q2 - 1);
    }
}

proof fn lemma_flat_index(reqs: Seq<Seq<ReservationRequestAlternative>>, x: (usize, usize), y: (usize, usize))
    requires
        valid_id(reqs, x),
        valid_id(reqs, y),
    ensures
        0 <= flat_index(reqs, x) < total_alternatives(reqs),
        flat_index(reqs, x) == flat_index(reqs, y) ==> x == y,
{
    lemma_total_prefix(reqs, x.0 as int);
    lemma_total_prefix(reqs, y.0 as int);
    lemma_prefix_monotone(reqs, x.0 as int + 1, reqs.len() as int);
    assert(reqs.take(reqs.len() as int) =~= reqs);
    if x.0 < y.0 {
        lemma_prefix_monotone(reqs, x.0 as int + 1, y.0 as int);
    } else if y.0 < x.0 {
        lemma_prefix_monotone(reqs, y.0 as int + 1, x.0 as int);
    }
}

/// The constraints of a search node as one set of integers: the position of
/// every forced alternative, and the position, shifted by the number of
/// alternatives, of every banned one.
pub open spec fn key_set(reqs: Seq<Seq<ReservationRequestAlternative>>, pos: Seq<Option<usize>>, neg: Seq<Seq<bool>>) -> Set<int> {
    Set::new(|i: int|
        (exists|q: int| 0 <= q < pos.len() && #[trigger] pos[q] is Some && i == flat_index(reqs, (q as usize, pos[q].unwrap())))
        || (exists|x: (usize, usize)| valid_id(reqs, x) && #[trigger] neg[x.0 as int][x.1 as int] && i == total_alternatives(reqs) + flat_index(reqs, x)))
}

/// `pos` and `neg` are shaped like the requests `reqs`.
pub open spec fn key_shaped(reqs: Seq<Seq<ReservationRequestAlternative>>, pos: Seq<Option<usize>>, neg: Seq<Seq<bool>>) -> bool {
    &&& reqs.len() <= usize::MAX
    &&& forall|q: int| 0 <= q < reqs.len() ==> (#[trigger] reqs[q]).len() <= usize::MAX
    &&& pos.len() == reqs.len()
    &&& neg.len() == reqs.len()
    &&& forall|q: int| 0 <= q < pos.len() ==> (#[trigger] pos[q] matches Some(a) ==> a < reqs[q].len())
    &&& forall|q: int| 0 <= q < neg.len() ==> (#[trigger] neg[q]).len() == reqs[q].len()
}

proof fn lemma_key_set(reqs: Seq<Seq<ReservationRequestAlternative>>, pos: Seq<Option<usize>>, neg: Seq<Seq<bool>>)
    requires
        key_shaped(reqs, pos, neg),
    ensures
        within(key_set(reqs, pos, neg), (2 * total_alternatives(reqs)) as nat),
        subsets_below((2 * total_alternatives(reqs)) as nat).contains(key_set(reqs, pos, neg)),
{
    let k = key_set(reqs, pos, neg);
    assert forall|i: int| k.contains(i) implies 0 <= i < 2 * total_alternatives(reqs) by {
        if exists|q: int| 0 <= q < pos.len() && #[trigger] pos[q] is Some && i == flat_index(reqs, (q as usize, pos[q].unwrap())) {
            let q = choose|q: int| 0 <= q < pos.len() && #[trigger] pos[q] is Some && i == flat_index(reqs, (q as usize, pos[q].unwrap()));
            lemma_flat_index(reqs, (q as usize, pos[q].unwrap()), (q as usize, pos[q].unwrap()));
        } else {
            let x = choose|x: (usize, usize)| valid_id(reqs, x) && #[trigger] neg[x.0 as int][x.1 as int] && i == total_alternatives(reqs) + flat_index(reqs, x);
            lemma_flat_index(reqs, x, x);
        }
    }
    lemma_subsets_below_complete((2 * total_alternatives(reqs)) as nat, k);
}

proof fn lemma_key_injective(reqs: Seq<Seq<ReservationRequestAlternative>>, p1: Seq<Option<usize>>, n1: Seq<Seq<bool>>,
    p2: Seq<Option<usize>>, n2: Seq<Seq<bool>>)
    requires
        key_shaped(reqs, p1, n1),
        key_shaped(reqs, p2, n2),
        key_set(reqs, p1, n1) == key_set(reqs, p2, n2),
    ensures
        p1 == p2,
        n1 == n2,
{
    let tot = total_alternatives(reqs);
    assert forall|q: int| 0 <= q < p1.len() implies p1[q] == p2[q] by {
        if p1[q] is Some {
            let x = (q as usize, p1[q].unwrap());
            lemma_flat_index(reqs, x, x);
            let i = flat_index(reqs, x);
            assert(key_set(reqs, p1, n1).contains(i));
            assert(key_set(reqs, p2, n2).contains(i));
            if exists|q2: int| 0 <= q2 < p2.len() && #[trigger] p2[q2] is Some && i == flat_index(reqs, (q2 as usize, p2[q2].unwrap())) {
                let q2 = choose|q2: int| 0 <= q2 < p2.len() && #[trigger] p2[q2] is Some && i == flat_index(reqs, (q2 as usize, p2[q2].unwrap()));
                lemma_flat_index(reqs, x, (q2 as usize, p2[q2].unwrap()));
            } else {
                let y = choose|y: (usize, usize)| valid_id(reqs, y) && #[trigger] n2[y.0 as int][y.1 as int] && i == tot + flat_index(reqs, y);
                lemma_flat_index(reqs, y, y);
            }
        } else if p2[q] is Some {
            let x = (q as usize, p2[q].unwrap());
            lemma_flat_index(reqs, x, x);
            let i = flat_index(reqs, x);
            assert(key_set(reqs, p2, n2).contains(i));
            assert(key_set(reqs, p1, n1).contains(i));
            if exists|q2: int| 0 <= q2 < p1.len() && #[trigger] p1[q2] is Some && i == flat_index(reqs, (q2 as usize, p1[q2].unwrap())) {
                let q2 = choose|q2: int| 0 <= q2 < p1.len() && #[trigger] p1[q2] is Some && i == flat_index(reqs, (q2 as usize, p1[q2].unwrap()));
                lemma_flat_index(reqs, x, (q2 as usize, p1[q2].unwrap()));
            } else {
                let y = choose|y: (usize, usize)| valid_id(reqs, y) && #[trigger] n1[y.0 as int][y.1 as int] && i == tot + flat_index(reqs, y);
                lemma_flat_index(reqs, y, y);
            }
        }
    }
    assert(p1 =~= p2);
    assert forall|q: int| 0 <= q < n1.len() implies n1[q] =~= n2[q] by {
        assert forall|a: int| 0 <= a < n1[q].len() implies n1[q][a] == n2[q][a] by {
            let x = (q as usize, a as usize);
            lemma_flat_index(reqs, x, x);
            let i = tot + flat_index(reqs, x);
            if n1[q][a] {
                assert(key_set(reqs, p1, n1).contains(i));
                assert(key_set(reqs, p2, n2).contains(i));
                if exists|q2: int| 0 <= q2 < p2.len() && #[trigger] p2[q2] is Some && i == flat_index(reqs, (q2 as usize, p2[q2].unwrap())) {
                    let q2 = choose|q2: int| 0 <= q2 < p2.len() && #[trigger] p2[q2] is Some && i == flat_index(reqs, (q2 as usize, p2[q2].unwrap()));
                    lemma_flat_index(reqs, (q2 as usize, p2[q2].unwrap()), (q2 as usize, p2[q2].unwrap()));
                } else {
                    let y = choose|y: (usize, usize)| valid_id(reqs, y) && #[trigger] n2[y.0 as int][y.1 as int] && i == tot + flat_index(reqs, y);
                    lemma_flat_index(reqs, x, y);
                }
            }
            if n2[q][a] {
                assert(key_set(reqs, p2, n2).contains(i));
                assert(key_set(reqs, p1, n1).contains(i));
                if exists|q2: int| 0 <= q2 < p1.len() && #[trigger] p1[q2] is Some && i == flat_index(reqs, (q2 as usize, p1[q2].unwrap())) {
                    let q2 = choose|q2: int| 0 <= q2 < p1.len() && #[trigger] p1[q2] is Some && i == flat_index(reqs, (q2 as usize, p1[q2].unwrap()));
                    lemma_flat_index(reqs, (q2 as usize, p1[q2].unwrap()), (q2 as usize, p1[q2].unwrap()));
                } else {
                    let y = choose|y: (usize, usize)| valid_id(reqs, y) && #[trigger] n1[y.0 as int][y.1 as int] && i == tot + flat_index(reqs, y);
                    lemma_flat_index(reqs, x, y);
                }
            }
        }
    }
    assert(n1 =~= n2);
}

/// Two greedy allocations under the same constraints are the same.
proof fn lemma_greedy_unique(h: SparseScheduleConflictHillClimber, pos: Seq<Option<usize>>, neg: Seq<Seq<bool>>, a1: Seq<Option<usize>>, a2: Seq<Option<usize>>)
    requires
        greedy_allocation(h, pos, neg, a1),
        greedy_allocation(h, pos, neg, a2),
        h.scores().len() == h.requests().len(),
        forall|q: int| 0 <= q < h.requests().len() ==> (#[trigger] h.scores()[q]).len() == h.requests()[q].len(),
    ensures
        a1 == a2,
{
    assert forall|q: int| 0 <= q < a1.len() implies a1[q] == a2[q] by {
        if pos[q] is None {
            if a1[q] is Some && a2[q] is Some {
                let x = a1[q].unwrap() as int;
                let y = a2[q].unwrap() as int;
                assert(greedy_pick(h, q, neg[q], x));
                assert(greedy_pick(h, q, neg[q], y));
            } else if a1[q] is Some {
                assert(greedy_pick(h, q, neg[q], a1[q].unwrap() as int));
                assert(neg[q][a1[q].unwrap() as int]);
            } else if a2[q] is Some {
                assert(greedy_pick(h, q, neg[q], a2[q].unwrap() as int));
                assert(neg[q][a2[q].unwrap() as int]);
            }
        }
    }
    assert(a1 =~= a2);
}

/// With nothing left unallocated, every request has an alternative.
proof fn lemma_no_unallocated(alloc: Seq<Option<usize>>)
    requires
        count_unallocated(alloc) == 0,
    ensures
        forall|q: int| 0 <= q < alloc.len() ==> #[trigger] alloc[q] is Some,
    decreases alloc.len(),
{
    if alloc.len() > 0 {
        lemma_no_unallocated(alloc.drop_last());
        assert forall|q: int| 0 <= q < alloc.len() implies #[trigger] alloc[q] is Some by {
            if q < alloc.len() - 1 { assert(alloc.drop_last()[q] == alloc[q]); }
        }
    }
}

/// A copy of `v`.
fn copy_pos(v: &Vec<Option<usize>>) -> (r: Vec<Option<usize>>)
    ensures
        r@ == v@,
{
    let mut out: Vec<Option<usize>> = Vec::new();
    let mut i: usize = 0;
    while i < v.len()
        invariant
            i <= v@.len(),
            out@ == v@.take(i as int),
        decreases v@.len() - i,
    {
        out.push(v[i]);
        proof { assert(out@ =~= v@.take(i + 1)); }
        i = i + 1;
    }
    proof { assert(v@.take(v@.len() as int) =~= v@); }
    out
}

/// A copy of `v`.
fn copy_neg(v: &Vec<Vec<bool>>) -> (r: Vec<Vec<bool>>)
    ensures
        nested_view(r@) == nested_view(v@),
{
    let mut out: Vec<Vec<bool>> = Vec::new();
    let mut i: usize = 0;
    while i < v.len()
        invariant
            i <= v@.len(),
            out@.len() == i,
            forall|k: int| 0 <= k < i ==> (#[trigger] out@[k])@ == v@[k]@,
        decreases v@.len() - i,
    {
        let row = &v[i];
        let mut copy: Vec<bool> = Vec::new();
        let mut a: usize = 0;
        while a < row.len()
            invariant
                a <= row@.len(),
                copy@ == row@.take(a as int),
            decreases row@.len() - a,
        {
            copy.push(row[a]);
            proof { assert(copy@ =~= row@.take(a + 1)); }
            a = a + 1;
        }
        proof { assert(row@.take(row@.len() as int) =~= row@); }
        out.push(copy);
        i = i + 1;
    }
    proof { assert(nested_view(out@) =~= nested_view(v@)); }
    out
}

/// Whether two pairs of constraints are equal.
fn same_key(p1: &Vec<Option<usize>>, n1: &Vec<Vec<bool>>, p2: &Vec<Option<usize>>, n2: &Vec<Vec<bool>>) -> (r: bool)
    ensures
        r == (p1@ == p2@ && nested_view(n1@) == nested_view(n2@)),
{
    if p1.len() != p2.len() || n1.len() != n2.len() {
        proof {
            if nested_view(n1@) == nested_view(n2@) { assert(nested_view(n1@).len() == nested_view(n2@).len()); }
        }
        return false;
    }
    let mut i: usize = 0;
    while i < p1.len()
        invariant
            p1@.len() == p2@.len(),
            i <= p1@.len(),
            forall|k: int| 0 <= k < i ==> p1@[k] == p2@[k],
        decreases p1@.len() - i,
    {
        let same = match (p1[i], p2[i]) {
            (Some(a), Some(b)) => a == b,
            (None, None) => true,
            _ => false,
        };
        if !same {
            return false;
        }
        i = i + 1;
    }
    proof { assert(p1@ =~= p2@); }
    let mut q: usize = 0;
    while q < n1.len()
        invariant
            n1@.len() == n2@.len(),
            p1@ == p2@,
            q <= n1@.len(),
            forall|k: int| 0 <= k < q ==> n1@[k]@ == n2@[k]@,
        decreases n1@.len() - q,
    {
        let r1 = &n1[q];
        let r2 = &n2[q];
        if r1.len() != r2.len() {
            proof { if nested_view(n1@) == nested_view(n2@) { assert(nested_view(n1@)[q as int] == nested_view(n2@)[q as int]); } }
            return false;
        }
        let mut a: usize = 0;
        while a < r1.len()
            invariant
                r1@.len() == r2@.len(),
                n1@.len() == n2@.len(),
                q < n1@.len(),
                r1@ == n1@[q as int]@,
                r2@ == n2@[q as int]@,
                a <= r1@.len(),
                forall|k: int| 0 <= k < a ==> r1@[k] == r2@[k],
            decreases r1@.len() - a,
        {
            if r1[a] != r2[a] {
                proof { if nested_view(n1@) == nested_view(n2@) { assert(nested_view(n1@)[q as int] == nested_view(n2@)[q as int]); assert(nested_view(n1@)[q as int][a as int] == r1@[a as int]); } }
                return false;
            }
            a = a + 1;
        }
        proof { assert(r1@ =~= r2@); }
        q = q + 1;
    }
    proof { assert(nested_view(n1@) =~= nested_view(n2@)); }
    true
}

/// The constraints of an explored node.
struct ExploredKey {
    pos: Vec<Option<usize>>,
    neg: Vec<Vec<bool>>,
}

/// Whether the constraints `(p, n)` are among `explored`.
fn explored_contains(explored: &Vec<ExploredKey>, p: &Vec<Option<usize>>, n: &Vec<Vec<bool>>) -> (r: bool)
    ensures
        r == exists|i: int| 0 <= i < explored@.len() && (#[trigger] explored@[i]).pos@ == p@ && nested_view(explored@[i].neg@) == nested_view(n@),
{
    let mut i: usize = 0;
    while i < explored.len()
        invariant
            i <= explored@.len(),
            forall|k: int| 0 <= k < i ==> !((#[trigger] explored@[k]).pos@ == p@ && nested_view(explored@[k].neg@) == nested_view(n@)),
        decreases explored@.len() - i,
    {
        if same_key(&explored[i].pos, &explored[i].neg, p, n) {
            return true;
        }
        i = i + 1;
    }
    false
}

impl Solution {
    /// The allocation `alloc` is the greedy allocation under this node's
    /// constraints, and the node's cost, count of requests without an
    /// alternative and conflicts are those of `alloc`.
    pub open spec fn describes(&self, h: SparseScheduleConflictHillClimber, alloc: Seq<Option<usize>>) -> bool {
        &&& greedy_allocation(h, self.positive_spec(), self.negative_spec(), alloc)
        &&& self.unallocated_spec() == count_unallocated(alloc)
        &&& self.cost_spec() == allocation_cost(h.scores(), alloc)
        &&& self.conflicts_spec().to_set() == conflicting_chosen(h, alloc)
    }
}

impl SparseScheduleConflictHillClimber {
    /// Frees the forced alternatives that starved some request, bans them,
    /// bans what the remaining forced alternatives conflict with, and
    /// allocates again.
    fn backtrack(&self, assignments: &mut Vec<Option<usize>>, solution: &Solution,
        implications: &Vec<Vec<Vec<(usize, usize)>>>, backtracker: &Vec<Vec<Vec<(usize, usize)>>>) -> (r: Solution)
        requires
            constraints_shaped(*self, solution.positive_spec(), solution.negative_spec()),
            solution.groups_valid(self.requests()),
            old(assignments)@.len() == self.requests().len(),
            allocation_valid(*self, old(assignments)@),
            empty_requests_unallocated(self.requests(), old(assignments)@),
            implications@.len() == self.requests().len(),
            forall|q: int| 0 <= q < self.requests().len() ==> (#[trigger] implications@[q])@.len() == self.requests()[q].len(),
            forall|q: int, a: int, k: int| 0 <= q < implications@.len() && 0 <= a < implications@[q]@.len() && 0 <= k < implications@[q]@[a]@.len() ==>
                valid_id(self.requests(), #[trigger] implications@[q]@[a]@[k]),
            backtracker@.len() == self.requests().len(),
            forall|q: int| 0 <= q < self.requests().len() ==> (#[trigger] backtracker@[q])@.len() == self.requests()[q].len(),
            forall|q: int, a: int, k: int| 0 <= q < backtracker@.len() && 0 <= a < backtracker@[q]@.len() && 0 <= k < backtracker@[q]@[a]@.len() ==>
                valid_id(self.requests(), #[trigger] backtracker@[q]@[a]@[k]),
        ensures
            r.describes(*self, final(assignments)@),
            forall|k: int| 0 <= k < r.conflicts_spec().len() ==> valid_id(self.requests(), #[trigger] r.conflicts_spec()[k]),
            constraints_shaped(*self, r.positive_spec(), r.negative_spec()),
            allocation_valid(*self, final(assignments)@),
            empty_requests_unallocated(self.requests(), final(assignments)@),
            r.groups_valid(self.requests()),
    {
        let n = self.num_requests();
        let mut pos = copy_pos(&solution.positive_constraints);
        let mut backtracked: Vec<(usize, usize)> = Vec::new();
        let mut g: usize = 0;
        while g < solution.starvation_groups_found.len()
            invariant
                n == self.requests().len(),
                constraints_shaped(*self, pos@, solution.negative_spec()),
                solution.groups_valid(self.requests()),
                g <= solution.starvation_groups_found@.len(),
                forall|k: int| 0 <= k < backtracked@.len() ==> valid_id(self.requests(), #[trigger] backtracked@[k]),
            decreases solution.starvation_groups_found@.len() - g,
        {
            let members = &solution.starvation_groups_found[g].positive;
            let mut k: usize = 0;
            while k < members.len()
                invariant
                    n == self.requests().len(),
                    constraints_shaped(*self, pos@, solution.negative_spec()),
                    solution.groups_valid(self.requests()),
                    g < solution.starvation_groups_found@.len(),
                    members@ == solution.starvation_groups_found@[g as int].positive@,
                    k <= members@.len(),
                    forall|k2: int| 0 <= k2 < backtracked@.len() ==> valid_id(self.requests(), #[trigger] backtracked@[k2]),
                decreases members@.len() - k,
            {
                let (key, value) = members[k];
                proof { assert(valid_id(self.requests(), members@[k as int])); }
                if pos[key] == Some(value) {
                    pos.set(key, None);
                    backtracked.push((key, value));
                }
                k = k + 1;
            }
            g = g + 1;
        }
        let mut neg: Vec<Vec<bool>> = Vec::new();
        let mut q: usize = 0;
        while q < n
            invariant
                n == self.requests().len(),
                q <= n,
                neg@.len() == q,
                forall|q2: int| 0 <= q2 < q ==> (#[trigger] neg@[q2])@.len() == self.requests()[q2].len(),
            decreases n - q,
        {
            let m = self.num_alternatives(q);
            let mut row: Vec<bool> = Vec::new();
            let mut a: usize = 0;
            while a < m
                invariant
                    a <= m,
                    row@.len() == a,
                decreases m - a,
            {
                row.push(false);
                a = a + 1;
            }
            neg.push(row);
            q = q + 1;
        }
        let mut q: usize = 0;
        while q < n
            invariant
                n == self.requests().len(),
                constraints_shaped(*self, pos@, nested_view(neg@)),
                implications@.len() == n,
                forall|q2: int| 0 <= q2 < n ==> (#[trigger] implications@[q2])@.len() == self.requests()[q2].len(),
                forall|q2: int, a: int, k: int| 0 <= q2 < implications@.len() && 0 <= a < implications@[q2]@.len() && 0 <= k < implications@[q2]@[a]@.len() ==>
                    valid_id(self.requests(), #[trigger] implications@[q2]@[a]@[k]),
                q <= n,
            decreases n - q,
        {
            if let Some(v) = pos[q] {
                proof { assert(pos@[q as int] matches Some(a) ==> a < self.requests()[q as int].len()); }
                let list = &implications[q][v];
                let mut k: usize = 0;
                while k < list.len()
                    invariant
                        n == self.requests().len(),
                        constraints_shaped(*self, pos@, nested_view(neg@)),
                        forall|k2: int| 0 <= k2 < list@.len() ==> valid_id(self.requests(), #[trigger] list@[k2]),
                        k <= list@.len(),
                    decreases list@.len() - k,
                {
                    let y = list[k];
                    set_banned(&mut neg, y, Ghost(self.requests()), Ghost(pos@), Ghost(*self));
                    k = k + 1;
                }
            }
            q = q + 1;
        }
        let mut k: usize = 0;
        while k < backtracked.len()
            invariant
                n == self.requests().len(),
                constraints_shaped(*self, pos@, nested_view(neg@)),
                forall|k2: int| 0 <= k2 < backtracked@.len() ==> valid_id(self.requests(), #[trigger] backtracked@[k2]),
                k <= backtracked@.len(),
            decreases backtracked@.len() - k,
        {
            set_banned(&mut neg, backtracked[k], Ghost(self.requests()), Ghost(pos@), Ghost(*self));
            k = k + 1;
        }
        let r = self.greedy_allocate(assignments, pos, neg, backtracker);
        r
    }
}

/// Bans alternative `y` in `neg`.
fn set_banned(neg: &mut Vec<Vec<bool>>, y: (usize, usize), Ghost(reqs): Ghost<Seq<Seq<ReservationRequestAlternative>>>,
    Ghost(pos): Ghost<Seq<Option<usize>>>, Ghost(h): Ghost<SparseScheduleConflictHillClimber>)
    requires
        reqs == h.requests(),
        constraints_shaped(h, pos, nested_view(old(neg)@)),
        valid_id(reqs, y),
    ensures
        constraints_shaped(h, pos, nested_view(final(neg)@)),
        nested_view(final(neg)@) == nested_view(old(neg)@).update(y.0 as int, nested_view(old(neg)@)[y.0 as int].update(y.1 as int, true)),
{
    let ghost before = nested_view(neg@);
    let mut row = Vec::new();
    assert(before[y.0 as int].len() == reqs[y.0 as int].len());
    std::mem::swap(&mut row, &mut neg[y.0]);
    assert(row@ == before[y.0 as int]);
    row.set(y.1, true);
    neg.set(y.0, row);
    proof {
        assert(nested_view(neg@) =~= before.update(y.0 as int, before[y.0 as int].update(y.1 as int, true)));
    }
}

proof fn lemma_measure_insert(u: Set<Set<int>>, e: Set<Set<int>>, k: Set<int>)
    requires
        u.finite(),
        u.contains(k),
        !e.contains(k),
    ensures
        u.difference(e.insert(k)).len() + 1 == u.difference(e).len(),
{
    assert(u.difference(e.insert(k)) =~= u.difference(e).remove(k));
    vstd::set_lib::lemma_len_subset(u.difference(e), u);
}

/// The node constraints of `keys`, as sets of integers.
spec fn key_sets_of(reqs: Seq<Seq<ReservationRequestAlternative>>, keys: Seq<ExploredKey>) -> Set<Set<int>> {
    Set::new(|s: Set<int>| exists|i: int| 0 <= i < keys.len() && s == key_set(reqs, (#[trigger] keys[i]).pos@, nested_view(keys[i].neg@)))
}

/// The alternatives a hint forces: for each of the `n` requests, the hinted one.
pub open spec fn hint_constraints(hint: Map<usize, usize>, n: nat) -> Seq<Option<usize>> {
    Seq::new(n, |q: int| if hint.contains_key(q as usize) { Some(hint[q as usize]) } else { None })
}

/// No alternative of `reqs` banned.
pub open spec fn no_bans(reqs: Seq<Seq<ReservationRequestAlternative>>) -> Seq<Seq<bool>> {
    Seq::new(reqs.len(), |q: int| Seq::new(reqs[q].len(), |a: int| false))
}

/// The greedy allocation under the hint (hinted alternatives, else the first
/// cheapest) gives every request an alternative and has no conflict.
pub open spec fn hint_allocation_clear(h: SparseScheduleConflictHillClimber, hint: Map<usize, usize>) -> bool {
    forall|alloc: Seq<Option<usize>>| #[trigger] greedy_allocation(h, hint_constraints(hint, h.requests().len()), no_bans(h.requests()), alloc)
        ==> count_unallocated(alloc) == 0 && conflicting_chosen(h, alloc) == Set::<(usize, usize)>::empty()
}

/// `a` comes before `b` in the search: fewer requests without an
/// alternative, then lower cost, then fewer conflicts.
spec fn solution_better(a: Solution, b: Solution) -> bool {
    ||| a.unallocated_spec() < b.unallocated_spec()
    ||| (a.unallocated_spec() == b.unallocated_spec() && a.cost_spec() < b.cost_spec())
    ||| (a.unallocated_spec() == b.unallocated_spec() && a.cost_spec() == b.cost_spec()
            && a.conflicts_spec().len() < b.conflicts_spec().len())
}

/// Index of the best node of `pq`: fewest requests without an alternative,
/// then lowest cost, then fewest conflicts; the first such.
fn best_index(pq: &Vec<Solution>) -> (r: usize)
    requires
        pq@.len() > 0,
    ensures
        r < pq@.len(),
        forall|i: int| 0 <= i < pq@.len() ==> !solution_better(#[trigger] pq@[i], pq@[r as int]),
        forall|i: int| 0 <= i < r ==> solution_better(pq@[r as int], #[trigger] pq@[i]),
{
    let mut best: usize = 0;
    let mut i: usize = 1;
    while i < pq.len()
        invariant
            pq@.len() > 0,
            best < i <= pq@.len(),
            forall|j: int| 0 <= j < i ==> !solution_better(#[trigger] pq@[j], pq@[best as int]),
            forall|j: int| 0 <= j < best ==> solution_better(pq@[best as int], #[trigger] pq@[j]),
        decreases pq@.len() - i,
    {
        let a = &pq[i];
        let b = &pq[best];
        let better = a.unallocated < b.unallocated
            || (a.unallocated == b.unallocated && (a.cost < b.cost
                || (a.cost == b.cost && a.conflicts.len() < b.conflicts.len())));
        proof { assert(better == solution_better(pq@[i as int], pq@[best as int])); }
        if better {
            best = i;
        }
        i = i + 1;
    }
    best
}

/// The lists `implications[x]` of the alternatives `x` of `conflicts`, one after the other.
spec fn banned_by(conflicts: Seq<(usize, usize)>, implications: Seq<Vec<Vec<(usize, usize)>>>) -> Seq<(usize, usize)>
    decreases conflicts.len(),
{
    if conflicts.len() == 0 {
        Seq::empty()
    } else {
        let x = conflicts.last();
        banned_by(conflicts.drop_last(), implications) + implications[x.0 as int]@[x.1 as int]@
    }
}

impl SparseScheduleConflictHillClimber {
    /// The alternatives banned by the choice of each conflicting alternative
    /// of `sol`, in order, repeats included.
    fn options_of(&self, sol: &Solution, implications: &Vec<Vec<Vec<(usize, usize)>>>) -> (r: Vec<(usize, usize)>)
        requires
            forall|k: int| 0 <= k < sol.conflicts_spec().len() ==> valid_id(self.requests(), #[trigger] sol.conflicts_spec()[k]),
            implications@.len() == self.requests().len(),
            forall|q: int| 0 <= q < self.requests().len() ==> (#[trigger] implications@[q])@.len() == self.requests()[q].len(),
            forall|q: int, a: int, k: int| 0 <= q < implications@.len() && 0 <= a < implications@[q]@.len() && 0 <= k < implications@[q]@[a]@.len() ==>
                valid_id(self.requests(), #[trigger] implications@[q]@[a]@[k]),
        ensures
            forall|k: int| 0 <= k < r@.len() ==> valid_id(self.requests(), #[trigger] r@[k]),
            r@ == banned_by(sol.conflicts_spec(), implications@),
    {
        let mut out: Vec<(usize, usize)> = Vec::new();
        let mut i: usize = 0;
        proof { assert(sol.conflicts@.take(0) =~= Seq::<(usize, usize)>::empty()); }
        while i < sol.conflicts.len()
            invariant
                out@ == banned_by(sol.conflicts@.take(i as int), implications@),
                forall|k: int| 0 <= k < sol.conflicts_spec().len() ==> valid_id(self.requests(), #[trigger] sol.conflicts_spec()[k]),
                implications@.len() == self.requests().len(),
                forall|q: int| 0 <= q < self.requests().len() ==> (#[trigger] implications@[q])@.len() == self.requests()[q].len(),
                forall|q: int, a: int, k: int| 0 <= q < implications@.len() && 0 <= a < implications@[q]@.len() && 0 <= k < implications@[q]@[a]@.len() ==>
                    valid_id(self.requests(), #[trigger] implications@[q]@[a]@[k]),
                i <= sol.conflicts@.len(),
                forall|k: int| 0 <= k < out@.len() ==> valid_id(self.requests(), #[trigger] out@[k]),
            decreases sol.conflicts@.len() - i,
        {
            let x = sol.conflicts[i];
            proof { assert(valid_id(self.requests(), sol.conflicts_spec()[i as int])); }
            let list = &implications[x.0][x.1];
            let mut k: usize = 0;
            while k < list.len()
                invariant
                    forall|k2: int| 0 <= k2 < list@.len() ==> valid_id(self.requests(), #[trigger] list@[k2]),
                    k <= list@.len(),
                    forall|k2: int| 0 <= k2 < out@.len() ==> valid_id(self.requests(), #[trigger] out@[k2]),
                    out@ == banned_by(sol.conflicts@.take(i as int), implications@) + list@.take(k as int),
                decreases list@.len() - k,
            {
                out.push(list[k]);
                proof {
                    assert(list@.take(k + 1) =~= list@.take(k as int).push(list@[k as int]));
                }
                k = k + 1;
            }
            proof {
                assert(sol.conflicts@.take(i + 1).drop_last() =~= sol.conflicts@.take(i as int));
                assert(list@.take(list@.len() as int) =~= list@);
                assert(sol.conflicts@.take(i + 1).last() == x);
            }
            i = i + 1;
        }
        proof { assert(sol.conflicts@.take(sol.conflicts@.len() as int) =~= sol.conflicts@); }
        out
    }

    /// Searches for an allocation without conflicts and with an alternative
    /// for every request, by best-first search over constraints. From the
    /// greedy allocation under the `hint`ed alternatives, each node is
    /// expanded by forcing, in turn, each alternative banned by the choice of
    /// one of its conflicting alternatives, and banning what that one
    /// conflicts with; a node that starves a request is backtracked. Nodes
    /// already met are not expanded again. Returns the first node found
    /// without conflicts and with nothing left unallocated, with its
    /// allocation; `None` when the search runs out of nodes.
    pub fn solve(&self, hint: HashMap<usize, usize>) -> (r: Option<(Solution, Vec<Option<usize>>)>)
        requires
            forall|q: usize| hint@.contains_key(q) && q < self.requests().len() ==> hint@[q] < self.requests()[q as int].len(),
        ensures
            r matches Some(res) ==> res.0.describes(*self, res.1@) && allocation_valid(*self, res.1@),
            (hint@ == Map::<usize, usize>::empty() && r is Some) ==> {
                let (sol, alloc) = r.unwrap();
                &&& sol.unallocated_spec() == 0
                &&& sol.conflicts_spec().len() == 0
                &&& forall|q: int| 0 <= q < alloc@.len() ==> #[trigger] alloc@[q] is Some
                &&& conflicting_chosen(*self, alloc@) == Set::<(usize, usize)>::empty()
                &&& sol.cost_spec() == allocation_cost(self.scores(), alloc@)
            },
            hint_allocation_clear(*self, hint@) ==> r is Some,
    {
        let n = self.num_requests();
        let ghost reqs = self.requests();
        proof { use_type_invariant(self); }
        let (implications, backtracker) = self.get_implications();
        proof {
            assert forall|q: int, a: int, k: int| 0 <= q < implications@.len() && 0 <= a < implications@[q]@.len() && 0 <= k < implications@[q]@[a]@.len() implies
                valid_id(reqs, #[trigger] implications@[q]@[a]@[k]) by {
                let y = implications@[q]@[a]@[k];
                let x = (q as usize, a as usize);
                assert(x.0 as int == q && x.1 as int == a);
                assert(implications@[x.0 as int]@[x.1 as int]@.contains(y));
            }
            assert forall|q: int, a: int, k: int| 0 <= q < backtracker@.len() && 0 <= a < backtracker@[q]@.len() && 0 <= k < backtracker@[q]@[a]@.len() implies
                valid_id(reqs, #[trigger] backtracker@[q]@[a]@[k]) by {
                let y = backtracker@[q]@[a]@[k];
                let x = (q as usize, a as usize);
                assert(x.0 as int == q && x.1 as int == a);
                assert(backtracker@[x.0 as int]@[x.1 as int]@.contains(y));
            }
        }
        let mut assignments: Vec<Option<usize>> = Vec::new();
        let mut hint_pos: Vec<Option<usize>> = Vec::new();
        let mut no_pos: Vec<Option<usize>> = Vec::new();
        let mut q: usize = 0;
        while q < n
            invariant
                n == reqs.len(),
                reqs == self.requests(),
                q <= n,
                assignments@.len() == q,
                hint_pos@.len() == q,
                no_pos@.len() == q,
                forall|q2: int| 0 <= q2 < q ==> #[trigger] assignments@[q2] is None,
                forall|q2: int| 0 <= q2 < q ==> #[trigger] no_pos@[q2] is None,
                forall|q2: int| 0 <= q2 < q ==> (#[trigger] hint_pos@[q2] matches Some(a) ==> a < reqs[q2].len()),
                forall|q2: usize| hint@.contains_key(q2) && q2 < reqs.len() ==> hint@[q2] < reqs[q2 as int].len(),
                hint@ == Map::<usize, usize>::empty() ==> forall|q2: int| 0 <= q2 < q ==> #[trigger] hint_pos@[q2] is None,
                forall|q2: int| 0 <= q2 < q ==> #[trigger] hint_pos@[q2] == hint_constraints(hint@, n as nat)[q2],
            decreases n - q,
        {
            assignments.push(None);
            no_pos.push(None);
            let h = match hint.get(&q) {
                Some(a) => Some(*a),
                None => None,
            };
            hint_pos.push(h);
            q = q + 1;
        }
        let mut neg0: Vec<Vec<bool>> = Vec::new();
        let mut q: usize = 0;
        while q < n
            invariant
                n == reqs.len(),
                reqs == self.requests(),
                q <= n,
                neg0@.len() == q,
                forall|q2: int| 0 <= q2 < q ==> (#[trigger] neg0@[q2])@.len() == reqs[q2].len(),
                forall|q2: int| 0 <= q2 < q ==> (#[trigger] neg0@[q2])@ == no_bans(reqs)[q2],
            decreases n - q,
        {
            let m = self.num_alternatives(q);
            let mut row: Vec<bool> = Vec::new();
            let mut a: usize = 0;
            while a < m
                invariant
                    a <= m,
                    row@.len() == a,
                    forall|a2: int| 0 <= a2 < a ==> row@[a2] == false,
                decreases m - a,
            {
                row.push(false);
                a = a + 1;
            }
            proof { assert(row@ =~= no_bans(reqs)[q as int]); }
            neg0.push(row);
            q = q + 1;
        }
        proof {
            assert(hint_pos@ =~= hint_constraints(hint@, n as nat));
            assert(nested_view(neg0@) =~= no_bans(reqs));
        }
        let mut initial = self.greedy_allocate(&mut assignments, hint_pos, neg0, &backtracker);
        let ghost greedy_ok = initial.conflicts_spec().len() == 0 && initial.unallocated_spec() == 0;
        proof {
            if hint_allocation_clear(*self, hint@) {
                assert(greedy_allocation(*self, hint_constraints(hint@, reqs.len()), no_bans(reqs), assignments@));
                assert(initial.conflicts_spec().to_set() =~= Set::<(usize, usize)>::empty());
                if initial.conflicts_spec().len() > 0 { assert(initial.conflicts_spec().to_set().contains(initial.conflicts_spec()[0])); }
                assert(greedy_ok);
            }
        }
        proof {
            if hint@ == Map::<usize, usize>::empty() {
                assert(initial.positive_spec() =~= no_pos@);
            }
        }
        initial.positive_constraints = no_pos;
        let ghost hint_empty = hint@ == Map::<usize, usize>::empty();
        let ghost tot2 = (2 * total_alternatives(reqs)) as nat;
        let ghost universe = subsets_below(tot2);
        proof { lemma_subsets_below_finite(tot2); }
        let mut pq: Vec<Solution> = Vec::new();
        let ghost alloc0 = assignments@;
        pq.push(initial);
        proof {
            if hint_empty {
                assert(pq@[0].describes(*self, alloc0));
                assert(allocation_valid(*self, alloc0));
            }
        }
        let mut explored: Vec<ExploredKey> = Vec::new();
        let ghost mut first = true;
        proof { assert(pq@[0].conflicts_spec().len() == 0 && pq@[0].unallocated_spec() == 0 <==> greedy_ok); }
        proof {
            assert(key_sets_of(reqs, explored@) =~= Set::<Set<int>>::empty());
        }
        while pq.len() > 0
            invariant
                n == reqs.len(),
                reqs == self.requests(),
                universe == subsets_below(tot2),
                universe.finite(),
                tot2 == (2 * total_alternatives(reqs)) as nat,
                reqs.len() <= usize::MAX,
                forall|q2: int| 0 <= q2 < reqs.len() ==> (#[trigger] reqs[q2]).len() <= usize::MAX,
                self.scores().len() == reqs.len(),
                forall|q2: int| 0 <= q2 < reqs.len() ==> (#[trigger] self.scores()[q2]).len() == reqs[q2].len(),
                assignments@.len() == n,
                allocation_valid(*self, assignments@),
                empty_requests_unallocated(reqs, assignments@),
                implications@.len() == n,
                forall|q2: int| 0 <= q2 < n ==> (#[trigger] implications@[q2])@.len() == reqs[q2].len(),
                forall|q2: int, a: int, k: int| 0 <= q2 < implications@.len() && 0 <= a < implications@[q2]@.len() && 0 <= k < implications@[q2]@[a]@.len() ==>
                    valid_id(reqs, #[trigger] implications@[q2]@[a]@[k]),
                backtracker@.len() == n,
                forall|q2: int| 0 <= q2 < n ==> (#[trigger] backtracker@[q2])@.len() == reqs[q2].len(),
                forall|q2: int, a: int, k: int| 0 <= q2 < backtracker@.len() && 0 <= a < backtracker@[q2]@.len() && 0 <= k < backtracker@[q2]@[a]@.len() ==>
                    valid_id(reqs, #[trigger] backtracker@[q2]@[a]@[k]),
                forall|x: (usize, usize), y: (usize, usize)| valid_id(reqs, x) ==>
                    (#[trigger] implications@[x.0 as int]@[x.1 as int]@.contains(y) <==> (y == x || self.conflict_set(x).contains(y))),
                forall|i: int| 0 <= i < pq@.len() ==> constraints_shaped(*self, (#[trigger] pq@[i]).positive_spec(), pq@[i].negative_spec())
                    && pq@[i].groups_valid(reqs)
                    && (forall|k: int| 0 <= k < pq@[i].conflicts_spec().len() ==> valid_id(reqs, #[trigger] pq@[i].conflicts_spec()[k])),
                hint_empty == (hint@ == Map::<usize, usize>::empty()),
                (!first || hint_empty) ==> forall|i: int| 0 <= i < pq@.len() ==>
                    exists|alloc: Seq<Option<usize>>| allocation_valid(*self, alloc) && (#[trigger] pq@[i]).describes(*self, alloc),
                first ==> pq@.len() == 1,
                first ==> (greedy_ok <==> pq@[0].conflicts_spec().len() == 0 && pq@[0].unallocated_spec() == 0),
                greedy_ok ==> first,
                hint_allocation_clear(*self, hint@) ==> greedy_ok,
                forall|i: int| 0 <= i < explored@.len() ==> key_shaped(reqs, (#[trigger] explored@[i]).pos@, nested_view(explored@[i].neg@)),
                key_sets_of(reqs, explored@).subset_of(universe),
            decreases 2 * universe.difference(key_sets_of(reqs, explored@)).len() + pq@.len(),
        {
            let ghost m0 = 2 * universe.difference(key_sets_of(reqs, explored@)).len() + pq@.len();
            let bi = best_index(&pq);
            let ghost popped = pq@[bi as int];
            let sol = pq.remove(bi);
            proof {
                assert(sol == popped);
                assert forall|i: int| 0 <= i < pq@.len() implies constraints_shaped(*self, (#[trigger] pq@[i]).positive_spec(), pq@[i].negative_spec())
                    && pq@[i].groups_valid(reqs)
                    && (forall|k: int| 0 <= k < pq@[i].conflicts_spec().len() ==> valid_id(reqs, #[trigger] pq@[i].conflicts_spec()[k])) by {
                    if i < bi { assert(pq@[i] == old_pq_at(pq@, i)); }
                }
            }
            if sol.conflicts.len() == 0 && sol.unallocated == 0 {
                let p = copy_pos(&sol.positive_constraints);
                let ng = copy_neg(&sol.negative_constraints);
                let s2 = self.greedy_allocate(&mut assignments, p, ng, &backtracker);
                proof {
                    if !first || hint_empty {
                        let alloc = choose|alloc: Seq<Option<usize>>| allocation_valid(*self, alloc) && popped.describes(*self, alloc);
                        assert(popped.describes(*self, alloc));
                        assert(greedy_allocation(*self, sol.positive_spec(), sol.negative_spec(), assignments@));
                        lemma_greedy_unique(*self, sol.positive_spec(), sol.negative_spec(), alloc, assignments@);
                        assert(s2.unallocated_spec() == 0);
                        lemma_no_unallocated(assignments@);
                        assert(sol.conflicts_spec().to_set() =~= Set::<(usize, usize)>::empty());
                        assert(s2.conflicts_spec().to_set() == sol.conflicts_spec().to_set());
                        if s2.conflicts_spec().len() > 0 { assert(s2.conflicts_spec().to_set().contains(s2.conflicts_spec()[0])); }
                        assert(s2.conflicts_spec().len() == 0);
                        assert(conflicting_chosen(*self, assignments@) == Set::<(usize, usize)>::empty());
                    }
                }
                return Some((s2, assignments));
            }
            let options = self.options_of(&sol, &implications);
            let mut oi: usize = 0;
            while oi < options.len()
                invariant
                    n == reqs.len(),
                    reqs == self.requests(),
                    universe == subsets_below(tot2),
                    universe.finite(),
                    tot2 == (2 * total_alternatives(reqs)) as nat,
                    reqs.len() <= usize::MAX,
                    forall|q2: int| 0 <= q2 < reqs.len() ==> (#[trigger] reqs[q2]).len() <= usize::MAX,
                    self.scores().len() == reqs.len(),
                    forall|q2: int| 0 <= q2 < reqs.len() ==> (#[trigger] self.scores()[q2]).len() == reqs[q2].len(),
                    assignments@.len() == n,
                    allocation_valid(*self, assignments@),
                    empty_requests_unallocated(reqs, assignments@),
                    implications@.len() == n,
                    forall|q2: int| 0 <= q2 < n ==> (#[trigger] implications@[q2])@.len() == reqs[q2].len(),
                    forall|q2: int, a: int, k: int| 0 <= q2 < implications@.len() && 0 <= a < implications@[q2]@.len() && 0 <= k < implications@[q2]@[a]@.len() ==>
                        valid_id(reqs, #[trigger] implications@[q2]@[a]@[k]),
                    backtracker@.len() == n,
                    forall|q2: int| 0 <= q2 < n ==> (#[trigger] backtracker@[q2])@.len() == reqs[q2].len(),
                    forall|q2: int, a: int, k: int| 0 <= q2 < backtracker@.len() && 0 <= a < backtracker@[q2]@.len() && 0 <= k < backtracker@[q2]@[a]@.len() ==>
                        valid_id(reqs, #[trigger] backtracker@[q2]@[a]@[k]),
                    forall|x: (usize, usize), y: (usize, usize)| valid_id(reqs, x) ==>
                        (#[trigger] implications@[x.0 as int]@[x.1 as int]@.contains(y) <==> (y == x || self.conflict_set(x).contains(y))),
                    constraints_shaped(*self, sol.positive_spec(), sol.negative_spec()),
                    forall|k: int| 0 <= k < options@.len() ==> valid_id(reqs, #[trigger] options@[k]),
                    oi <= options@.len(),
                    forall|i: int| 0 <= i < pq@.len() ==> constraints_shaped(*self, (#[trigger] pq@[i]).positive_spec(), pq@[i].negative_spec())
                        && pq@[i].groups_valid(reqs)
                        && (forall|k: int| 0 <= k < pq@[i].conflicts_spec().len() ==> valid_id(reqs, #[trigger] pq@[i].conflicts_spec()[k])),
                    forall|i: int| 0 <= i < pq@.len() ==>
                        exists|alloc: Seq<Option<usize>>| allocation_valid(*self, alloc) && (#[trigger] pq@[i]).describes(*self, alloc),
                    forall|i: int| 0 <= i < explored@.len() ==> key_shaped(reqs, (#[trigger] explored@[i]).pos@, nested_view(explored@[i].neg@)),
                    key_sets_of(reqs, explored@).subset_of(universe),
                    2 * universe.difference(key_sets_of(reqs, explored@)).len() + pq@.len() + 1 <= m0,
                decreases options@.len() - oi,
            {
                let (req, alt) = options[oi];
                proof { assert(valid_id(reqs, options@[oi as int])); }
                let mut p = copy_pos(&sol.positive_constraints);
                p.set(req, Some(alt));
                let mut ng = copy_neg(&sol.negative_constraints);
                let list = &implications[req][alt];
                let mut k: usize = 0;
                while k < list.len()
                    invariant
                        reqs == self.requests(),
                        constraints_shaped(*self, p@, nested_view(ng@)),
                        forall|k2: int| 0 <= k2 < list@.len() ==> valid_id(reqs, #[trigger] list@[k2]),
                        k <= list@.len(),
                    decreases list@.len() - k,
                {
                    let z = list[k];
                    if z.0 != req || z.1 != alt {
                        set_banned(&mut ng, z, Ghost(reqs), Ghost(p@), Ghost(*self));
                    }
                    k = k + 1;
                }
                let kp = copy_pos(&p);
                let kn = copy_neg(&ng);
                let new = self.greedy_allocate(&mut assignments, p, ng, &backtracker);
                if new.conflicts.len() == 0 && new.unallocated == 0 {
                    proof {
                        lemma_no_unallocated(assignments@);
                        if new.conflicts_spec().to_set().len() > 0 { }
                        assert(new.conflicts_spec().to_set() =~= Set::<(usize, usize)>::empty());
                    }
                    return Some((new, assignments));
                }
                let found = explored_contains(&explored, &kp, &kn);
                let ghost e_before = explored@;
                if !found {
                    proof {
                        lemma_key_set(reqs, kp@, nested_view(kn@));
                        let ks = key_set(reqs, kp@, nested_view(kn@));
                        if key_sets_of(reqs, explored@).contains(ks) {
                            let i = choose|i: int| 0 <= i < explored@.len() && ks == key_set(reqs, (#[trigger] explored@[i]).pos@, nested_view(explored@[i].neg@));
                            lemma_key_injective(reqs, kp@, nested_view(kn@), explored@[i].pos@, nested_view(explored@[i].neg@));
                        }
                        lemma_measure_insert(universe, key_sets_of(reqs, explored@), ks);
                    }
                    explored.push(ExploredKey { pos: kp, neg: kn });
                    proof {
                        assert(key_sets_of(reqs, explored@) =~= key_sets_of(reqs, e_before).insert(key_set(reqs, kp@, nested_view(kn@)))) by {
                            assert forall|s2: Set<int>| key_sets_of(reqs, explored@).contains(s2) implies key_sets_of(reqs, e_before).insert(key_set(reqs, kp@, nested_view(kn@))).contains(s2) by {
                                let i = choose|i: int| 0 <= i < explored@.len() && s2 == key_set(reqs, (#[trigger] explored@[i]).pos@, nested_view(explored@[i].neg@));
                                if i < e_before.len() { assert(explored@[i] == e_before[i]); }
                            }
                            assert forall|s2: Set<int>| key_sets_of(reqs, e_before).contains(s2) implies key_sets_of(reqs, explored@).contains(s2) by {
                                let i = choose|i: int| 0 <= i < e_before.len() && s2 == key_set(reqs, (#[trigger] e_before[i]).pos@, nested_view(e_before[i].neg@));
                                assert(explored@[i] == e_before[i]);
                            }
                            let last = explored@.len() - 1;
                            assert(explored@[last].pos@ == kp@);
                        }
                    }
                }
                if !found && new.unallocated == 0 {
                    pq.push(new);
                } else if new.unallocated > 0 {
                    let bt = self.backtrack(&mut assignments, &new, &implications, &backtracker);
                    if bt.conflicts.len() == 0 && bt.unallocated == 0 {
                        proof {
                            lemma_no_unallocated(assignments@);
                            assert(bt.conflicts_spec().to_set() =~= Set::<(usize, usize)>::empty());
                        }
                        return Some((bt, assignments));
                    }
                    let bp = copy_pos(&bt.positive_constraints);
                    let bn = copy_neg(&bt.negative_constraints);
                    if !explored_contains(&explored, &bp, &bn) {
                        let ghost e_before2 = explored@;
                        proof {
                            lemma_key_set(reqs, bp@, nested_view(bn@));
                            let ks = key_set(reqs, bp@, nested_view(bn@));
                            if key_sets_of(reqs, explored@).contains(ks) {
                                let i = choose|i: int| 0 <= i < explored@.len() && ks == key_set(reqs, (#[trigger] explored@[i]).pos@, nested_view(explored@[i].neg@));
                                lemma_key_injective(reqs, bp@, nested_view(bn@), explored@[i].pos@, nested_view(explored@[i].neg@));
                            }
                            lemma_measure_insert(universe, key_sets_of(reqs, explored@), ks);
                        }
                        explored.push(ExploredKey { pos: bp, neg: bn });
                        proof {
                            assert(key_sets_of(reqs, explored@) =~= key_sets_of(reqs, e_before2).insert(key_set(reqs, bp@, nested_view(bn@)))) by {
                                assert forall|s2: Set<int>| key_sets_of(reqs, explored@).contains(s2) implies key_sets_of(reqs, e_before2).insert(key_set(reqs, bp@, nested_view(bn@))).contains(s2) by {
                                    let i = choose|i: int| 0 <= i < explored@.len() && s2 == key_set(reqs, (#[trigger] explored@[i]).pos@, nested_view(explored@[i].neg@));
                                    if i < e_before2.len() { assert(explored@[i] == e_before2[i]); }
                                }
                                assert forall|s2: Set<int>| key_sets_of(reqs, e_before2).contains(s2) implies key_sets_of(reqs, explored@).contains(s2) by {
                                    let i = choose|i: int| 0 <= i < e_before2.len() && s2 == key_set(reqs, (#[trigger] e_before2[i]).pos@, nested_view(e_before2[i].neg@));
                                    assert(explored@[i] == e_before2[i]);
                                }
                                let last = explored@.len() - 1;
                                assert(explored@[last].pos@ == bp@);
                            }
                        }
                    }
                }
                oi = oi + 1;
            }
            proof {
                if first { assert(bi == 0); assert(!greedy_ok); }
                first = false;
            }
        }
        None
    }
}

spec fn old_pq_at(s: Seq<Solution>, i: int) -> Solution {
    s[i]
}

} // verus!
