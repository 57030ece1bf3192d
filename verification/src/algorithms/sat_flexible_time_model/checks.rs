//! Checks on proposed schedules, and the narrowing of start windows.

use vstd::prelude::*;
use crate::request::{ReservationParameters, ReservationRequestAlternative, StartTimeRange};
use super::problem::{Problem, is_alternative, problem_requests};
use super::schedules::Assignment;

verus! {

/// Alternative `id` has an earliest start and a duration, so packing places it.
pub open spec fn packable(reqs: Seq<Seq<ReservationRequestAlternative>>, id: (usize, usize)) -> bool {
    &&& reqs[id.0 as int][id.1 as int].parameters.start_time.earliest_start is Some
    &&& reqs[id.0 as int][id.1 as int].parameters.duration is Some
}

/// Alternative `id` has an assignment in `s`.
pub open spec fn has_assignment(s: Seq<(Seq<char>, Seq<Assignment>)>, id: (usize, usize)) -> bool {
    exists|r: int, i: int| 0 <= r < s.len() && 0 <= i < s[r].1.len() && (#[trigger] s[r].1[i]).id == id
}

/// Alternative `a` of request `q` is the one chosen in `s`: it has an
/// assignment when packing places it (it has an earliest start and a
/// duration), and no other alternative of the request has one.
pub open spec fn chosen_alternative(reqs: Seq<Seq<ReservationRequestAlternative>>, s: Seq<(Seq<char>, Seq<Assignment>)>, q: int, a: int) -> bool {
    &&& 0 <= a < reqs[q].len()
    &&& packable(reqs, (q as usize, a as usize)) ==> has_assignment(s, (q as usize, a as usize))
    &&& forall|a2: int| #![trigger has_assignment(s, (q as usize, a2 as usize))]
            0 <= a2 < reqs[q].len() && has_assignment(s, (q as usize, a2 as usize)) ==> a2 == a
}

/// Request `q` has exactly one chosen alternative in `s`.
pub open spec fn has_choice(reqs: Seq<Seq<ReservationRequestAlternative>>, s: Seq<(Seq<char>, Seq<Assignment>)>, q: int) -> bool {
    exists|a: int| #[trigger] chosen_alternative(reqs, s, q, a)
}

/// Every request of `reqs` has exactly one chosen alternative in `s`.
pub open spec fn one_alternative_each(reqs: Seq<Seq<ReservationRequestAlternative>>, s: Seq<(Seq<char>, Seq<Assignment>)>) -> bool {
    forall|q: int| 0 <= q < reqs.len() ==> #[trigger] has_choice(reqs, s, q)
}

/// `g` holds at most one alternative of each request and, for every
/// dependency `(a, b)` of `deps`, holds `b` whenever it holds `a`.
pub open spec fn dependency_closed(deps: Seq<((usize, usize), (usize, usize))>, g: Set<(usize, usize)>) -> bool {
    &&& forall|x: (usize, usize), y: (usize, usize)| #[trigger] g.contains(x) && #[trigger] g.contains(y) && x.0 == y.0 ==> x == y
    &&& forall|k: int| 0 <= k < deps.len() && #[trigger] g.contains(deps[k].0) ==> g.contains(deps[k].1)
}

/// The alternatives assigned in `s` are among a choice of at most one
/// alternative per request that honours every dependency of `deps`.
pub open spec fn respects_dependencies(deps: Seq<((usize, usize), (usize, usize))>, s: Seq<(Seq<char>, Seq<Assignment>)>) -> bool {
    exists|g: Set<(usize, usize)>| dependency_closed(deps, g)
        && forall|r: int, i: int| 0 <= r < s.len() && 0 <= i < s[r].1.len() ==> g.contains(#[trigger] s[r].1[i].id)
}

/// In a schedule whose choices honour the dependencies, once the alternative
/// a dependency starts from is assigned, the only alternative of the other
/// request that can be assigned is the one the dependency names.
pub proof fn lemma_dependency_excludes_rivals(deps: Seq<((usize, usize), (usize, usize))>, s: Seq<(Seq<char>, Seq<Assignment>)>,
    k: int, r1: int, i1: int, r2: int, i2: int)
    requires
        respects_dependencies(deps, s),
        0 <= k < deps.len(),
        0 <= r1 < s.len(),
        0 <= i1 < s[r1].1.len(),
        0 <= r2 < s.len(),
        0 <= i2 < s[r2].1.len(),
        s[r1].1[i1].id == deps[k].0,
        s[r2].1[i2].id.0 == deps[k].1.0,
    ensures
        s[r2].1[i2].id == deps[k].1,
{
    let g = choose|g: Set<(usize, usize)>| dependency_closed(deps, g)
        && forall|r: int, i: int| 0 <= r < s.len() && 0 <= i < s[r].1.len() ==> g.contains(#[trigger] s[r].1[i].id);
    assert(g.contains(s[r1].1[i1].id));
    assert(g.contains(s[r2].1[i2].id));
    assert(g.contains(deps[k].1));
}

/// Duration of alternative `id`.
pub open spec fn duration_of(reqs: Seq<Seq<ReservationRequestAlternative>>, id: (usize, usize)) -> Option<i64> {
    reqs[id.0 as int][id.1 as int].parameters.duration
}

/// Walking `s` in order with `last_end` the end of what came before (`None`:
/// something before never ends), nothing starts before its predecessor ends.
pub open spec fn consistent_from(reqs: Seq<Seq<ReservationRequestAlternative>>, s: Seq<Assignment>, last_end: Option<int>) -> bool
    decreases s.len(),
{
    if s.len() == 0 {
        true
    } else {
        match duration_of(reqs, s[0].id) {
            Some(d) => match last_end {
                Some(le) => le <= s[0].start_time && consistent_from(reqs, s.drop_first(), Some(s[0].start_time + d)),
                None => false,
            },
            None => consistent_from(reqs, s.drop_first(), None),
        }
    }
}

/// The assignments, in order, do not overlap: each starts at or after the end
/// of the one before it, and only the last may last for ever.
pub open spec fn is_consistent(reqs: Seq<Seq<ReservationRequestAlternative>>, s: Seq<Assignment>) -> bool {
    s.len() == 0 || consistent_from(reqs, s, Some(s[0].start_time as int))
}

/// Every assignment of `s` names an alternative of `reqs`.
pub open spec fn all_alternatives(reqs: Seq<Seq<ReservationRequestAlternative>>, s: Seq<Assignment>) -> bool {
    forall|i: int| 0 <= i < s.len() ==> is_alternative(reqs, #[trigger] s[i].id)
}

/// Whether the assignments of one resource, in order, do not overlap.
pub fn check_consistency(assignments: &Vec<Assignment>, problem: &Problem) -> (r: bool)
    requires
        all_alternatives(problem_requests(problem), assignments@),
    ensures
        r == is_consistent(problem_requests(problem), assignments@),
{
    let ghost reqs = problem_requests(problem);
    let ghost s = assignments@;
    if assignments.len() == 0 {
        return true;
    }
    let mut last_end: Option<i128> = Some(assignments[0].start_time as i128);
    let mut i: usize = 0;
    proof { assert(s.skip(0) =~= s); }
    while i < assignments.len()
        invariant
            reqs == problem_requests(problem),
            s == assignments@,
            all_alternatives(reqs, s),
            i <= s.len(),
            s.len() > 0,
            is_consistent(reqs, s) == consistent_from(reqs, s.skip(i as int), match last_end { Some(v) => Some(v as int), None => None }),
            last_end matches Some(v) ==> 2 * (i64::MIN as int) <= v <= 2 * (i64::MAX as int),
        decreases s.len() - i,
    {
        let a = assignments[i];
        proof {
            assert(is_alternative(reqs, s[i as int].id));
            assert(s.skip(i as int)[0] == a);
            assert(s.skip(i as int).drop_first() =~= s.skip(i + 1));
        }
        let req = &problem.requests[a.id.0][a.id.1];
        proof { assert(req.parameters.duration == duration_of(reqs, a.id)); }
        match req.parameters.duration {
            Some(duration) => {
                match last_end {
                    Some(last_end_time) => {
                        if last_end_time > a.start_time as i128 {
                            return false;
                        }
                        last_end = Some(a.start_time as i128 + duration as i128);
                    },
                    None => {
                        return false;
                    },
                }
            },
            None => {
                last_end = None;
            },
        }
        i = i + 1;
    }
    proof { assert(s.skip(s.len() as int).len() == 0); }
    true
}

/// Assignment `a` meets the window of its alternative: the alternative has a
/// duration and an earliest start, `a` starts no earlier than that, and it
/// starts either exactly then or strictly before the latest start.
pub open spec fn window_ok(reqs: Seq<Seq<ReservationRequestAlternative>>, a: Assignment) -> bool {
    let p = reqs[a.id.0 as int][a.id.1 as int].parameters;
    &&& p.duration is Some
    &&& p.start_time.earliest_start is Some
    &&& p.start_time.earliest_start.unwrap() <= a.start_time
    &&& (a.start_time == p.start_time.earliest_start.unwrap() || p.start_time.latest_start is None
        || a.start_time < p.start_time.latest_start.unwrap())
}

/// When assignment `a` ends.
pub open spec fn end_time(reqs: Seq<Seq<ReservationRequestAlternative>>, a: Assignment) -> int {
    a.start_time + reqs[a.id.0 as int][a.id.1 as int].parameters.duration.unwrap()
}

/// The assignments of one resource, in order, meet their windows; the first
/// starts no earlier than `now` and each other no earlier than the end of the
/// one before it.
pub open spec fn packed_from(reqs: Seq<Seq<ReservationRequestAlternative>>, l: Seq<Assignment>, now: int) -> bool {
    forall|i: int| 0 <= i < l.len() ==> {
        &&& is_alternative(reqs, #[trigger] l[i].id)
        &&& window_ok(reqs, l[i])
        &&& l[i].start_time >= (if i == 0 { now } else { end_time(reqs, l[i - 1]) })
    }
}

/// A proposed schedule for the requests `reqs`, computed at time `now`: every
/// resource's assignments are packed from `now` and use that resource.
pub open spec fn packed_schedule(reqs: Seq<Seq<ReservationRequestAlternative>>, s: Seq<(Seq<char>, Seq<Assignment>)>, now: int) -> bool {
    forall|r: int| 0 <= r < s.len() ==> {
        &&& packed_from(reqs, (#[trigger] s[r]).1, now)
        &&& forall|i: int| 0 <= i < s[r].1.len() ==> super::problem::resource_of(reqs, #[trigger] s[r].1[i].id) == s[r].0
    }
}

/// `req` narrowed to start by `time_window`: `None` when it cannot start that
/// early; unchanged when its latest start is already earlier; otherwise its
/// latest start becomes `time_window`.
pub open spec fn shrunk(req: ReservationRequestAlternative, time_window: i64) -> Option<ReservationRequestAlternative> {
    if req.parameters.start_time.earliest_start matches Some(e) && e > time_window {
        None
    } else if req.parameters.start_time.latest_start matches Some(l) && l < time_window {
        Some(req)
    } else {
        Some(ReservationRequestAlternative {
            parameters: ReservationParameters {
                resource_name: req.parameters.resource_name,
                duration: req.parameters.duration,
                start_time: StartTimeRange {
                    earliest_start: req.parameters.start_time.earliest_start,
                    latest_start: Some(time_window),
                },
            },
            cost_function: req.cost_function,
        })
    }
}

/// Narrows `reservation_req` to start no later than `time_window`.
pub fn shrink_reservation_request(reservation_req: &ReservationRequestAlternative, time_window: i64)
    -> (r: Option<ReservationRequestAlternative>)
    ensures
        r == shrunk(*reservation_req, time_window),
{
    if let Some(earliest_start) = reservation_req.parameters.start_time.earliest_start {
        if earliest_start > time_window {
            return None;
        }
    }
    if let Some(latest_start) = reservation_req.parameters.start_time.latest_start {
        if latest_start < time_window {
            return Some(reservation_req.clone());
        }
    }
    Some(ReservationRequestAlternative {
        parameters: ReservationParameters {
            resource_name: reservation_req.parameters.resource_name.clone(),
            duration: reservation_req.parameters.duration,
            start_time: StartTimeRange {
                earliest_start: reservation_req.parameters.start_time.earliest_start,
                latest_start: Some(time_window),
            },
        },
        cost_function: reservation_req.cost_function.clone(),
    })
}

} // verus!
