//! Making pairs of alternatives start together by delaying the earlier one.

use vstd::prelude::*;
use crate::request::ReservationRequestAlternative;
use super::checks::duration_of;
use super::problem::{Problem, is_alternative, problem_requests};
use super::schedules::{Assignment, ResourceSchedules};

verus! {

/// Assignment `i` of resource `r` of `s` is alternative `id`.
pub open spec fn located(s: Seq<(Seq<char>, Seq<Assignment>)>, id: (usize, usize), r: int, i: int) -> bool {
    0 <= r < s.len() && 0 <= i < s[r].1.len() && s[r].1[i].id == id
}

/// Alternative `id` is scheduled in `s`.
pub open spec fn is_scheduled(s: Seq<(Seq<char>, Seq<Assignment>)>, id: (usize, usize)) -> bool {
    exists|r: int, i: int| located(s, id, r, i)
}

/// No alternative is scheduled twice in `s`.
pub open spec fn scheduled_once(s: Seq<(Seq<char>, Seq<Assignment>)>) -> bool {
    forall|id: (usize, usize), r1: int, i1: int, r2: int, i2: int|
        located(s, id, r1, i1) && located(s, id, r2, i2) ==> r1 == r2 && i1 == i2
}

/// Start time of the scheduled alternative `id`.
pub open spec fn start_of_id(s: Seq<(Seq<char>, Seq<Assignment>)>, id: (usize, usize)) -> int {
    let (r, i) = choose|r: int, i: int| located(s, id, r, i);
    s[r].1[i].start_time as int
}

/// `b` has the names of `a` and, at every place, the same alternative.
pub open spec fn same_shape(a: Seq<(Seq<char>, Seq<Assignment>)>, b: Seq<(Seq<char>, Seq<Assignment>)>) -> bool {
    &&& a.len() == b.len()
    &&& forall|r: int| 0 <= r < a.len() ==> (#[trigger] b[r]).0 == a[r].0 && b[r].1.len() == a[r].1.len()
    &&& forall|r: int, i: int| 0 <= r < a.len() && 0 <= i < a[r].1.len() ==> (#[trigger] b[r].1[i]).id == a[r].1[i].id
}

/// No assignment of `b` starts earlier than at the same place in `a`.
pub open spec fn no_earlier(a: Seq<(Seq<char>, Seq<Assignment>)>, b: Seq<(Seq<char>, Seq<Assignment>)>) -> bool {
    forall|r: int, i: int| 0 <= r < a.len() && 0 <= i < a[r].1.len() ==> (#[trigger] b[r].1[i]).start_time >= a[r].1[i].start_time
}

/// The `i`-th assignment of `l` ends no later than the next one starts.
pub open spec fn gap_ok(reqs: Seq<Seq<ReservationRequestAlternative>>, l: Seq<Assignment>, i: int) -> bool {
    duration_of(reqs, l[i].id) matches Some(d) ==> l[i + 1].start_time >= l[i].start_time + d
}

/// On every resource of `s`, each assignment ends no later than the next starts.
pub open spec fn all_gaps_ok(reqs: Seq<Seq<ReservationRequestAlternative>>, s: Seq<(Seq<char>, Seq<Assignment>)>) -> bool {
    forall|r: int, i: int| 0 <= r < s.len() && 0 <= i < s[r].1.len() - 1 ==> #[trigger] gap_ok(reqs, s[r].1, i)
}

/// What the same-start constraint `(u1, u2)` asks: the later of the two starts,
/// the alternative that starts then, and the one to delay.
pub open spec fn delay_of(s: Seq<(Seq<char>, Seq<Assignment>)>, e: ((usize, usize), (usize, usize))) -> ((usize, usize), int, (usize, usize)) {
    let start1 = start_of_id(s, e.0);
    let start2 = start_of_id(s, e.1);
    if start1 < start2 { (e.1, start2, e.0) } else { (e.0, start1, e.1) }
}

/// Position of alternative `id` in `s`.
fn locate(s: &ResourceSchedules, id: (usize, usize)) -> (r: Option<(usize, usize)>)
    ensures
        r matches Some(p) ==> located(s@, id, p.0 as int, p.1 as int),
        r is None ==> !is_scheduled(s@, id),
{
    let mut r: usize = 0;
    while r < s.len()
        invariant
            r <= s@.len(),
            forall|r2: int, i2: int| 0 <= r2 < r ==> !located(s@, id, r2, i2),
        decreases s@.len() - r,
    {
        let list = s.assignments(r);
        let mut i: usize = 0;
        while i < list.len()
            invariant
                r < s@.len(),
                list@ == s@[r as int].1,
                i <= list@.len(),
                forall|i2: int| 0 <= i2 < i ==> !located(s@, id, r as int, i2),
            decreases list@.len() - i,
        {
            if list[i].id.0 == id.0 && list[i].id.1 == id.1 {
                return Some((r, i));
            }
            i = i + 1;
        }
        r = r + 1;
    }
    None
}

/// The pending same-start constraint whose later start is the latest (the
/// first such in map order), as `(cause, start, delayed)`.
fn pick_delay(s: &ResourceSchedules, same_start: &Vec<((usize, usize), (usize, usize))>, visited: &Vec<((usize, usize), (usize, usize))>)
    -> (r: Option<((usize, usize), i64, (usize, usize))>)
    requires
        forall|k: int| 0 <= k < same_start@.len() ==> is_scheduled(s@, (#[trigger] same_start@[k]).0) && is_scheduled(s@, same_start@[k].1),
        scheduled_once(s@),
    ensures
        r is None ==> forall|k: int| 0 <= k < same_start@.len() ==> visited@.contains(#[trigger] same_start@[k]),
        r matches Some(c) ==> exists|k: int| 0 <= k < same_start@.len() && !visited@.contains(#[trigger] same_start@[k])
            && delay_of(s@, same_start@[k]) == (c.0, c.1 as int, c.2),
        r matches Some(c) ==> forall|k: int| 0 <= k < same_start@.len() && !visited@.contains(#[trigger] same_start@[k])
            ==> delay_of(s@, same_start@[k]).1 <= c.1,
{
    let mut best: Option<((usize, usize), i64, (usize, usize))> = None;
    let mut k: usize = 0;
    while k < same_start.len()
        invariant
            k <= same_start@.len(),
            forall|k2: int| 0 <= k2 < same_start@.len() ==> is_scheduled(s@, (#[trigger] same_start@[k2]).0) && is_scheduled(s@, same_start@[k2].1),
            scheduled_once(s@),
            best is None ==> forall|k2: int| 0 <= k2 < k ==> visited@.contains(#[trigger] same_start@[k2]),
            best matches Some(c) ==> exists|k2: int| 0 <= k2 < k && !visited@.contains(#[trigger] same_start@[k2])
                && delay_of(s@, same_start@[k2]) == (c.0, c.1 as int, c.2),
            best matches Some(c) ==> forall|k2: int| 0 <= k2 < k && !visited@.contains(#[trigger] same_start@[k2])
                ==> delay_of(s@, same_start@[k2]).1 <= c.1,
        decreases same_start@.len() - k,
    {
        let e = same_start[k];
        if !pair_pairs_contain(visited, e) {
            proof {
                assert(is_scheduled(s@, same_start@[k as int].0));
                assert(is_scheduled(s@, same_start@[k as int].1));
            }
            let p1 = locate(s, e.0);
            let p2 = locate(s, e.1);
            let (r1, i1) = match p1 { Some(p) => p, None => (0, 0) };
            let (r2, i2) = match p2 { Some(p) => p, None => (0, 0) };
            let start1 = s.assignments(r1)[i1].start_time;
            let start2 = s.assignments(r2)[i2].start_time;
            proof {
                let (a1, b1) = choose|a: int, b: int| located(s@, e.0, a, b);
                assert(a1 == r1 && b1 == i1);
                let (a2, b2) = choose|a: int, b: int| located(s@, e.1, a, b);
                assert(a2 == r2 && b2 == i2);
            }
            let cand = if start1 < start2 { (e.1, start2, e.0) } else { (e.0, start1, e.1) };
            proof { assert(delay_of(s@, same_start@[k as int]) == (cand.0, cand.1 as int, cand.2)); }
            let take = match best {
                Some(b) => cand.1 > b.1,
                None => true,
            };
            if take {
                best = Some(cand);
            }
        }
        k = k + 1;
    }
    best
}

/// Whether `v` holds the pair of alternatives `x`.
fn pair_pairs_contain(v: &Vec<((usize, usize), (usize, usize))>, x: ((usize, usize), (usize, usize))) -> (r: bool)
    ensures
        r == v@.contains(x),
{
    let mut i: usize = 0;
    while i < v.len()
        invariant
            i <= v@.len(),
            forall|j: int| 0 <= j < i ==> v@[j] != x,
        decreases v@.len() - i,
    {
        if v[i].0.0 == x.0.0 && v[i].0.1 == x.0.1 && v[i].1.0 == x.1.0 && v[i].1.1 == x.1.1 {
            return true;
        }
        i = i + 1;
    }
    false
}

/// What holds of where alternatives are scheduled carries over to a schedule
/// with the same alternatives in the same places.
proof fn lemma_transfer(input: Seq<(Seq<char>, Seq<Assignment>)>, out: Seq<(Seq<char>, Seq<Assignment>)>,
    same_start: Seq<((usize, usize), (usize, usize))>)
    requires
        forall|id: (usize, usize), r1: int, i1: int| located(out, id, r1, i1) <==> located(input, id, r1, i1),
        forall|k: int| 0 <= k < same_start.len() ==> is_scheduled(input, (#[trigger] same_start[k]).0) && is_scheduled(input, same_start[k].1),
        scheduled_once(input),
    ensures
        forall|k: int| 0 <= k < same_start.len() ==> is_scheduled(out, (#[trigger] same_start[k]).0) && is_scheduled(out, same_start[k].1),
        scheduled_once(out),
{
    assert forall|k: int| 0 <= k < same_start.len() implies is_scheduled(out, (#[trigger] same_start[k]).0) && is_scheduled(out, same_start[k].1) by {
        let (a, b) = choose|a: int, b: int| located(input, same_start[k].0, a, b);
        assert(located(out, same_start[k].0, a, b));
        let (c, d) = choose|c: int, d: int| located(input, same_start[k].1, c, d);
        assert(located(out, same_start[k].1, c, d));
    }
}

/// The indices of constraints not yet handled.
spec fn pending(same_start: Seq<((usize, usize), (usize, usize))>, visited: Seq<((usize, usize), (usize, usize))>) -> Set<int> {
    Set::new(|k: int| 0 <= k < same_start.len() && !visited.contains(same_start[k]))
}

proof fn lemma_pending_shrinks(same_start: Seq<((usize, usize), (usize, usize))>, visited: Seq<((usize, usize), (usize, usize))>,
    more: Seq<((usize, usize), (usize, usize))>, k: int)
    requires
        0 <= k < same_start.len(),
        !visited.contains(same_start[k]),
        (visited + more).contains(same_start[k]),
    ensures
        pending(same_start, visited + more).len() < pending(same_start, visited).len(),
        pending(same_start, visited).finite(),
{
    let before = pending(same_start, visited);
    let after = pending(same_start, visited + more);
    vstd::set_lib::lemma_int_range(0, same_start.len() as int);
    assert(before.subset_of(vstd::set_lib::set_int_range(0, same_start.len() as int)));
    vstd::set_lib::lemma_len_subset(before, vstd::set_lib::set_int_range(0, same_start.len() as int));
    assert forall|j: int| after.contains(j) implies before.remove(k).contains(j) by {
        if visited.contains(same_start[j]) {
            let w = choose|w: int| 0 <= w < visited.len() && visited[w] == same_start[j];
            assert((visited + more)[w] == same_start[j]);
        }
    }
    vstd::set_lib::lemma_len_subset(after, before.remove(k));
}

/// Every start of `s` is at most `u`.
pub open spec fn starts_at_most(s: Seq<(Seq<char>, Seq<Assignment>)>, u: int) -> bool {
    forall|r: int, i: int| 0 <= r < s.len() && 0 <= i < s[r].1.len() ==> (#[trigger] s[r].1[i]).start_time <= u
}

/// Bounds under which handling `k` same-start constraints on `s` computes no
/// time outside an `i64`: every start is at most `u`, every resource has at
/// most `l` assignments, every duration has magnitude at most `b`, every start
/// is at least `b` above the lowest `i64`, and `u` plus `k + 1` times `l * b`
/// is at most the highest.
pub open spec fn same_time_bounds(reqs: Seq<Seq<ReservationRequestAlternative>>, s: Seq<(Seq<char>, Seq<Assignment>)>, k: nat,
    u: int, b: int, l: int) -> bool {
    &&& 0 <= b
    &&& 0 <= l
    &&& starts_at_most(s, u)
    &&& forall|r: int| 0 <= r < s.len() ==> (#[trigger] s[r]).1.len() <= l
    &&& forall|r: int, i: int| 0 <= r < s.len() && 0 <= i < s[r].1.len() ==> {
        &&& (duration_of(reqs, (#[trigger] s[r].1[i]).id) matches Some(d) ==> -b <= d <= b)
        &&& s[r].1[i].start_time - b >= i64::MIN
    }
    &&& u + (k + 1) * (l * b) <= i64::MAX
}

/// Some bounds of [`same_time_bounds`] hold.
pub open spec fn same_time_fits(reqs: Seq<Seq<ReservationRequestAlternative>>, s: Seq<(Seq<char>, Seq<Assignment>)>, k: nat) -> bool {
    exists|u: int, b: int, l: int| #[trigger] same_time_bounds(reqs, s, k, u, b, l)
}

/// Delays alternatives so that pairs constrained to start together do:
/// repeatedly, among the constraints not handled yet, the one whose later
/// start is latest moves the earlier alternative to that start, and the
/// assignments after it on its resource are pushed back as far as needed to
/// keep them from overlapping. Each constraint is handled once, with its
/// reverse. `Err` when a start time would not fit in an `i64`.
pub fn solve_same_time_constraints(final_schedule: &ResourceSchedules, problem: &Problem) -> (r: Result<ResourceSchedules, ()>)
    requires
        forall|k: int| 0 <= k < problem.same_start.entries().len() ==>
            is_scheduled(final_schedule@, (#[trigger] problem.same_start.entries()[k]).0)
            && is_scheduled(final_schedule@, problem.same_start.entries()[k].1),
        scheduled_once(final_schedule@),
        forall|r: int, i: int| #![trigger final_schedule@[r].1[i]] 0 <= r < final_schedule@.len() && 0 <= i < final_schedule@[r].1.len() ==>
            is_alternative(problem_requests(problem), final_schedule@[r].1[i].id),
        forall|r: int, i: int| #![trigger final_schedule@[r].1[i]] 0 <= r < final_schedule@.len() && 0 <= i < final_schedule@[r].1.len() - 1 ==>
            duration_of(problem_requests(problem), final_schedule@[r].1[i].id) is Some,
    ensures
        r matches Ok(s) ==> same_shape(final_schedule@, s@),
        r matches Ok(s) ==> no_earlier(final_schedule@, s@),
        r matches Ok(s) ==> (all_gaps_ok(problem_requests(problem), final_schedule@) ==> all_gaps_ok(problem_requests(problem), s@)),
        same_time_fits(problem_requests(problem), final_schedule@, problem.same_start.entries().len()) ==> r is Ok,
{
    let ghost reqs = problem_requests(problem);
    let ghost input = final_schedule@;
    let mut out = final_schedule.duplicate();
    let mut same_start: Vec<((usize, usize), (usize, usize))> = Vec::new();
    let mut q: usize = 0;
    while q < problem.same_start.len()
        invariant
            q <= problem.same_start.entries().len(),
            same_start@ == problem.same_start.entries().take(q as int),
        decreases problem.same_start.entries().len() - q,
    {
        same_start.push(problem.same_start.entry(q));
        proof { assert(same_start@ =~= problem.same_start.entries().take(q + 1)); }
        q = q + 1;
    }
    proof { assert(same_start@ =~= problem.same_start.entries()); }
    let mut visited: Vec<((usize, usize), (usize, usize))> = Vec::new();
    proof {
        assert forall|id: (usize, usize), r1: int, i1: int| located(out@, id, r1, i1) <==> located(input, id, r1, i1) by {}
    }
    let mut last_delay = pick_delay(&out, &same_start, &visited);
    let ghost kk = same_start@.len();
    let ghost fits = same_time_fits(reqs, input, kk);
    let ghost (u, b, l) = if fits { choose|u: int, b: int, l: int| #[trigger] same_time_bounds(reqs, input, kk, u, b, l) } else { (0int, 0int, 0int) };
    let ghost lb = l * b;
    let ghost mut rounds: int = 0;
    proof {
        vstd::set_lib::lemma_int_range(0, kk as int);
        assert(pending(same_start@, visited@).subset_of(vstd::set_lib::set_int_range(0, kk as int)));
        vstd::set_lib::lemma_len_subset(pending(same_start@, visited@), vstd::set_lib::set_int_range(0, kk as int));
        if fits { assert(0 <= lb) by (nonlinear_arith) requires 0 <= l, 0 <= b, lb == l * b; }
    }
    while last_delay.is_some()
        invariant
            kk == same_start@.len(),
            fits == same_time_fits(reqs, input, kk),
            fits ==> same_time_bounds(reqs, input, kk, u, b, l),
            fits ==> 0 <= lb && lb == l * b,
            0 <= rounds,
            pending(same_start@, visited@).finite(),
            rounds + pending(same_start@, visited@).len() <= kk,
            fits ==> starts_at_most(out@, u + rounds * lb),
            reqs == problem_requests(problem),
            input == final_schedule@,
            same_start@ == problem.same_start.entries(),
            forall|r: int, i: int| #![trigger input[r].1[i]] 0 <= r < input.len() && 0 <= i < input[r].1.len() - 1 ==>
                duration_of(reqs, input[r].1[i].id) is Some,
            same_shape(input, out@),
            no_earlier(input, out@),
            all_gaps_ok(reqs, input) ==> all_gaps_ok(reqs, out@),
            forall|k: int| 0 <= k < same_start@.len() ==> is_scheduled(input, (#[trigger] same_start@[k]).0) && is_scheduled(input, same_start@[k].1),
            scheduled_once(input),
            forall|r: int, i: int| #![trigger input[r].1[i]] 0 <= r < input.len() && 0 <= i < input[r].1.len() ==>
                is_alternative(reqs, input[r].1[i].id),
            forall|id: (usize, usize), r1: int, i1: int| located(out@, id, r1, i1) <==> located(input, id, r1, i1),
            last_delay matches Some(c) ==> exists|k: int| 0 <= k < same_start@.len() && !visited@.contains(#[trigger] same_start@[k])
                && delay_of(out@, same_start@[k]) == (c.0, c.1 as int, c.2),
        decreases pending(same_start@, visited@).len(),
    {
        let (cause, start_time, affected) = match last_delay { Some(c) => c, None => ((0, 0), 0, (0, 0)) };
        let ghost k0 = choose|k: int| 0 <= k < same_start@.len() && !visited@.contains(#[trigger] same_start@[k])
            && delay_of(out@, same_start@[k]) == (cause, start_time as int, affected);
        let ghost before_visited = visited@;
        visited.push((cause, affected));
        visited.push((affected, cause));
        proof {
            let e = same_start@[k0];
            let more = seq![(cause, affected), (affected, cause)];
            assert(visited@ =~= before_visited + more);
            if start_of_id(out@, e.0) < start_of_id(out@, e.1) {
                assert(more[1] == e);
            } else {
                assert(more[0] == e);
            }
            if start_of_id(out@, e.0) < start_of_id(out@, e.1) {
                assert((before_visited + more)[before_visited.len() as int + 1] == e);
            } else {
                assert((before_visited + more)[before_visited.len() as int] == e);
            }
            assert((before_visited + more).contains(e));
            lemma_pending_shrinks(same_start@, before_visited, more, k0);
        }
        let ghost bnd = u + rounds * lb;
        proof {
            vstd::set_lib::lemma_int_range(0, kk as int);
            assert(pending(same_start@, visited@).subset_of(vstd::set_lib::set_int_range(0, kk as int)));
            vstd::set_lib::lemma_len_subset(pending(same_start@, visited@), vstd::set_lib::set_int_range(0, kk as int));
            assert(pending(same_start@, before_visited).contains(k0));
            rounds = rounds + 1;
            if fits {
                assert(bnd + lb <= u + (kk + 1) * lb) by (nonlinear_arith)
                    requires bnd == u + (rounds - 1) * lb, rounds <= kk, 0 <= lb;
            }
        }
        // ... delay
        let ghost pre = out@;
        proof { lemma_transfer(input, out@, same_start@); }
        let loc = locate(&out, affected);
        let (r, idx) = match loc { Some(p) => p, None => (0, 0) };
        proof {
            let e = same_start@[k0];
            assert(is_scheduled(out@, affected)) by {
                if start_of_id(out@, e.0) < start_of_id(out@, e.1) { } else { }
            }
            let (a, b2) = choose|a: int, b2: int| located(out@, affected, a, b2);
            assert(a == r && b2 == idx);
            assert(start_time >= out@[r as int].1[idx as int].start_time);
            if fits {
                assert(is_scheduled(out@, cause)) by {
                    if start_of_id(out@, e.0) < start_of_id(out@, e.1) { } else { }
                }
                let (a3, b3) = choose|a3: int, b3: int| located(out@, cause, a3, b3);
                assert(start_time <= bnd) by {
                    assert(out@[a3].1[b3].start_time <= bnd);
                    if start_of_id(out@, e.0) < start_of_id(out@, e.1) { } else { }
                }
            }
        }
        out.set_start_time(r, idx, start_time);
        proof {
            if fits {
                assert forall|r2: int, i2: int| 0 <= r2 < out@.len() && 0 <= i2 < out@[r2].1.len() implies
                    (#[trigger] out@[r2].1[i2]).start_time <= bnd + (if r2 == r && idx <= i2 <= idx { (i2 - idx) * b } else { 0 }) by {
                    if r2 == r && i2 == idx { } else { assert(out@[r2].1[i2] == pre[r2].1[i2]); }
                }
                assert forall|r2: int, i2: int| 0 <= r2 < out@.len() && 0 <= i2 < out@[r2].1.len() implies
                    (#[trigger] out@[r2].1[i2]).start_time <= bnd + lb by {
                    if r2 == r && i2 == idx { } else { assert(out@[r2].1[i2] == pre[r2].1[i2]); }
                }
            }
            if all_gaps_ok(reqs, input) {
                assert forall|r2: int, i2: int| 0 <= r2 < out@.len() && 0 <= i2 < out@[r2].1.len() - 1
                    && !(r2 == r && i2 == idx) implies #[trigger] gap_ok(reqs, out@[r2].1, i2) by {
                    assert(gap_ok(reqs, pre[r2].1, i2));
                }
            }
            assert(same_shape(pre, out@));
            assert forall|id: (usize, usize), r1: int, i1: int| located(out@, id, r1, i1) <==> located(pre, id, r1, i1) by {}
        }
        let n = out.assignments(r).len();
        let mut i = idx;
        while i + 1 < n
            invariant
                reqs == problem_requests(problem),
                input == final_schedule@,
                r < out@.len(),
                n == out@[r as int].1.len(),
                idx <= i < n,
                forall|r2: int, i2: int| #![trigger input[r2].1[i2]] 0 <= r2 < input.len() && 0 <= i2 < input[r2].1.len() - 1 ==>
                    duration_of(reqs, input[r2].1[i2].id) is Some,
                same_shape(input, out@),
                no_earlier(input, out@),
                all_gaps_ok(reqs, input) ==> forall|r2: int, i2: int| 0 <= r2 < out@.len() && 0 <= i2 < out@[r2].1.len() - 1
                    && !(r2 == r && i2 == i) ==> #[trigger] gap_ok(reqs, out@[r2].1, i2),
                forall|id: (usize, usize), r1: int, i1: int| located(out@, id, r1, i1) <==> located(input, id, r1, i1),
                forall|r2: int, i2: int| #![trigger input[r2].1[i2]] 0 <= r2 < input.len() && 0 <= i2 < input[r2].1.len() ==>
                    is_alternative(reqs, input[r2].1[i2].id),
                kk == problem.same_start.entries().len(),
                fits == same_time_fits(reqs, input, kk),
                fits ==> same_time_bounds(reqs, input, kk, u, b, l),
                fits ==> 0 <= lb && lb == l * b,
                fits ==> bnd + lb <= i64::MAX,
                fits ==> forall|r2: int, i2: int| 0 <= r2 < out@.len() && 0 <= i2 < out@[r2].1.len() ==>
                    (#[trigger] out@[r2].1[i2]).start_time <= bnd + (if r2 == r && idx <= i2 <= i { (i2 - idx) * b } else { 0 }),
                fits ==> forall|r2: int, i2: int| 0 <= r2 < out@.len() && 0 <= i2 < out@[r2].1.len() ==>
                    (#[trigger] out@[r2].1[i2]).start_time <= bnd + lb,
            ensures
                all_gaps_ok(reqs, input) ==> all_gaps_ok(reqs, out@),
                fits ==> forall|r2: int, i2: int| 0 <= r2 < out@.len() && 0 <= i2 < out@[r2].1.len() ==>
                    (#[trigger] out@[r2].1[i2]).start_time <= bnd + lb,
            decreases n - i,
        {
            let list = out.assignments(r);
            let cur = list[i];
            let next = list[i + 1];
            proof {
                assert(duration_of(reqs, input[r as int].1[i as int].id) is Some);
                assert(out@[r as int].1[i as int].id == input[r as int].1[i as int].id);
                assert(is_alternative(reqs, input[r as int].1[i as int].id));
            }
            let p = match problem.requests[cur.id.0][cur.id.1].parameters.duration { Some(d) => d, None => 0 };
            proof {
                assert(duration_of(reqs, cur.id) == Some(p));
                if fits {
                    assert(input[r as int].1[i as int].id == cur.id);
                    assert(-b <= p <= b);
                    assert(cur.start_time >= input[r as int].1[i as int].start_time);
                    assert(input[r as int].1[i as int].start_time - b >= i64::MIN);
                    assert(cur.start_time <= bnd + (i - idx) * b);
                    assert(input[r as int].1.len() <= l);
                    assert((i - idx) * b + b <= l * b) by (nonlinear_arith)
                        requires i + 1 < n, n <= l, idx <= i, 0 <= b;
                }
            }
            let end = match cur.start_time.checked_add(p) {
                Some(e) => e,
                None => { return Err(()); },
            };
            if next.start_time > end {
                proof {
                    if fits {
                        assert forall|r2: int, i2: int| 0 <= r2 < out@.len() && 0 <= i2 < out@[r2].1.len() implies
                            (#[trigger] out@[r2].1[i2]).start_time <= bnd + lb by {
                            if r2 == r && idx <= i2 <= i {
                                assert((i2 - idx) * b <= l * b) by (nonlinear_arith)
                                    requires i2 < n, n <= l, idx <= i2, 0 <= b;
                            }
                        }
                    }
                    if all_gaps_ok(reqs, input) {
                        assert forall|r2: int, i2: int| 0 <= r2 < out@.len() && 0 <= i2 < out@[r2].1.len() - 1
                            implies #[trigger] gap_ok(reqs, out@[r2].1, i2) by {
                            if r2 == r && i2 == i { } else { }
                        }
                    }
                }
                break;
            }
            let ghost pre2 = out@;
            out.set_start_time(r, i + 1, end);
            proof {
                if fits {
                    assert forall|r2: int, i2: int| 0 <= r2 < out@.len() && 0 <= i2 < out@[r2].1.len() implies
                        (#[trigger] out@[r2].1[i2]).start_time <= bnd + (if r2 == r && idx <= i2 <= i + 1 { (i2 - idx) * b } else { 0 }) by {
                        if r2 == r && i2 == i + 1 {
                            assert((i - idx) * b + b == (i + 1 - idx) * b) by (nonlinear_arith);
                        } else {
                            assert(out@[r2].1[i2] == pre2[r2].1[i2]);
                        }
                    }
                    assert forall|r2: int, i2: int| 0 <= r2 < out@.len() && 0 <= i2 < out@[r2].1.len() implies
                        (#[trigger] out@[r2].1[i2]).start_time <= bnd + lb by {
                        if r2 == r && i2 == i + 1 {
                        } else {
                            assert(out@[r2].1[i2] == pre2[r2].1[i2]);
                        }
                    }
                }
                assert forall|id: (usize, usize), r1: int, i1: int| located(out@, id, r1, i1) <==> located(pre2, id, r1, i1) by {}
                if all_gaps_ok(reqs, input) {
                    assert forall|r2: int, i2: int| 0 <= r2 < out@.len() && 0 <= i2 < out@[r2].1.len() - 1
                        && !(r2 == r && i2 == i + 1) implies #[trigger] gap_ok(reqs, out@[r2].1, i2) by {
                        if r2 == r && i2 == i {
                        } else if r2 == r && i2 + 1 == i + 1 {
                        } else {
                            assert(gap_ok(reqs, pre2[r2].1, i2));
                        }
                    }
                }
            }
            i = i + 1;
        }
        proof {
            assert forall|id: (usize, usize), r1: int, i1: int| located(out@, id, r1, i1) <==> located(input, id, r1, i1) by {}
            lemma_transfer(input, out@, same_start@);
            if fits {
                assert(bnd + lb == u + rounds * lb) by (nonlinear_arith) requires bnd == u + (rounds - 1) * lb;
            }
        }
        last_delay = pick_delay(&out, &same_start, &visited);
    }
    Ok(out)
}

} // verus!
