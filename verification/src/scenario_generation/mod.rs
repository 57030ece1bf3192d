//! Random test scenarios with a known conflict-free choice.

use vstd::prelude::*;
use rand::Rng;
use crate::request::{ReservationParameters, ReservationRequestAlternative, SharedCostFunction, StartTimeRange};
use crate::text::{format_station, station_label};
use crate::utils::nested_view;

verus! {

/// Start of every generated schedule: 2023-07-08 06:10:11 UTC, in
/// milliseconds since the Unix epoch.
pub const SCENARIO_START: i64 = 1688796611000i64;

/// Milliseconds in a minute.
pub const MINUTE: i64 = 60000i64;

/// Cost of the alternatives of the known choice.
pub const BASE_COST: i64 = 10i64;

/// Cost of the alternatives added to conflict with it: lower, to lure a solver.
pub const CONFLICT_COST: i64 = 9i64;

/// `rand::thread_rng().gen_range(lo..hi)`: a random number of `lo..hi`.
#[verifier::external_body]
fn random_in(lo: u64, hi: u64) -> (r: u64)
    requires
        lo < hi,
    ensures
        lo <= r < hi,
{
    rand::thread_rng().gen_range(lo..hi)
}

/// A reservation at one fixed instant, with a positive duration.
pub open spec fn fixed_slot(p: ReservationParameters) -> bool {
    &&& p.start_time.earliest_start is Some
    &&& p.start_time.latest_start == p.start_time.earliest_start
    &&& p.duration matches Some(d) && d > 0
}

/// Start of a fixed reservation.
pub open spec fn slot_start(p: ReservationParameters) -> int {
    p.start_time.earliest_start.unwrap() as int
}

/// End of a fixed reservation.
pub open spec fn slot_end(p: ReservationParameters) -> int {
    slot_start(p) + p.duration.unwrap()
}

/// A scenario of `reqs` on the resources `names`: every alternative a fixed
/// reservation on one of them; the first alternative of every request costs
/// [`BASE_COST`], the others [`CONFLICT_COST`]; and the first alternatives
/// never overlap on a resource.
pub open spec fn scenario_ok(reqs: Seq<Seq<ReservationRequestAlternative>>, names: Seq<String>) -> bool {
    &&& forall|q: int| 0 <= q < reqs.len() ==> (#[trigger] reqs[q]).len() >= 1
            && reqs[q][0].cost_function == SharedCostFunction::Static(BASE_COST)
    &&& forall|q: int, a: int| 0 <= q < reqs.len() && 0 <= a < reqs[q].len() ==> {
            let alt = #[trigger] reqs[q][a];
            &&& fixed_slot(alt.parameters)
            &&& exists|k: int| 0 <= k < names.len() && names[k]@ == alt.parameters.resource_name@
            &&& a > 0 ==> alt.cost_function == SharedCostFunction::Static(CONFLICT_COST)
        }
    &&& forall|q1: int, q2: int| 0 <= q1 < reqs.len() && 0 <= q2 < reqs.len() && q1 != q2
            && (#[trigger] reqs[q1])[0].parameters.resource_name@ == (#[trigger] reqs[q2])[0].parameters.resource_name@
            ==> slot_end(reqs[q1][0].parameters) <= slot_start(reqs[q2][0].parameters)
                || slot_end(reqs[q2][0].parameters) <= slot_start(reqs[q1][0].parameters)
}

/// `name` is the name of a station before `r`.
pub open spec fn station_before(name: Seq<char>, r: int) -> bool {
    exists|k: int| 0 <= k < r && name == #[trigger] station_label(k as usize)
}

/// A fixed reservation of `resource` at `start` for `duration`, at `cost`.
fn fixed_alternative(resource: String, start: i64, duration: i64, cost: i64) -> (r: ReservationRequestAlternative)
    ensures
        r.parameters.resource_name == resource,
        r.parameters.duration == Some(duration),
        r.parameters.start_time.earliest_start == Some(start),
        r.parameters.start_time.latest_start == Some(start),
        r.cost_function == SharedCostFunction::Static(cost),
{
    ReservationRequestAlternative {
        parameters: ReservationParameters {
            resource_name: resource,
            duration: Some(duration),
            start_time: StartTimeRange::exactly_at(&start),
        },
        cost_function: SharedCostFunction::from_static(cost),
    }
}

/// The next request of a station on `resource` whose last request ends at
/// `last`: it starts `wait` minutes later, lasts `minutes` minutes, and costs
/// [`BASE_COST`]. Returns it with its start and duration.
pub fn next_station_request(resource: &String, last: i64, wait: u64, minutes: u64) -> (r: (ReservationRequestAlternative, i64, i64))
    requires
        wait < 60,
        20 <= minutes < 90,
        SCENARIO_START <= last <= SCENARIO_START + 1000000000 * 149 * MINUTE,
    ensures
        r.1 == last + wait * MINUTE,
        r.2 == minutes * MINUTE,
        r.0.parameters.resource_name == *resource,
        r.0.parameters.duration == Some(r.2),
        r.0.parameters.start_time.earliest_start == Some(r.1),
        r.0.parameters.start_time.latest_start == Some(r.1),
        r.0.cost_function == SharedCostFunction::Static(BASE_COST),
{
    let start = last + (wait as i64) * MINUTE;
    let duration = (minutes as i64) * MINUTE;
    let alt = fixed_alternative(resource.clone(), start, duration, BASE_COST);
    (alt, start, duration)
}

/// `x` is the alternative that conflicts with requests `pick - 1` and `pick`
/// of station schedule `sched` on `resource`: it runs from the start of the
/// first to the end of the second, at [`CONFLICT_COST`].
pub open spec fn conflict_alternative(x: ReservationRequestAlternative, resource: Seq<char>, sched: Seq<(i64, i64)>, pick: int) -> bool {
    let prev = sched[pick - 1].0;
    let end = sched[pick].0 + sched[pick].1;
    &&& x.parameters.resource_name@ == resource
    &&& x.parameters.start_time.earliest_start == Some(prev)
    &&& x.parameters.start_time.latest_start == Some(prev)
    &&& x.parameters.duration == Some((end - prev) as i64)
    &&& x.cost_function == SharedCostFunction::Static(CONFLICT_COST)
}

/// Adds to request `rn` the alternative that conflicts with requests
/// `pick - 1` and `pick` of station `res_id` (whose schedule is
/// `schedules[res_id]`); nothing when the station has no request `pick`.
pub fn add_conflict(results: &mut Vec<Vec<ReservationRequestAlternative>>, resources: &Vec<String>,
    schedules: &Vec<Vec<(i64, i64)>>, res_id: usize, pick: usize, rn: usize)
    requires
        res_id < schedules@.len(),
        res_id < resources@.len(),
        1 <= pick,
        rn < old(results)@.len(),
        pick < schedules@[res_id as int]@.len() ==> {
            let sc = schedules@[res_id as int]@;
            &&& i64::MIN <= sc[pick as int].0 + sc[pick as int].1 <= i64::MAX
            &&& i64::MIN <= sc[pick as int].0 + sc[pick as int].1 - sc[pick - 1].0 <= i64::MAX
        },
    ensures
        pick >= schedules@[res_id as int]@.len() ==> final(results)@ == old(results)@,
        pick < schedules@[res_id as int]@.len() ==> {
            &&& final(results)@.len() == old(results)@.len()
            &&& forall|q: int| 0 <= q < old(results)@.len() && q != rn ==> #[trigger] final(results)@[q] == old(results)@[q]
            &&& final(results)@[rn as int]@.len() == old(results)@[rn as int]@.len() + 1
            &&& forall|a: int| 0 <= a < old(results)@[rn as int]@.len() ==> #[trigger] final(results)@[rn as int]@[a] == old(results)@[rn as int]@[a]
            &&& conflict_alternative(final(results)@[rn as int]@.last(), resources@[res_id as int]@, schedules@[res_id as int]@, pick as int)
        },
{
    let sched = &schedules[res_id];
    if pick < sched.len() {
        let prev_time = sched[pick - 1].0;
        let (s_start, s_duration) = sched[pick];
        let duration = s_start + s_duration - prev_time;
        let alt = fixed_alternative(resources[res_id].clone(), prev_time, duration, CONFLICT_COST);
        let ghost before = results@;
        let mut row: Vec<ReservationRequestAlternative> = Vec::new();
        std::mem::swap(&mut row, &mut results[rn]);
        assert(row@ == before[rn as int]@);
        row.push(alt);
        results.set(rn, row);
    }
}

/// A random scenario on `num_resources` stations: on each, up to
/// `max_requests_per_resource` requests following each other without overlap,
/// and then `num_conflicts` times an alternative, added to a random request,
/// spanning two consecutive requests of a random station.
#[verifier::spinoff_prover]
#[verifier::rlimit(60)]
pub fn generate_test_scenario_with_known_best(num_resources: usize, max_requests_per_resource: usize, num_conflicts: usize)
    -> (r: (Vec<Vec<ReservationRequestAlternative>>, Vec<String>))
    requires
        max_requests_per_resource <= 1000000000,
        num_conflicts > 0 ==> num_resources > 0,
    ensures
        r.1@.len() == num_resources,
        forall|m: int| 0 <= m < num_resources ==> #[trigger] r.1@[m]@ == station_label(m as usize),
        scenario_ok(nested_view(r.0@), r.1@),
{
    let mut resources: Vec<String> = Vec::new();
    let mut m: usize = 0;
    while m < num_resources
        invariant
            m <= num_resources,
            resources@.len() == m,
            forall|k: int| 0 <= k < m ==> #[trigger] resources@[k]@ == station_label(k as usize),
            forall|a: int, b: int| 0 <= a < b < m ==> #[trigger] station_label(a as usize) != #[trigger] station_label(b as usize),
        decreases num_resources - m,
    {
        let label = format_station(m);
        proof {
            assert forall|a: int, b: int| 0 <= a < b < m + 1 implies #[trigger] station_label(a as usize) != #[trigger] station_label(b as usize) by {
                if b == m { assert(label@ == station_label(m)); }
            }
        }
        resources.push(label);
        m = m + 1;
    }
    let ghost names = resources@;
    let mut results: Vec<Vec<ReservationRequestAlternative>> = Vec::new();
    // For each station, its requests: (start, duration).
    let mut schedules: Vec<Vec<(i64, i64)>> = Vec::new();
    let mut r: usize = 0;
    while r < num_resources
        invariant
            names == resources@,
            names.len() == num_resources,
            forall|k: int| 0 <= k < num_resources ==> #[trigger] names[k]@ == station_label(k as usize),
            forall|a: int, b: int| 0 <= a < b < num_resources ==> #[trigger] station_label(a as usize) != #[trigger] station_label(b as usize),
            max_requests_per_resource <= 1000000000,
            r <= num_resources,
            forall|k: int| 0 <= k < r ==> (#[trigger] schedules@[k])@.len() <= 1000000000,
            forall|k: int| 0 <= k < r && (#[trigger] schedules@[k])@.len() > 0 ==> results@.len() > 0,
            schedules@.len() == r,
            scenario_ok(nested_view(results@), names),
            forall|q: int| 0 <= q < results@.len() ==> (#[trigger] results@[q])@.len() == 1,
            // each request is the request of a station before `r`
            forall|q: int| 0 <= q < results@.len() ==> station_before((#[trigger] results@[q])@[0].parameters.resource_name@, r as int),
            forall|k: int, i: int| 0 <= k < r && 0 <= i < schedules@[k]@.len() ==>
                (#[trigger] schedules@[k]@[i]).1 > 0 && schedules@[k]@[i].0 >= SCENARIO_START,
            forall|k: int, i: int, j: int| 0 <= k < r && 0 <= i < j < schedules@[k]@.len() ==>
                (#[trigger] schedules@[k]@[i]).0 + schedules@[k]@[i].1 <= (#[trigger] schedules@[k]@[j]).0,
            forall|k: int, i: int| 0 <= k < r && 0 <= i < schedules@[k]@.len() ==>
                (#[trigger] schedules@[k]@[i]).0 + schedules@[k]@[i].1 <= SCENARIO_START + (i + 1) * 149 * MINUTE,
        decreases num_resources - r,
    {
        let res_size = random_in(0, max_requests_per_resource as u64 + 1);
        let mut last: i64 = SCENARIO_START;
        let mut sched: Vec<(i64, i64)> = Vec::new();
        let ghost first_q = results@.len();
        let mut i: u64 = 0;
        while i < res_size
            invariant
                names == resources@,
                names.len() == num_resources,
                forall|k: int| 0 <= k < num_resources ==> #[trigger] names[k]@ == station_label(k as usize),
                forall|a: int, b: int| 0 <= a < b < num_resources ==> #[trigger] station_label(a as usize) != #[trigger] station_label(b as usize),
                r < num_resources,
                res_size <= 1000000000,
                i <= res_size,
                sched@.len() == i,
                first_q <= results@.len(),
                results@.len() == first_q + i,
                last >= SCENARIO_START,
                last <= SCENARIO_START + i * 149 * MINUTE,
                scenario_ok(nested_view(results@), names),
                forall|q: int| 0 <= q < results@.len() ==> (#[trigger] results@[q])@.len() == 1,
                forall|q: int| 0 <= q < first_q ==> station_before((#[trigger] results@[q])@[0].parameters.resource_name@, r as int),
                forall|q: int| first_q <= q < results@.len() ==> (#[trigger] results@[q])@[0].parameters.resource_name@ == station_label(r)
                    && slot_end(results@[q]@[0].parameters) <= last,
                forall|a: int| 0 <= a < i ==> (#[trigger] sched@[a]).1 > 0 && sched@[a].0 >= SCENARIO_START
                    && sched@[a].0 + sched@[a].1 <= last,
                forall|a: int, b: int| 0 <= a < b < i ==> (#[trigger] sched@[a]).0 + sched@[a].1 <= (#[trigger] sched@[b]).0,
                forall|a: int| 0 <= a < i ==> (#[trigger] sched@[a]).0 + sched@[a].1 <= SCENARIO_START + (a + 1) * 149 * MINUTE,
            decreases res_size - i,
        {
            proof {
                assert(i * 149 * MINUTE + 149 * MINUTE == (i + 1) * 149 * MINUTE) by (nonlinear_arith);
                assert(i * 149 * MINUTE <= 1000000000 * 149 * MINUTE) by (nonlinear_arith) requires i <= 1000000000;
            }
            let wait = random_in(0, 60);
            let minutes = random_in(20, 90);
            let (alt, start, duration) = next_station_request(&resources[r], last, wait, minutes);
            let ghost ga = alt;
            let ghost before = results@;
            let row = vec![alt];
            assert(row@ =~= seq![ga]);
            results.push(row);
            sched.push((start, duration));
            last = start + duration;
            proof {
                let rv = nested_view(results@);
                let bv = nested_view(before);
                assert(rv =~= bv.push(seq![ga]));
                assert forall|q1: int, q2: int| 0 <= q1 < rv.len() && 0 <= q2 < rv.len() && q1 != q2
                    && (#[trigger] rv[q1])[0].parameters.resource_name@ == (#[trigger] rv[q2])[0].parameters.resource_name@
                    implies slot_end(rv[q1][0].parameters) <= slot_start(rv[q2][0].parameters)
                        || slot_end(rv[q2][0].parameters) <= slot_start(rv[q1][0].parameters) by {
                    if q1 < before.len() && q2 < before.len() {
                        assert(rv[q1] == bv[q1] && rv[q2] == bv[q2]);
                    } else if q1 == before.len() {
                        assert(rv[q2] == bv[q2]);
                        assert(rv[q2] == results@[q2]@);
                        if q2 < first_q {
                            let k = choose|k: int| 0 <= k < r && results@[q2]@[0].parameters.resource_name@ == #[trigger] station_label(k as usize);
                            assert(station_label(k as usize) != station_label(r));
                        }
                    } else {
                        assert(rv[q1] == bv[q1]);
                        assert(rv[q1] == results@[q1]@);
                        if q1 < first_q {
                            let k = choose|k: int| 0 <= k < r && results@[q1]@[0].parameters.resource_name@ == #[trigger] station_label(k as usize);
                            assert(station_label(k as usize) != station_label(r));
                        }
                    }
                }
                assert forall|q: int, a: int| 0 <= q < rv.len() && 0 <= a < rv[q].len() implies {
                    let x = #[trigger] rv[q][a];
                    &&& fixed_slot(x.parameters)
                    &&& exists|k: int| 0 <= k < names.len() && names[k]@ == x.parameters.resource_name@
                    &&& a > 0 ==> x.cost_function == SharedCostFunction::Static(CONFLICT_COST)
                } by {
                    if q < before.len() { assert(rv[q] == bv[q]); } else { assert(rv[q][a] == ga); assert(names[r as int]@ == rv[q][a].parameters.resource_name@); }
                }
                assert forall|q: int| 0 <= q < results@.len() implies (#[trigger] results@[q])@.len() == 1 by {
                    if q < before.len() { assert(results@[q] == before[q]); }
                }
            }
            i = i + 1;
        }
        let ghost sched_before = schedules@;
        schedules.push(sched);
        proof {
            assert forall|k: int| 0 <= k < r + 1 implies (#[trigger] schedules@[k])@.len() <= 1000000000 by {
                if k < r { assert(schedules@[k] == sched_before[k]); }
            }
            assert forall|k: int| 0 <= k < r + 1 && (#[trigger] schedules@[k])@.len() > 0 implies results@.len() > 0 by {
                if k < r { assert(schedules@[k] == sched_before[k]); }
            }
            assert forall|q: int| 0 <= q < results@.len() implies station_before((#[trigger] results@[q])@[0].parameters.resource_name@, r + 1) by {
                if q >= first_q {
                    let k: int = r as int;
                    assert(results@[q]@[0].parameters.resource_name@ == station_label(k as usize));
                } else {
                    assert(station_before(results@[q]@[0].parameters.resource_name@, r as int));
                    let k = choose|k: int| 0 <= k < r && results@[q]@[0].parameters.resource_name@ == #[trigger] station_label(k as usize);
                    assert(results@[q]@[0].parameters.resource_name@ == station_label(k as usize));
                }
            }
        }
        r = r + 1;
    }
    let mut c: usize = 0;
    while c < num_conflicts
        invariant
            names == resources@,
            names.len() == num_resources,
            num_conflicts > 0 ==> num_resources > 0,
            schedules@.len() == num_resources,
            scenario_ok(nested_view(results@), names),
            forall|k: int| 0 <= k < num_resources ==> #[trigger] names[k]@ == station_label(k as usize),
            forall|k: int| 0 <= k < num_resources ==> (#[trigger] schedules@[k])@.len() <= 1000000000,
            forall|k: int, i: int| 0 <= k < num_resources && 0 <= i < schedules@[k]@.len() ==>
                (#[trigger] schedules@[k]@[i]).1 > 0 && schedules@[k]@[i].0 >= SCENARIO_START,
            forall|k: int, i: int, j: int| 0 <= k < num_resources && 0 <= i < j < schedules@[k]@.len() ==>
                (#[trigger] schedules@[k]@[i]).0 + schedules@[k]@[i].1 <= (#[trigger] schedules@[k]@[j]).0,
            forall|k: int, i: int| 0 <= k < num_resources && 0 <= i < schedules@[k]@.len() ==>
                (#[trigger] schedules@[k]@[i]).0 + schedules@[k]@[i].1 <= SCENARIO_START + (i + 1) * 149 * MINUTE,
            forall|k: int| 0 <= k < num_resources && (#[trigger] schedules@[k])@.len() > 0 ==> results@.len() > 0,
            c <= num_conflicts,
        decreases num_conflicts - c,
    {
        let res_id = random_in(0, num_resources as u64) as usize;
        let sched = &schedules[res_id];
        if sched.len() == 0 {
            c = c + 1;
            continue;
        }
        let pick: usize = if sched.len() > 1 { random_in(1, sched.len() as u64) as usize } else { 1 };
        if pick < sched.len() {
            proof {
                let _ = schedules@[res_id as int]@[pick as int];
                let _ = schedules@[res_id as int]@[pick - 1];
                let sc = schedules@[res_id as int]@;
                assert(sc[pick as int].0 + sc[pick as int].1 <= SCENARIO_START + (pick + 1) * 149 * MINUTE);
                assert((pick + 1) * 149 * MINUTE <= 1000000001 * 149 * MINUTE) by (nonlinear_arith) requires pick <= 1000000000;
            }
            let rn = random_in(0, results.len() as u64) as usize;
            let ghost before = results@;
            add_conflict(&mut results, &resources, &schedules, res_id, pick, rn);
            proof {
                let rv = nested_view(results@);
                let bv = nested_view(before);
                let x = results@[rn as int]@.last();
                assert(results@[rn as int]@[before[rn as int]@.len() as int] == x);
                assert forall|q: int| 0 <= q < rv.len() implies #[trigger] rv[q][0] == bv[q][0] && rv[q].len() >= bv[q].len() by {
                    assert(bv[q].len() >= 1);
                    if q != rn { assert(results@[q] == before[q]); } else { assert(results@[q]@[0] == before[q]@[0]); }
                }
                assert forall|q: int, a: int| 0 <= q < rv.len() && 0 <= a < rv[q].len() implies {
                    let y = #[trigger] rv[q][a];
                    &&& fixed_slot(y.parameters)
                    &&& exists|k: int| 0 <= k < names.len() && names[k]@ == y.parameters.resource_name@
                    &&& a > 0 ==> y.cost_function == SharedCostFunction::Static(CONFLICT_COST)
                } by {
                    if q != rn { assert(results@[q] == before[q]); assert(rv[q] == bv[q]); }
                    else if a < bv[q].len() { assert(rv[q][a] == bv[q][a]); }
                    else {
                        assert(rv[q][a] == x);
                        assert(names[res_id as int]@ == rv[q][a].parameters.resource_name@);
                        let sc = schedules@[res_id as int]@;
                        assert(sc[pick - 1].0 + sc[pick - 1].1 <= sc[pick as int].0);
                    }
                }
                assert forall|q1: int, q2: int| 0 <= q1 < rv.len() && 0 <= q2 < rv.len() && q1 != q2
                    && (#[trigger] rv[q1])[0].parameters.resource_name@ == (#[trigger] rv[q2])[0].parameters.resource_name@
                    implies slot_end(rv[q1][0].parameters) <= slot_start(rv[q2][0].parameters)
                        || slot_end(rv[q2][0].parameters) <= slot_start(rv[q1][0].parameters) by {
                    assert(rv[q1][0] == bv[q1][0] && rv[q2][0] == bv[q2][0]);
                }
            }
        }
        c = c + 1;
    }
    (results, resources)
}

/// Saving a scenario is not done: nothing happens.
pub fn save_scenario_assume_static_cost(requests: &Vec<Vec<ReservationRequestAlternative>>, reservation: &Vec<String>) {
}

} // verus!
