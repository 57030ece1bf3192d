//! Discretization on a fixed time step: an alternative whose window runs from
//! `e` to `l` becomes the alternatives starting at `e`, `e + step`, ... up to
//! and including the last one no later than `l`, each with the cost its cost
//! function gives there.

use vstd::prelude::*;
use crate::algorithms::sat_flexible_time_model::PairMap;
use crate::database::ClockSource;
use crate::request::{ReservationParameters, ReservationRequestAlternative, SharedCostFunction, StartTimeRange, known_cost};
use crate::utils::nested_view;
use super::DescretizationStrategy;

verus! {

/// Discretizes with a fixed time step (milliseconds); a window without an end
/// ends at `latest`, one without a start starts at the clock's time.
pub struct FixedTimestep<C: ClockSource> {
    remapping: PairMap,
    timestep: i64,
    latest: i64,
    clock_source: C,
}

/// Start of the window of `p`, with `now` for a window without a start.
pub open spec fn window_start(p: ReservationParameters, now: i64) -> int {
    match p.start_time.earliest_start { Some(e) => e as int, None => now as int }
}

/// End of the window of `p`, with `latest` for a window without an end.
pub open spec fn window_end(p: ReservationParameters, latest: i64) -> int {
    match p.start_time.latest_start { Some(l) => l as int, None => latest as int }
}

/// Number of fixed starts `e + k * step` (`k >= 0`) no later than the end `l`
/// of the window of `p`: none when the window ends before it starts.
pub open spec fn slot_count(p: ReservationParameters, now: i64, latest: i64, step: i64) -> int {
    if window_end(p, latest) >= window_start(p, now) {
        (window_end(p, latest) - window_start(p, now)) / (step as int) + 1
    } else {
        0
    }
}

/// Number of fixed starts of the first `a` alternatives of `alts`.
pub open spec fn slots_before(alts: Seq<ReservationRequestAlternative>, now: i64, latest: i64, step: i64, a: int) -> int
    decreases a,
{
    if a <= 0 { 0 } else { slots_before(alts, now, latest, step, a - 1) + slot_count(alts[a - 1].parameters, now, latest, step) }
}

/// `x` is `alt` fixed to start at `t`, with the cost there as a static cost.
pub open spec fn slot_ok(x: ReservationRequestAlternative, alt: ReservationRequestAlternative, t: int) -> bool {
    &&& x.parameters.resource_name == alt.parameters.resource_name
    &&& x.parameters.duration == alt.parameters.duration
    &&& x.parameters.start_time.earliest_start == Some(t as i64)
    &&& x.parameters.start_time.latest_start == Some(t as i64)
    &&& x.cost_function matches SharedCostFunction::Static(c)
        && (known_cost(alt.cost_function, t as i64) matches Some(k) ==> c == k)
}

/// `out` is the discretization of `alts`.
pub open spec fn discretized(alts: Seq<ReservationRequestAlternative>, out: Seq<ReservationRequestAlternative>,
    now: i64, latest: i64, step: i64) -> bool
{
    &&& out.len() == slots_before(alts, now, latest, step, alts.len() as int)
    &&& forall|a: int, j: int| 0 <= a < alts.len() && 0 <= j < slot_count(alts[a].parameters, now, latest, step) ==>
            slot_ok(#[trigger] out[slots_before(alts, now, latest, step, a) + j], alts[a],
                window_start(alts[a].parameters, now) + j * step)
}

/// Each request of `out` is the discretization of that of `reqs`.
pub open spec fn discretized_all(reqs: Seq<Seq<ReservationRequestAlternative>>, out: Seq<Seq<ReservationRequestAlternative>>,
    now: i64, latest: i64, step: i64) -> bool
{
    &&& out.len() == reqs.len()
    &&& forall|q: int| 0 <= q < reqs.len() ==> discretized(#[trigger] reqs[q], out[q], now, latest, step)
}

/// `out` is the discretization of `reqs` at some time for windows without a start.
pub open spec fn discretized_at_some_time(reqs: Seq<Seq<ReservationRequestAlternative>>, out: Seq<Seq<ReservationRequestAlternative>>,
    latest: i64, step: i64) -> bool
{
    exists|now: i64| #[trigger] discretized_all(reqs, out, now, latest, step)
}

proof fn lemma_slots_monotone(alts: Seq<ReservationRequestAlternative>, now: i64, latest: i64, step: i64, a: int, b: int)
    requires
        step > 0,
        0 <= a <= b <= alts.len(),
    ensures
        slots_before(alts, now, latest, step, a) <= slots_before(alts, now, latest, step, b),
        slots_before(alts, now, latest, step, a) >= 0,
    decreases b,
{
    lemma_slots_nonneg(alts, now, latest, step, a);
    if b > a {
        lemma_slots_monotone(alts, now, latest, step, a, b - 1);
        lemma_slot_count_nonneg(alts[b - 1].parameters, now, latest, step);
    }
}

proof fn lemma_slot_count_nonneg(p: ReservationParameters, now: i64, latest: i64, step: i64)
    requires
        step > 0,
    ensures
        slot_count(p, now, latest, step) >= 0,
{
    let x = window_end(p, latest) - window_start(p, now);
    if x >= 0 {
        assert(x / (step as int) >= 0) by (nonlinear_arith) requires x >= 0, step > 0;
    }
}

proof fn lemma_slots_nonneg(alts: Seq<ReservationRequestAlternative>, now: i64, latest: i64, step: i64, a: int)
    requires
        step > 0,
        0 <= a <= alts.len(),
    ensures
        slots_before(alts, now, latest, step, a) >= 0,
    decreases a,
{
    if a > 0 {
        lemma_slots_nonneg(alts, now, latest, step, a - 1);
        lemma_slot_count_nonneg(alts[a - 1].parameters, now, latest, step);
    }
}

/// `x / s` is `j` when `x` lies in `[j * s, (j + 1) * s)`.
proof fn lemma_div_between(x: int, s: int, j: int)
    requires
        s > 0,
        j >= 0,
        j * s <= x < (j + 1) * s,
    ensures
        x / s == j,
{
    vstd::arithmetic::div_mod::lemma_fundamental_div_mod(x, s);
    let q = x / s;
    let r = x % s;
    assert(x >= 0) by (nonlinear_arith) requires j >= 0, s > 0, j * s <= x;
    assert(0 <= r < s) by { vstd::arithmetic::div_mod::lemma_mod_pos_bound(x, s); }
    assert(q == j) by (nonlinear_arith)
        requires x == s * q + r, 0 <= r < s, j * s <= x, x < (j + 1) * s, s > 0;
}

impl<C: ClockSource> FixedTimestep<C> {
    /// The step.
    pub closed spec fn step(&self) -> i64 {
        self.timestep
    }

    /// The end of windows without one.
    pub closed spec fn latest_time(&self) -> i64 {
        self.latest
    }

    /// What each discretized `(request, alternative)` stands for.
    pub closed spec fn remapping(&self) -> Map<(usize, usize), (usize, usize)> {
        self.remapping.map()
    }

    /// The step is positive.
    #[verifier::type_invariant]
    spec fn step_positive(&self) -> bool {
        self.timestep > 0
    }

    /// A discretizer with step `timestep`, ending windows without an end at
    /// `latest`, and reading the time from `clock_source`. The step must be
    /// positive: with no step, stepping through a window never ends.
    pub fn new(timestep: i64, latest: i64, clock_source: C) -> (r: Self)
        requires
            timestep > 0,
        ensures
            r.step() == timestep,
            r.latest_time() == latest,
            r.remapping() == Map::<(usize, usize), (usize, usize)>::empty(),
    {
        let remapping = PairMap::new();
        proof { assert(remapping.map() =~= Map::<(usize, usize), (usize, usize)>::empty()); }
        Self { remapping, timestep, latest, clock_source }
    }

    /// The discretization of `requests` with `now` as the start of windows
    /// without one; records what each new alternative stands for.
    #[verifier::spinoff_prover]
    #[verifier::rlimit(40)]
    pub fn discretize_at(&mut self, requests: &Vec<Vec<ReservationRequestAlternative>>, now: i64) -> (r: Vec<Vec<ReservationRequestAlternative>>)
        ensures
            r@.len() == requests@.len(),
            forall|q: int| 0 <= q < requests@.len() ==>
                discretized(#[trigger] requests@[q]@, r@[q]@, now, old(self).latest_time(), old(self).step()),
            final(self).step() == old(self).step(),
            final(self).latest_time() == old(self).latest_time(),
            forall|q: int, a: int, j: int| 0 <= q < requests@.len() && 0 <= a < requests@[q]@.len()
                && 0 <= j < slot_count(requests@[q]@[a].parameters, now, old(self).latest_time(), old(self).step()) ==>
                #[trigger] final(self).remapping()[(q as usize,
                    (slots_before(requests@[q]@, now, old(self).latest_time(), old(self).step(), a) + j) as usize)]
                == (q as usize, a as usize)
                && final(self).remapping().contains_key((q as usize,
                    (slots_before(requests@[q]@, now, old(self).latest_time(), old(self).step(), a) + j) as usize)),
    {
        proof { use_type_invariant(&*self); }
        let mut remapping = PairMap::new();
        std::mem::swap(&mut remapping, &mut self.remapping);
        proof { assert(remapping.map() == old(self).remapping()); }
        let step = self.timestep;
        let latest = self.latest;
        let mut result: Vec<Vec<ReservationRequestAlternative>> = Vec::new();
        let mut request_id: usize = 0;
        while request_id < requests.len()
            invariant
                step == self.timestep,
                latest == self.latest,
                step == old(self).step(),
                latest == old(self).latest_time(),
                step > 0,
                request_id <= requests@.len(),
                result@.len() == request_id,
                forall|q: int| 0 <= q < request_id ==> discretized(#[trigger] requests@[q]@, result@[q]@, now, latest, step),
                forall|q: int, a: int, j: int| 0 <= q < request_id && 0 <= a < requests@[q]@.len()
                    && 0 <= j < slot_count(requests@[q]@[a].parameters, now, latest, step) ==>
                    #[trigger] remapping.map()[(q as usize, (slots_before(requests@[q]@, now, latest, step, a) + j) as usize)]
                    == (q as usize, a as usize)
                    && remapping.map().contains_key((q as usize, (slots_before(requests@[q]@, now, latest, step, a) + j) as usize)),
            decreases requests@.len() - request_id,
        {
            let alts = &requests[request_id];
            let ghost av = alts@;
            let mut broken: Vec<ReservationRequestAlternative> = Vec::new();
            let mut res: usize = 0;
            while res < alts.len()
                invariant
                    step == self.timestep,
                    latest == self.latest,
                    step > 0,
                    av == alts@,
                    av == requests@[request_id as int]@,
                    request_id < requests@.len(),
                    result@.len() == request_id,
                    res <= av.len(),
                    broken@.len() == slots_before(av, now, latest, step, res as int),
                    forall|a: int, j: int| 0 <= a < res && 0 <= j < slot_count(av[a].parameters, now, latest, step) ==>
                        slot_ok(#[trigger] broken@[slots_before(av, now, latest, step, a) + j], av[a],
                            window_start(av[a].parameters, now) + j * step),
                    forall|q: int, a: int, j: int| 0 <= q < request_id && 0 <= a < requests@[q]@.len()
                        && 0 <= j < slot_count(requests@[q]@[a].parameters, now, latest, step) ==>
                        #[trigger] remapping.map()[(q as usize, (slots_before(requests@[q]@, now, latest, step, a) + j) as usize)]
                        == (q as usize, a as usize)
                        && remapping.map().contains_key((q as usize, (slots_before(requests@[q]@, now, latest, step, a) + j) as usize)),
                    forall|a: int, j: int| 0 <= a < res && 0 <= j < slot_count(av[a].parameters, now, latest, step) ==>
                        #[trigger] remapping.map()[(request_id, (slots_before(av, now, latest, step, a) + j) as usize)]
                        == (request_id, a as usize)
                        && remapping.map().contains_key((request_id, (slots_before(av, now, latest, step, a) + j) as usize)),
                decreases av.len() - res,
            {
                let alt = &alts[res];
                let e: i64 = match alt.parameters.start_time.earliest_start { Some(e) => e, None => now };
                let l: i64 = match alt.parameters.start_time.latest_start { Some(l) => l, None => latest };
                let ghost base = broken@.len() as int;
                proof {
                    lemma_slots_monotone(av, now, latest, step, res as int, av.len() as int);
                    assert(slots_before(av, now, latest, step, res as int + 1) == base + slot_count(av[res as int].parameters, now, latest, step));
                }
                let mut current: i64 = e;
                let ghost mut j: int = 0;
                let mut more = e <= l;
                proof {
                    if !more { assert(slot_count(alt.parameters, now, latest, step) == 0); }
                    else {
                        assert(0 * (step as int) <= l - e);
                    }
                }
                while more
                    invariant
                        step == self.timestep,
                        latest == self.latest,
                        step > 0,
                        av == alts@,
                        av == requests@[request_id as int]@,
                        request_id < requests@.len(),
                        res < av.len(),
                        *alt == av[res as int],
                        e == window_start(alt.parameters, now),
                        l == window_end(alt.parameters, latest),
                        base == slots_before(av, now, latest, step, res as int),
                        0 <= j,
                        more ==> current == e + j * step && e <= l,
                        more ==> current <= l && j < slot_count(alt.parameters, now, latest, step),
                        !more ==> j == slot_count(alt.parameters, now, latest, step),
                        broken@.len() == base + j,
                        forall|a: int, j2: int| 0 <= a < res && 0 <= j2 < slot_count(av[a].parameters, now, latest, step) ==>
                            slot_ok(#[trigger] broken@[slots_before(av, now, latest, step, a) + j2], av[a],
                                window_start(av[a].parameters, now) + j2 * step),
                        forall|j2: int| 0 <= j2 < j ==> slot_ok(#[trigger] broken@[base + j2], av[res as int], e + j2 * step),
                        forall|q: int, a: int, j2: int| 0 <= q < request_id && 0 <= a < requests@[q]@.len()
                            && 0 <= j2 < slot_count(requests@[q]@[a].parameters, now, latest, step) ==>
                            #[trigger] remapping.map()[(q as usize, (slots_before(requests@[q]@, now, latest, step, a) + j2) as usize)]
                            == (q as usize, a as usize)
                            && remapping.map().contains_key((q as usize, (slots_before(requests@[q]@, now, latest, step, a) + j2) as usize)),
                        forall|a: int, j2: int| 0 <= a < res && 0 <= j2 < slot_count(av[a].parameters, now, latest, step) ==>
                            #[trigger] remapping.map()[(request_id, (slots_before(av, now, latest, step, a) + j2) as usize)]
                            == (request_id, a as usize)
                            && remapping.map().contains_key((request_id, (slots_before(av, now, latest, step, a) + j2) as usize)),
                        forall|j2: int| 0 <= j2 < j ==>
                            #[trigger] remapping.map()[(request_id, (base + j2) as usize)] == (request_id, res)
                            && remapping.map().contains_key((request_id, (base + j2) as usize)),
                    decreases (if more { l - current + 1 } else { 0 }),
                {
                    proof {
                        assert(slot_count(alt.parameters, now, latest, step) == (l - e) / (step as int) + 1);
                    }
                    let mut params = alt.parameters.clone();
                    params.start_time = StartTimeRange::exactly_at(&current);
                    let cost = alt.cost_function.cost(&params, current);
                    let ghost before = broken@;
                    broken.push(ReservationRequestAlternative { parameters: params, cost_function: SharedCostFunction::from_static(cost) });
                    let key = (request_id, broken.len() - 1);
                    proof {
                        lemma_slots_monotone(av, now, latest, step, 0, res as int);
                    }
                    let ghost old_map = remapping.map();
                    remapping.insert(key, (request_id, res));
                    proof {
                        assert forall|a: int, j2: int| 0 <= a < res && 0 <= j2 < slot_count(av[a].parameters, now, latest, step) implies
                            #[trigger] remapping.map()[(request_id, (slots_before(av, now, latest, step, a) + j2) as usize)]
                            == (request_id, a as usize)
                            && remapping.map().contains_key((request_id, (slots_before(av, now, latest, step, a) + j2) as usize)) by {
                            lemma_slots_monotone(av, now, latest, step, a + 1, res as int);
                            lemma_slots_monotone(av, now, latest, step, 0, a);
                            let k2 = (request_id, (slots_before(av, now, latest, step, a) + j2) as usize);
                            assert(k2 != key);
                            assert(old_map[k2] == (request_id, a as usize));
                            assert(old_map.contains_key(k2));
                        }
                        assert forall|q: int, a: int, j2: int| 0 <= q < request_id && 0 <= a < requests@[q]@.len()
                            && 0 <= j2 < slot_count(requests@[q]@[a].parameters, now, latest, step) implies
                            #[trigger] remapping.map()[(q as usize, (slots_before(requests@[q]@, now, latest, step, a) + j2) as usize)]
                            == (q as usize, a as usize)
                            && remapping.map().contains_key((q as usize, (slots_before(requests@[q]@, now, latest, step, a) + j2) as usize)) by {
                            let k2 = (q as usize, (slots_before(requests@[q]@, now, latest, step, a) + j2) as usize);
                            assert(k2 != key);
                            assert(old_map[k2] == (q as usize, a as usize));
                        }
                        assert(key == (request_id, (base + j) as usize));
                        assert(remapping.map()[key] == (request_id, res));
                        assert forall|j2: int| 0 <= j2 < j + 1 implies
                            #[trigger] remapping.map()[(request_id, (base + j2) as usize)] == (request_id, res)
                            && remapping.map().contains_key((request_id, (base + j2) as usize)) by {
                            if j2 < j {
                                let k2 = (request_id, (base + j2) as usize);
                                assert(k2 != key);
                                assert(old_map[k2] == (request_id, res));
                                assert(old_map.contains_key(k2));
                            }
                        }
                        assert forall|a: int, j2: int| 0 <= a < res && 0 <= j2 < slot_count(av[a].parameters, now, latest, step) implies
                            slot_ok(#[trigger] broken@[slots_before(av, now, latest, step, a) + j2], av[a],
                                window_start(av[a].parameters, now) + j2 * step) by {
                            lemma_slots_monotone(av, now, latest, step, a + 1, res as int);
                            lemma_slots_monotone(av, now, latest, step, 0, a);
                            assert(broken@[slots_before(av, now, latest, step, a) + j2] == before[slots_before(av, now, latest, step, a) + j2]);
                        }
                        assert forall|j2: int| 0 <= j2 < j + 1 implies slot_ok(#[trigger] broken@[base + j2], av[res as int], e + j2 * step) by {
                            if j2 < j { assert(broken@[base + j2] == before[base + j2]); }
                        }
                        assert((current + step) as int == e + (j + 1) * step) by (nonlinear_arith)
                            requires current == e + j * step;
                    }
                    proof { j = j + 1; }
                    match current.checked_add(step) {
                        Some(next) if next <= l => {
                            proof {
                                assert((j as int) * step <= l - e);
                                assert((l - e) / (step as int) >= j) by {
                                    let x = l - e;
                                    let q = x / (step as int);
                                    vstd::arithmetic::div_mod::lemma_fundamental_div_mod(x, step as int);
                                    vstd::arithmetic::div_mod::lemma_mod_pos_bound(x, step as int);
                                    assert(q >= j) by (nonlinear_arith)
                                        requires x == (step as int) * q + x % (step as int), 0 <= x % (step as int) < step, j * step <= x, step > 0;
                                }
                            }
                            current = next;
                        },
                        _ => {
                            proof {
                                assert(l - e < j * step);
                                lemma_div_between(l - e, step as int, j - 1);
                            }
                            more = false;
                        },
                    }
                    proof {
                        assert(forall|j2: int| 0 <= j2 < j ==>
                            #[trigger] remapping.map()[(request_id, (base + j2) as usize)] == (request_id, res));
                    }
                }
                proof {
                    assert(j == slot_count(alt.parameters, now, latest, step));
                    assert forall|a: int, j2: int| 0 <= a < res + 1 && 0 <= j2 < slot_count(av[a].parameters, now, latest, step) implies
                        slot_ok(#[trigger] broken@[slots_before(av, now, latest, step, a) + j2], av[a],
                            window_start(av[a].parameters, now) + j2 * step) by {
                        if a == res { assert(slot_ok(broken@[base + j2], av[res as int], e + j2 * step)); }
                    }
                    assert forall|a: int, j2: int| 0 <= a < res + 1 && 0 <= j2 < slot_count(av[a].parameters, now, latest, step) implies
                        #[trigger] remapping.map()[(request_id, (slots_before(av, now, latest, step, a) + j2) as usize)]
                        == (request_id, a as usize)
                        && remapping.map().contains_key((request_id, (slots_before(av, now, latest, step, a) + j2) as usize)) by {
                        if a == res {
                            assert(slots_before(av, now, latest, step, a) == base);
                            assert(remapping.map()[(request_id, (base + j2) as usize)] == (request_id, res));
                            assert(remapping.map().contains_key((request_id, (base + j2) as usize)));
                        } else {
                            assert(remapping.map()[(request_id, (slots_before(av, now, latest, step, a) + j2) as usize)] == (request_id, a as usize));
                        }
                    }
                }
                let ghost r1 = res + 1;
                assert(forall|a: int, j: int| 0 <= a < r1 && 0 <= j < slot_count(av[a].parameters, now, latest, step) ==>
                        #[trigger] remapping.map()[(request_id, (slots_before(av, now, latest, step, a) + j) as usize)]
                        == (request_id, a as usize)
                        && remapping.map().contains_key((request_id, (slots_before(av, now, latest, step, a) + j) as usize)));
                res = res + 1;
            }
            result.push(broken);
            request_id = request_id + 1;
        }
        self.remapping = remapping;
        result
    }
}

impl<C: ClockSource> FixedTimestep<C> {
    /// [`FixedTimestep::discretize_at`] the clock's time.
    pub fn discretize_now(&mut self, requests: &Vec<Vec<ReservationRequestAlternative>>) -> (r: Vec<Vec<ReservationRequestAlternative>>)
        ensures
            discretized_at_some_time(nested_view(requests@), nested_view(r@), old(self).latest_time(), old(self).step()),
    {
        let now = self.clock_source.now();
        let out = self.discretize_at(requests, now);
        proof {
            assert forall|q: int| 0 <= q < requests@.len() implies
                discretized(#[trigger] nested_view(requests@)[q], nested_view(out@)[q], now, old(self).latest_time(), old(self).step()) by {
                assert(nested_view(requests@)[q] == requests@[q]@);
                assert(nested_view(out@)[q] == out@[q]@);
            }
            assert(discretized_all(nested_view(requests@), nested_view(out@), now, old(self).latest_time(), old(self).step()));
        }
        out
    }
}

impl<C: ClockSource> DescretizationStrategy for FixedTimestep<C> {
    /// [`FixedTimestep::discretize_now`].
    fn discretize(&mut self, requests: &Vec<Vec<ReservationRequestAlternative>>) -> (r: Vec<Vec<ReservationRequestAlternative>>)
        ensures
            discretized_at_some_time(nested_view(requests@), nested_view(r@), old(self).latest_time(), old(self).step()),
    {
        self.discretize_now(requests)
    }

    /// The request and alternative the discretized `ticket_id` stands for.
    fn remap(&self, ticket_id: &(usize, usize)) -> (r: Option<(usize, usize)>)
        ensures
            r == (if self.remapping().contains_key(*ticket_id) { Some(self.remapping()[*ticket_id]) } else { None }),
    {
        self.remapping.get(*ticket_id)
    }
}

} // verus!
