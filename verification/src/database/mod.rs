//! Reservation systems: clocks, tickets and the bookkeeping around the
//! solvers. The solvers run elsewhere: a system hands out the problem of its
//! current requests, and takes back what a solver found when a ticket is claimed.

use vstd::prelude::*;
use chrono::Utc;
use std::collections::HashMap;
use crate::algorithms::hierarchical_kuhn_munkres::{SparseScheduleConflictHillClimber, TimeBasedBranchAndBound,
    alternatives_conflict, has_resource, valid_id};
use crate::algorithms::sat_flexible_time_model::{Assignment, Problem, ResourceSchedules};
use crate::algorithms::sat_flexible_time_model::problem::problem_requests;
use crate::request::{ReservationRequestAlternative, StartTimeRange};
use crate::utils::nested_view;
use crate::wait_points::wait_points::{Queues, WaitPointRequest, WaitPointSystem, first_free, lemma_first_free, queue_index, with_holder};

verus! {

/// A source of the current time, in milliseconds since the Unix epoch.
pub trait ClockSource {
    /// The current time.
    fn now(&self) -> i64;
}

/// The system clock (UTC).
#[derive(Default, Clone, Copy, Debug)]
pub struct DefaultUtcClock;

impl ClockSource for DefaultUtcClock {
    fn now(&self) -> i64 {
        utc_now_millis()
    }
}

/// `chrono::Utc::now`, in milliseconds since the Unix epoch. Nothing is
/// promised of the value: it is the time of the call.
#[verifier::external_body]
pub(crate) fn utc_now_millis() -> i64 {
    Utc::now().timestamp_millis()
}

/// The receipt of a request, to claim it with later.
#[derive(Debug, Clone, Copy)]
pub struct Ticket {
    count: usize,
}

impl Ticket {
    /// The number of the request.
    pub closed spec fn id(&self) -> usize {
        self.count
    }

    /// The number of the request.
    pub fn get_id(&self) -> (r: usize)
        ensures
            r == self.id(),
    {
        self.count
    }

    /// The ticket of request `id`.
    pub fn from_id(id: usize) -> (r: Self)
        ensures
            r.id() == id,
    {
        Self { count: id }
    }
}

/// A copy of `v`.
fn copy_alternatives(v: &Vec<ReservationRequestAlternative>) -> (r: Vec<ReservationRequestAlternative>)
    ensures
        r@ == v@,
{
    let mut out: Vec<ReservationRequestAlternative> = Vec::new();
    let mut i: usize = 0;
    while i < v.len()
        invariant
            i <= v@.len(),
            out@ == v@.take(i as int),
        decreases v@.len() - i,
    {
        out.push(v[i].clone());
        proof { assert(out@ =~= v@.take(i + 1)); }
        i = i + 1;
    }
    proof { assert(v@.take(v@.len() as int) =~= v@); }
    out
}

/// The alternative last claimed for ticket `id` in `claims`.
pub open spec fn last_claim(claims: Seq<(usize, usize)>, id: usize) -> Option<usize>
    decreases claims.len(),
{
    if claims.len() == 0 {
        None
    } else if claims.last().0 == id {
        Some(claims.last().1)
    } else {
        last_claim(claims.drop_last(), id)
    }
}

/// An alternative of a fixed-time system: its start window is one instant,
/// or it has no earliest start.
pub open spec fn fixed_time_window(a: ReservationRequestAlternative) -> bool {
    !(a.parameters.start_time.earliest_start is Some
        && a.parameters.start_time.earliest_start != a.parameters.start_time.latest_start)
}

/// An alternative with a start time and a duration.
pub open spec fn fixed_time_complete(a: ReservationRequestAlternative) -> bool {
    a.parameters.start_time.earliest_start is Some && a.parameters.duration is Some
}

/// What request `i` asks in a snapshot: the alternative claimed for it, or all of them.
pub open spec fn ticket_request(records: Seq<Seq<ReservationRequestAlternative>>, claims: Seq<(usize, usize)>, i: int)
    -> Seq<ReservationRequestAlternative>
{
    match last_claim(claims, i as usize) {
        Some(x) => if x < records[i].len() { seq![records[i][x as int]] } else { records[i] },
        None => records[i],
    }
}

/// The requests of a snapshot of the first `n` records: those whose
/// alternatives all name one of `resources`.
pub open spec fn snapshot_requests(resources: Seq<String>, records: Seq<Seq<ReservationRequestAlternative>>,
    claims: Seq<(usize, usize)>, n: nat) -> Seq<Seq<ReservationRequestAlternative>>
    decreases n,
{
    if n == 0 {
        Seq::empty()
    } else {
        let prev = snapshot_requests(resources, records, claims, (n - 1) as nat);
        let t = ticket_request(records, claims, n - 1);
        if forall|a: int| 0 <= a < t.len() ==> has_resource(resources, #[trigger] t[a].parameters.resource_name@) {
            prev.push(t)
        } else {
            prev
        }
    }
}

/// A reservation system for requests at fixed times.
pub struct FixedTimeReservationSystem {
    resources: Vec<String>,
    record: Vec<Vec<ReservationRequestAlternative>>,
    claims: Vec<(usize, usize)>,
    max_id: usize,
}

impl FixedTimeReservationSystem {
    /// The records are the requests made, each with a start time and a duration.
    pub closed spec fn wf(&self) -> bool {
        &&& self.record@.len() == self.max_id
        &&& forall|i: int, a: int| 0 <= i < self.records().len() && 0 <= a < self.records()[i].len()
                ==> fixed_time_complete(#[trigger] self.records()[i][a])
    }

    /// The resources.
    pub closed spec fn resources(&self) -> Seq<String> {
        self.resources@
    }

    /// The requests made, by ticket number.
    pub closed spec fn records(&self) -> Seq<Seq<ReservationRequestAlternative>> {
        nested_view(self.record@)
    }

    /// The claims made: `(ticket, alternative)`.
    pub closed spec fn claims(&self) -> Seq<(usize, usize)> {
        self.claims@
    }

    /// A system for `resources`, without requests.
    pub fn create_with_resources(resources: Vec<String>) -> (r: Self)
        ensures
            r.wf(),
            r.resources() == resources@,
            r.records().len() == 0,
            r.claims().len() == 0,
    {
        let r = Self { resources, record: Vec::new(), claims: Vec::new(), max_id: 0 };
        proof { assert(r.records() =~= Seq::<Seq<ReservationRequestAlternative>>::empty()); }
        r
    }

    /// Records a request made of `alternatives`, each at a fixed time, and
    /// returns its ticket.
    pub fn request_resources(&mut self, alternatives: Vec<ReservationRequestAlternative>) -> (r: Result<Ticket, &'static str>)
        requires
            old(self).wf(),
            old(self).records().len() < usize::MAX,
            (forall|a: int| 0 <= a < alternatives@.len() ==> fixed_time_window(#[trigger] alternatives@[a]))
                ==> forall|a: int| 0 <= a < alternatives@.len() ==> fixed_time_complete(#[trigger] alternatives@[a]),
        ensures
            final(self).wf(),
            r is Ok <==> forall|a: int| 0 <= a < alternatives@.len() ==> fixed_time_window(#[trigger] alternatives@[a]),
            r matches Err(e) ==> e@ == "FixedTimeReservationSystem supports only fixed time frames"@
                && final(self).records() == old(self).records(),
            r matches Ok(t) ==> t.id() == old(self).records().len()
                && final(self).records() == old(self).records().push(alternatives@),
            final(self).resources() == old(self).resources(),
            final(self).claims() == old(self).claims(),
    {
        let mut i: usize = 0;
        while i < alternatives.len()
            invariant
                i <= alternatives@.len(),
                forall|a: int| 0 <= a < i ==> fixed_time_window(#[trigger] alternatives@[a]),
                self == old(self),
                old(self).wf(),
            decreases alternatives@.len() - i,
        {
            let alt = &alternatives[i];
            if alt.parameters.start_time.earliest_start.is_some()
                && alt.parameters.start_time.earliest_start != alt.parameters.start_time.latest_start
            {
                return Err("FixedTimeReservationSystem supports only fixed time frames");
            }
            i = i + 1;
        }
        let ghost before = self.record@;
        self.record.push(alternatives);
        proof {
            assert(nested_view(self.record@) =~= nested_view(before).push(self.record@[before.len() as int]@));
        }
        let result = Ticket { count: self.max_id };
        self.max_id = self.max_id + 1;
        Ok(result)
    }

    /// The alternative claimed last for ticket `id`.
    fn claimed(&self, id: usize) -> (r: Option<usize>)
        ensures
            r == last_claim(self.claims(), id),
    {
        let mut i: usize = self.claims.len();
        proof { assert(self.claims@.take(i as int) =~= self.claims@); }
        while i > 0
            invariant
                i <= self.claims@.len(),
                last_claim(self.claims@, id) == last_claim(self.claims@.take(i as int), id),
            decreases i,
        {
            proof { assert(self.claims@.take(i as int).drop_last() =~= self.claims@.take(i - 1)); }
            if self.claims[i - 1].0 == id {
                return Some(self.claims[i - 1].1);
            }
            i = i - 1;
        }
        None
    }

    /// The requests to solve: every record, or the alternative claimed for
    /// it, that names known resources only.
    pub fn snapshot_tracker(&self) -> (r: TimeBasedBranchAndBound)
        requires
            self.wf(),
        ensures
            r.resources() == self.resources(),
            r.requests() == snapshot_requests(self.resources(), self.records(), self.claims(), self.records().len()),
    {
        let mut tracker = TimeBasedBranchAndBound::create_with_resources(&self.resources);
        let mut i: usize = 0;
        while i < self.record.len()
            invariant
                self.wf(),
                i <= self.records().len(),
                tracker.resources() == self.resources(),
                tracker.requests() == snapshot_requests(self.resources(), self.records(), self.claims(), i as nat),
                tracker.requests().len() <= i,
            decreases self.records().len() - i,
        {
            let request = match self.claimed(i) {
                Some(x) => {
                    if x < self.record[i].len() {
                        vec![self.record[i][x].clone()]
                    } else {
                        copy_alternatives(&self.record[i])
                    }
                },
                None => copy_alternatives(&self.record[i]),
            };
            proof {
                let t = ticket_request(self.records(), self.claims(), i as int);
                assert(self.records()[i as int] == self.record@[i as int]@);
                assert(request@ =~= t);
            }
            let _ = tracker.request_resources(request);
            i = i + 1;
        }
        tracker
    }

    /// The conflict model of the requests to solve.
    pub fn get_snapshot(&self) -> (r: SparseScheduleConflictHillClimber)
        requires
            self.wf(),
        ensures
            ({
                let reqs = snapshot_requests(self.resources(), self.records(), self.claims(), self.records().len());
                &&& r.requests().len() == reqs.len()
                &&& forall|q: int| 0 <= q < reqs.len() ==> #[trigger] r.requests()[q].len() == reqs[q].len()
                &&& forall|x: (usize, usize), y: (usize, usize)| valid_id(reqs, x) ==>
                        (#[trigger] r.conflict_set(x).contains(y) <==> alternatives_conflict(reqs, x, y))
            }),
    {
        let tracker = self.snapshot_tracker();
        proof { lemma_snapshot_fixed(self.resources(), self.records(), self.claims(), self.records().len()); }
        tracker.generate_literals_and_remap_requests()
    }

    /// The alternative the solver's choice `solution` gives ticket `ticket`,
    /// recorded as claimed; `None` when there is no choice for it.
    pub fn claim_request(&mut self, ticket: Ticket, solution: Option<HashMap<usize, usize>>) -> (r: Option<usize>)
        requires
            old(self).wf(),
        ensures
            final(self).wf(),
            r == (match solution {
                Some(m) => if m@.contains_key(ticket.id()) { Some(m@[ticket.id()]) } else { None },
                None => None,
            }),
            r matches Some(x) ==> final(self).claims() == old(self).claims().push((ticket.id(), x)),
            r is None ==> final(self).claims() == old(self).claims(),
            final(self).records() == old(self).records(),
            final(self).resources() == old(self).resources(),
    {
        if let Some(res) = solution {
            if let Some(x) = res.get(&ticket.count) {
                let x = *x;
                let ghost before = *self;
                self.claims.push((ticket.count, x));
                proof {
                    assert(self.record == before.record);
                    assert(self.records() == before.records());
                }
                return Some(x);
            }
        }
        None
    }
}

/// The requests of a snapshot have start times and durations.
proof fn lemma_snapshot_fixed(resources: Seq<String>, records: Seq<Seq<ReservationRequestAlternative>>,
    claims: Seq<(usize, usize)>, n: nat)
    requires
        n <= records.len(),
        forall|i: int, a: int| 0 <= i < records.len() && 0 <= a < records[i].len() ==> fixed_time_complete(#[trigger] records[i][a]),
    ensures
        crate::algorithms::hierarchical_kuhn_munkres::all_fixed_time(snapshot_requests(resources, records, claims, n)),
    decreases n,
{
    if n > 0 {
        lemma_snapshot_fixed(resources, records, claims, (n - 1) as nat);
        let t = ticket_request(records, claims, n - 1);
        assert forall|a: int| 0 <= a < t.len() implies fixed_time_complete(#[trigger] t[a]) by {
            match last_claim(claims, (n - 1) as usize) {
                Some(x) => { if x < records[n - 1].len() { assert(t[a] == records[n - 1][x as int]); } },
                None => {},
            }
        }
    }
}

/// Where a robot goes: the resource, the alternative it satisfies, and when.
#[derive(Debug, Clone)]
pub struct Goal {
    /// The resource.
    pub resource: String,
    /// The alternative of the request.
    pub satisfies_alt: usize,
    /// Start time, in milliseconds since the Unix epoch.
    pub time: i64,
}

/// What a robot claiming its ticket should do.
#[derive(Debug, Clone)]
pub enum ClaimSpot {
    /// Go to the goal now.
    GoImmediately(Goal),
    /// Wait at the wait point of this position in the list given, then go.
    WaitAtThenGo(usize, Goal),
    /// Wait at the wait point of this position in the list given until told otherwise.
    WaitPermanently(usize),
}

/// The claims hold a claim of ticket `id`.
pub open spec fn is_claimed(claims: Seq<(usize, Assignment)>, id: usize) -> bool {
    exists|k: int| 0 <= k < claims.len() && claims[k].0 == id
}

/// The assignment claimed last for ticket `id`.
pub open spec fn last_assignment(claims: Seq<(usize, Assignment)>, id: usize) -> Option<Assignment>
    decreases claims.len(),
{
    if claims.len() == 0 {
        None
    } else if claims.last().0 == id {
        Some(claims.last().1)
    } else {
        last_assignment(claims.drop_last(), id)
    }
}

/// The alternatives request `i` asks in a snapshot: the one claimed, at its
/// claimed start time, or all of them.
pub open spec fn flexible_request_ok(records: Seq<Seq<ReservationRequestAlternative>>, claims: Seq<(usize, Assignment)>,
    i: int, r: Seq<ReservationRequestAlternative>) -> bool
{
    match last_assignment(claims, i as usize) {
        Some(c) => if c.id.1 < records[i].len() {
            &&& r.len() == 1
            &&& r[0].parameters.resource_name == records[i][c.id.1 as int].parameters.resource_name
            &&& r[0].parameters.duration == records[i][c.id.1 as int].parameters.duration
            &&& r[0].cost_function == records[i][c.id.1 as int].cost_function
            &&& r[0].parameters.start_time.earliest_start == Some(c.start_time)
            &&& r[0].parameters.start_time.latest_start == Some(c.start_time)
        } else {
            r == records[i]
        },
        None => r == records[i],
    }
}

/// Position `(entry, item)` of the first assignment of request `q` in `sched`.
pub open spec fn first_item(sched: Seq<(Seq<char>, Seq<Assignment>)>, q: usize) -> Option<(int, int)> {
    if exists|e: int, i: int| 0 <= e < sched.len() && 0 <= i < sched[e].1.len() && (#[trigger] sched[e].1[i]).id.0 == q {
        Some(choose|e: int, i: int| 0 <= e < sched.len() && 0 <= i < sched[e].1.len() && (#[trigger] sched[e].1[i]).id.0 == q
            && forall|e2: int, i2: int| 0 <= e2 < sched.len() && 0 <= i2 < sched[e2].1.len()
                && (e2 < e || (e2 == e && i2 < i)) ==> (#[trigger] sched[e2].1[i2]).id.0 != q)
    } else {
        None
    }
}

/// The wait point queues after asking, at some time, for one of the wait
/// points `names`: the position handed out, or `None`.
pub open spec fn asked_wait_point(before: Queues, after: Queues, names: Seq<String>, r: Option<usize>) -> bool {
    exists|list: Seq<WaitPointRequest>| #![trigger first_free(before, list)]
        list.len() == names.len()
        && (forall|i: int| 0 <= i < list.len() ==> (#[trigger] list[i]).wait_point@ == names[i]@)
        && match r {
            Some(i) => first_free(before, list) == Some(i as int) && after == with_holder(before, names[i as int]@),
            None => first_free(before, list) is None && after == before,
        }
}

/// A reservation system for requests with start-time windows.
pub struct FlexibleTimeReservationSystem<ClockType = DefaultUtcClock> {
    record: Vec<Vec<ReservationRequestAlternative>>,
    claims: Vec<(usize, Assignment)>,
    max_id: usize,
    wait_point_system: WaitPointSystem,
    clock_source: ClockType,
}

impl<ClockType: ClockSource + Default> Default for FlexibleTimeReservationSystem<ClockType> {
    fn default() -> (r: Self)
        ensures
            r.records().len() == 0,
            r.claims().len() == 0,
            r.wait_points() == Seq::<(Seq<char>, Seq<Option<i64>>)>::empty(),
            r.wf(),
    {
        Self::create_with_clock(ClockType::default())
    }
}

impl<ClockType: ClockSource> FlexibleTimeReservationSystem<ClockType> {
    /// One record per ticket.
    pub closed spec fn wf(&self) -> bool {
        self.record@.len() == self.max_id
    }

    /// The requests made, by ticket number.
    pub closed spec fn records(&self) -> Seq<Seq<ReservationRequestAlternative>> {
        nested_view(self.record@)
    }

    /// The claims: `(ticket, assignment)`.
    pub closed spec fn claims(&self) -> Seq<(usize, Assignment)> {
        self.claims@
    }

    /// The holders of each wait point.
    pub closed spec fn wait_points(&self) -> Queues {
        self.wait_point_system.queues()
    }

    /// A system reading the time from `clock_source`, without requests.
    pub fn create_with_clock(clock_source: ClockType) -> (r: Self)
        ensures
            r.records().len() == 0,
            r.claims().len() == 0,
            r.wait_points() == Seq::<(Seq<char>, Seq<Option<i64>>)>::empty(),
            r.wf(),
    {
        let r = Self {
            record: Vec::new(),
            claims: Vec::new(),
            max_id: 0,
            wait_point_system: WaitPointSystem::default(),
            clock_source,
        };
        proof { assert(r.records() =~= Seq::<Seq<ReservationRequestAlternative>>::empty()); }
        r
    }

    /// Records a request made of `alternatives` and returns its ticket.
    pub fn request_resources(&mut self, alternatives: Vec<ReservationRequestAlternative>) -> (r: Result<Ticket, &'static str>)
        requires
            old(self).wf(),
            old(self).records().len() < usize::MAX,
        ensures
            final(self).wf(),
            r matches Ok(t) && t.id() == old(self).records().len(),
            final(self).records() == old(self).records().push(alternatives@),
            final(self).claims() == old(self).claims(),
            final(self).wait_points() == old(self).wait_points(),
    {
        let ghost before = self.record@;
        self.record.push(alternatives);
        proof {
            assert(nested_view(self.record@) =~= nested_view(before).push(self.record@[before.len() as int]@));
        }
        let result = Ticket { count: self.max_id };
        self.max_id = self.max_id + 1;
        Ok(result)
    }

    /// The assignment claimed last for ticket `id`.
    fn claimed(&self, id: usize) -> (r: Option<Assignment>)
        ensures
            r == last_assignment(self.claims(), id),
            r is None ==> !is_claimed(self.claims(), id),
            r is Some ==> is_claimed(self.claims(), id),
    {
        let mut i: usize = self.claims.len();
        proof { assert(self.claims@.take(i as int) =~= self.claims@); }
        while i > 0
            invariant
                i <= self.claims@.len(),
                last_assignment(self.claims@, id) == last_assignment(self.claims@.take(i as int), id),
                forall|k: int| i <= k < self.claims@.len() ==> self.claims@[k].0 != id,
            decreases i,
        {
            proof { assert(self.claims@.take(i as int).drop_last() =~= self.claims@.take(i - 1)); }
            if self.claims[i - 1].0 == id {
                return Some(self.claims[i - 1].1);
            }
            i = i - 1;
        }
        proof { assert(self.claims@.take(0) =~= Seq::<(usize, Assignment)>::empty()); }
        None
    }

    /// The problem of the current requests, and the ticket of each request of
    /// it (request `i` is ticket `i`).
    pub fn get_snapshot(&self) -> (r: (Problem, HashMap<usize, usize>))
        requires
            self.wf(),
        ensures
            problem_requests(&r.0).len() == self.records().len(),
            forall|i: int| 0 <= i < self.records().len() ==>
                #[trigger] flexible_request_ok(self.records(), self.claims(), i, problem_requests(&r.0)[i]),
            r.0.one_of_dependencies@.len() == 0,
            r.0.dependencies@.len() == 0,
            r.0.must_be_immediately_after@.len() == 0,
            r.0.same_start.entries().len() == 0,
            r.1@ == Map::new(|i: usize| i < self.records().len(), |i: usize| i),
    {
        let mut requests: Vec<Vec<ReservationRequestAlternative>> = Vec::new();
        let mut mapping: HashMap<usize, usize> = HashMap::new();
        let mut i: usize = 0;
        while i < self.record.len()
            invariant
                self.wf(),
                i <= self.records().len(),
                requests@.len() == i,
                forall|k: int| 0 <= k < i ==> #[trigger] flexible_request_ok(self.records(), self.claims(), k, requests@[k]@),
                mapping@ == Map::new(|k: usize| k < i, |k: usize| k),
            decreases self.records().len() - i,
        {
            mapping.insert(i, i);
            proof { assert(mapping@ =~= Map::new(|k: usize| k < i + 1, |k: usize| k)); }
            proof { assert(self.records()[i as int] == self.record@[i as int]@); }
            let request = match self.claimed(i) {
                Some(c) => {
                    if c.id.1 < self.record[i].len() {
                        let mut selected = self.record[i][c.id.1].clone();
                        selected.parameters.start_time = StartTimeRange::exactly_at(&c.start_time);
                        vec![selected]
                    } else {
                        copy_alternatives(&self.record[i])
                    }
                },
                None => copy_alternatives(&self.record[i]),
            };
            let ghost before = requests@;
            requests.push(request);
            proof {
                assert forall|k: int| 0 <= k < i + 1 implies #[trigger] flexible_request_ok(self.records(), self.claims(), k, requests@[k]@) by {
                    if k < i { assert(requests@[k] == before[k]); }
                }
            }
            i = i + 1;
        }
        let mut problem = Problem::default();
        problem.requests = requests;
        proof {
            assert forall|k: int| 0 <= k < self.records().len() implies
                #[trigger] flexible_request_ok(self.records(), self.claims(), k, problem_requests(&problem)[k]) by {
                assert(problem_requests(&problem)[k] == problem.requests@[k]@);
            }
        }
        (problem, mapping)
    }

    /// Asks, at the current time, for one of the wait points `safe_spot`.
    fn wait_somewhere(&mut self, safe_spot: &Vec<String>) -> (r: Result<usize, &'static str>)
        ensures
            asked_wait_point(old(self).wait_points(), final(self).wait_points(), safe_spot@, match r { Ok(i) => Some(i), Err(_) => None }),
            r matches Err(e) ==> e@ == "Could not allocate any wait points. Are we sure there are enough waitpoints available?"@,
            final(self).records() == old(self).records(),
            final(self).claims() == old(self).claims(),
            final(self).wf() == old(self).wf(),
    {
        let mut wait_points: Vec<WaitPointRequest> = Vec::new();
        let mut i: usize = 0;
        while i < safe_spot.len()
            invariant
                i <= safe_spot@.len(),
                wait_points@.len() == i,
                forall|k: int| 0 <= k < i ==> (#[trigger] wait_points@[k]).wait_point@ == safe_spot@[k]@,
            decreases safe_spot@.len() - i,
        {
            wait_points.push(WaitPointRequest { wait_point: safe_spot[i].clone(), time: utc_now_millis() });
            i = i + 1;
        }
        let ghost before = self.wait_points();
        match self.wait_point_system.request_waitpoint(&wait_points) {
            Ok(ticket) => {
                let r = ticket.selected();
                proof {
                    assert(r == ticket.index());
                    lemma_first_free(before, wait_points@);
                    assert(wait_points@[r as int].wait_point@ == safe_spot@[r as int]@);
                    assert(first_free(before, wait_points@) == Some(r as int));
                }
                Ok(r)
            },
            Err(_) => {
                proof { assert(first_free(before, wait_points@) is None); }
                Err("Could not allocate any wait points. Are we sure there are enough waitpoints available?")
            },
        }
    }

    /// Position of the first assignment of request `q` in `sched`.
    fn find_item(sched: &ResourceSchedules, q: usize) -> (r: Option<(usize, usize)>)
        ensures
            r matches Some((e, i)) ==> first_item(sched@, q) == Some((e as int, i as int))
                && e < sched@.len() && i < sched@[e as int].1.len(),
            r is None ==> first_item(sched@, q) is None,
    {
        let ghost s = sched@;
        let mut e: usize = 0;
        while e < sched.len()
            invariant
                s == sched@,
                e <= s.len(),
                forall|e2: int, i2: int| 0 <= e2 < e && 0 <= i2 < s[e2].1.len() ==> (#[trigger] s[e2].1[i2]).id.0 != q,
            decreases s.len() - e,
        {
            let items = sched.assignments(e);
            let mut i: usize = 0;
            while i < items.len()
                invariant
                    s == sched@,
                    e < s.len(),
                    items@ == s[e as int].1,
                    i <= items@.len(),
                    forall|e2: int, i2: int| 0 <= e2 < e && 0 <= i2 < s[e2].1.len() ==> (#[trigger] s[e2].1[i2]).id.0 != q,
                    forall|i2: int| 0 <= i2 < i ==> (#[trigger] s[e as int].1[i2]).id.0 != q,
                decreases items@.len() - i,
            {
                if items[i].id.0 == q {
                    proof {
                        let (ce, ci) = choose|ce: int, ci: int| 0 <= ce < s.len() && 0 <= ci < s[ce].1.len() && (#[trigger] s[ce].1[ci]).id.0 == q
                            && forall|e2: int, i2: int| 0 <= e2 < s.len() && 0 <= i2 < s[e2].1.len()
                                && (e2 < ce || (e2 == ce && i2 < ci)) ==> (#[trigger] s[e2].1[i2]).id.0 != q;
                        assert(s[e as int].1[i as int].id.0 == q);
                        assert(ce == e && ci == i) by {
                            if ce < e { } else if ce > e { } else if ci < i { } else if ci > i { }
                        }
                    }
                    return Some((e, i));
                }
                i = i + 1;
            }
            e = e + 1;
        }
        None
    }

    /// What the robot with ticket `ticket` should do at time `now`: with no
    /// schedule yet, wait at one of the wait points `safe_spot`; with a
    /// schedule, go to the first assignment of its request, waiting at a wait
    /// point first when it starts later than `now`.
    pub fn claim_request_at(&mut self, ticket: Ticket, safe_spot: &Vec<String>,
        feasible: Option<(ResourceSchedules, HashMap<usize, usize>)>, now: i64) -> (r: Result<ClaimSpot, &'static str>)
        requires
            old(self).wf(),
            feasible matches Some((_, m)) ==> m@.contains_key(ticket.id()),
        ensures
            final(self).wf(),
            final(self).records() == old(self).records(),
            final(self).claims() == old(self).claims(),
            is_claimed(old(self).claims(), ticket.id()) ==>
                (r matches Err(e) && e@ == "Ticket already claimed"@) && final(self).wait_points() == old(self).wait_points(),
            !is_claimed(old(self).claims(), ticket.id()) && feasible is None ==> ({
                &&& r matches Ok(ClaimSpot::WaitPermanently(i)) ==> asked_wait_point(old(self).wait_points(), final(self).wait_points(), safe_spot@, Some(i))
                &&& r matches Err(e) ==> e@ == "Could not allocate any wait points. Are we sure there are enough waitpoints available?"@
                        && asked_wait_point(old(self).wait_points(), final(self).wait_points(), safe_spot@, None)
                &&& r is Err || r matches Ok(ClaimSpot::WaitPermanently(_))
            }),
            feasible matches Some((s, m)) ==> (!is_claimed(old(self).claims(), ticket.id()) ==> {
                let q = m@[ticket.id()];
                match first_item(s@, q) {
                    None => (r matches Err(e) && e@ == "We should never reach here. Something went wrong internally"@)
                        && final(self).wait_points() == old(self).wait_points(),
                    Some((e, i)) => {
                        let goal_ok = |g: Goal| g.resource@ == s@[e].0 && g.satisfies_alt == s@[e].1[i].id.1 && g.time == s@[e].1[i].start_time;
                        &&& r matches Ok(ClaimSpot::GoImmediately(g)) ==> goal_ok(g) && final(self).wait_points() == old(self).wait_points()
                        &&& r matches Ok(ClaimSpot::WaitAtThenGo(w, g)) ==> goal_ok(g)
                                && asked_wait_point(old(self).wait_points(), final(self).wait_points(), safe_spot@, Some(w))
                        &&& r matches Err(msg) ==> msg@ == "Could not allocate any wait points. Are we sure there are enough waitpoints available?"@
                                && asked_wait_point(old(self).wait_points(), final(self).wait_points(), safe_spot@, None)
                        &&& !(r matches Ok(ClaimSpot::WaitPermanently(_)))
                        &&& s@[e].1[i].start_time <= now ==> (r matches Ok(ClaimSpot::GoImmediately(g)) && goal_ok(g))
                        &&& s@[e].1[i].start_time > now ==> !(r matches Ok(ClaimSpot::GoImmediately(_)))
                    },
                }
            }),
    {
        if self.claimed(ticket.count).is_some() {
            return Err("Ticket already claimed");
        }
        match feasible {
            None => {
                match self.wait_somewhere(safe_spot) {
                    Ok(i) => Ok(ClaimSpot::WaitPermanently(i)),
                    Err(e) => Err(e),
                }
            },
            Some((result, mapping)) => {
                let request_idx = *mapping.get(&ticket.count).unwrap();
                match Self::find_item(&result, request_idx) {
                    None => Err("We should never reach here. Something went wrong internally"),
                    Some((e, i)) => {
                        let item = result.assignments(e)[i];
                        let resource = result.name(e).clone();
                        let goal = Goal { resource, satisfies_alt: item.id.1, time: item.start_time };
                        if item.start_time > now {
                            match self.wait_somewhere(safe_spot) {
                                Ok(w) => Ok(ClaimSpot::WaitAtThenGo(w, goal)),
                                Err(msg) => Err(msg),
                            }
                        } else {
                            Ok(ClaimSpot::GoImmediately(goal))
                        }
                    },
                }
            },
        }
    }

    /// What the robot with ticket `ticket` should do: with no schedule yet,
    /// wait at one of the wait points `safe_spot`; with a schedule, go to the
    /// first assignment of its request, waiting at a wait point first when it
    /// starts later than now.
    pub fn claim_request(&mut self, ticket: Ticket, safe_spot: &Vec<String>,
        feasible: Option<(ResourceSchedules, HashMap<usize, usize>)>) -> (r: Result<ClaimSpot, &'static str>)
        requires
            old(self).wf(),
            feasible matches Some((_, m)) ==> m@.contains_key(ticket.id()),
        ensures
            final(self).wf(),
            final(self).records() == old(self).records(),
            final(self).claims() == old(self).claims(),
            is_claimed(old(self).claims(), ticket.id()) ==>
                (r matches Err(e) && e@ == "Ticket already claimed"@) && final(self).wait_points() == old(self).wait_points(),
            !is_claimed(old(self).claims(), ticket.id()) && feasible is None ==> ({
                &&& r matches Ok(ClaimSpot::WaitPermanently(i)) ==> asked_wait_point(old(self).wait_points(), final(self).wait_points(), safe_spot@, Some(i))
                &&& r matches Err(e) ==> e@ == "Could not allocate any wait points. Are we sure there are enough waitpoints available?"@
                        && asked_wait_point(old(self).wait_points(), final(self).wait_points(), safe_spot@, None)
                &&& r is Err || r matches Ok(ClaimSpot::WaitPermanently(_))
            }),
            feasible matches Some((s, m)) ==> (!is_claimed(old(self).claims(), ticket.id()) ==> {
                let q = m@[ticket.id()];
                match first_item(s@, q) {
                    None => (r matches Err(e) && e@ == "We should never reach here. Something went wrong internally"@)
                        && final(self).wait_points() == old(self).wait_points(),
                    Some((e, i)) => {
                        let goal_ok = |g: Goal| g.resource@ == s@[e].0 && g.satisfies_alt == s@[e].1[i].id.1 && g.time == s@[e].1[i].start_time;
                        &&& r matches Ok(ClaimSpot::GoImmediately(g)) ==> goal_ok(g) && final(self).wait_points() == old(self).wait_points()
                        &&& r matches Ok(ClaimSpot::WaitAtThenGo(w, g)) ==> goal_ok(g)
                                && asked_wait_point(old(self).wait_points(), final(self).wait_points(), safe_spot@, Some(w))
                        &&& r matches Err(msg) ==> msg@ == "Could not allocate any wait points. Are we sure there are enough waitpoints available?"@
                                && asked_wait_point(old(self).wait_points(), final(self).wait_points(), safe_spot@, None)
                        &&& !(r matches Ok(ClaimSpot::WaitPermanently(_)))
                    },
                }
            }),
    {
        let now = self.clock_source.now();
        self.claim_request_at(ticket, safe_spot, feasible, now)
    }

    /// Sets, to the current time, the leaving time of the last holder of
    /// wait point `wait_point`, if it has one.
    pub fn release_waitspot(&mut self, wait_point: &String)
        ensures
            final(self).records() == old(self).records(),
            final(self).claims() == old(self).claims(),
            final(self).wf() == old(self).wf(),
            match queue_index(old(self).wait_points(), wait_point@) {
                Some(i) if old(self).wait_points()[i].1.len() > 0 => exists|t: i64| final(self).wait_points()
                    == old(self).wait_points().update(i, (wait_point@, old(self).wait_points()[i].1.update(old(self).wait_points()[i].1.len() - 1, Some(t)))),
                _ => final(self).wait_points() == old(self).wait_points(),
            },
    {
        let now = utc_now_millis();
        let _ = self.wait_point_system.release_waitpoint_at_time(wait_point, &now);
    }
}

} // verus!
