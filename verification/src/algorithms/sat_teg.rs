//! Scheduling on a time-expanded grid: every alternative has one boolean
//! variable per grid step, true while the alternative holds its resource.
//! A boolean solver picks the variables; an alternative starts at the first
//! step its variable is true.

use vstd::prelude::*;
use varisat::Solver;
use crate::request::{ReservationParameters, ReservationRequestAlternative, spec_falls_within};
use crate::sat_backend::{MAX_SAT_VAR, clause_holds, is_model_of, model_consistent, lits_in_range, sat_add_clause, sat_clauses, sat_model, sat_new, sat_solve, sat_usable};
use super::sat_flexible_time_model::{Assignment, Problem, ResourceSchedules};
use super::sat_flexible_time_model::problem::{is_alternative, problem_requests, resource_of};
use super::sat_flexible_time_model::solver::{AlternativeIndex, index_alternatives, total_alternatives};

verus! {

/// Solves resource scheduling problems on a grid of time steps.
pub struct TEGSolver {
    /// Length of a grid step, in milliseconds.
    pub time_step: i64,
    /// Length of the horizon, in milliseconds.
    pub max_time_steps: i64,
    /// Time of the first grid step, in milliseconds since the Unix epoch.
    pub start: i64,
}

/// Number of grid steps: the whole seconds of the horizon divided by the
/// whole seconds of a step.
pub open spec fn grid_len(s: TEGSolver) -> int {
    if s.max_time_steps >= 0 { (s.max_time_steps / 1000) / (s.time_step / 1000) } else { 0 }
}

/// Time of grid step `t`.
pub open spec fn grid_time(s: TEGSolver, t: int) -> int {
    s.start + s.time_step * t
}

/// Grid steps a reservation of `duration` holds its resource: its whole
/// seconds divided by the whole seconds of a step; the whole grid for a
/// reservation that never ends.
pub open spec fn grid_duration(s: TEGSolver, duration: Option<i64>) -> int {
    match duration {
        Some(d) => if d >= 0 { (d / 1000) / (s.time_step / 1000) } else { 0 },
        None => grid_len(s),
    }
}

/// Steps of at least a second, a grid whose times are representable, and
/// boolean variables (one per step and alternative, of `n`) the boolean
/// solver accepts.
pub open spec fn grid_fits(s: TEGSolver, n: nat) -> bool {
    &&& s.time_step >= 1000
    &&& grid_len(s) * n <= MAX_SAT_VAR + 1
    &&& s.time_step * grid_len(s) <= i64::MAX
    &&& grid_time(s, grid_len(s)) <= i64::MAX
}

/// Clause `c` is among the clauses `cs`.
pub open spec fn in_formula(cs: Seq<Seq<(usize, bool)>>, c: Seq<(usize, bool)>) -> bool {
    exists|k: int| 0 <= k < cs.len() && cs[k] == c
}

/// The literal of alternative number `v` at step `t`, with `n` alternatives.
pub open spec fn lit(n: int, t: int, v: int, p: bool) -> (usize, bool) {
    ((t * n + v) as usize, p)
}

/// Alternatives `u` and `w` are not both true at step `t`.
pub open spec fn pair_clause(n: int, t: int, u: int, w: int) -> Seq<(usize, bool)> {
    seq![lit(n, t, u, false), lit(n, t, w, false)]
}

/// Alternative `v` is false at step `t`.
pub open spec fn ban_clause(n: int, t: int, v: int) -> Seq<(usize, bool)> {
    seq![lit(n, t, v, false)]
}

/// Alternative `v` is false at step `j` unless it was true at `j - 1`.
pub open spec fn late_clause(n: int, j: int, v: int) -> Seq<(usize, bool)> {
    seq![lit(n, j - 1, v, true), lit(n, j, v, false)]
}

/// Alternative `v`, starting at step `j`, is true at step `k`.
pub open spec fn hold_clause(n: int, j: int, k: int, v: int) -> Seq<(usize, bool)> {
    seq![lit(n, j - 1, v, true), lit(n, j, v, false), lit(n, k, v, true)]
}

/// Assignment `a` on resource `name` is an alternative of `reqs` on that
/// resource, starting at a step of the grid of `s` within its start window.
pub open spec fn grid_placed(s: TEGSolver, reqs: Seq<Seq<ReservationRequestAlternative>>, name: Seq<char>, a: Assignment) -> bool {
    &&& is_alternative(reqs, a.id)
    &&& resource_of(reqs, a.id) == name
    &&& exists|t: int| 0 <= t < grid_len(s) && a.start_time == #[trigger] grid_time(s, t)
    &&& spec_falls_within(reqs[a.id.0 as int][a.id.1 as int].parameters, a.start_time)
}

/// Some alternative of request `q` is in `sched`.
pub open spec fn request_granted(sched: Seq<(Seq<char>, Seq<Assignment>)>, q: int) -> bool {
    exists|e: int, i: int| 0 <= e < sched.len() && 0 <= i < sched[e].1.len() && (#[trigger] sched[e].1[i]).id.0 == q
}

/// `b` starts after `a`, and, when `a` starts after the first grid step,
/// no sooner than `a` ends on the grid of `s`.
pub open spec fn runs_before(s: TEGSolver, reqs: Seq<Seq<ReservationRequestAlternative>>, a: Assignment, b: Assignment) -> bool {
    &&& a.start_time < b.start_time
    &&& a.start_time > s.start ==> b.start_time >= a.start_time
            + s.time_step * grid_duration(s, reqs[a.id.0 as int][a.id.1 as int].parameters.duration)
}

/// `sched` answers the requests `reqs` on the grid of `s`: every assignment is
/// an alternative placed on the grid within its window, every request has one,
/// no alternative is there twice, and on every resource the assignments follow
/// each other without overlapping.
pub open spec fn teg_schedule(s: TEGSolver, reqs: Seq<Seq<ReservationRequestAlternative>>, sched: Seq<(Seq<char>, Seq<Assignment>)>) -> bool {
    &&& forall|e: int, i: int| 0 <= e < sched.len() && 0 <= i < sched[e].1.len() ==> grid_placed(s, reqs, sched[e].0, #[trigger] sched[e].1[i])
    &&& forall|q: int| 0 <= q < reqs.len() ==> #[trigger] request_granted(sched, q)
    &&& forall|e: int, i: int, j: int| 0 <= e < sched.len() && 0 <= i < j < sched[e].1.len() ==>
            runs_before(s, reqs, #[trigger] sched[e].1[i], #[trigger] sched[e].1[j])
    &&& forall|e1: int, i: int, e2: int, j: int| 0 <= e1 < sched.len() && 0 <= i < sched[e1].1.len()
            && 0 <= e2 < sched.len() && 0 <= j < sched[e2].1.len() && (e1 != e2 || i != j)
            ==> (#[trigger] sched[e1].1[i]).id != (#[trigger] sched[e2].1[j]).id
}

/// The messages of the failures of [`TEGSolver::solve`] that can occur: the
/// boolean solver always answers, and gives a model whenever it finds one.
pub open spec fn teg_error(e: Seq<char>) -> bool {
    ||| e == "No solution found"@
    ||| e == "Got a decision var that is not in our original list. This is an eror that should never happen"@
}

/// Parameters of alternative number `v`.
pub(crate) open spec fn alt_params(reqs: Seq<Seq<ReservationRequestAlternative>>, idx: AlternativeIndex, v: int) -> ReservationParameters {
    reqs[idx.options@[v].0 as int][idx.options@[v].1 as int].parameters
}

/// Alternative number `v` may start at step `t`.
pub(crate) open spec fn may_start(s: TEGSolver, reqs: Seq<Seq<ReservationRequestAlternative>>, idx: AlternativeIndex, v: int, t: int) -> bool {
    spec_falls_within(alt_params(reqs, idx, v), grid_time(s, t) as i64)
}

/// Steps alternative number `v` holds its resource.
pub(crate) open spec fn steps_held(s: TEGSolver, reqs: Seq<Seq<ReservationRequestAlternative>>, idx: AlternativeIndex, v: int) -> int {
    grid_duration(s, alt_params(reqs, idx, v).duration)
}

/// Two alternatives of one resource never hold it at the same step, for the
/// steps before `t0`, and at step `t0` for the pairs before `(u0, w0)`.
pub(crate) open spec fn mutex_upto(cs: Seq<Seq<(usize, bool)>>, idx: AlternativeIndex, t0: int, u0: int, w0: int) -> bool {
    let n = idx.options@.len() as int;
    forall|t: int, u: int, w: int|
        0 <= t && 0 <= u < w < n && idx.resource_of_opt@[u] == idx.resource_of_opt@[w]
        && (t < t0 || (t == t0 && u < u0) || (t == t0 && u == u0 && w < w0))
        ==> #[trigger] in_formula(cs, pair_clause(n, t, u, w))
}

/// The literals of clause `c` are the steps at which an alternative of
/// request `q` may start, with `n` alternatives and `tt` steps.
pub(crate) open spec fn start_options(s: TEGSolver, reqs: Seq<Seq<ReservationRequestAlternative>>, idx: AlternativeIndex, tt: int,
    c: Seq<(usize, bool)>, q: int) -> bool
{
    let n = idx.options@.len() as int;
    forall|i: int| 0 <= i < c.len() ==> {
        let x = (#[trigger] c[i]).0 as int;
        &&& c[i].1
        &&& 0 <= x < tt * n
        &&& idx.options@[x % n].0 == q
        &&& may_start(s, reqs, idx, x % n, x / n)
    }
}

/// Requests before `q0` each have a clause asking for one of their starts.
pub(crate) open spec fn starts_upto(s: TEGSolver, reqs: Seq<Seq<ReservationRequestAlternative>>, idx: AlternativeIndex, tt: int,
    cs: Seq<Seq<(usize, bool)>>, q0: int) -> bool
{
    forall|q: int| 0 <= q < q0 ==> #[trigger] start_clause(s, reqs, idx, tt, cs, q)
}

/// Among `cs` is a clause asking for one of the starts of request `q`.
pub(crate) open spec fn start_clause(s: TEGSolver, reqs: Seq<Seq<ReservationRequestAlternative>>, idx: AlternativeIndex, tt: int,
    cs: Seq<Seq<(usize, bool)>>, q: int) -> bool
{
    exists|c: Seq<(usize, bool)>| #[trigger] in_formula(cs, c) && start_options(s, reqs, idx, tt, c, q)
}

/// Alternative `v` is never true at a step where it may not start, for the
/// alternatives before `v0`, and for `v0` at the steps before `t0`.
pub(crate) open spec fn bans_upto(s: TEGSolver, reqs: Seq<Seq<ReservationRequestAlternative>>, idx: AlternativeIndex, tt: int,
    cs: Seq<Seq<(usize, bool)>>, v0: int, t0: int) -> bool
{
    let n = idx.options@.len() as int;
    forall|v: int, t: int| 0 <= v < n && 0 <= t < tt && (v < v0 || (v == v0 && t < t0)) && !may_start(s, reqs, idx, v, t)
        ==> #[trigger] in_formula(cs, ban_clause(n, t, v))
}

/// Alternative `v` cannot start at step `j` (it is false there unless it was
/// true at `j - 1`) when it may not start there or does not end within the
/// grid, for the alternatives before `v0`, and for `v0` at the steps before `j0`.
pub(crate) open spec fn late_upto(s: TEGSolver, reqs: Seq<Seq<ReservationRequestAlternative>>, idx: AlternativeIndex, tt: int,
    cs: Seq<Seq<(usize, bool)>>, v0: int, j0: int) -> bool
{
    let n = idx.options@.len() as int;
    forall|v: int, j: int| 0 <= v < n && 1 <= j < tt && (v < v0 || (v == v0 && j < j0))
        && (!may_start(s, reqs, idx, v, j) || j + steps_held(s, reqs, idx, v) >= tt)
        ==> #[trigger] in_formula(cs, late_clause(n, j, v))
}

/// Alternative `v` starting at step `j` stays true for its duration, for the
/// alternatives before `v0`, for `v0` at the steps before `j0`, and at `j0`
/// for the steps before `k0`.
pub(crate) open spec fn hold_upto(s: TEGSolver, reqs: Seq<Seq<ReservationRequestAlternative>>, idx: AlternativeIndex, tt: int,
    cs: Seq<Seq<(usize, bool)>>, v0: int, j0: int, k0: int) -> bool
{
    let n = idx.options@.len() as int;
    forall|v: int, j: int, k: int| 0 <= v < n && 1 <= j < tt && j < k < j + steps_held(s, reqs, idx, v)
        && may_start(s, reqs, idx, v, j) && j + steps_held(s, reqs, idx, v) < tt
        && (v < v0 || (v == v0 && j < j0) || (v == v0 && j == j0 && k < k0))
        ==> #[trigger] in_formula(cs, hold_clause(n, j, k, v))
}

/// Every clause of the encoding with `tt` steps is among `cs`.
pub(crate) open spec fn encoded(s: TEGSolver, reqs: Seq<Seq<ReservationRequestAlternative>>, idx: AlternativeIndex, tt: int,
    cs: Seq<Seq<(usize, bool)>>) -> bool
{
    let n = idx.options@.len() as int;
    &&& mutex_upto(cs, idx, tt, 0, 0)
    &&& starts_upto(s, reqs, idx, tt, cs, reqs.len() as int)
    &&& bans_upto(s, reqs, idx, tt, cs, n, 0)
    &&& late_upto(s, reqs, idx, tt, cs, n, 0)
    &&& hold_upto(s, reqs, idx, tt, cs, n, 0, 0)
}

/// Every clause of `a` is among `b`.
pub open spec fn kept(a: Seq<Seq<(usize, bool)>>, b: Seq<Seq<(usize, bool)>>) -> bool {
    forall|c: Seq<(usize, bool)>| #![trigger in_formula(a, c)] #![trigger in_formula(b, c)] in_formula(a, c) ==> in_formula(b, c)
}

proof fn lemma_var_bound(t: int, v: int, n: int, tt: int)
    by (nonlinear_arith)
    requires
        0 <= t < tt,
        0 <= v < n,
    ensures
        0 <= t * n + v < tt * n,
        t * n <= tt * n,
{
}

proof fn lemma_var_split(t: int, v: int, n: int)
    by (nonlinear_arith)
    requires
        0 <= t,
        0 <= v < n,
    ensures
        (t * n + v) / n == t,
        (t * n + v) % n == v,
{
}

proof fn lemma_grid_len(s: TEGSolver)
    requires
        s.time_step >= 1000,
    ensures
        0 <= grid_len(s) <= i64::MAX / 1000,
{
    if s.max_time_steps >= 0 {
        let a = s.max_time_steps / 1000;
        let b = s.time_step / 1000;
        assert(0 <= a <= i64::MAX / 1000);
        assert(b >= 1);
        assert(a / b <= a) by (nonlinear_arith) requires a >= 0, b >= 1 { }
        assert(a / b >= 0) by (nonlinear_arith) requires a >= 0, b >= 1 { }
    }
}

proof fn lemma_grid_time(s: TEGSolver, t: int)
    by (nonlinear_arith)
    requires
        s.time_step >= 1000,
        0 <= t <= grid_len(s),
        grid_len(s) >= 0,
        s.time_step * grid_len(s) <= i64::MAX,
        grid_time(s, grid_len(s)) <= i64::MAX,
    ensures
        0 <= s.time_step * t <= s.time_step * grid_len(s),
        i64::MIN <= grid_time(s, t) <= i64::MAX,
{
}

/// Adds `clause` to the solver, which keeps its clauses.
fn add_clause(s: &mut Solver<'static>, clause: Vec<(usize, bool)>)
    requires
        lits_in_range(clause@),
        sat_usable(*old(s)),
    ensures
        sat_usable(*final(s)),
        in_formula(sat_clauses(*final(s)), clause@),
        kept(sat_clauses(*old(s)), sat_clauses(*final(s))),
        sat_clauses(*final(s)) == sat_clauses(*old(s)).push(clause@),
{
    let ghost before = sat_clauses(*s);
    sat_add_clause(s, &clause);
    proof {
        let after = sat_clauses(*s);
        assert(after[before.len() as int] == clause@);
        assert forall|c: Seq<(usize, bool)>| in_formula(before, c) implies #[trigger] in_formula(after, c) by {
            let k = choose|k: int| 0 <= k < before.len() && before[k] == c;
            assert(after[k] == c);
        }
    }
}

/// `c` keeps two alternatives of one resource from holding it at the same
/// step before `tt`.
pub(crate) open spec fn same_resource_pair(c: Seq<(usize, bool)>, idx: AlternativeIndex, tt: int) -> bool {
    let n = idx.options@.len() as int;
    exists|t: int, u: int, w: int| 0 <= t < tt && 0 <= u < w < n && idx.resource_of_opt@[u] == idx.resource_of_opt@[w]
        && c == #[trigger] pair_clause(n, t, u, w)
}

/// `after` is `before` followed by clauses that each keep two alternatives of
/// one resource apart at a step before `tt`.
pub(crate) open spec fn only_mutex_added(before: Seq<Seq<(usize, bool)>>, after: Seq<Seq<(usize, bool)>>, idx: AlternativeIndex, tt: int) -> bool {
    &&& before.len() <= after.len()
    &&& forall|i: int| 0 <= i < before.len() ==> after[i] == before[i]
    &&& forall|i: int| before.len() <= i < after.len() ==> same_resource_pair(#[trigger] after[i], idx, tt)
}

/// A mutual-exclusion clause never keeps apart two alternatives of different
/// resources: for any step and any two alternatives whose resources differ,
/// it is not the clause forbidding them to hold together at that step.
pub(crate) proof fn lemma_mutex_spares_other_resources(c: Seq<(usize, bool)>, idx: AlternativeIndex, tt: int, t: int, u: int, w: int)
    requires
        same_resource_pair(c, idx, tt),
        idx.resource_of_opt@.len() == idx.options@.len(),
        tt * idx.options@.len() <= usize::MAX,
        0 <= t < tt,
        0 <= u < idx.options@.len(),
        0 <= w < idx.options@.len(),
        idx.resource_of_opt@[u] != idx.resource_of_opt@[w],
    ensures
        c != pair_clause(idx.options@.len() as int, t, u, w),
{
    let n = idx.options@.len() as int;
    let (t1, u1, w1) = choose|t1: int, u1: int, w1: int| 0 <= t1 < tt && 0 <= u1 < w1 < n
        && idx.resource_of_opt@[u1] == idx.resource_of_opt@[w1] && c == #[trigger] pair_clause(n, t1, u1, w1);
    if c == pair_clause(n, t, u, w) {
        lemma_var_bound(t, u, n, tt);
        lemma_var_bound(t, w, n, tt);
        lemma_var_bound(t1, u1, n, tt);
        lemma_var_bound(t1, w1, n, tt);
        assert(c[0] == lit(n, t1, u1, false) && c[0] == lit(n, t, u, false));
        assert(c[1] == lit(n, t1, w1, false) && c[1] == lit(n, t, w, false));
        assert(t1 * n + u1 == t * n + u);
        assert(t1 * n + w1 == t * n + w);
        lemma_var_split(t1, u1, n);
        lemma_var_split(t, u, n);
        lemma_var_split(t1, w1, n);
        lemma_var_split(t, w, n);
    }
}

/// The clauses keeping two alternatives of one resource from holding it at the
/// same step, for the steps before `tt`.
fn add_mutex(s: &mut Solver<'static>, idx: &AlternativeIndex, tt: usize)
    requires
        sat_usable(*old(s)),
        idx.resource_of_opt@.len() == idx.options@.len(),
        tt * idx.options@.len() <= MAX_SAT_VAR + 1,
    ensures
        sat_usable(*final(s)),
        kept(sat_clauses(*old(s)), sat_clauses(*final(s))),
        mutex_upto(sat_clauses(*final(s)), *idx, tt as int, 0, 0),
        only_mutex_added(sat_clauses(*old(s)), sat_clauses(*final(s)), *idx, tt as int),
{
    let ghost start = sat_clauses(*s);
    let n = idx.options.len();
    let mut t: usize = 0;
    while t < tt
        invariant
            sat_usable(*s),
            n == idx.options@.len(),
            idx.resource_of_opt@.len() == n,
            tt * n <= MAX_SAT_VAR + 1,
            t <= tt,
            kept(start, sat_clauses(*s)),
            mutex_upto(sat_clauses(*s), *idx, t as int, 0, 0),
            only_mutex_added(start, sat_clauses(*s), *idx, tt as int),
        decreases tt - t,
    {
        let mut u: usize = 0;
        while u < n
            invariant
                sat_usable(*s),
                n == idx.options@.len(),
                idx.resource_of_opt@.len() == n,
                tt * n <= MAX_SAT_VAR + 1,
                t < tt,
                u <= n,
                kept(start, sat_clauses(*s)),
                mutex_upto(sat_clauses(*s), *idx, t as int, u as int, 0),
                only_mutex_added(start, sat_clauses(*s), *idx, tt as int),
            decreases n - u,
        {
            let mut w: usize = u + 1;
            while w < n
                invariant
                    sat_usable(*s),
                    n == idx.options@.len(),
                    idx.resource_of_opt@.len() == n,
                    tt * n <= MAX_SAT_VAR + 1,
                    t < tt,
                    u < n,
                    u < w <= n || w == u + 1,
                    kept(start, sat_clauses(*s)),
                    mutex_upto(sat_clauses(*s), *idx, t as int, u as int, w as int),
                    only_mutex_added(start, sat_clauses(*s), *idx, tt as int),
                decreases n - w,
            {
                if idx.resource_of_opt[u] == idx.resource_of_opt[w] {
                    proof {
                        lemma_var_bound(t as int, u as int, n as int, tt as int);
                        lemma_var_bound(t as int, w as int, n as int, tt as int);
                    }
                    let clause = vec![(t * n + u, false), (t * n + w, false)];
                    proof { assert(clause@ =~= pair_clause(n as int, t as int, u as int, w as int)); }
                    let ghost before = sat_clauses(*s);
                    add_clause(s, clause);
                    proof {
                        let after = sat_clauses(*s);
                        assert(same_resource_pair(after[before.len() as int], *idx, tt as int)) by {
                            assert(after[before.len() as int] == pair_clause(n as int, t as int, u as int, w as int));
                        }
                        assert(kept(start, sat_clauses(*s))) by {
                            assert forall|c: Seq<(usize, bool)>| in_formula(start, c) implies #[trigger] in_formula(sat_clauses(*s), c) by {
                                assert(in_formula(before, c));
                            }
                        }
                    }
                }
                w = w + 1;
            }
            u = u + 1;
        }
        t = t + 1;
    }
}

/// Time of grid step `t`.
fn step_time(solver: &TEGSolver, t: usize) -> (r: i64)
    requires
        solver.time_step >= 1000,
        t <= grid_len(*solver),
        solver.time_step * grid_len(*solver) <= i64::MAX,
        grid_time(*solver, grid_len(*solver)) <= i64::MAX,
    ensures
        r == grid_time(*solver, t as int),
{
    proof {
        lemma_grid_len(*solver);
        lemma_grid_time(*solver, t as int);
    }
    solver.start + solver.time_step * (t as i64)
}

/// For every request, the clause asking that one of its alternatives be true
/// at a step where it may start.
#[verifier::spinoff_prover]
fn add_starts(s: &mut Solver<'static>, solver: &TEGSolver, problem: &Problem, idx: &AlternativeIndex, tt: usize)
    requires
        sat_usable(*old(s)),
        idx.wf(problem_requests(problem)),
        solver.time_step >= 1000,
        tt <= grid_len(*solver),
        solver.time_step * grid_len(*solver) <= i64::MAX,
        grid_time(*solver, grid_len(*solver)) <= i64::MAX,
        tt * idx.options@.len() <= MAX_SAT_VAR + 1,
    ensures
        sat_usable(*final(s)),
        kept(sat_clauses(*old(s)), sat_clauses(*final(s))),
        starts_upto(*solver, problem_requests(problem), *idx, tt as int, sat_clauses(*final(s)), problem.requests@.len() as int),
{
    let ghost reqs = problem_requests(problem);
    let ghost start = sat_clauses(*s);
    let n = idx.options.len();
    let mut q: usize = 0;
    while q < problem.requests.len()
        invariant
            sat_usable(*s),
            idx.wf(reqs),
            reqs == problem_requests(problem),
            n == idx.options@.len(),
            solver.time_step >= 1000,
            tt <= grid_len(*solver),
            solver.time_step * grid_len(*solver) <= i64::MAX,
        grid_time(*solver, grid_len(*solver)) <= i64::MAX,
            tt * n <= MAX_SAT_VAR + 1,
            q <= reqs.len(),
            kept(start, sat_clauses(*s)),
            starts_upto(*solver, reqs, *idx, tt as int, sat_clauses(*s), q as int),
        decreases reqs.len() - q,
    {
        let row = &problem.requests[q];
        let mut clause: Vec<(usize, bool)> = Vec::new();
        let mut a: usize = 0;
        while a < row.len()
            invariant
                idx.wf(reqs),
                reqs == problem_requests(problem),
                n == idx.options@.len(),
                solver.time_step >= 1000,
                tt <= grid_len(*solver),
                solver.time_step * grid_len(*solver) <= i64::MAX,
        grid_time(*solver, grid_len(*solver)) <= i64::MAX,
                tt * n <= MAX_SAT_VAR + 1,
                q < reqs.len(),
                row@ == problem.requests@[q as int]@,
                a <= row@.len(),
                start_options(*solver, reqs, *idx, tt as int, clause@, q as int),
                lits_in_range(clause@),
            decreases row@.len() - a,
        {
            let v = idx.var_of[q][a];
            proof {
                assert(reqs[q as int] == row@);
                let _ = idx.var_of@[q as int]@[a as int];
            }
            let mut t: usize = 0;
            while t < tt
                invariant
                    idx.wf(reqs),
                    reqs == problem_requests(problem),
                    n == idx.options@.len(),
                    solver.time_step >= 1000,
                    tt <= grid_len(*solver),
                    solver.time_step * grid_len(*solver) <= i64::MAX,
        grid_time(*solver, grid_len(*solver)) <= i64::MAX,
                    tt * n <= MAX_SAT_VAR + 1,
                    q < reqs.len(),
                    row@ == reqs[q as int],
                    a < row@.len(),
                    v == idx.var_of@[q as int]@[a as int],
                    v < n,
                    idx.options@[v as int] == (q, a),
                    t <= tt,
                    start_options(*solver, reqs, *idx, tt as int, clause@, q as int),
                    lits_in_range(clause@),
                decreases tt - t,
            {
                let time = step_time(solver, t);
                if row[a].falls_within_acceptable_time(&time) {
                    proof {
                        lemma_var_bound(t as int, v as int, n as int, tt as int);
                        lemma_var_split(t as int, v as int, n as int);
                    }
                    let ghost before = clause@;
                    clause.push((t * n + v, true));
                    proof {
                        assert forall|i: int| 0 <= i < clause@.len() implies #[trigger] clause@[i].0 <= MAX_SAT_VAR by {
                            if i < before.len() { assert(clause@[i] == before[i]); }
                        }
                        assert forall|i: int| 0 <= i < clause@.len() implies {
                            let x = (#[trigger] clause@[i]).0 as int;
                            &&& clause@[i].1
                            &&& 0 <= x < tt * n
                            &&& idx.options@[x % (n as int)].0 == q
                            &&& may_start(*solver, reqs, *idx, x % (n as int), x / (n as int))
                        } by {
                            if i < before.len() { assert(clause@[i] == before[i]); }
                        }
                    }
                }
                t = t + 1;
            }
            a = a + 1;
        }
        let ghost c = clause@;
        let ghost before = sat_clauses(*s);
        add_clause(s, clause);
        proof {
            assert(start_clause(*solver, reqs, *idx, tt as int, sat_clauses(*s), q as int));
            assert forall|q2: int| 0 <= q2 < q + 1 implies #[trigger] start_clause(*solver, reqs, *idx, tt as int, sat_clauses(*s), q2) by {
                if q2 < q {
                    assert(start_clause(*solver, reqs, *idx, tt as int, before, q2));
                    let c2 = choose|c2: Seq<(usize, bool)>| #[trigger] in_formula(before, c2) && start_options(*solver, reqs, *idx, tt as int, c2, q2);
                    assert(in_formula(sat_clauses(*s), c2));
                }
            }
            assert(kept(start, sat_clauses(*s))) by {
                assert forall|c2: Seq<(usize, bool)>| in_formula(start, c2) implies #[trigger] in_formula(sat_clauses(*s), c2) by {
                    assert(in_formula(before, c2));
                }
            }
        }
        q = q + 1;
    }
}

/// Steps a reservation of `duration` holds its resource.
fn duration_steps(solver: &TEGSolver, duration: Option<i64>) -> (r: u64)
    requires
        solver.time_step >= 1000,
    ensures
        r == grid_duration(*solver, duration),
{
    let step_secs = (solver.time_step as u64) / 1000;
    match duration {
        Some(d) => if d >= 0 { ((d as u64) / 1000) / step_secs } else { 0 },
        None => if solver.max_time_steps >= 0 { ((solver.max_time_steps as u64) / 1000) / step_secs } else { 0 },
    }
}

/// Adds `clause`, keeping what the clauses since `start` hold.
fn add_kept(s: &mut Solver<'static>, clause: Vec<(usize, bool)>, Ghost(start): Ghost<Seq<Seq<(usize, bool)>>>)
    requires
        lits_in_range(clause@),
        sat_usable(*old(s)),
        kept(start, sat_clauses(*old(s))),
    ensures
        sat_usable(*final(s)),
        in_formula(sat_clauses(*final(s)), clause@),
        kept(sat_clauses(*old(s)), sat_clauses(*final(s))),
        kept(start, sat_clauses(*final(s))),
{
    let ghost before = sat_clauses(*s);
    add_clause(s, clause);
    proof {
        assert forall|c: Seq<(usize, bool)>| in_formula(start, c) implies #[trigger] in_formula(sat_clauses(*s), c) by {
            assert(in_formula(before, c));
        }
    }
}

/// For every alternative: false at the steps where it may not start, no
/// start where it may not start or cannot end within the grid, and true for
/// its duration from its start.
#[verifier::spinoff_prover]
#[verifier::rlimit(60)]
fn add_windows(s: &mut Solver<'static>, solver: &TEGSolver, problem: &Problem, idx: &AlternativeIndex, tt: usize)
    requires
        sat_usable(*old(s)),
        idx.wf(problem_requests(problem)),
        solver.time_step >= 1000,
        tt <= grid_len(*solver),
        idx.options@.len() > 0 ==> tt == grid_len(*solver),
        solver.time_step * grid_len(*solver) <= i64::MAX,
        grid_time(*solver, grid_len(*solver)) <= i64::MAX,
        tt * idx.options@.len() <= MAX_SAT_VAR + 1,
    ensures
        sat_usable(*final(s)),
        kept(sat_clauses(*old(s)), sat_clauses(*final(s))),
        bans_upto(*solver, problem_requests(problem), *idx, tt as int, sat_clauses(*final(s)), idx.options@.len() as int, 0),
        late_upto(*solver, problem_requests(problem), *idx, tt as int, sat_clauses(*final(s)), idx.options@.len() as int, 0),
        hold_upto(*solver, problem_requests(problem), *idx, tt as int, sat_clauses(*final(s)), idx.options@.len() as int, 0, 0),
{
    let ghost reqs = problem_requests(problem);
    let ghost start = sat_clauses(*s);
    let n = idx.options.len();
    let mut v: usize = 0;
    while v < n
        invariant
            idx.wf(reqs),
            reqs == problem_requests(problem),
            n == idx.options@.len(),
            solver.time_step >= 1000,
            tt <= grid_len(*solver),
            n > 0 ==> tt == grid_len(*solver),
            solver.time_step * grid_len(*solver) <= i64::MAX,
            grid_time(*solver, grid_len(*solver)) <= i64::MAX,
            tt * n <= MAX_SAT_VAR + 1,
            sat_usable(*s),
            kept(start, sat_clauses(*s)),
            v <= n,
            bans_upto(*solver, reqs, *idx, tt as int, sat_clauses(*s), v as int, 0),
            late_upto(*solver, reqs, *idx, tt as int, sat_clauses(*s), v as int, 0),
            hold_upto(*solver, reqs, *idx, tt as int, sat_clauses(*s), v as int, 0, 0),
        decreases n - v,
    {
        let (q, a) = idx.options[v];
        proof { let _ = idx.options@[v as int]; }
        let alt = &problem.requests[q][a];
        proof { assert(reqs[q as int][a as int] == *alt); }
        let d = duration_steps(solver, alt.parameters.duration);
        let mut t: usize = 0;
        while t < tt
            invariant
                idx.wf(reqs),
                reqs == problem_requests(problem),
                n == idx.options@.len(),
                solver.time_step >= 1000,
                tt <= grid_len(*solver),
                n > 0 ==> tt == grid_len(*solver),
                solver.time_step * grid_len(*solver) <= i64::MAX,
                grid_time(*solver, grid_len(*solver)) <= i64::MAX,
                tt * n <= MAX_SAT_VAR + 1,
                sat_usable(*s),
                kept(start, sat_clauses(*s)),
                v < n,
                idx.options@[v as int] == (q, a),
                reqs[q as int][a as int] == *alt,
                d == steps_held(*solver, reqs, *idx, v as int),
                t <= tt,
                bans_upto(*solver, reqs, *idx, tt as int, sat_clauses(*s), v as int, t as int),
                late_upto(*solver, reqs, *idx, tt as int, sat_clauses(*s), v as int, 0),
                hold_upto(*solver, reqs, *idx, tt as int, sat_clauses(*s), v as int, 0, 0),
            decreases tt - t,
        {
            let time = step_time(solver, t);
            if !alt.falls_within_acceptable_time(&time) {
                proof { lemma_var_bound(t as int, v as int, n as int, tt as int); }
                let clause = vec![(t * n + v, false)];
                proof { assert(clause@ =~= ban_clause(n as int, t as int, v as int)); }
                add_kept(s, clause, Ghost(start));
            }
            t = t + 1;
        }
        let mut j: usize = 1;
        while j < tt
            invariant
                idx.wf(reqs),
                reqs == problem_requests(problem),
                n == idx.options@.len(),
                solver.time_step >= 1000,
                tt <= grid_len(*solver),
                n > 0 ==> tt == grid_len(*solver),
                solver.time_step * grid_len(*solver) <= i64::MAX,
                grid_time(*solver, grid_len(*solver)) <= i64::MAX,
                tt * n <= MAX_SAT_VAR + 1,
                sat_usable(*s),
                kept(start, sat_clauses(*s)),
                v < n,
                idx.options@[v as int] == (q, a),
                reqs[q as int][a as int] == *alt,
                d == steps_held(*solver, reqs, *idx, v as int),
                1 <= j,
                j <= tt || tt == 0,
                bans_upto(*solver, reqs, *idx, tt as int, sat_clauses(*s), v as int + 1, 0),
                late_upto(*solver, reqs, *idx, tt as int, sat_clauses(*s), v as int, j as int),
                hold_upto(*solver, reqs, *idx, tt as int, sat_clauses(*s), v as int, j as int, 0),
            decreases tt - j,
        {
            let time = step_time(solver, j);
            proof {
                lemma_var_bound(j as int, v as int, n as int, tt as int);
                lemma_var_bound(j - 1, v as int, n as int, tt as int);
            }
            if !alt.falls_within_acceptable_time(&time) || (j as u64) + d >= (tt as u64) {
                let clause = vec![((j - 1) * n + v, true), (j * n + v, false)];
                proof { assert(clause@ =~= late_clause(n as int, j as int, v as int)); }
                add_kept(s, clause, Ghost(start));
            } else {
                let end = j + (d as usize);
                let mut k: usize = j + 1;
                while k < end
                    invariant
                        idx.wf(reqs),
                        reqs == problem_requests(problem),
                        n == idx.options@.len(),
                        solver.time_step >= 1000,
                        tt <= grid_len(*solver),
                        n > 0 ==> tt == grid_len(*solver),
                        solver.time_step * grid_len(*solver) <= i64::MAX,
                        grid_time(*solver, grid_len(*solver)) <= i64::MAX,
                        tt * n <= MAX_SAT_VAR + 1,
                        sat_usable(*s),
                        kept(start, sat_clauses(*s)),
                        v < n,
                        idx.options@[v as int] == (q, a),
                        reqs[q as int][a as int] == *alt,
                        d == steps_held(*solver, reqs, *idx, v as int),
                        1 <= j < tt,
                        may_start(*solver, reqs, *idx, v as int, j as int),
                        end == j + d,
                        end < tt,
                        j < k,
                        k <= end || k == j + 1,
                        bans_upto(*solver, reqs, *idx, tt as int, sat_clauses(*s), v as int + 1, 0),
                        late_upto(*solver, reqs, *idx, tt as int, sat_clauses(*s), v as int, j as int + 1),
                        hold_upto(*solver, reqs, *idx, tt as int, sat_clauses(*s), v as int, j as int, k as int),
                    decreases end - k,
                {
                    proof {
                        lemma_var_bound(j as int, v as int, n as int, tt as int);
                        lemma_var_bound(j - 1, v as int, n as int, tt as int);
                        lemma_var_bound(k as int, v as int, n as int, tt as int);
                    }
                    let clause = vec![((j - 1) * n + v, true), (j * n + v, false), (k * n + v, true)];
                    proof { assert(clause@ =~= hold_clause(n as int, j as int, k as int, v as int)); }
                    add_kept(s, clause, Ghost(start));
                    k = k + 1;
                }
            }
            j = j + 1;
        }
        v = v + 1;
    }
}

/// `e` holds, for each of the `n` alternatives, the first of the `tt` steps
/// at which model `m` makes it true, if any.
pub(crate) open spec fn first_steps(e: Seq<Option<usize>>, m: Seq<(usize, bool)>, n: int, tt: int) -> bool {
    &&& e.len() == n
    &&& forall|v: int| 0 <= v < n ==> (#[trigger] e[v] matches Some(t) ==> t < tt && m.contains(lit(n, t as int, v, true)))
    &&& forall|k: int| 0 <= k < m.len() && (#[trigger] m[k]).1 ==> m[k].0 < tt * n
    &&& forall|k: int| 0 <= k < m.len() && (#[trigger] m[k]).1 ==>
            (e[m[k].0 as int % n] matches Some(t0) && t0 <= m[k].0 as int / n)
}

/// For every alternative, the first step at which `model` makes it true;
/// `None` if the model makes true a variable of no alternative and step.
fn first_true_steps(model: &Vec<(usize, bool)>, n: usize, tt: usize) -> (r: Option<Vec<Option<usize>>>)
    requires
        tt * n <= MAX_SAT_VAR + 1,
    ensures
        r is None <==> exists|k: int| 0 <= k < model@.len() && (#[trigger] model@[k]).1 && model@[k].0 >= tt * n,
        r matches Some(e) ==> first_steps(e@, model@, n as int, tt as int),
{
    let mut e: Vec<Option<usize>> = Vec::new();
    let mut v: usize = 0;
    while v < n
        invariant
            v <= n,
            e@.len() == v,
            forall|v2: int| 0 <= v2 < v ==> e@[v2] is None,
        decreases n - v,
    {
        e.push(None);
        v = v + 1;
    }
    let tn = tt * n;
    let mut i: usize = 0;
    while i < model.len()
        invariant
            tt * n <= MAX_SAT_VAR + 1,
            tn == tt * n,
            i <= model@.len(),
            e@.len() == n,
            forall|v2: int| 0 <= v2 < n ==> (#[trigger] e@[v2] matches Some(t) ==> t < tt && model@.contains(lit(n as int, t as int, v2, true))),
            forall|k: int| 0 <= k < i && (#[trigger] model@[k]).1 ==> model@[k].0 < tn,
            forall|k: int| 0 <= k < i && (#[trigger] model@[k]).1 ==>
                (e@[model@[k].0 as int % n as int] matches Some(t0) && t0 <= model@[k].0 as int / n as int),
        decreases model@.len() - i,
    {
        let (x, p) = model[i];
        if p {
            if x >= tn {
                return None;
            }
            proof {
                if n == 0 { assert(tt * n == 0) by (nonlinear_arith) requires n == 0; }
            }
            let t = x / n;
            let w = x % n;
            proof {
                vstd::arithmetic::div_mod::lemma_fundamental_div_mod(x as int, n as int);
                assert(x == t * n + w && t < tt) by (nonlinear_arith) requires x == n * (x / n) + x % n, t == x / n, w == x % n, x < tt * n, n > 0, 0 <= w < n;
                assert(lit(n as int, t as int, w as int, true) == model@[i as int]);
            }
            let replace = match e[w] {
                Some(t0) => t < t0,
                None => true,
            };
            if replace {
                let ghost before = e@;
                e.set(w, Some(t));
                proof {
                    assert forall|k: int| 0 <= k < i + 1 && (#[trigger] model@[k]).1 implies
                        (e@[model@[k].0 as int % n as int] matches Some(t0) && t0 <= model@[k].0 as int / n as int) by {
                        if k < i {
                            assert(before[model@[k].0 as int % n as int] is Some);
                        }
                    }
                }
            }
        }
        i = i + 1;
    }
    Some(e)
}

proof fn lemma_holds(m: Seq<(usize, bool)>, cs: Seq<Seq<(usize, bool)>>, c: Seq<(usize, bool)>)
    requires
        is_model_of(m, cs),
        in_formula(cs, c),
    ensures
        clause_holds(m, c),
{
    let k = choose|k: int| 0 <= k < cs.len() && cs[k] == c;
    assert(clause_holds(m, cs[k]));
}

proof fn lemma_not_both(m: Seq<(usize, bool)>, x: usize)
    requires
        model_consistent(m),
    ensures
        !(m.contains((x, true)) && m.contains((x, false))),
{
    if m.contains((x, true)) && m.contains((x, false)) {
        let i = choose|i: int| 0 <= i < m.len() && m[i] == (x, true);
        let j = choose|j: int| 0 <= j < m.len() && m[j] == (x, false);
        assert(m[i].0 == m[j].0);
    }
}

/// What the model of an encoding with `tt` steps gives the first steps `e`.
pub(crate) open spec fn decoded(s: TEGSolver, reqs: Seq<Seq<ReservationRequestAlternative>>, idx: AlternativeIndex, tt: int,
    m: Seq<(usize, bool)>, e: Seq<Option<usize>>) -> bool
{
    let n = idx.options@.len() as int;
    &&& idx.wf(reqs)
    &&& tt * n <= MAX_SAT_VAR + 1
    &&& exists|cs: Seq<Seq<(usize, bool)>>| is_model_of(m, cs) && encoded(s, reqs, idx, tt, cs)
    &&& first_steps(e, m, n, tt)
}

/// An alternative starts at a step where it may start.
proof fn lemma_first_in_window(s: TEGSolver, reqs: Seq<Seq<ReservationRequestAlternative>>, idx: AlternativeIndex, tt: int,
    m: Seq<(usize, bool)>, e: Seq<Option<usize>>, v: int)
    requires
        decoded(s, reqs, idx, tt, m, e),
        0 <= v < idx.options@.len(),
        e[v] is Some,
    ensures
        may_start(s, reqs, idx, v, e[v]->0 as int),
{
    let n = idx.options@.len() as int;
    let cs = choose|cs: Seq<Seq<(usize, bool)>>| is_model_of(m, cs) && encoded(s, reqs, idx, tt, cs);
    let t = e[v]->0 as int;
    if !may_start(s, reqs, idx, v, t) {
        assert(in_formula(cs, ban_clause(n, t, v)));
        lemma_holds(m, cs, ban_clause(n, t, v));
        lemma_not_both(m, lit(n, t, v, true).0);
    }
}

/// Every request has an alternative that starts.
proof fn lemma_request_served(s: TEGSolver, reqs: Seq<Seq<ReservationRequestAlternative>>, idx: AlternativeIndex, tt: int,
    m: Seq<(usize, bool)>, e: Seq<Option<usize>>, q: int)
    requires
        decoded(s, reqs, idx, tt, m, e),
        0 <= q < reqs.len(),
    ensures
        exists|v: int| 0 <= v < idx.options@.len() && idx.options@[v].0 == q && #[trigger] e[v] is Some,
{
    let n = idx.options@.len() as int;
    let cs = choose|cs: Seq<Seq<(usize, bool)>>| is_model_of(m, cs) && encoded(s, reqs, idx, tt, cs);
    assert(start_clause(s, reqs, idx, tt, cs, q));
    let c = choose|c: Seq<(usize, bool)>| #[trigger] in_formula(cs, c) && start_options(s, reqs, idx, tt, c, q);
    lemma_holds(m, cs, c);
    let i = choose|i: int| 0 <= i < c.len() && m.contains(#[trigger] c[i]);
    let k = choose|k: int| 0 <= k < m.len() && m[k] == c[i];
    let x = c[i].0 as int;
    assert(m[k].1);
    assert(n > 0) by { if n == 0 { assert(tt * n == 0) by (nonlinear_arith) requires n == 0; } }
    assert(e[x % n] is Some);
    assert(0 <= x % n < n) by (nonlinear_arith) requires n > 0, x >= 0;
}

/// Two alternatives of one resource do not start at the same step.
proof fn lemma_distinct_starts(s: TEGSolver, reqs: Seq<Seq<ReservationRequestAlternative>>, idx: AlternativeIndex, tt: int,
    m: Seq<(usize, bool)>, e: Seq<Option<usize>>, u: int, w: int, t: int)
    requires
        decoded(s, reqs, idx, tt, m, e),
        0 <= u < idx.options@.len(),
        0 <= w < idx.options@.len(),
        u != w,
        idx.resource_of_opt@[u] == idx.resource_of_opt@[w],
        0 <= t < tt,
    ensures
        !(m.contains(lit(idx.options@.len() as int, t, u, true)) && m.contains(lit(idx.options@.len() as int, t, w, true))),
{
    let n = idx.options@.len() as int;
    if m.contains(lit(n, t, u, true)) && m.contains(lit(n, t, w, true)) {
        let cs = choose|cs: Seq<Seq<(usize, bool)>>| is_model_of(m, cs) && encoded(s, reqs, idx, tt, cs);
        let (a, b) = if u < w { (u, w) } else { (w, u) };
        assert(in_formula(cs, pair_clause(n, t, a, b)));
        lemma_holds(m, cs, pair_clause(n, t, a, b));
        let i = choose|i: int| 0 <= i < pair_clause(n, t, a, b).len() && m.contains(#[trigger] pair_clause(n, t, a, b)[i]);
        if i == 0 {
            lemma_not_both(m, lit(n, t, a, true).0);
        } else {
            lemma_not_both(m, lit(n, t, b, true).0);
        }
    }
}

/// An alternative starting after the first step ends within the grid and
/// holds its resource until it ends.
proof fn lemma_held(s: TEGSolver, reqs: Seq<Seq<ReservationRequestAlternative>>, idx: AlternativeIndex, tt: int,
    m: Seq<(usize, bool)>, e: Seq<Option<usize>>, v: int, k: int)
    requires
        decoded(s, reqs, idx, tt, m, e),
        0 <= v < idx.options@.len(),
        e[v] matches Some(t) && t >= 1,
        e[v]->0 < k < e[v]->0 + steps_held(s, reqs, idx, v),
    ensures
        e[v]->0 + steps_held(s, reqs, idx, v) < tt,
        m.contains(lit(idx.options@.len() as int, k, v, true)),
{
    let n = idx.options@.len() as int;
    let cs = choose|cs: Seq<Seq<(usize, bool)>>| is_model_of(m, cs) && encoded(s, reqs, idx, tt, cs);
    let j = e[v]->0 as int;
    lemma_var_bound(j, v, n, tt);
    lemma_var_bound(j - 1, v, n, tt);
    lemma_var_split(j - 1, v, n);
    if m.contains(lit(n, j - 1, v, true)) {
        let k2 = choose|k2: int| 0 <= k2 < m.len() && m[k2] == lit(n, j - 1, v, true);
        assert(m[k2].1);
    }
    lemma_first_in_window(s, reqs, idx, tt, m, e, v);
    if j + steps_held(s, reqs, idx, v) >= tt {
        assert(in_formula(cs, late_clause(n, j, v)));
        lemma_holds(m, cs, late_clause(n, j, v));
        let i = choose|i: int| 0 <= i < late_clause(n, j, v).len() && m.contains(#[trigger] late_clause(n, j, v)[i]);
        if i == 1 { lemma_not_both(m, lit(n, j, v, true).0); }
    }
    assert(in_formula(cs, hold_clause(n, j, k, v)));
    lemma_holds(m, cs, hold_clause(n, j, k, v));
    let i = choose|i: int| 0 <= i < hold_clause(n, j, k, v).len() && m.contains(#[trigger] hold_clause(n, j, k, v)[i]);
    if i == 1 { lemma_not_both(m, lit(n, j, v, true).0); }
}

/// `b` holds, for each resource, its alternatives that start, each with its
/// first step, by step and then by number.
pub(crate) open spec fn buckets_of(idx: AlternativeIndex, e: Seq<Option<usize>>, b: Seq<Seq<(usize, usize)>>) -> bool {
    let n = idx.options@.len() as int;
    &&& b.len() == idx.resource_names@.len()
    &&& forall|r: int, i: int| 0 <= r < b.len() && 0 <= i < b[r].len() ==> {
            let (t, v) = #[trigger] b[r][i];
            &&& v < n
            &&& e[v as int] == Some(t)
            &&& idx.resource_of_opt@[v as int] == r
        }
    &&& forall|r: int, i: int, j: int| 0 <= r < b.len() && 0 <= i < j < b[r].len() ==>
            (#[trigger] b[r][i]).0 < (#[trigger] b[r][j]).0 || (b[r][i].0 == b[r][j].0 && b[r][i].1 < b[r][j].1)
    &&& forall|v: int| 0 <= v < n && #[trigger] e[v] is Some ==>
            exists|i: int| 0 <= i < b[idx.resource_of_opt@[v] as int].len() && (#[trigger] b[idx.resource_of_opt@[v] as int][i]).1 == v
}

/// The alternatives that start, by resource, in order of their first steps.
#[verifier::spinoff_prover]
#[verifier::rlimit(40)]
fn bucket_by_resource(idx: &AlternativeIndex, e: &Vec<Option<usize>>, tt: usize) -> (b: Vec<Vec<(usize, usize)>>)
    requires
        e@.len() == idx.options@.len(),
        idx.resource_of_opt@.len() == idx.options@.len(),
        forall|v: int| 0 <= v < idx.options@.len() ==> (#[trigger] idx.resource_of_opt@[v]) < idx.resource_names@.len(),
        forall|v: int| 0 <= v < idx.options@.len() ==> (#[trigger] e@[v] matches Some(t) ==> t < tt),
    ensures
        buckets_of(*idx, e@, crate::utils::nested_view(b@)),
{
    let n = idx.options.len();
    let nr = idx.resource_names.len();
    let mut b: Vec<Vec<(usize, usize)>> = Vec::new();
    let mut r: usize = 0;
    while r < nr
        invariant
            r <= nr,
            b@.len() == r,
            forall|r2: int| 0 <= r2 < r ==> (#[trigger] b@[r2])@.len() == 0,
        decreases nr - r,
    {
        b.push(Vec::new());
        r = r + 1;
    }
    let mut t: usize = 0;
    while t < tt
        invariant
            n == idx.options@.len(),
            nr == idx.resource_names@.len(),
            e@.len() == n,
            idx.resource_of_opt@.len() == n,
            forall|v: int| 0 <= v < n ==> (#[trigger] idx.resource_of_opt@[v]) < nr,
            forall|v: int| 0 <= v < n ==> (#[trigger] e@[v] matches Some(t) ==> t < tt),
            t <= tt,
            b@.len() == nr,
            forall|r: int, i: int| 0 <= r < nr && 0 <= i < b@[r]@.len() ==> {
                let (t2, v) = #[trigger] b@[r]@[i];
                &&& v < n
                &&& e@[v as int] == Some(t2)
                &&& idx.resource_of_opt@[v as int] == r
                &&& t2 < t
            },
            forall|r: int, i: int, j: int| 0 <= r < nr && 0 <= i < j < b@[r]@.len() ==>
                (#[trigger] b@[r]@[i]).0 < (#[trigger] b@[r]@[j]).0 || (b@[r]@[i].0 == b@[r]@[j].0 && b@[r]@[i].1 < b@[r]@[j].1),
            forall|v: int| 0 <= v < n && (#[trigger] e@[v] matches Some(t2) && t2 < t) ==>
                exists|i: int| 0 <= i < b@[idx.resource_of_opt@[v] as int]@.len() && (#[trigger] b@[idx.resource_of_opt@[v] as int]@[i]).1 == v,
        decreases tt - t,
    {
        let mut v: usize = 0;
        while v < n
            invariant
                n == idx.options@.len(),
                nr == idx.resource_names@.len(),
                e@.len() == n,
                idx.resource_of_opt@.len() == n,
                forall|v2: int| 0 <= v2 < n ==> (#[trigger] idx.resource_of_opt@[v2]) < nr,
                forall|v2: int| 0 <= v2 < n ==> (#[trigger] e@[v2] matches Some(t2) ==> t2 < tt),
                t < tt,
                v <= n,
                b@.len() == nr,
                forall|r: int, i: int| 0 <= r < nr && 0 <= i < b@[r]@.len() ==> {
                    let (t2, v2) = #[trigger] b@[r]@[i];
                    &&& v2 < n
                    &&& e@[v2 as int] == Some(t2)
                    &&& idx.resource_of_opt@[v2 as int] == r
                    &&& (t2 < t || (t2 == t && v2 < v))
                },
                forall|r: int, i: int, j: int| 0 <= r < nr && 0 <= i < j < b@[r]@.len() ==>
                    (#[trigger] b@[r]@[i]).0 < (#[trigger] b@[r]@[j]).0 || (b@[r]@[i].0 == b@[r]@[j].0 && b@[r]@[i].1 < b@[r]@[j].1),
                forall|v2: int| 0 <= v2 < n && (#[trigger] e@[v2] matches Some(t2) && (t2 < t || (t2 == t && v2 < v))) ==>
                    exists|i: int| 0 <= i < b@[idx.resource_of_opt@[v2] as int]@.len() && (#[trigger] b@[idx.resource_of_opt@[v2] as int]@[i]).1 == v2,
            decreases n - v,
        {
            let hit = match e[v] {
                Some(t2) => t2 == t,
                None => false,
            };
            if hit {
                let r = idx.resource_of_opt[v];
                let ghost before = b@;
                let mut list: Vec<(usize, usize)> = Vec::new();
                std::mem::swap(&mut list, &mut b[r]);
                assert(list@ == before[r as int]@);
                list.push((t, v));
                b.set(r, list);
                proof {
                    assert forall|r2: int, i: int| 0 <= r2 < nr && 0 <= i < b@[r2]@.len() implies {
                        let (t2, v2) = #[trigger] b@[r2]@[i];
                        &&& v2 < n
                        &&& e@[v2 as int] == Some(t2)
                        &&& idx.resource_of_opt@[v2 as int] == r2
                        &&& (t2 < t || (t2 == t && v2 < v + 1))
                    } by {
                        if r2 == r && i == before[r as int]@.len() { } else if r2 == r { assert(b@[r2]@[i] == before[r2]@[i]); } else { assert(b@[r2] == before[r2]); }
                    }
                    assert forall|r2: int, i: int, j: int| 0 <= r2 < nr && 0 <= i < j < b@[r2]@.len() implies
                        (#[trigger] b@[r2]@[i]).0 < (#[trigger] b@[r2]@[j]).0 || (b@[r2]@[i].0 == b@[r2]@[j].0 && b@[r2]@[i].1 < b@[r2]@[j].1) by {
                        if r2 == r {
                            assert(b@[r2]@[i] == before[r2]@[i]);
                            if j < before[r as int]@.len() { assert(b@[r2]@[j] == before[r2]@[j]); }
                            else { let _ = before[r2]@[i]; }
                        } else { assert(b@[r2] == before[r2]); }
                    }
                    assert forall|v2: int| 0 <= v2 < n && (#[trigger] e@[v2] matches Some(t2) && (t2 < t || (t2 == t && v2 < v + 1))) implies
                        exists|i: int| 0 <= i < b@[idx.resource_of_opt@[v2] as int]@.len() && (#[trigger] b@[idx.resource_of_opt@[v2] as int]@[i]).1 == v2 by {
                        let r2 = idx.resource_of_opt@[v2] as int;
                        if v2 == v {
                            assert(b@[r2]@[before[r as int]@.len() as int].1 == v2);
                        } else {
                            let i = choose|i: int| 0 <= i < before[r2]@.len() && (#[trigger] before[r2]@[i]).1 == v2;
                            if r2 == r { assert(b@[r2]@[i] == before[r2]@[i]); } else { assert(b@[r2] == before[r2]); }
                            assert(b@[r2]@[i].1 == v2);
                        }
                    }
                }
            }
            v = v + 1;
        }
        t = t + 1;
    }
    proof {
        let bv = crate::utils::nested_view(b@);
        assert forall|r: int, i: int| 0 <= r < bv.len() && 0 <= i < bv[r].len() implies {
            let (t2, v) = #[trigger] bv[r][i];
            &&& v < n
            &&& e@[v as int] == Some(t2)
            &&& idx.resource_of_opt@[v as int] == r
        } by {
            assert(bv[r][i] == b@[r]@[i]);
        }
        assert forall|r: int, i: int, j: int| 0 <= r < bv.len() && 0 <= i < j < bv[r].len() implies
            (#[trigger] bv[r][i]).0 < (#[trigger] bv[r][j]).0 || (bv[r][i].0 == bv[r][j].0 && bv[r][i].1 < bv[r][j].1) by {
            assert(bv[r][i] == b@[r]@[i]);
            assert(bv[r][j] == b@[r]@[j]);
        }
        assert forall|v: int| 0 <= v < n && #[trigger] e@[v] is Some implies
            exists|i: int| 0 <= i < bv[idx.resource_of_opt@[v] as int].len() && (#[trigger] bv[idx.resource_of_opt@[v] as int][i]).1 == v by {
            let r = idx.resource_of_opt@[v] as int;
            let i = choose|i: int| 0 <= i < b@[r]@.len() && (#[trigger] b@[r]@[i]).1 == v;
            assert(bv[r][i] == b@[r]@[i]);
        }
    }
    b
}

/// Entry `k` of `sched` is the resource `src[k]` with its bucket of `b`
/// placed on the grid; the buckets that are not empty all have an entry.
pub(crate) open spec fn collected(s: TEGSolver, idx: AlternativeIndex, b: Seq<Seq<(usize, usize)>>,
    sched: Seq<(Seq<char>, Seq<Assignment>)>, src: Seq<int>) -> bool
{
    &&& sched.len() == src.len()
    &&& forall|k: int| 0 <= k < src.len() ==> 0 <= #[trigger] src[k] < b.len()
    &&& forall|k1: int, k2: int| 0 <= k1 < k2 < src.len() ==> #[trigger] src[k1] < #[trigger] src[k2]
    &&& forall|k: int| 0 <= k < src.len() ==> (#[trigger] sched[k]).0 == idx.resource_names@[src[k]]@
            && sched[k].1.len() == b[src[k]].len()
    &&& forall|k: int, i: int| 0 <= k < src.len() && 0 <= i < sched[k].1.len() ==>
            #[trigger] sched[k].1[i] == (Assignment { id: idx.options@[b[src[k]][i].1 as int], start_time: grid_time(s, b[src[k]][i].0 as int) as i64 })
    &&& forall|r: int| 0 <= r < b.len() && b[r].len() > 0 ==> exists|k: int| 0 <= k < src.len() && #[trigger] src[k] == r
}

/// The schedule of the buckets `b`, resource by resource.
#[verifier::spinoff_prover]
#[verifier::rlimit(40)]
fn collect(solver: &TEGSolver, idx: &AlternativeIndex, b: &Vec<Vec<(usize, usize)>>, tt: usize) -> (r: (ResourceSchedules, Ghost<Seq<int>>))
    requires
        solver.time_step >= 1000,
        tt <= grid_len(*solver),
        solver.time_step * grid_len(*solver) <= i64::MAX,
        grid_time(*solver, grid_len(*solver)) <= i64::MAX,
        b@.len() == idx.resource_names@.len(),
        forall|i: int, j: int| 0 <= i < j < idx.resource_names@.len() ==>
            (#[trigger] idx.resource_names@[i])@ != (#[trigger] idx.resource_names@[j])@,
        forall|r: int, i: int| 0 <= r < b@.len() && 0 <= i < b@[r]@.len() ==>
            (#[trigger] b@[r]@[i]).1 < idx.options@.len() && b@[r]@[i].0 < tt,
    ensures
        collected(*solver, *idx, crate::utils::nested_view(b@), r.0@, r.1@),
{
    let ghost bv = crate::utils::nested_view(b@);
    let mut out = ResourceSchedules::new();
    let ghost mut src: Seq<int> = Seq::empty();
    let mut r: usize = 0;
    while r < b.len()
        invariant
            solver.time_step >= 1000,
            tt <= grid_len(*solver),
            solver.time_step * grid_len(*solver) <= i64::MAX,
            grid_time(*solver, grid_len(*solver)) <= i64::MAX,
            bv == crate::utils::nested_view(b@),
            b@.len() == idx.resource_names@.len(),
            forall|i: int, j: int| 0 <= i < j < idx.resource_names@.len() ==>
                (#[trigger] idx.resource_names@[i])@ != (#[trigger] idx.resource_names@[j])@,
            forall|r2: int, i: int| 0 <= r2 < b@.len() && 0 <= i < b@[r2]@.len() ==>
                (#[trigger] b@[r2]@[i]).1 < idx.options@.len() && b@[r2]@[i].0 < tt,
            r <= b@.len(),
            collected(*solver, *idx, bv.take(r as int), out@, src),
        decreases b@.len() - r,
    {
        let bucket = &b[r];
        let mut list: Vec<Assignment> = Vec::new();
        let mut i: usize = 0;
        while i < bucket.len()
            invariant
                solver.time_step >= 1000,
                tt <= grid_len(*solver),
                solver.time_step * grid_len(*solver) <= i64::MAX,
                grid_time(*solver, grid_len(*solver)) <= i64::MAX,
                r < b@.len(),
                bucket@ == b@[r as int]@,
                forall|i2: int| 0 <= i2 < bucket@.len() ==> (#[trigger] bucket@[i2]).1 < idx.options@.len() && bucket@[i2].0 < tt,
                i <= bucket@.len(),
                list@.len() == i,
                forall|i2: int| 0 <= i2 < i ==> #[trigger] list@[i2] == (Assignment {
                    id: idx.options@[bucket@[i2].1 as int], start_time: grid_time(*solver, bucket@[i2].0 as int) as i64 }),
            decreases bucket@.len() - i,
        {
            let (t, v) = bucket[i];
            proof { let _ = bucket@[i as int]; }
            let time = step_time(solver, t);
            list.push(Assignment { id: idx.options[v], start_time: time });
            i = i + 1;
        }
        let ghost src_before = src;
        if bucket.len() > 0 {
            let ghost before = out@;
            proof {
                assert forall|k: int| 0 <= k < before.len() implies before[k].0 != idx.resource_names@[r as int]@ by {
                    assert(src[k] < r);
                }
            }
            out.push_resource(idx.resource_names[r].clone(), list);
            proof { src = src.push(r as int); }
        }
        proof {
            let bt = bv.take(r + 1);
            assert(bt.len() == r + 1);
            assert forall|k: int| 0 <= k < src.len() implies 0 <= #[trigger] src[k] < bt.len() by { }
            assert forall|k: int| 0 <= k < src.len() implies (#[trigger] out@[k]).0 == idx.resource_names@[src[k]]@
                && out@[k].1.len() == bt[src[k]].len() by {
                assert(bt[src[k]] == bv[src[k]]);
                assert(bv[src[k]] == b@[src[k]]@);
            }
            assert forall|k: int, i2: int| 0 <= k < src.len() && 0 <= i2 < out@[k].1.len() implies
                #[trigger] out@[k].1[i2] == (Assignment { id: idx.options@[bt[src[k]][i2].1 as int], start_time: grid_time(*solver, bt[src[k]][i2].0 as int) as i64 }) by {
                assert(bt[src[k]] == bv[src[k]]);
                assert(bv[src[k]] == b@[src[k]]@);
            }
            assert forall|r2: int| 0 <= r2 < bt.len() && bt[r2].len() > 0 implies exists|k: int| 0 <= k < src.len() && #[trigger] src[k] == r2 by {
                if r2 == r {
                    assert(bv[r2] == b@[r2]@);
                    assert(src[src.len() - 1] == r2);
                } else {
                    assert(bt[r2] == bv.take(r as int)[r2]);
                    let k = choose|k: int| 0 <= k < src_before.len() && #[trigger] src_before[k] == r2;
                    assert(src[k] == r2);
                }
            }
            assert(collected(*solver, *idx, bt, out@, src));
        }
        r = r + 1;
    }
    proof { assert(bv.take(b@.len() as int) =~= bv); }
    (out, Ghost(src))
}

/// What the solver knows when it returns a schedule.
pub(crate) open spec fn answered(s: TEGSolver, reqs: Seq<Seq<ReservationRequestAlternative>>, idx: AlternativeIndex, tt: int,
    m: Seq<(usize, bool)>, e: Seq<Option<usize>>, b: Seq<Seq<(usize, usize)>>,
    sched: Seq<(Seq<char>, Seq<Assignment>)>, src: Seq<int>) -> bool
{
    &&& decoded(s, reqs, idx, tt, m, e)
    &&& buckets_of(idx, e, b)
    &&& collected(s, idx, b, sched, src)
    &&& 0 <= tt <= grid_len(s)
    &&& s.time_step >= 1000
    &&& s.time_step * grid_len(s) <= i64::MAX
    &&& grid_time(s, grid_len(s)) <= i64::MAX
}

proof fn lemma_step_order(s: TEGSolver, t1: int, t2: int, d: int)
    by (nonlinear_arith)
    requires
        s.time_step >= 1000,
        0 <= t1 < t2,
        t2 >= t1 + d,
    ensures
        grid_time(s, t1) < grid_time(s, t2),
        grid_time(s, t2) >= grid_time(s, t1) + s.time_step * d,
{
}

/// Every assignment is placed on the grid within its window.
proof fn lemma_placed(s: TEGSolver, reqs: Seq<Seq<ReservationRequestAlternative>>, idx: AlternativeIndex, tt: int,
    m: Seq<(usize, bool)>, e: Seq<Option<usize>>, b: Seq<Seq<(usize, usize)>>,
    sched: Seq<(Seq<char>, Seq<Assignment>)>, src: Seq<int>, k: int, i: int)
    requires
        answered(s, reqs, idx, tt, m, e, b, sched, src),
        0 <= k < sched.len(),
        0 <= i < sched[k].1.len(),
    ensures
        grid_placed(s, reqs, sched[k].0, sched[k].1[i]),
{
    let r = src[k];
    let (t, v) = b[r][i];
    let a = sched[k].1[i];
    let _ = idx.options@[v as int];
    let _ = idx.resource_of_opt@[v as int];
    lemma_grid_time(s, t as int);
    lemma_first_in_window(s, reqs, idx, tt, m, e, v as int);
    assert(a.start_time == grid_time(s, t as int));
}

/// Every request has an assignment.
#[verifier::spinoff_prover]
#[verifier::rlimit(40)]
proof fn lemma_granted(s: TEGSolver, reqs: Seq<Seq<ReservationRequestAlternative>>, idx: AlternativeIndex, tt: int,
    m: Seq<(usize, bool)>, e: Seq<Option<usize>>, b: Seq<Seq<(usize, usize)>>,
    sched: Seq<(Seq<char>, Seq<Assignment>)>, src: Seq<int>, q: int)
    requires
        answered(s, reqs, idx, tt, m, e, b, sched, src),
        0 <= q < reqs.len(),
    ensures
        request_granted(sched, q),
{
    lemma_request_served(s, reqs, idx, tt, m, e, q);
    let v = choose|v: int| 0 <= v < idx.options@.len() && idx.options@[v].0 == q && #[trigger] e[v] is Some;
    let r = idx.resource_of_opt@[v] as int;
    let i = choose|i: int| 0 <= i < b[r].len() && (#[trigger] b[r][i]).1 == v;
    let k = choose|k: int| 0 <= k < src.len() && #[trigger] src[k] == r;
    assert(sched[k].1[i].id == idx.options@[v]);
}

/// Two alternatives of one resource that start at steps `ti <= tj` start at
/// different steps, and the second no sooner than the first ends unless the
/// first starts at the first step.
proof fn lemma_steps_apart(s: TEGSolver, reqs: Seq<Seq<ReservationRequestAlternative>>, idx: AlternativeIndex, tt: int,
    m: Seq<(usize, bool)>, e: Seq<Option<usize>>, vi: int, vj: int, ti: usize, tj: usize)
    requires
        decoded(s, reqs, idx, tt, m, e),
        0 <= vi < idx.options@.len(),
        0 <= vj < idx.options@.len(),
        vi != vj,
        idx.resource_of_opt@[vi] == idx.resource_of_opt@[vj],
        e[vi] == Some(ti),
        e[vj] == Some(tj),
        ti <= tj,
    ensures
        ti < tj,
        ti >= 1 ==> tj >= ti + steps_held(s, reqs, idx, vi),
{
    let n = idx.options@.len() as int;
    assert(m.contains(lit(n, tj as int, vj, true)) && tj < tt) by { let _ = e[vj]; }
    assert(m.contains(lit(n, ti as int, vi, true))) by { let _ = e[vi]; }
    if ti == tj {
        lemma_distinct_starts(s, reqs, idx, tt, m, e, vi, vj, ti as int);
    }
    if ti >= 1 && tj < ti + steps_held(s, reqs, idx, vi) {
        lemma_held(s, reqs, idx, tt, m, e, vi, tj as int);
        lemma_distinct_starts(s, reqs, idx, tt, m, e, vi, vj, tj as int);
    }
}

/// Two assignments of one resource follow each other without overlapping.
#[verifier::spinoff_prover]
#[verifier::rlimit(60)]
proof fn lemma_ordered(s: TEGSolver, reqs: Seq<Seq<ReservationRequestAlternative>>, idx: AlternativeIndex, tt: int,
    m: Seq<(usize, bool)>, e: Seq<Option<usize>>, b: Seq<Seq<(usize, usize)>>,
    sched: Seq<(Seq<char>, Seq<Assignment>)>, src: Seq<int>, k: int, i: int, j: int)
    requires
        answered(s, reqs, idx, tt, m, e, b, sched, src),
        0 <= k < sched.len(),
        0 <= i < j < sched[k].1.len(),
    ensures
        runs_before(s, reqs, sched[k].1[i], sched[k].1[j]),
{
    let r = src[k];
    let ti = b[r][i].0;
    let tj = b[r][j].0;
    let vi = b[r][i].1 as int;
    let vj = b[r][j].1 as int;
    assert(vi != vj && ti <= tj && idx.resource_of_opt@[vi] == idx.resource_of_opt@[vj]
        && e[vi] == Some(ti) && e[vj] == Some(tj) && vi < idx.options@.len() && vj < idx.options@.len()) by {
        let _ = b[r][i];
        let _ = b[r][j];
    }
    lemma_steps_apart(s, reqs, idx, tt, m, e, vi, vj, ti, tj);
    let d = steps_held(s, reqs, idx, vi);
    assert(tj < tt) by { let _ = e[vj]; }
    lemma_grid_time(s, ti as int);
    lemma_grid_time(s, tj as int);
    if ti >= 1 {
        lemma_step_order(s, ti as int, tj as int, d);
    } else {
        lemma_step_order(s, ti as int, tj as int, 0);
    }
    assert(sched[k].1[i].start_time == grid_time(s, ti as int));
    assert(sched[k].1[j].start_time == grid_time(s, tj as int));
}

/// No alternative is assigned twice.
proof fn lemma_once(s: TEGSolver, reqs: Seq<Seq<ReservationRequestAlternative>>, idx: AlternativeIndex, tt: int,
    m: Seq<(usize, bool)>, e: Seq<Option<usize>>, b: Seq<Seq<(usize, usize)>>,
    sched: Seq<(Seq<char>, Seq<Assignment>)>, src: Seq<int>, k1: int, i: int, k2: int, j: int)
    requires
        answered(s, reqs, idx, tt, m, e, b, sched, src),
        0 <= k1 < sched.len(),
        0 <= i < sched[k1].1.len(),
        0 <= k2 < sched.len(),
        0 <= j < sched[k2].1.len(),
        k1 != k2 || i != j,
    ensures
        sched[k1].1[i].id != sched[k2].1[j].id,
{
    let r1 = src[k1];
    let r2 = src[k2];
    let v1 = b[r1][i].1 as int;
    let v2 = b[r2][j].1 as int;
    let _ = idx.resource_of_opt@[v1];
    let _ = idx.resource_of_opt@[v2];
    if k1 == k2 {
        if i < j { let _ = b[r1][j]; } else { let _ = b[r1][i]; let _ = b[r1][j]; }
        assert(v1 != v2);
    } else {
        if k1 < k2 { assert(src[k1] < src[k2]); } else { assert(src[k2] < src[k1]); }
        assert(v1 != v2);
    }
    let _ = idx.options@[v1];
    let _ = idx.options@[v2];
}

proof fn lemma_teg_schedule(s: TEGSolver, reqs: Seq<Seq<ReservationRequestAlternative>>, idx: AlternativeIndex, tt: int,
    m: Seq<(usize, bool)>, e: Seq<Option<usize>>, b: Seq<Seq<(usize, usize)>>,
    sched: Seq<(Seq<char>, Seq<Assignment>)>, src: Seq<int>)
    requires
        answered(s, reqs, idx, tt, m, e, b, sched, src),
    ensures
        teg_schedule(s, reqs, sched),
{
    assert forall|k: int, i: int| 0 <= k < sched.len() && 0 <= i < sched[k].1.len() implies
        grid_placed(s, reqs, sched[k].0, #[trigger] sched[k].1[i]) by {
        lemma_placed(s, reqs, idx, tt, m, e, b, sched, src, k, i);
    }
    assert forall|q: int| 0 <= q < reqs.len() implies #[trigger] request_granted(sched, q) by {
        lemma_granted(s, reqs, idx, tt, m, e, b, sched, src, q);
    }
    assert forall|k: int, i: int, j: int| 0 <= k < sched.len() && 0 <= i < j < sched[k].1.len() implies
        runs_before(s, reqs, #[trigger] sched[k].1[i], #[trigger] sched[k].1[j]) by {
        lemma_ordered(s, reqs, idx, tt, m, e, b, sched, src, k, i, j);
    }
    assert forall|k1: int, i: int, k2: int, j: int| 0 <= k1 < sched.len() && 0 <= i < sched[k1].1.len()
        && 0 <= k2 < sched.len() && 0 <= j < sched[k2].1.len() && (k1 != k2 || i != j)
        implies (#[trigger] sched[k1].1[i]).id != (#[trigger] sched[k2].1[j]).id by {
        lemma_once(s, reqs, idx, tt, m, e, b, sched, src, k1, i, k2, j);
    }
}

proof fn lemma_steps_fit(tt: int, n: int)
    by (nonlinear_arith)
    requires
        n > 0,
        tt >= 0,
        tt * n <= MAX_SAT_VAR + 1,
    ensures
        tt <= MAX_SAT_VAR + 1,
{
}

impl TEGSolver {
    /// Number of grid steps.
    fn grid_steps(&self) -> (r: u64)
        requires
            self.time_step >= 1000,
        ensures
            r == grid_len(*self),
    {
        if self.max_time_steps >= 0 {
            ((self.max_time_steps as u64) / 1000) / ((self.time_step as u64) / 1000)
        } else {
            0
        }
    }

    /// Picks, for every request, alternatives and grid steps at which they
    /// start: on every resource, at most one alternative holds it at a step,
    /// and an alternative starting after the first step holds it for its
    /// duration. The schedule lists, for every resource with assignments, the
    /// assignments in the order they start.
    pub fn solve(&self, problem: Problem) -> (r: Result<ResourceSchedules, String>)
        requires
            grid_fits(*self, total_alternatives(problem_requests(&problem))),
        ensures
            r matches Ok(sched) ==> teg_schedule(*self, problem_requests(&problem), sched@),
            r matches Err(e) ==> teg_error(e@),
    {
        let ghost reqs = problem_requests(&problem);
        let idx = index_alternatives(&problem.requests);
        let n = idx.options.len();
        proof { lemma_grid_len(*self); }
        let tt: usize = if n == 0 {
            0
        } else {
            proof { lemma_steps_fit(grid_len(*self), n as int); }
            self.grid_steps() as usize
        };
        proof {
            if n == 0 { assert(tt * n == 0); }
        }
        let mut s = sat_new();
        add_mutex(&mut s, &idx, tt);
        let ghost cs1 = sat_clauses(s);
        add_starts(&mut s, self, &problem, &idx, tt);
        let ghost cs2 = sat_clauses(s);
        add_windows(&mut s, self, &problem, &idx, tt);
        let ghost cs3 = sat_clauses(s);
        proof {
            assert(mutex_upto(cs3, idx, tt as int, 0, 0)) by {
                assert(mutex_upto(cs1, idx, tt as int, 0, 0));
                assert forall|t: int, u: int, w: int|
                    0 <= t && 0 <= u < w < n && idx.resource_of_opt@[u] == idx.resource_of_opt@[w]
                    && (t < tt || (t == tt && u < 0) || (t == tt && u == 0 && w < 0))
                    implies #[trigger] in_formula(cs3, pair_clause(n as int, t, u, w)) by {
                    assert(in_formula(cs1, pair_clause(n as int, t, u, w)));
                    assert(in_formula(cs2, pair_clause(n as int, t, u, w)));
                }
            }
            assert(starts_upto(*self, reqs, idx, tt as int, cs3, reqs.len() as int)) by {
                assert forall|q: int| 0 <= q < reqs.len() implies #[trigger] start_clause(*self, reqs, idx, tt as int, cs3, q) by {
                    assert(start_clause(*self, reqs, idx, tt as int, cs2, q));
                    let c = choose|c: Seq<(usize, bool)>| #[trigger] in_formula(cs2, c) && start_options(*self, reqs, idx, tt as int, c, q);
                    assert(in_formula(cs3, c));
                }
            }
            assert(encoded(*self, reqs, idx, tt as int, cs3));
        }
        match sat_solve(&mut s) {
            Err(()) => { return Err("Hello".to_string()); },
            Ok(false) => { return Err("No solution found".to_string()); },
            Ok(true) => {},
        }
        let model = match sat_model(&s) {
            Some(m) => m,
            None => { return Err("Unable to get model".to_string()); },
        };
        let e = match first_true_steps(&model, n, tt) {
            Some(e) => e,
            None => {
                return Err("Got a decision var that is not in our original list. This is an eror that should never happen".to_string());
            },
        };
        proof {
            assert(decoded(*self, reqs, idx, tt as int, model@, e@));
        }
        let b = bucket_by_resource(&idx, &e, tt);
        proof {
            let bv = crate::utils::nested_view(b@);
            assert forall|r: int, i: int| 0 <= r < b@.len() && 0 <= i < b@[r]@.len() implies
                (#[trigger] b@[r]@[i]).1 < n && b@[r]@[i].0 < tt by {
                assert(bv[r][i] == b@[r]@[i]);
                let v = bv[r][i].1 as int;
                let _ = e@[v];
            }
        }
        let (out, Ghost(src)) = collect(self, &idx, &b, tt);
        proof {
            lemma_teg_schedule(*self, reqs, idx, tt as int, model@, e@, crate::utils::nested_view(b@), out@, src);
        }
        Ok(out)
    }
}

} // verus!
