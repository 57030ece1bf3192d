//! The solver: the boolean encoding of a problem, the packing of start times
//! along the order the boolean solver proposes, and the rounds between them.

use vstd::prelude::*;
use varisat::Solver;
use crate::request::{ReservationRequestAlternative, spec_can_be_scheduled_after};
use crate::sat_backend::{MAX_SAT_VAR, clause_holds, is_model_of, lits_in_range, model_consistent, sat_add_clause, sat_clauses, sat_model, sat_new, sat_solve, sat_usable};
use crate::utils::subsets::{open_subsets, within, lemma_open_subsets_extend};
use crate::algorithms::{AlgorithmState, SolverAlgorithm, send_state, stop_requested};
use crate::database::ClockSource;
use std::sync::Arc;
use std::sync::atomic::AtomicBool;
use std::sync::mpsc::Sender;
use super::problem::{Problem, is_alternative, problem_requests, resource_of};
use super::checks::{duration_of, packable, has_assignment, one_alternative_each, chosen_alternative, end_time, packed_from, window_ok, shrink_reservation_request, shrunk};
use super::schedules::{Assignment, ResourceSchedules};
use super::checks::packed_schedule;
use super::checks::{dependency_closed, respects_dependencies};
use crate::graph::{GRAPH_CAPACITY, is_topological_order, graph_edges, graph_nodes, order_graph_add_edge, order_graph_add_node, order_graph_new, order_graph_toposort, order_graph_weight};

verus! {

/// Most alternatives a problem may have in all, so that every boolean
/// variable of its encoding has an index the boolean solver accepts.
pub const MAX_ALTERNATIVES: usize = 16383;

/// Number of alternatives of all requests.
pub open spec fn total_alternatives(reqs: Seq<Seq<ReservationRequestAlternative>>) -> nat
    decreases reqs.len(),
{
    if reqs.len() == 0 { 0 } else { total_alternatives(reqs.drop_last()) + reqs.last().len() }
}

/// The alternatives of a problem numbered `0..n` in request order, with the
/// resources they name numbered in order of first appearance.
pub(crate) struct AlternativeIndex {
    /// Alternative of each number.
    pub(crate) options: Vec<(usize, usize)>,
    /// Number of each alternative, by request and alternative.
    pub(crate) var_of: Vec<Vec<usize>>,
    /// Resource of each number.
    pub(crate) resource_of_opt: Vec<usize>,
    /// Names of the resources.
    pub(crate) resource_names: Vec<String>,
    /// Numbers on each resource.
    pub(crate) members: Vec<Vec<usize>>,
}

impl AlternativeIndex {
    /// The numbering describes the requests `reqs`.
    pub(crate) open spec fn wf(&self, reqs: Seq<Seq<ReservationRequestAlternative>>) -> bool {
        let n = self.options@.len();
        &&& n == total_alternatives(reqs)
        &&& self.var_of@.len() == reqs.len()
        &&& forall|q: int| 0 <= q < reqs.len() ==> (#[trigger] self.var_of@[q])@.len() == reqs[q].len()
        &&& forall|q: int, a: int| 0 <= q < reqs.len() && 0 <= a < reqs[q].len() ==>
                (#[trigger] self.var_of@[q]@[a]) < n && self.options@[self.var_of@[q]@[a] as int] == (q as usize, a as usize)
        &&& forall|v: int| 0 <= v < n ==> is_alternative(reqs, #[trigger] self.options@[v])
                && self.var_of@[self.options@[v].0 as int]@[self.options@[v].1 as int] == v
        &&& self.resource_of_opt@.len() == n
        &&& self.members@.len() == self.resource_names@.len()
        &&& forall|v: int| 0 <= v < n ==> (#[trigger] self.resource_of_opt@[v]) < self.resource_names@.len()
                && self.resource_names@[self.resource_of_opt@[v] as int]@ == resource_of(reqs, self.options@[v])
        &&& forall|r: int, i: int| 0 <= r < self.members@.len() && 0 <= i < self.members@[r]@.len() ==>
                (#[trigger] self.members@[r]@[i]) < n && self.resource_of_opt@[self.members@[r]@[i] as int] == r
        &&& forall|i: int, j: int| 0 <= i < j < self.resource_names@.len() ==>
                (#[trigger] self.resource_names@[i])@ != (#[trigger] self.resource_names@[j])@
    }
}

/// The boolean variables of a problem. Variable `v < n` stands for granting
/// alternative `options[v]`; variable `n + k` for the alternative
/// `order_pairs[k].0` running before `order_pairs[k].1` on their resource.
pub(crate) struct FlexibleEncoding {
    pub(crate) options: Vec<(usize, usize)>,
    pub(crate) var_of: Vec<Vec<usize>>,
    pub(crate) resource_of_opt: Vec<usize>,
    pub(crate) resource_names: Vec<String>,
    pub(crate) members: Vec<Vec<usize>>,
    pub(crate) after: Vec<Vec<(usize, usize)>>,
    pub(crate) order_pairs: Vec<(usize, usize)>,
}

impl FlexibleEncoding {
    /// Number of alternatives, that is of option variables.
    pub(crate) open spec fn n(&self) -> nat {
        self.options@.len()
    }

    /// Number of variables.
    pub(crate) open spec fn num_vars(&self) -> nat {
        self.options@.len() + self.order_pairs@.len()
    }

    /// `u` and `w` are options on the same resource.
    pub(crate) open spec fn same_resource(&self, u: int, w: int) -> bool {
        self.resource_of_opt@[u] == self.resource_of_opt@[w]
    }

    /// The encoding describes the problem with requests `reqs`.
    pub(crate) open spec fn wf(&self, reqs: Seq<Seq<ReservationRequestAlternative>>) -> bool {
        let n = self.n();
        &&& n <= MAX_ALTERNATIVES
        &&& self.num_vars() <= MAX_SAT_VAR + 1
        &&& self.var_of@.len() == reqs.len()
        &&& forall|q: int| 0 <= q < reqs.len() ==> (#[trigger] self.var_of@[q])@.len() == reqs[q].len()
        &&& forall|q: int, a: int| 0 <= q < reqs.len() && 0 <= a < reqs[q].len() ==>
                (#[trigger] self.var_of@[q]@[a]) < n && self.options@[self.var_of@[q]@[a] as int] == (q as usize, a as usize)
        &&& forall|v: int| 0 <= v < n ==> is_alternative(reqs, #[trigger] self.options@[v])
                && self.var_of@[self.options@[v].0 as int]@[self.options@[v].1 as int] == v
        &&& self.resource_of_opt@.len() == n
        &&& self.members@.len() == self.resource_names@.len()
        &&& forall|v: int| 0 <= v < n ==> (#[trigger] self.resource_of_opt@[v]) < self.resource_names@.len()
                && self.resource_names@[self.resource_of_opt@[v] as int]@ == resource_of(reqs, self.options@[v])
        &&& forall|r: int, i: int| 0 <= r < self.members@.len() && 0 <= i < self.members@[r]@.len() ==>
                (#[trigger] self.members@[r]@[i]) < n && self.resource_of_opt@[self.members@[r]@[i] as int] == r
        &&& self.after@.len() == n
        &&& forall|u: int, k: int| 0 <= u < n && 0 <= k < self.after@[u]@.len() ==> {
                let (w, x) = #[trigger] self.after@[u]@[k];
                &&& w < n
                &&& w != u
                &&& self.same_resource(u, w as int)
                &&& n <= x < self.num_vars()
                &&& self.order_pairs@[x - n] == (u as usize, w)
            }
        &&& forall|u: int, w: int| 0 <= u < n && 0 <= w < n && u != w && #[trigger] self.same_resource(u, w) ==>
                exists|k: int| 0 <= k < self.after@[u]@.len() && (#[trigger] self.after@[u]@[k]).0 == w
        &&& forall|k: int| 0 <= k < self.order_pairs@.len() ==> (#[trigger] self.order_pairs@[k]).0 < n && self.order_pairs@[k].1 < n
    }

    /// The option variables of the alternatives listed in `sched`.
    pub(crate) open spec fn vars_of_entries(&self, sched: Seq<(usize, usize)>) -> Set<usize> {
        Set::new(|v: usize| exists|j: int| 0 <= j < sched.len() && v == #[trigger] self.var_of@[sched[j].0 as int]@[sched[j].1 as int])
    }

    /// The alternatives of the option variables `vs`.
    pub(crate) open spec fn alts_of(&self, vs: Seq<usize>) -> Seq<(usize, usize)> {
        vs.map_values(|v: usize| self.options@[v as int])
    }

    /// The variable for `u` running before `w`, when they share a resource.
    pub(crate) fn order_var(&self, Ghost(reqs): Ghost<Seq<Seq<ReservationRequestAlternative>>>, u: usize, w: usize) -> (r: Option<usize>)
        requires
            self.wf(reqs),
            u < self.n(),
            w < self.n(),
        ensures
            r matches Some(x) ==> self.n() <= x < self.num_vars() && self.order_pairs@[x - self.n()] == (u, w) && x <= MAX_SAT_VAR,
            r is None ==> !(u != w && self.same_resource(u as int, w as int)),
    {
        let list = &self.after[u];
        let mut k: usize = 0;
        while k < list.len()
            invariant
                self.wf(reqs),
                u < self.n(),
                list@ == self.after@[u as int]@,
                k <= list@.len(),
                forall|k2: int| 0 <= k2 < k ==> (#[trigger] list@[k2]).0 != w,
            decreases list@.len() - k,
        {
            if list[k].0 == w {
                proof { let _ = self.after@[u as int]@[k as int]; }
                return Some(list[k].1);
            }
            k = k + 1;
        }
        proof {
            if u != w && self.same_resource(u as int, w as int) {
                let k2 = choose|k2: int| 0 <= k2 < self.after@[u as int]@.len() && (#[trigger] self.after@[u as int]@[k2]).0 == w;
                assert(list@[k2].0 == w);
            }
        }
        None
    }
}

/// Index of `name` in `names`.
fn find_name(names: &Vec<String>, name: &String) -> (r: Option<usize>)
    ensures
        r matches Some(i) ==> i < names@.len() && names@[i as int]@ == name@,
        r is None ==> forall|i: int| 0 <= i < names@.len() ==> names@[i]@ != name@,
{
    let mut i: usize = 0;
    while i < names.len()
        invariant
            i <= names@.len(),
            forall|j: int| 0 <= j < i ==> names@[j]@ != name@,
        decreases names@.len() - i,
    {
        if names[i] == *name {
            return Some(i);
        }
        i = i + 1;
    }
    None
}

proof fn lemma_order_bound(u: int, w: int, n: int)
    by (nonlinear_arith)
    requires
        0 <= u < n,
        0 <= w <= n,
        n <= MAX_ALTERNATIVES,
    ensures
        u * n + w <= (u + 1) * n,
        (u + 1) * n <= n * n,
        n + n * n <= MAX_SAT_VAR + 1,
{
}

/// Numbers the variables of the problem with requests `requests`.
/// Numbers the alternatives of `requests` and their resources.
#[verifier::spinoff_prover]
#[verifier::rlimit(40)]
pub(crate) fn index_alternatives(requests: &Vec<Vec<ReservationRequestAlternative>>) -> (r: AlternativeIndex)
    ensures
        r.wf(crate::utils::nested_view(requests@)),
{
    let ghost reqs = crate::utils::nested_view(requests@);
    let mut options: Vec<(usize, usize)> = Vec::new();
    let mut var_of: Vec<Vec<usize>> = Vec::new();
    let mut resource_of_opt: Vec<usize> = Vec::new();
    let mut resource_names: Vec<String> = Vec::new();
    let mut members: Vec<Vec<usize>> = Vec::new();
    let mut q: usize = 0;
    while q < requests.len()
        invariant
            reqs == crate::utils::nested_view(requests@),
            q <= reqs.len(),
            options@.len() == total_alternatives(reqs.take(q as int)),
            var_of@.len() == q,
            forall|q2: int| 0 <= q2 < q ==> (#[trigger] var_of@[q2])@.len() == reqs[q2].len(),
            forall|q2: int, a: int| 0 <= q2 < q && 0 <= a < reqs[q2].len() ==>
                (#[trigger] var_of@[q2]@[a]) < options@.len() && options@[var_of@[q2]@[a] as int] == (q2 as usize, a as usize),
            forall|v: int| 0 <= v < options@.len() ==> (#[trigger] options@[v]).0 < q && is_alternative(reqs, options@[v])
                && var_of@[options@[v].0 as int]@[options@[v].1 as int] == v,
            resource_of_opt@.len() == options@.len(),
            members@.len() == resource_names@.len(),
            forall|v: int| 0 <= v < options@.len() ==> (#[trigger] resource_of_opt@[v]) < resource_names@.len()
                && resource_names@[resource_of_opt@[v] as int]@ == resource_of(reqs, options@[v]),
            forall|r: int, i: int| 0 <= r < members@.len() && 0 <= i < members@[r]@.len() ==>
                (#[trigger] members@[r]@[i]) < options@.len() && resource_of_opt@[members@[r]@[i] as int] == r,
            forall|i: int, j: int| 0 <= i < j < resource_names@.len() ==>
                (#[trigger] resource_names@[i])@ != (#[trigger] resource_names@[j])@,
        decreases reqs.len() - q,
    {
        proof { lemma_total_prefix(reqs, q as int); }
        let m = requests[q].len();
        let mut row: Vec<usize> = Vec::new();
        let mut a: usize = 0;
        while a < m
            invariant
                reqs == crate::utils::nested_view(requests@),
                q < reqs.len(),
                m == reqs[q as int].len(),
                a <= m,
                options@.len() == total_alternatives(reqs.take(q as int)) + a,
                row@.len() == a,
                var_of@.len() == q,
                forall|q2: int| 0 <= q2 < q ==> (#[trigger] var_of@[q2])@.len() == reqs[q2].len(),
                forall|q2: int, a2: int| 0 <= q2 < q && 0 <= a2 < reqs[q2].len() ==>
                    (#[trigger] var_of@[q2]@[a2]) < options@.len() && options@[var_of@[q2]@[a2] as int] == (q2 as usize, a2 as usize),
                forall|a2: int| 0 <= a2 < a ==> (#[trigger] row@[a2]) < options@.len() && options@[row@[a2] as int] == (q, a2 as usize),
                forall|v: int| 0 <= v < options@.len() ==> (#[trigger] options@[v]).0 <= q && is_alternative(reqs, options@[v])
                    && (options@[v].0 < q ==> var_of@[options@[v].0 as int]@[options@[v].1 as int] == v)
                    && (options@[v].0 == q ==> options@[v].1 < a && row@[options@[v].1 as int] == v),
                resource_of_opt@.len() == options@.len(),
                members@.len() == resource_names@.len(),
                forall|v: int| 0 <= v < options@.len() ==> (#[trigger] resource_of_opt@[v]) < resource_names@.len()
                    && resource_names@[resource_of_opt@[v] as int]@ == resource_of(reqs, options@[v]),
                forall|r: int, i: int| 0 <= r < members@.len() && 0 <= i < members@[r]@.len() ==>
                    (#[trigger] members@[r]@[i]) < options@.len() && resource_of_opt@[members@[r]@[i] as int] == r,
                forall|i: int, j: int| 0 <= i < j < resource_names@.len() ==>
                    (#[trigger] resource_names@[i])@ != (#[trigger] resource_names@[j])@,
            decreases m - a,
        {
            let v = options.len();
            let name = &requests[q][a].parameters.resource_name;
            let r = match find_name(&resource_names, name) {
                Some(r) => r,
                None => {
                    resource_names.push(name.clone());
                    members.push(Vec::new());
                    resource_names.len() - 1
                },
            };
            let ghost orig_members = members@;
            let mut list = Vec::new();
            std::mem::swap(&mut list, &mut members[r]);
            assert(list@ == orig_members[r as int]@);
            list.push(v);
            members.set(r, list);
            proof {
                assert forall|r2: int, i: int| 0 <= r2 < members@.len() && 0 <= i < members@[r2]@.len() implies
                    (#[trigger] members@[r2]@[i]) < v + 1 && (if members@[r2]@[i] == v { r2 == r } else { resource_of_opt@[members@[r2]@[i] as int] == r2 }) by {
                    if r2 == r && i == members@[r2]@.len() - 1 { } else if r2 == r { assert(members@[r2]@[i] == orig_members[r2]@[i]); } else { assert(members@[r2] == orig_members[r2]); }
                }
            }
            options.push((q, a));
            resource_of_opt.push(r);
            row.push(v);
            a = a + 1;
        }
        var_of.push(row);
        proof {
            assert(reqs.take(q + 1).drop_last() =~= reqs.take(q as int));
        }
        q = q + 1;
    }
    proof { assert(reqs.take(reqs.len() as int) =~= reqs); }
    AlternativeIndex { options, var_of, resource_of_opt, resource_names, members }
}

#[verifier::spinoff_prover]
#[verifier::rlimit(40)]
pub(crate) fn build_encoding(requests: &Vec<Vec<ReservationRequestAlternative>>) -> (r: FlexibleEncoding)
    requires
        total_alternatives(crate::utils::nested_view(requests@)) <= MAX_ALTERNATIVES,
    ensures
        r.wf(crate::utils::nested_view(requests@)),
{
    let ghost reqs = crate::utils::nested_view(requests@);
    let AlternativeIndex { options, var_of, resource_of_opt, resource_names, members } = index_alternatives(requests);
    let n = options.len();
    let mut after: Vec<Vec<(usize, usize)>> = Vec::new();
    let mut order_pairs: Vec<(usize, usize)> = Vec::new();
    let mut u: usize = 0;
    while u < n
        invariant
            n == options@.len(),
            n <= MAX_ALTERNATIVES,
            resource_of_opt@.len() == n,
            u <= n,
            after@.len() == u,
            order_pairs@.len() <= u * n,
            forall|u2: int, k: int| 0 <= u2 < u && 0 <= k < after@[u2]@.len() ==> {
                let (w, x) = #[trigger] after@[u2]@[k];
                &&& w < n
                &&& w != u2
                &&& resource_of_opt@[u2] == resource_of_opt@[w as int]
                &&& n <= x < n + order_pairs@.len()
                &&& order_pairs@[x - n] == (u2 as usize, w)
            },
            forall|u2: int, w: int| 0 <= u2 < u && 0 <= w < n && u2 != w && resource_of_opt@[u2] == resource_of_opt@[w] ==>
                exists|k: int| 0 <= k < after@[u2]@.len() && (#[trigger] after@[u2]@[k]).0 == w,
            forall|k: int| 0 <= k < order_pairs@.len() ==> (#[trigger] order_pairs@[k]).0 < n && order_pairs@[k].1 < n,
        decreases n - u,
    {
        let mut list: Vec<(usize, usize)> = Vec::new();
        let mut w: usize = 0;
        while w < n
            invariant
                n == options@.len(),
                n <= MAX_ALTERNATIVES,
                resource_of_opt@.len() == n,
                u < n,
                w <= n,
                after@.len() == u,
                order_pairs@.len() <= u * n + w,
                forall|u2: int, k: int| 0 <= u2 < u && 0 <= k < after@[u2]@.len() ==> {
                    let (w2, x) = #[trigger] after@[u2]@[k];
                    &&& w2 < n
                    &&& w2 != u2
                    &&& resource_of_opt@[u2] == resource_of_opt@[w2 as int]
                    &&& n <= x < n + order_pairs@.len()
                    &&& order_pairs@[x - n] == (u2 as usize, w2)
                },
                forall|k: int| 0 <= k < list@.len() ==> {
                    let (w2, x) = #[trigger] list@[k];
                    &&& w2 < w
                    &&& w2 != u
                    &&& resource_of_opt@[u as int] == resource_of_opt@[w2 as int]
                    &&& n <= x < n + order_pairs@.len()
                    &&& order_pairs@[x - n] == (u, w2)
                },
                forall|u2: int, w2: int| 0 <= u2 < u && 0 <= w2 < n && u2 != w2 && resource_of_opt@[u2] == resource_of_opt@[w2] ==>
                    exists|k: int| 0 <= k < after@[u2]@.len() && (#[trigger] after@[u2]@[k]).0 == w2,
                forall|w2: int| 0 <= w2 < w && u != w2 && resource_of_opt@[u as int] == resource_of_opt@[w2] ==>
                    exists|k: int| 0 <= k < list@.len() && (#[trigger] list@[k]).0 == w2,
                forall|k: int| 0 <= k < order_pairs@.len() ==> (#[trigger] order_pairs@[k]).0 < n && order_pairs@[k].1 < n,
            decreases n - w,
        {
            proof { lemma_order_bound(u as int, w as int, n as int); }
            if w != u && resource_of_opt[u] == resource_of_opt[w] {
                let x = n + order_pairs.len();
                order_pairs.push((u, w));
                let ghost before_list = list@;
                list.push((w, x));
                proof {
                    assert forall|w2: int| 0 <= w2 < w + 1 && u != w2 && resource_of_opt@[u as int] == resource_of_opt@[w2] implies
                        exists|k: int| 0 <= k < list@.len() && (#[trigger] list@[k]).0 == w2 by {
                        if w2 == w { assert(list@[list@.len() - 1].0 == w2); } else {
                            let k = choose|k: int| 0 <= k < before_list.len() && (#[trigger] before_list[k]).0 == w2;
                            assert(list@[k].0 == w2);
                        }
                    }
                }
            }
            w = w + 1;
        }
        proof { lemma_order_bound(u as int, n as int, n as int); }
        let ghost old_after = after@;
        after.push(list);
        proof {
            assert forall|u2: int, w: int| 0 <= u2 < u + 1 && 0 <= w < n && u2 != w && resource_of_opt@[u2] == resource_of_opt@[w] implies
                exists|k: int| 0 <= k < after@[u2]@.len() && (#[trigger] after@[u2]@[k]).0 == w by {
                if u2 < u {
                    assert(after@[u2] == old_after[u2]);
                    let k = choose|k: int| 0 <= k < old_after[u2]@.len() && (#[trigger] old_after[u2]@[k]).0 == w;
                    assert(after@[u2]@[k].0 == w);
                } else {
                    let k = choose|k: int| 0 <= k < list@.len() && (#[trigger] list@[k]).0 == w;
                    assert(after@[u2]@[k].0 == w);
                }
            }
        }
        u = u + 1;
    }
    proof { lemma_vars_bound(n as int); }
    FlexibleEncoding { options, var_of, resource_of_opt, resource_names, members, after, order_pairs }
}

proof fn lemma_vars_bound(n: int)
    by (nonlinear_arith)
    requires
        0 <= n <= MAX_ALTERNATIVES,
    ensures
        n + n * n <= MAX_SAT_VAR + 1,
{
}

/// The dependencies and ordering constraints of `p` name alternatives of it.
pub open spec fn constraints_valid(p: &Problem) -> bool {
    &&& forall|k: int| 0 <= k < p.dependencies@.len() ==>
            is_alternative(problem_requests(p), (#[trigger] p.dependencies@[k]).0) && is_alternative(problem_requests(p), p.dependencies@[k].1)
    &&& forall|k: int| 0 <= k < p.must_be_immediately_after@.len() ==>
            is_alternative(problem_requests(p), (#[trigger] p.must_be_immediately_after@[k]).0)
            && is_alternative(problem_requests(p), p.must_be_immediately_after@[k].1)
}

/// Adds `clause` to the solver.
fn add_clause(s: &mut Solver<'static>, clause: Vec<(usize, bool)>)
    requires
        lits_in_range(clause@),
        sat_usable(*old(s)),
    ensures
        sat_usable(*final(s)),
        sat_clauses(*final(s)) == sat_clauses(*old(s)).push(clause@),
        forall|c: Seq<(usize, bool)>| sat_clauses(*old(s)).contains(c) ==> #[trigger] sat_clauses(*final(s)).contains(c),
        sat_clauses(*final(s)).contains(clause@),
{
    sat_add_clause(s, &clause);
    proof {
        broadcast use vstd::seq_lib::lemma_seq_contains_after_push;
    }
}

/// The clause asking for some alternative of request `q`.
pub(crate) open spec fn one_of_clause(enc: &FlexibleEncoding, q: int) -> Seq<(usize, bool)> {
    enc.var_of@[q]@.map_values(|v: usize| (v, true))
}

/// The clause banning alternatives `a1` and `a2` of request `q` together.
pub(crate) open spec fn not_both_clause(enc: &FlexibleEncoding, q: int, a1: int, a2: int) -> Seq<(usize, bool)> {
    seq![(enc.var_of@[q]@[a1], false), (enc.var_of@[q]@[a2], false)]
}

/// `cs` asks for exactly one alternative of each of the requests before `q`,
/// and for request `q`, for some alternative when `started`, and bans the pairs
/// `(a1, a2)` before `(p1, p2)`.
pub(crate) open spec fn grants_upto(enc: &FlexibleEncoding, reqs: Seq<Seq<ReservationRequestAlternative>>, cs: Seq<Seq<(usize, bool)>>,
    q: int, started: bool, p1: int, p2: int) -> bool {
    &&& forall|q2: int| 0 <= q2 < q ==> cs.contains(#[trigger] one_of_clause(enc, q2))
    &&& forall|q2: int, a1: int, a2: int| 0 <= q2 < q && 0 <= a1 < a2 < reqs[q2].len() ==> cs.contains(#[trigger] not_both_clause(enc, q2, a1, a2))
    &&& started ==> cs.contains(one_of_clause(enc, q))
    &&& forall|a1: int, a2: int| 0 <= a1 < a2 < reqs[q].len() && (a1 < p1 || (a1 == p1 && a2 < p2)) ==> cs.contains(#[trigger] not_both_clause(enc, q, a1, a2))
}

/// `cs` asks for exactly one alternative of every request.
pub(crate) open spec fn grants_one(enc: &FlexibleEncoding, reqs: Seq<Seq<ReservationRequestAlternative>>, cs: Seq<Seq<(usize, bool)>>) -> bool {
    &&& forall|q2: int| 0 <= q2 < reqs.len() ==> cs.contains(#[trigger] one_of_clause(enc, q2))
    &&& forall|q2: int, a1: int, a2: int| 0 <= q2 < reqs.len() && 0 <= a1 < a2 < reqs[q2].len() ==> cs.contains(#[trigger] not_both_clause(enc, q2, a1, a2))
}

/// The clause granting alternative `x2` whenever `x1` is granted.
pub(crate) open spec fn dep_clause(enc: &FlexibleEncoding, x1: (usize, usize), x2: (usize, usize)) -> Seq<(usize, bool)> {
    seq![(enc.var_of@[x1.0 as int]@[x1.1 as int], false), (enc.var_of@[x2.0 as int]@[x2.1 as int], true)]
}

/// `cs` holds the clause of every dependency of `problem`.
pub(crate) open spec fn deps_encoded(enc: &FlexibleEncoding, problem: &Problem, cs: Seq<Seq<(usize, bool)>>) -> bool {
    forall|k: int| 0 <= k < problem.dependencies@.len() ==>
        cs.contains(#[trigger] dep_clause(enc, problem.dependencies@[k].0, problem.dependencies@[k].1))
}

/// In every model of a formula holding the dependency clauses, an alternative
/// that a dependency starts from is granted only together with the
/// alternative it names.
pub(crate) proof fn lemma_dependencies_hold(enc: &FlexibleEncoding, problem: &Problem, cs: Seq<Seq<(usize, bool)>>, m: Seq<(usize, bool)>)
    requires
        deps_encoded(enc, problem, cs),
        is_model_of(m, cs),
    ensures
        forall|k: int| 0 <= k < problem.dependencies@.len()
            && #[trigger] m.contains((enc.var_of@[problem.dependencies@[k].0.0 as int]@[problem.dependencies@[k].0.1 as int], true))
            ==> m.contains((enc.var_of@[problem.dependencies@[k].1.0 as int]@[problem.dependencies@[k].1.1 as int], true)),
{
    assert forall|k: int| 0 <= k < problem.dependencies@.len()
        && #[trigger] m.contains((enc.var_of@[problem.dependencies@[k].0.0 as int]@[problem.dependencies@[k].0.1 as int], true))
        implies m.contains((enc.var_of@[problem.dependencies@[k].1.0 as int]@[problem.dependencies@[k].1.1 as int], true)) by {
        let d = problem.dependencies@[k];
        let c = dep_clause(enc, d.0, d.1);
        assert(cs.contains(c));
        let j = choose|j: int| 0 <= j < cs.len() && cs[j] == c;
        assert(clause_holds(m, cs[j]));
        let va = enc.var_of@[d.0.0 as int]@[d.0.1 as int];
        if m.contains((va, false)) {
            let i1 = choose|i: int| 0 <= i < m.len() && m[i] == (va, false);
            let i2 = choose|i: int| 0 <= i < m.len() && m[i] == (va, true);
            assert(m[i1].0 == m[i2].0 && m[i1].1 != m[i2].1);
        }
    }
}

/// A solver holding the clauses of the problem: exactly one alternative per
/// request; on every resource, a strict total order of the granted
/// alternatives that respects what can follow what; and, when
/// `with_constraints`, the dependencies and "immediately after" constraints.
pub(crate) fn encode(enc: &FlexibleEncoding, problem: &Problem, with_constraints: bool) -> (s: Solver<'static>)
    requires
        enc.wf(problem_requests(problem)),
        with_constraints ==> constraints_valid(problem),
    ensures
        sat_usable(s),
        grants_one(enc, problem_requests(problem), sat_clauses(s)),
        with_constraints ==> deps_encoded(enc, problem, sat_clauses(s)),
{
    let ghost reqs = problem_requests(problem);
    let mut s = sat_new();
    let n = enc.options.len();
    // One alternative per request.
    let mut q: usize = 0;
    while q < problem.requests.len()
        invariant
            enc.wf(reqs),
            reqs == problem_requests(problem),
            n == enc.n(),
            q <= reqs.len(),
            sat_usable(s),
            grants_upto(enc, reqs, sat_clauses(s), q as int, false, 0, 0),
        decreases reqs.len() - q,
    {
        let row = &enc.var_of[q];
        let mut clause: Vec<(usize, bool)> = Vec::new();
        let mut a: usize = 0;
        while a < row.len()
            invariant
                enc.wf(reqs),
                q < reqs.len(),
                row@ == enc.var_of@[q as int]@,
                a <= row@.len(),
                clause@.len() == a,
                forall|i: int| 0 <= i < a ==> #[trigger] clause@[i] == (row@[i], true),
            decreases row@.len() - a,
        {
            clause.push((row[a], true));
            a = a + 1;
        }
        proof {
            assert forall|i: int| 0 <= i < clause@.len() implies #[trigger] clause@[i].0 <= MAX_SAT_VAR by {
                assert(row@[i] == enc.var_of@[q as int]@[i]);
            }
            assert(clause@ =~= one_of_clause(enc, q as int));
        }
        add_clause(&mut s, clause);
        let mut a1: usize = 0;
        while a1 < row.len()
            invariant
                enc.wf(reqs),
                q < reqs.len(),
                row@ == enc.var_of@[q as int]@,
                a1 <= row@.len(),
                sat_usable(s),
                grants_upto(enc, reqs, sat_clauses(s), q as int, true, a1 as int, a1 + 1),
            decreases row@.len() - a1,
        {
            let mut a2: usize = a1 + 1;
            while a2 < row.len()
                invariant
                    enc.wf(reqs),
                    q < reqs.len(),
                    row@ == enc.var_of@[q as int]@,
                    a1 < row@.len(),
                    a1 < a2 <= row@.len() || a2 == a1 + 1,
                    a1 < a2,
                    sat_usable(s),
                    grants_upto(enc, reqs, sat_clauses(s), q as int, true, a1 as int, a2 as int),
                decreases row@.len() - a2,
            {
                proof {
                    let _ = enc.var_of@[q as int]@[a1 as int];
                    let _ = enc.var_of@[q as int]@[a2 as int];
                }
                let c = vec![(row[a1], false), (row[a2], false)];
                proof { assert(c@ =~= not_both_clause(enc, q as int, a1 as int, a2 as int)); }
                add_clause(&mut s, c);
                a2 = a2 + 1;
            }
            a1 = a1 + 1;
        }
        q = q + 1;
    }
    proof { assert(grants_one(enc, reqs, sat_clauses(s))); }
    // Dependencies.
    if with_constraints {
        let mut k: usize = 0;
        while k < problem.dependencies.len()
            invariant
                enc.wf(reqs),
                reqs == problem_requests(problem),
                constraints_valid(problem),
                k <= problem.dependencies@.len(),
                sat_usable(s),
                grants_one(enc, reqs, sat_clauses(s)),
                forall|k2: int| 0 <= k2 < k ==>
                    sat_clauses(s).contains(#[trigger] dep_clause(enc, problem.dependencies@[k2].0, problem.dependencies@[k2].1)),
            decreases problem.dependencies@.len() - k,
        {
            let (x1, x2) = problem.dependencies[k];
            proof {
                let _ = problem.dependencies@[k as int];
                let _ = enc.var_of@[x1.0 as int]@[x1.1 as int];
                let _ = enc.var_of@[x2.0 as int]@[x2.1 as int];
            }
            let c = vec![(enc.var_of[x1.0][x1.1], false), (enc.var_of[x2.0][x2.1], true)];
            proof { assert(c@ =~= dep_clause(enc, x1, x2)); }
            add_clause(&mut s, c);
            k = k + 1;
        }
    }

    // Strict total order on every resource.
    let mut r: usize = 0;
    while r < enc.members.len()
        invariant
            enc.wf(reqs),
            reqs == problem_requests(problem),
            n == enc.n(),
            r <= enc.members@.len(),
            sat_usable(s),
                grants_one(enc, reqs, sat_clauses(s)),
                with_constraints ==> deps_encoded(enc, problem, sat_clauses(s)),
        decreases enc.members@.len() - r,
    {
        let list = &enc.members[r];
        let mut i: usize = 0;
        while i < list.len()
            invariant
                enc.wf(reqs),
                n == enc.n(),
                r < enc.members@.len(),
                list@ == enc.members@[r as int]@,
                i <= list@.len(),
                sat_usable(s),
                grants_one(enc, reqs, sat_clauses(s)),
                with_constraints ==> deps_encoded(enc, problem, sat_clauses(s)),
            decreases list@.len() - i,
        {
            let mut j: usize = i + 1;
            while j < list.len()
                invariant
                    enc.wf(reqs),
                    n == enc.n(),
                    r < enc.members@.len(),
                    list@ == enc.members@[r as int]@,
                    i < list@.len(),
                    i < j,
                    sat_usable(s),
                grants_one(enc, reqs, sat_clauses(s)),
                with_constraints ==> deps_encoded(enc, problem, sat_clauses(s)),
                decreases list@.len() - j,
            {
                let u = list[i];
                let w = list[j];
                proof {
                    let _ = enc.members@[r as int]@[i as int];
                    let _ = enc.members@[r as int]@[j as int];
                }
                let xuw = enc.order_var(Ghost(reqs), u, w);
                let xwu = enc.order_var(Ghost(reqs), w, u);
                if let (Some(xuw), Some(xwu)) = (xuw, xwu) {
                    add_clause(&mut s, vec![(u, false), (w, false), (xuw, false), (xwu, false)]);
                    add_clause(&mut s, vec![(u, false), (w, false), (xuw, true), (xwu, true)]);
                }
                j = j + 1;
            }
            i = i + 1;
        }
        // Transitivity.
        let mut i: usize = 0;
        while i < list.len()
            invariant
                enc.wf(reqs),
                n == enc.n(),
                r < enc.members@.len(),
                list@ == enc.members@[r as int]@,
                i <= list@.len(),
                sat_usable(s),
                grants_one(enc, reqs, sat_clauses(s)),
                with_constraints ==> deps_encoded(enc, problem, sat_clauses(s)),
            decreases list@.len() - i,
        {
            let u = list[i];
            proof { let _ = enc.members@[r as int]@[i as int]; }
            let next = &enc.after[u];
            let mut k: usize = 0;
            while k < next.len()
                invariant
                    enc.wf(reqs),
                    n == enc.n(),
                    u < n,
                    next@ == enc.after@[u as int]@,
                    k <= next@.len(),
                    sat_usable(s),
                grants_one(enc, reqs, sat_clauses(s)),
                with_constraints ==> deps_encoded(enc, problem, sat_clauses(s)),
                decreases next@.len() - k,
            {
                let (w, xuw) = next[k];
                proof { let _ = enc.after@[u as int]@[k as int]; }
                let next2 = &enc.after[w];
                let mut k2: usize = 0;
                while k2 < next2.len()
                    invariant
                        enc.wf(reqs),
                        n == enc.n(),
                        u < n,
                        w < n,
                        n <= xuw < enc.num_vars(),
                        next2@ == enc.after@[w as int]@,
                        k2 <= next2@.len(),
                        sat_usable(s),
                grants_one(enc, reqs, sat_clauses(s)),
                with_constraints ==> deps_encoded(enc, problem, sat_clauses(s)),
                    decreases next2@.len() - k2,
                {
                    let (z, xwz) = next2[k2];
                    proof { let _ = enc.after@[w as int]@[k2 as int]; }
                    if let Some(xuz) = enc.order_var(Ghost(reqs), u, z) {
                        add_clause(&mut s, vec![(xuw, false), (xwz, false), (xuz, true)]);
                    }
                    k2 = k2 + 1;
                }
                k = k + 1;
            }
            i = i + 1;
        }
        r = r + 1;
    }
    // Immediately-after constraints.
    if with_constraints {
        let mut k: usize = 0;
        while k < problem.must_be_immediately_after.len()
            invariant
                enc.wf(reqs),
                reqs == problem_requests(problem),
                n == enc.n(),
                constraints_valid(problem),
                k <= problem.must_be_immediately_after@.len(),
                sat_usable(s),
                grants_one(enc, reqs, sat_clauses(s)),
                with_constraints ==> deps_encoded(enc, problem, sat_clauses(s)),
            decreases problem.must_be_immediately_after@.len() - k,
        {
            let (ij, km) = problem.must_be_immediately_after[k];
            proof {
                let _ = problem.must_be_immediately_after@[k as int];
                let _ = enc.var_of@[ij.0 as int]@[ij.1 as int];
                let _ = enc.var_of@[km.0 as int]@[km.1 as int];
            }
            if problem.requests[ij.0][ij.1].parameters.resource_name == problem.requests[km.0][km.1].parameters.resource_name {
                let x_ij = enc.var_of[ij.0][ij.1];
                let x_km = enc.var_of[km.0][km.1];
                let next = &enc.after[x_ij];
                if next.len() > 0 {
                    let mut sum: Vec<(usize, bool)> = Vec::new();
                    let mut k2: usize = 0;
                    while k2 < next.len()
                        invariant
                            enc.wf(reqs),
                            n == enc.n(),
                            x_ij < n,
                            x_km < n,
                            next@ == enc.after@[x_ij as int]@,
                            k2 <= next@.len(),
                            lits_in_range(sum@),
                            sat_usable(s),
                grants_one(enc, reqs, sat_clauses(s)),
                with_constraints ==> deps_encoded(enc, problem, sat_clauses(s)),
                        decreases next@.len() - k2,
                    {
                        let (nl, x) = next[k2];
                        proof { let _ = enc.after@[x_ij as int]@[k2 as int]; }
                        if nl == x_km {
                            add_clause(&mut s, vec![(x_ij, false), (x_km, false), (x, true)]);
                        } else {
                            sum.push((x, true));
                        }
                        k2 = k2 + 1;
                    }
                    add_clause(&mut s, sum);
                }
            }
            k = k + 1;
        }
    }
    // What cannot follow what.
    let mut r: usize = 0;
    while r < enc.members.len()
        invariant
            enc.wf(reqs),
            reqs == problem_requests(problem),
            n == enc.n(),
            r <= enc.members@.len(),
            sat_usable(s),
                grants_one(enc, reqs, sat_clauses(s)),
                with_constraints ==> deps_encoded(enc, problem, sat_clauses(s)),
        decreases enc.members@.len() - r,
    {
        let list = &enc.members[r];
        let mut i: usize = 0;
        while i < list.len()
            invariant
                enc.wf(reqs),
                reqs == problem_requests(problem),
                n == enc.n(),
                r < enc.members@.len(),
                list@ == enc.members@[r as int]@,
                i <= list@.len(),
                sat_usable(s),
                grants_one(enc, reqs, sat_clauses(s)),
                with_constraints ==> deps_encoded(enc, problem, sat_clauses(s)),
            decreases list@.len() - i,
        {
            let mut j: usize = i + 1;
            while j < list.len()
                invariant
                    enc.wf(reqs),
                    reqs == problem_requests(problem),
                    n == enc.n(),
                    r < enc.members@.len(),
                    list@ == enc.members@[r as int]@,
                    i < list@.len(),
                    i < j,
                    sat_usable(s),
                grants_one(enc, reqs, sat_clauses(s)),
                with_constraints ==> deps_encoded(enc, problem, sat_clauses(s)),
                decreases list@.len() - j,
            {
                let u = list[i];
                let w = list[j];
                proof {
                    let _ = enc.members@[r as int]@[i as int];
                    let _ = enc.members@[r as int]@[j as int];
                    let _ = enc.options@[u as int];
                    let _ = enc.options@[w as int];
                }
                let ou = enc.options[u];
                let ow = enc.options[w];
                let alt_u = &problem.requests[ou.0][ou.1];
                let alt_w = &problem.requests[ow.0][ow.1];
                if let (Some(xuw), Some(xwu)) = (enc.order_var(Ghost(reqs), u, w), enc.order_var(Ghost(reqs), w, u)) {
                    if !alt_w.can_be_scheduled_after(&alt_u.parameters) {
                        add_clause(&mut s, vec![(xuw, false)]);
                    }
                    if !alt_u.can_be_scheduled_after(&alt_w.parameters) {
                        add_clause(&mut s, vec![(xwu, false)]);
                    }
                }
                j = j + 1;
            }
            i = i + 1;
        }
        r = r + 1;
    }
    s
}

/// The option variables of the alternatives `sched[from..to]`, in order.
spec fn entry_vars(enc: &FlexibleEncoding, sched: Seq<(usize, usize)>, from: int, to: int) -> Seq<usize> {
    Seq::new((to - from) as nat, |t: int| enc.var_of@[sched[from + t].0 as int]@[sched[from + t].1 as int])
}

/// The option variables of `sched[from..to]`.
fn option_vars(enc: &FlexibleEncoding, Ghost(reqs): Ghost<Seq<Seq<ReservationRequestAlternative>>>, sched: &Vec<(usize, usize)>, from: usize, to: usize) -> (r: Vec<usize>)
    requires
        enc.wf(reqs),
        from <= to <= sched@.len(),
        forall|j: int| 0 <= j < sched@.len() ==> is_alternative(reqs, #[trigger] sched@[j]),
    ensures
        forall|t: int| 0 <= t < r@.len() ==> enc.vars_of_entries(sched@).contains(#[trigger] r@[t]),
        forall|t: int| 0 <= t < r@.len() ==> #[trigger] r@[t] < enc.n(),
        r@ == entry_vars(enc, sched@, from as int, to as int),
{
    let mut out: Vec<usize> = Vec::new();
    let mut j = from;
    proof { assert(out@ =~= entry_vars(enc, sched@, from as int, from as int)); }
    while j < to
        invariant
            out@ == entry_vars(enc, sched@, from as int, j as int),
            enc.wf(reqs),
            from <= j <= to <= sched@.len(),
            forall|j2: int| 0 <= j2 < sched@.len() ==> is_alternative(reqs, #[trigger] sched@[j2]),
            forall|t: int| 0 <= t < out@.len() ==> enc.vars_of_entries(sched@).contains(#[trigger] out@[t]),
            forall|t: int| 0 <= t < out@.len() ==> #[trigger] out@[t] < enc.n(),
        decreases to - j,
    {
        let x = sched[j];
        proof {
            assert(is_alternative(reqs, sched@[j as int]));
            let _ = enc.var_of@[x.0 as int]@[x.1 as int];
        }
        out.push(enc.var_of[x.0][x.1]);
        proof {
            assert(enc.vars_of_entries(sched@).contains(enc.var_of@[sched@[j as int].0 as int]@[sched@[j as int].1 as int]));
            assert(out@ =~= entry_vars(enc, sched@, from as int, j + 1));
        }
        j = j + 1;
    }
    out
}

/// Sum of the magnitudes of the durations of the first `i` alternatives of `sched`.
spec fn duration_span(reqs: Seq<Seq<ReservationRequestAlternative>>, sched: Seq<(usize, usize)>, i: int) -> int
    decreases i,
{
    if i <= 0 {
        0
    } else {
        duration_span(reqs, sched, i - 1) + match duration_of(reqs, sched[i - 1]) {
            Some(d) => if d < 0 { -d } else { d as int },
            None => 0,
        }
    }
}

proof fn lemma_duration_span_monotone(reqs: Seq<Seq<ReservationRequestAlternative>>, sched: Seq<(usize, usize)>, i: int, j: int)
    requires
        0 <= i <= j,
    ensures
        duration_span(reqs, sched, i) <= duration_span(reqs, sched, j),
    decreases j - i,
{
    if i < j {
        lemma_duration_span_monotone(reqs, sched, i, j - 1);
    }
}

/// `now` and every earliest start of `sched` are far enough from the limits of
/// an `i64` that no end computed while packing `sched` leaves them.
spec fn pack_fits(reqs: Seq<Seq<ReservationRequestAlternative>>, sched: Seq<(usize, usize)>, now: i64) -> bool {
    let d = duration_span(reqs, sched, sched.len() as int);
    &&& i64::MIN + d <= now <= i64::MAX - d
    &&& forall|j: int| 0 <= j < sched.len() ==>
            ((#[trigger] reqs[sched[j].0 as int][sched[j].1 as int]).parameters.start_time.earliest_start matches Some(e)
            ==> i64::MIN + d <= e <= i64::MAX - d)
}

/// Every alternative of `sched` but the last has a duration.
spec fn open_ended_last(reqs: Seq<Seq<ReservationRequestAlternative>>, sched: Seq<(usize, usize)>) -> bool {
    forall|j: int| 0 <= j < sched.len() - 1 ==> duration_of(reqs, #[trigger] sched[j]) is Some
}

/// Every alternative of `sched` that packing places (one with an earliest
/// start and a duration) has an assignment in `out`.
spec fn placed_all(reqs: Seq<Seq<ReservationRequestAlternative>>, sched: Seq<(usize, usize)>, out: Seq<Assignment>) -> bool {
    forall|j: int| 0 <= j < sched.len() && #[trigger] packable(reqs, sched[j])
        ==> exists|k: int| 0 <= k < out.len() && out[k].id == sched[j]
}

/// Packs the alternatives `sched`, in this order, on one resource, from `now`:
/// each starts at its earliest start if the resource is free by then, else as
/// soon as it is free, provided that is strictly before its latest start.
/// When it is not, the clause banning `sched[last_gap..i]` together is
/// learned, where `last_gap` is the last alternative that started at its
/// earliest start, and the packing is not `ok`. An alternative without a
/// duration may only come last; it is not scheduled, but it fails the same
/// way when the resource is not free by its latest start. Alternatives without
/// an earliest start are left out. `None` when an alternative without a
/// duration is not last, or a time does not fit in an `i64`.
#[verifier::rlimit(100)]
#[verifier::spinoff_prover]
fn pack_resource(enc: &FlexibleEncoding, problem: &Problem, sched: &Vec<(usize, usize)>, now: i64)
    -> (r: Option<(Vec<Assignment>, bool, Vec<Vec<usize>>)>)
    requires
        enc.wf(problem_requests(problem)),
        forall|j: int| 0 <= j < sched@.len() ==> is_alternative(problem_requests(problem), #[trigger] sched@[j]),
    ensures
        r matches Some(res) ==> {
            let (out, ok, learned) = res;
            &&& packed_from(problem_requests(problem), out@, now as int)
            &&& forall|i: int| 0 <= i < out@.len() ==> sched@.contains(#[trigger] out@[i].id)
            &&& !ok ==> learned@.len() > 0
            &&& forall|k: int, t: int| 0 <= k < learned@.len() && 0 <= t < learned@[k]@.len() ==>
                    enc.vars_of_entries(sched@).contains(#[trigger] learned@[k]@[t])
            &&& forall|k: int, t: int| 0 <= k < learned@.len() && 0 <= t < learned@[k]@.len() ==> #[trigger] learned@[k]@[t] < enc.n()
        },
        r is Some ==> open_ended_last(problem_requests(problem), sched@),
        r matches Some(res) ==> (res.1 ==> placed_all(problem_requests(problem), sched@, res.0@)),
        open_ended_last(problem_requests(problem), sched@) && pack_fits(problem_requests(problem), sched@, now) ==> r is Some,
{
    let ghost reqs = problem_requests(problem);
    let ghost span = duration_span(reqs, sched@, sched@.len() as int);
    let ghost fits = open_ended_last(reqs, sched@) && pack_fits(reqs, sched@, now);
    let mut out: Vec<Assignment> = Vec::new();
    let mut learned: Vec<Vec<usize>> = Vec::new();
    let mut ok = true;
    let mut last_end: i64 = now;
    let mut last_gap: usize = 0;
    let mut i: usize = 0;
    while i < sched.len()
        invariant
            reqs == problem_requests(problem),
            enc.wf(reqs),
            forall|j: int| 0 <= j < sched@.len() ==> is_alternative(reqs, #[trigger] sched@[j]),
            i <= sched@.len(),
            last_gap <= i,
            packed_from(reqs, out@, now as int),
            out@.len() == 0 ==> last_end == now,
            out@.len() > 0 ==> last_end == end_time(reqs, out@.last()),
            forall|i2: int| 0 <= i2 < out@.len() ==> sched@.contains(#[trigger] out@[i2].id),
            !ok ==> learned@.len() > 0,
            forall|k: int, t: int| 0 <= k < learned@.len() && 0 <= t < learned@[k]@.len() ==>
                enc.vars_of_entries(sched@).contains(#[trigger] learned@[k]@[t]),
            forall|k: int, t: int| 0 <= k < learned@.len() && 0 <= t < learned@[k]@.len() ==> #[trigger] learned@[k]@[t] < enc.n(),
            forall|j: int| 0 <= j < i && j < sched@.len() - 1 ==> duration_of(reqs, #[trigger] sched@[j]) is Some,
            span == duration_span(reqs, sched@, sched@.len() as int),
            fits == (open_ended_last(reqs, sched@) && pack_fits(reqs, sched@, now)),
            fits ==> i64::MIN + (span - duration_span(reqs, sched@, i as int)) <= last_end <= i64::MAX - (span - duration_span(reqs, sched@, i as int)),
            ok ==> forall|j: int| 0 <= j < i && #[trigger] packable(reqs, sched@[j]) ==> exists|k: int| 0 <= k < out@.len() && out@[k].id == sched@[j],
        decreases sched@.len() - i,
    {
        let id = sched[i];
        proof {
            lemma_duration_span_monotone(reqs, sched@, i + 1, sched@.len() as int);
            lemma_duration_span_monotone(reqs, sched@, 0, i as int);
            let alt_s = reqs[sched@[i as int].0 as int][sched@[i as int].1 as int];
            assert(alt_s == problem.requests@[id.0 as int]@[id.1 as int]);
            assert(duration_span(reqs, sched@, i + 1) == duration_span(reqs, sched@, i as int) + match alt_s.parameters.duration {
                Some(d) => if d < 0 { -d } else { d as int },
                None => 0,
            });
            if fits {
                assert(alt_s.parameters.start_time.earliest_start matches Some(e) ==> i64::MIN + span <= e <= i64::MAX - span);
            }
        }
        proof { assert(is_alternative(reqs, sched@[i as int])); }
        let alternative = &problem.requests[id.0][id.1];
        let ghost out_before = out@;
        let ghost learned_before = learned@;
        match alternative.parameters.duration {
            None => {
                if i + 1 == sched.len() {
                    if let Some(latest) = alternative.parameters.start_time.latest_start {
                        if last_end > latest {
                            let clause = option_vars(enc, Ghost(reqs), sched, last_gap, i);
                            learned.push(clause);
                            ok = false;
                        }
                    }
                } else {
                    return None;
                }
            },
            Some(duration) => {
                if let Some(earliest) = alternative.parameters.start_time.earliest_start {
                    if earliest >= last_end {
                        let end = match earliest.checked_add(duration) { Some(e) => e, None => { return None; } };
                        out.push(Assignment { id, start_time: earliest });
                        last_end = end;
                        last_gap = i;
                    } else {
                        let fits = match alternative.parameters.start_time.latest_start {
                            Some(latest) => last_end < latest,
                            None => true,
                        };
                        if fits {
                            let end = match last_end.checked_add(duration) { Some(e) => e, None => { return None; } };
                            out.push(Assignment { id, start_time: last_end });
                            last_end = end;
                        } else {
                            let clause = option_vars(enc, Ghost(reqs), sched, last_gap, i);
                            learned.push(clause);
                            ok = false;
                        }
                    }
                }
            },
        }
        proof {
            assert forall|j: int| 0 <= j < i + 1 && ok && #[trigger] packable(reqs, sched@[j]) implies
                exists|k: int| 0 <= k < out@.len() && out@[k].id == sched@[j] by {
                if j < i {
                    let k = choose|k: int| 0 <= k < out_before.len() && out_before[k].id == sched@[j];
                    assert(out@[k] == out_before[k]);
                } else {
                    assert(out@.len() == out_before.len() + 1);
                    assert(out@[out@.len() - 1].id == sched@[j]);
                }
            }
            assert forall|i2: int| 0 <= i2 < out@.len() implies sched@.contains(#[trigger] out@[i2].id) by {
                if i2 < out_before.len() { assert(out@[i2] == out_before[i2]); } else { assert(out@[i2].id == sched@[i as int]); }
            }
            assert forall|i2: int| 0 <= i2 < out@.len() implies {
                &&& is_alternative(reqs, #[trigger] out@[i2].id)
                &&& window_ok(reqs, out@[i2])
                &&& out@[i2].start_time >= (if i2 == 0 { now as int } else { end_time(reqs, out@[i2 - 1]) })
            } by {
                if i2 < out_before.len() { assert(out@[i2] == out_before[i2]); if i2 > 0 { assert(out@[i2 - 1] == out_before[i2 - 1]); } }
                else if i2 > 0 { assert(out@[i2 - 1] == out_before.last()); }
            }
            assert forall|k: int, t: int| 0 <= k < learned@.len() && 0 <= t < learned@[k]@.len() implies
                enc.vars_of_entries(sched@).contains(#[trigger] learned@[k]@[t]) by {
                if k < learned_before.len() { assert(learned@[k] == learned_before[k]); }
            }
            assert forall|k: int, t: int| 0 <= k < learned@.len() && 0 <= t < learned@[k]@.len() implies #[trigger] learned@[k]@[t] < enc.n() by {
                if k < learned_before.len() { assert(learned@[k] == learned_before[k]); }
            }
        }
        i = i + 1;
    }
    proof {
        if ok {
            assert forall|j: int| 0 <= j < sched@.len() && #[trigger] packable(problem_requests(problem), sched@[j]) implies
                exists|k: int| 0 <= k < out@.len() && out@[k].id == sched@[j] by {
                assert(packable(reqs, sched@[j]));
            }
            assert(placed_all(problem_requests(problem), sched@, out@));
        }
    }
    Some((out, ok, learned))
}

/// The option variables `v < n` set true in `model`, in order.
spec fn model_vertices(model: Seq<(usize, bool)>, n: nat) -> Seq<usize>
    decreases model.len(),
{
    if model.len() == 0 {
        Seq::empty()
    } else {
        let (v, b) = model.last();
        let rest = model_vertices(model.drop_last(), n);
        if b && v < n { rest.push(v) } else { rest }
    }
}

/// The order pairs `pairs[v - n]` of the variables `v >= n` set true in
/// `model`, in order.
spec fn model_edges(model: Seq<(usize, bool)>, n: nat, pairs: Seq<(usize, usize)>) -> Seq<(usize, usize)>
    decreases model.len(),
{
    if model.len() == 0 {
        Seq::empty()
    } else {
        let (v, b) = model.last();
        let rest = model_edges(model.drop_last(), n, pairs);
        if b && v >= n && v - n < pairs.len() { rest.push(pairs[v - n]) } else { rest }
    }
}

/// The granted alternatives (as option variables) and the proposed orders
/// (as pairs of option variables, first before second) of the model `model`.
fn read_model(enc: &FlexibleEncoding, Ghost(reqs): Ghost<Seq<Seq<ReservationRequestAlternative>>>, model: &Vec<(usize, bool)>)
    -> (r: (Vec<usize>, Vec<(usize, usize)>))
    requires
        enc.wf(reqs),
    ensures
        forall|t: int| 0 <= t < r.0@.len() ==> #[trigger] r.0@[t] < enc.n() && model@.contains((r.0@[t], true)),
        forall|t: int| 0 <= t < r.1@.len() ==> (#[trigger] r.1@[t]).0 < enc.n() && r.1@[t].1 < enc.n(),
        r.0@ == model_vertices(model@, enc.n()),
        r.1@ == model_edges(model@, enc.n(), enc.order_pairs@),
{
    let n = enc.options.len();
    let m = enc.order_pairs.len();
    let mut vertices: Vec<usize> = Vec::new();
    let mut edges: Vec<(usize, usize)> = Vec::new();
    let mut i: usize = 0;
    proof { assert(model@.take(0) =~= Seq::<(usize, bool)>::empty()); }
    while i < model.len()
        invariant
            vertices@ == model_vertices(model@.take(i as int), enc.n()),
            edges@ == model_edges(model@.take(i as int), enc.n(), enc.order_pairs@),
            enc.wf(reqs),
            n == enc.n(),
            m == enc.order_pairs@.len(),
            i <= model@.len(),
            forall|t: int| 0 <= t < vertices@.len() ==> #[trigger] vertices@[t] < n && model@.contains((vertices@[t], true)),
            forall|t: int| 0 <= t < edges@.len() ==> (#[trigger] edges@[t]).0 < n && edges@[t].1 < n,
        decreases model@.len() - i,
    {
        let (v, positive) = model[i];
        proof {
            assert(model@.take(i + 1).drop_last() =~= model@.take(i as int));
            assert(model@.take(i + 1).last() == model@[i as int]);
        }
        if positive {
            if v >= n && v - n < m {
                proof { let _ = enc.order_pairs@[v - n]; }
                edges.push(enc.order_pairs[v - n]);
            } else if v < n {
                proof { assert(model@[i as int] == (v, true)); }
                vertices.push(v);
            }
        }
        i = i + 1;
    }
    proof { assert(model@.take(model@.len() as int) =~= model@); }
    (vertices, edges)
}

/// The last position of `x` in `vs`; -1 when it is not there.
spec fn last_pos(vs: Seq<usize>, x: usize) -> int
    decreases vs.len(),
{
    if vs.len() == 0 { -1 } else if vs.last() == x { vs.len() - 1 } else { last_pos(vs.drop_last(), x) }
}

/// The order pairs of `edges` whose two variables are in `vs`, as pairs of
/// their last positions in `vs`.
spec fn position_edges(vs: Seq<usize>, edges: Seq<(usize, usize)>) -> Seq<(usize, usize)>
    decreases edges.len(),
{
    if edges.len() == 0 {
        Seq::empty()
    } else {
        let e = edges.last();
        let rest = position_edges(vs, edges.drop_last());
        if last_pos(vs, e.0) >= 0 && last_pos(vs, e.1) >= 0 {
            rest.push((last_pos(vs, e.0) as usize, last_pos(vs, e.1) as usize))
        } else {
            rest
        }
    }
}

proof fn lemma_last_pos_range(vs: Seq<usize>, x: usize)
    ensures
        -1 <= last_pos(vs, x) < vs.len(),
        last_pos(vs, x) >= 0 ==> vs[last_pos(vs, x)] == x,
        last_pos(vs, x) < 0 ==> !vs.contains(x),
    decreases vs.len(),
{
    if vs.len() > 0 {
        lemma_last_pos_range(vs.drop_last(), x);
        if vs.last() != x && last_pos(vs, x) < 0 {
            assert forall|i: int| 0 <= i < vs.len() implies vs[i] != x by {
                if i < vs.len() - 1 { assert(vs.drop_last()[i] == vs[i]); }
            }
        }
    }
}

/// The granted alternatives in an order that has every proposed order pair
/// first before second (`petgraph`'s topological sort); `None` when there is
/// none, or the graph would be too large.
fn order_alternatives(enc: &FlexibleEncoding, Ghost(reqs): Ghost<Seq<Seq<ReservationRequestAlternative>>>,
    vertices: &Vec<usize>, edges: &Vec<(usize, usize)>) -> (r: Option<Vec<(usize, usize)>>)
    requires
        enc.wf(reqs),
        forall|t: int| 0 <= t < vertices@.len() ==> #[trigger] vertices@[t] < enc.n(),
        forall|t: int| 0 <= t < edges@.len() ==> (#[trigger] edges@[t]).0 < enc.n() && edges@[t].1 < enc.n(),
    ensures
        r matches Some(order) ==> forall|i: int| 0 <= i < order@.len() ==> enc.alts_of(vertices@).contains(#[trigger] order@[i]),
        r matches Some(out) ==> exists|order: Seq<usize>| #[trigger] is_topological_order(order, vertices@.len(), position_edges(vertices@, edges@))
            && out@ == order.map_values(|i: usize| enc.alts_of(vertices@)[i as int]),
        r is None ==> vertices@.len() >= GRAPH_CAPACITY || edges@.len() >= GRAPH_CAPACITY
            || !exists|order: Seq<usize>| #[trigger] is_topological_order(order, vertices@.len(), position_edges(vertices@, edges@)),
{
    let n = enc.options.len();
    if vertices.len() >= GRAPH_CAPACITY || edges.len() >= GRAPH_CAPACITY {
        return None;
    }
    let mut g = order_graph_new();
    let mut node_map: Vec<Option<usize>> = Vec::new();
    let mut v: usize = 0;
    while v < n
        invariant
            v <= n,
            node_map@.len() == v,
            forall|x: int| 0 <= x < v ==> node_map@[x] is None,
        decreases n - v,
    {
        node_map.push(None);
        v = v + 1;
    }
    let mut t: usize = 0;
    while t < vertices.len()
        invariant
            enc.wf(reqs),
            n == enc.n(),
            vertices@.len() < GRAPH_CAPACITY,
            forall|t2: int| 0 <= t2 < vertices@.len() ==> #[trigger] vertices@[t2] < n,
            t <= vertices@.len(),
            node_map@.len() == n,
            graph_nodes(g) == enc.alts_of(vertices@.take(t as int)),
            graph_edges(g).len() == 0,
            forall|x: int| 0 <= x < n ==> (#[trigger] node_map@[x] matches Some(idx) ==> idx < t),
            forall|x: int| 0 <= x < n ==> #[trigger] node_map@[x] == (if last_pos(vertices@.take(t as int), x as usize) >= 0 {
                Some(last_pos(vertices@.take(t as int), x as usize) as usize) } else { None }),
        decreases vertices@.len() - t,
    {
        let x = vertices[t];
        let w = enc.options[x];
        let idx = order_graph_add_node(&mut g, w);
        node_map.set(x, Some(idx));
        proof {
            assert(enc.alts_of(vertices@.take(t + 1)) =~= enc.alts_of(vertices@.take(t as int)).push(w));
            assert(vertices@.take(t + 1).drop_last() =~= vertices@.take(t as int));
            assert(vertices@.take(t + 1).last() == x);
        }
        t = t + 1;
    }
    proof { assert(vertices@.take(vertices@.len() as int) =~= vertices@); }
    let mut k: usize = 0;
    while k < edges.len()
        invariant
            enc.wf(reqs),
            n == enc.n(),
            edges@.len() < GRAPH_CAPACITY,
            forall|t2: int| 0 <= t2 < edges@.len() ==> (#[trigger] edges@[t2]).0 < n && edges@[t2].1 < n,
            k <= edges@.len(),
            node_map@.len() == n,
            graph_nodes(g) == enc.alts_of(vertices@),
            graph_edges(g).len() <= k,
            forall|x: int| 0 <= x < n ==> (#[trigger] node_map@[x] matches Some(idx) ==> idx < vertices@.len()),
            forall|x: int| 0 <= x < n ==> #[trigger] node_map@[x] == (if last_pos(vertices@, x as usize) >= 0 {
                Some(last_pos(vertices@, x as usize) as usize) } else { None }),
            graph_edges(g) == position_edges(vertices@, edges@.take(k as int)),
        decreases edges@.len() - k,
    {
        let (a, b) = edges[k];
        proof {
            assert(edges@.take(k + 1).drop_last() =~= edges@.take(k as int));
            assert(edges@.take(k + 1).last() == (a, b));
            lemma_last_pos_range(vertices@, a);
            lemma_last_pos_range(vertices@, b);
        }
        if let (Some(na), Some(nb)) = (node_map[a], node_map[b]) {
            order_graph_add_edge(&mut g, na, nb);
        }
        k = k + 1;
    }
    proof { assert(edges@.take(edges@.len() as int) =~= edges@); }
    let order = match order_graph_toposort(&g) {
        Some(o) => o,
        None => { return None; },
    };
    let ghost order0 = order@;
    let mut out: Vec<(usize, usize)> = Vec::new();
    let mut i: usize = 0;
    while i < order.len()
        invariant
            out@ == order@.take(i as int).map_values(|j: usize| enc.alts_of(vertices@)[j as int]),
            graph_nodes(g) == enc.alts_of(vertices@),
            forall|j: int| 0 <= j < order@.len() ==> #[trigger] order@[j] < graph_nodes(g).len(),
            i <= order@.len(),
            forall|j: int| 0 <= j < out@.len() ==> enc.alts_of(vertices@).contains(#[trigger] out@[j]),
        decreases order@.len() - i,
    {
        let w = order_graph_weight(&g, order[i]);
        proof { assert(enc.alts_of(vertices@)[order@[i as int] as int] == w); }
        out.push(w);
        proof {
            assert(order@.take(i + 1).map_values(|j: usize| enc.alts_of(vertices@)[j as int])
                =~= order@.take(i as int).map_values(|j: usize| enc.alts_of(vertices@)[j as int]).push(w));
        }
        i = i + 1;
    }
    proof {
        assert(order@.take(order@.len() as int) =~= order@);
        assert(is_topological_order(order@, vertices@.len(), position_edges(vertices@, edges@)));
    }
    Some(out)
}

/// One of `groups` is named `name`.
spec fn has_group(groups: Seq<(String, Vec<(usize, usize)>)>, name: Seq<char>) -> bool {
    exists|g: int| 0 <= g < groups.len() && (#[trigger] groups[g]).0@ == name
}

/// Whether an alternative of `reqs` is on the resource `name`.
spec fn on_resource(reqs: Seq<Seq<ReservationRequestAlternative>>, name: Seq<char>) -> spec_fn((usize, usize)) -> bool {
    |x: (usize, usize)| resource_of(reqs, x) == name
}

/// The alternatives of `order`, by resource name, in order; resources in the
/// order they first appear.
fn group_by_resource(problem: &Problem, order: &Vec<(usize, usize)>) -> (r: Vec<(String, Vec<(usize, usize)>)>)
    requires
        forall|i: int| 0 <= i < order@.len() ==> is_alternative(problem_requests(problem), #[trigger] order@[i]),
    ensures
        forall|a: int, b: int| 0 <= a < b < r@.len() ==> r@[a].0@ != r@[b].0@,
        forall|g: int, j: int| 0 <= g < r@.len() && 0 <= j < r@[g].1@.len() ==>
            order@.contains(#[trigger] r@[g].1@[j]) && resource_of(problem_requests(problem), r@[g].1@[j]) == r@[g].0@,
        forall|g: int| 0 <= g < r@.len() ==> (#[trigger] r@[g]).1@ == order@.filter(on_resource(problem_requests(problem), r@[g].0@)),
        forall|i: int| 0 <= i < order@.len() ==> has_group(r@, resource_of(problem_requests(problem), #[trigger] order@[i])),
{
    let ghost reqs = problem_requests(problem);
    let mut groups: Vec<(String, Vec<(usize, usize)>)> = Vec::new();
    let mut i: usize = 0;
    while i < order.len()
        invariant
            forall|g: int| 0 <= g < groups@.len() ==> (#[trigger] groups@[g]).1@ == order@.take(i as int).filter(on_resource(reqs, groups@[g].0@)),
            forall|i2: int| 0 <= i2 < i ==> has_group(groups@, resource_of(reqs, #[trigger] order@[i2])),
            reqs == problem_requests(problem),
            forall|i2: int| 0 <= i2 < order@.len() ==> is_alternative(reqs, #[trigger] order@[i2]),
            i <= order@.len(),
            forall|a: int, b: int| 0 <= a < b < groups@.len() ==> groups@[a].0@ != groups@[b].0@,
            forall|g: int, j: int| 0 <= g < groups@.len() && 0 <= j < groups@[g].1@.len() ==>
                order@.contains(#[trigger] groups@[g].1@[j]) && resource_of(reqs, groups@[g].1@[j]) == groups@[g].0@,
        decreases order@.len() - i,
    {
        let x = order[i];
        proof { assert(is_alternative(reqs, order@[i as int])); }
        let name = &problem.requests[x.0][x.1].parameters.resource_name;
        let mut g: usize = 0;
        let mut found = false;
        while g < groups.len()
            invariant_except_break
                !found,
            invariant
                g <= groups@.len(),
                forall|g2: int| 0 <= g2 < g ==> groups@[g2].0@ != name@,
            ensures
                found ==> g < groups@.len() && groups@[g as int].0@ == name@,
                !found ==> forall|g2: int| 0 <= g2 < groups@.len() ==> groups@[g2].0@ != name@,
            decreases groups@.len() - g,
        {
            if groups[g].0 == *name {
                found = true;
                break;
            }
            g = g + 1;
        }
        let ghost before = groups@;
        proof {
            assert(order@.take(i + 1) =~= order@.take(i as int).push(x));
            assert forall|g2: int| 0 <= g2 < before.len() implies
                order@.take(i + 1).filter(on_resource(reqs, (#[trigger] before[g2]).0@))
                    == if before[g2].0@ == name@ { order@.take(i as int).filter(on_resource(reqs, before[g2].0@)).push(x) }
                       else { order@.take(i as int).filter(on_resource(reqs, before[g2].0@)) } by {
                order@.take(i as int).lemma_filter_push(x, on_resource(reqs, before[g2].0@));
            }
            order@.take(i as int).lemma_filter_push(x, on_resource(reqs, name@));
            if !found {
                let pre = order@.take(i as int);
                assert forall|k: int| 0 <= k < pre.len() implies !on_resource(reqs, name@)(#[trigger] pre[k]) by {
                    assert(pre[k] == order@[k]);
                    assert(has_group(groups@, resource_of(reqs, order@[k])));
                }
                assert(pre.all(|y: (usize, usize)| !on_resource(reqs, name@)(y)));
                pre.lemma_all_neg_filter_empty(on_resource(reqs, name@));
                assert(pre.filter(on_resource(reqs, name@)) =~= Seq::<(usize, usize)>::empty());
            }
        }
        if found {
            let mut entry = (String::new(), Vec::new());
            std::mem::swap(&mut entry, &mut groups[g]);
            assert(entry == before[g as int]);
            entry.1.push(x);
            groups.set(g, entry);
            proof {
                assert forall|g2: int, j: int| 0 <= g2 < groups@.len() && 0 <= j < groups@[g2].1@.len() implies
                    order@.contains(#[trigger] groups@[g2].1@[j]) && resource_of(reqs, groups@[g2].1@[j]) == groups@[g2].0@ by {
                    if g2 == g {
                        if j == groups@[g2].1@.len() - 1 { assert(order@[i as int] == x); } else { assert(groups@[g2].1@[j] == before[g2].1@[j]); }
                    } else {
                        assert(groups@[g2] == before[g2]);
                    }
                }
                assert forall|a: int, b: int| 0 <= a < b < groups@.len() implies groups@[a].0@ != groups@[b].0@ by {
                    assert(groups@[a].0@ == before[a].0@);
                    assert(groups@[b].0@ == before[b].0@);
                }
                assert forall|g2: int| 0 <= g2 < groups@.len() implies (#[trigger] groups@[g2]).1@ == order@.take(i + 1).filter(on_resource(reqs, groups@[g2].0@)) by {
                    assert(groups@[g2].0@ == before[g2].0@);
                    if g2 != g { assert(groups@[g2] == before[g2]); }
                }
                assert forall|i2: int| 0 <= i2 < i + 1 implies has_group(groups@, resource_of(reqs, #[trigger] order@[i2])) by {
                    if i2 == i {
                        assert(groups@[g as int].0@ == resource_of(reqs, order@[i2]));
                    } else {
                        assert(has_group(before, resource_of(reqs, order@[i2])));
                        let g3 = choose|g3: int| 0 <= g3 < before.len() && (#[trigger] before[g3]).0@ == resource_of(reqs, order@[i2]);
                        assert(groups@[g3].0@ == before[g3].0@);
                    }
                }
            }
        } else {
            groups.push((name.clone(), vec![x]));
            proof {
                assert forall|a: int, b: int| 0 <= a < b < groups@.len() implies groups@[a].0@ != groups@[b].0@ by {
                    if b == before.len() { assert(groups@[a] == before[a]); } else { assert(groups@[a] == before[a] && groups@[b] == before[b]); }
                }
                assert forall|g2: int, j: int| 0 <= g2 < groups@.len() && 0 <= j < groups@[g2].1@.len() implies
                    order@.contains(#[trigger] groups@[g2].1@[j]) && resource_of(reqs, groups@[g2].1@[j]) == groups@[g2].0@ by {
                    if g2 == before.len() { assert(order@[i as int] == x); } else { assert(groups@[g2] == before[g2]); }
                }
                assert forall|g2: int| 0 <= g2 < groups@.len() implies (#[trigger] groups@[g2]).1@ == order@.take(i + 1).filter(on_resource(reqs, groups@[g2].0@)) by {
                    if g2 == before.len() {
                        assert(groups@[g2].1@ =~= Seq::<(usize, usize)>::empty().push(x));
                    } else { assert(groups@[g2] == before[g2]); }
                }
                assert forall|i2: int| 0 <= i2 < i + 1 implies has_group(groups@, resource_of(reqs, #[trigger] order@[i2])) by {
                    if i2 == i {
                        assert(groups@[before.len() as int].0@ == resource_of(reqs, order@[i2]));
                    } else {
                        assert(has_group(before, resource_of(reqs, order@[i2])));
                        let g3 = choose|g3: int| 0 <= g3 < before.len() && (#[trigger] before[g3]).0@ == resource_of(reqs, order@[i2]);
                        assert(groups@[g3] == before[g3]);
                    }
                }
            }
        }
        i = i + 1;
    }
    proof { assert(order@.take(order@.len() as int) =~= order@); }
    groups
}

/// An alternative of the granted vertices is an alternative whose option
/// variable is true in the model.
proof fn lemma_granted(enc: &FlexibleEncoding, reqs: Seq<Seq<ReservationRequestAlternative>>, vertices: Seq<usize>,
    model: Seq<(usize, bool)>, x: (usize, usize))
    requires
        enc.wf(reqs),
        forall|t: int| 0 <= t < vertices.len() ==> #[trigger] vertices[t] < enc.n() && model.contains((vertices[t], true)),
        enc.alts_of(vertices).contains(x),
    ensures
        is_alternative(reqs, x),
        enc.var_of@[x.0 as int]@[x.1 as int] < enc.n(),
        model.contains((enc.var_of@[x.0 as int]@[x.1 as int], true)),
{
    let t = choose|t: int| 0 <= t < enc.alts_of(vertices).len() && enc.alts_of(vertices)[t] == x;
    let v = vertices[t];
    assert(v < enc.n() && model.contains((v, true)));
    assert(enc.options@[v as int] == x);
    assert(is_alternative(reqs, enc.options@[v as int]));
}

/// `model` grants alternative `a` of request `q`.
pub(crate) open spec fn granted(enc: &FlexibleEncoding, m: Seq<(usize, bool)>, q: int, a: int) -> bool {
    m.contains((enc.var_of@[q]@[a], true))
}

/// `model` grants exactly one alternative of every request.
pub(crate) open spec fn one_per_request(enc: &FlexibleEncoding, reqs: Seq<Seq<ReservationRequestAlternative>>, m: Seq<(usize, bool)>) -> bool {
    forall|q: int| #![trigger reqs[q]] 0 <= q < reqs.len() ==> {
        &&& exists|a: int| 0 <= a < reqs[q].len() && #[trigger] granted(enc, m, q, a)
        &&& forall|a1: int, a2: int| 0 <= a1 < reqs[q].len() && 0 <= a2 < reqs[q].len()
                && #[trigger] granted(enc, m, q, a1) && #[trigger] granted(enc, m, q, a2) ==> a1 == a2
    }
}

/// A model of clauses asking for exactly one alternative per request grants
/// exactly one per request.
proof fn lemma_model_one_per_request(enc: &FlexibleEncoding, reqs: Seq<Seq<ReservationRequestAlternative>>,
    m: Seq<(usize, bool)>, cs: Seq<Seq<(usize, bool)>>)
    requires
        enc.wf(reqs),
        grants_one(enc, reqs, cs),
        is_model_of(m, cs),
    ensures
        one_per_request(enc, reqs, m),
{
    assert forall|q: int| #![trigger reqs[q]] 0 <= q < reqs.len() implies {
        &&& exists|a: int| 0 <= a < reqs[q].len() && #[trigger] granted(enc, m, q, a)
        &&& forall|a1: int, a2: int| 0 <= a1 < reqs[q].len() && 0 <= a2 < reqs[q].len()
                && #[trigger] granted(enc, m, q, a1) && #[trigger] granted(enc, m, q, a2) ==> a1 == a2
    } by {
        let c = one_of_clause(enc, q);
        assert(cs.contains(c));
        let k = choose|k: int| 0 <= k < cs.len() && cs[k] == c;
        assert(crate::sat_backend::clause_holds(m, cs[k]));
        let i = choose|i: int| 0 <= i < c.len() && m.contains(#[trigger] c[i]);
        assert(granted(enc, m, q, i));
        assert forall|a1: int, a2: int| 0 <= a1 < reqs[q].len() && 0 <= a2 < reqs[q].len()
            && #[trigger] granted(enc, m, q, a1) && #[trigger] granted(enc, m, q, a2) implies a1 == a2 by {
            if a1 != a2 {
                let (b1, b2) = if a1 < a2 { (a1, a2) } else { (a2, a1) };
                let d = not_both_clause(enc, q, b1, b2);
                assert(cs.contains(d));
                let k2 = choose|k2: int| 0 <= k2 < cs.len() && cs[k2] == d;
                assert(crate::sat_backend::clause_holds(m, cs[k2]));
                let i2 = choose|i2: int| 0 <= i2 < d.len() && m.contains(#[trigger] d[i2]);
                let v = d[i2].0;
                let x = choose|x: int| 0 <= x < m.len() && m[x] == d[i2];
                let y = choose|y: int| 0 <= y < m.len() && m[y] == (v, true);
                assert(m[x].0 == m[y].0);
            }
        }
    }
}

proof fn lemma_model_vertices_contains(m: Seq<(usize, bool)>, n: nat, v: usize)
    requires
        m.contains((v, true)),
        v < n,
    ensures
        model_vertices(m, n).contains(v),
    decreases m.len(),
{
    if m.last() == (v, true) {
        assert(model_vertices(m, n) == model_vertices(m.drop_last(), n).push(v));
        assert(model_vertices(m, n)[model_vertices(m, n).len() - 1] == v);
    } else {
        let i = choose|i: int| 0 <= i < m.len() && m[i] == (v, true);
        assert(m.drop_last()[i] == m[i]);
        lemma_model_vertices_contains(m.drop_last(), n, v);
        let rest = model_vertices(m.drop_last(), n);
        let t = choose|t: int| 0 <= t < rest.len() && rest[t] == v;
        let (w, b) = m.last();
        if b && w < n {
            assert(model_vertices(m, n)[t] == v);
        }
    }
}

/// A sequence of `n` distinct numbers below `n` holds each of them.
proof fn lemma_perm_covers(o: Seq<usize>, n: nat, t: int)
    requires
        o.len() == n,
        o.no_duplicates(),
        forall|i: int| 0 <= i < o.len() ==> #[trigger] o[i] < n,
        0 <= t < n,
    ensures
        exists|k: int| 0 <= k < o.len() && o[k] == t,
{
    let o2 = o.map_values(|x: usize| x as int);
    assert(o2.no_duplicates()) by {
        assert forall|i: int, j: int| 0 <= i < o2.len() && 0 <= j < o2.len() && i != j implies o2[i] != o2[j] by {
            assert(o[i] != o[j]);
        }
    }
    o2.unique_seq_to_set();
    vstd::set_lib::lemma_int_range(0, n as int);
    vstd::seq_lib::seq_to_set_is_finite(o2);
    assert(o2.to_set().subset_of(vstd::set_lib::set_int_range(0, n as int))) by {
        assert forall|x: int| o2.to_set().contains(x) implies vstd::set_lib::set_int_range(0, n as int).contains(x) by {
            let i = choose|i: int| 0 <= i < o2.len() && o2[i] == x;
            assert(o[i] < n);
        }
    }
    vstd::set_lib::lemma_subset_equality(o2.to_set(), vstd::set_lib::set_int_range(0, n as int));
    assert(vstd::set_lib::set_int_range(0, n as int).contains(t));
    assert(o2.to_set().contains(t));
    let k = choose|k: int| 0 <= k < o2.len() && o2[k] == t;
    assert(o[k] == t);
}

/// Every alternative of `alts` has a duration of magnitude at most `b`, and
/// `now` and their earliest starts lie at least `alts.len() * b` inside the
/// limits of an `i64`.
spec fn bounded_by(reqs: Seq<Seq<ReservationRequestAlternative>>, alts: Seq<(usize, usize)>, now: i64, b: int) -> bool {
    let m = alts.len() * b;
    &&& 0 <= b
    &&& i64::MIN + m <= now <= i64::MAX - m
    &&& forall|j: int| 0 <= j < alts.len() ==> {
        &&& duration_of(reqs, #[trigger] alts[j]) matches Some(d) && -b <= d <= b
        &&& (reqs[alts[j].0 as int][alts[j].1 as int].parameters.start_time.earliest_start matches Some(e)
                ==> i64::MIN + m <= e <= i64::MAX - m)
    }
}

/// The alternatives that `model` grants have durations, and no time computed
/// while packing them can leave an `i64`.
spec fn decode_fits(enc: &FlexibleEncoding, reqs: Seq<Seq<ReservationRequestAlternative>>, model: Seq<(usize, bool)>, now: i64) -> bool {
    exists|b: int| #[trigger] bounded_by(reqs, enc.alts_of(model_vertices(model, enc.n())), now, b)
}

/// The packing span of alternatives with durations of magnitude at most `b`.
proof fn lemma_span_bounded(reqs: Seq<Seq<ReservationRequestAlternative>>, sched: Seq<(usize, usize)>, i: int, b: int)
    requires
        0 <= i <= sched.len(),
        0 <= b,
        forall|j: int| 0 <= j < sched.len() ==> (duration_of(reqs, #[trigger] sched[j]) matches Some(d) && -b <= d <= b),
    ensures
        0 <= duration_span(reqs, sched, i) <= i * b,
    decreases i,
{
    if i > 0 {
        lemma_span_bounded(reqs, sched, i - 1, b);
        assert(duration_of(reqs, sched[i - 1]) matches Some(d) && -b <= d <= b);
        assert((i - 1) * b + b == i * b) by (nonlinear_arith);
    }
}

/// The outcome of one round on `model`: the schedule packed along the order
/// the model proposes, whether every alternative fitted, and the clauses
/// learned from those that did not. `None` when no order exists or the
/// packing gave up.
fn decode_round(enc: &FlexibleEncoding, problem: &Problem, model: &Vec<(usize, bool)>, now: i64)
    -> (r: Option<(ResourceSchedules, bool, Vec<Vec<usize>>)>)
    requires
        enc.wf(problem_requests(problem)),
        one_per_request(enc, problem_requests(problem), model@),
    ensures
        r matches Some(res) ==> (res.1 ==> one_alternative_each(problem_requests(problem), res.0@)),
        r matches Some(res) ==> {
            let (s, ok, learned) = res;
            &&& packed_schedule(problem_requests(problem), s@, now as int)
            &&& !ok ==> learned@.len() > 0
            &&& forall|k: int, t: int| 0 <= k < learned@.len() && 0 <= t < learned@[k]@.len() ==>
                    #[trigger] learned@[k]@[t] < enc.n() && model@.contains((learned@[k]@[t], true))
            &&& forall|g: int, i: int| 0 <= g < s@.len() && 0 <= i < s@[g].1.len() ==>
                    enc.var_of@[(#[trigger] s@[g].1[i]).id.0 as int]@[s@[g].1[i].id.1 as int] < enc.n()
                    && model@.contains((enc.var_of@[s@[g].1[i].id.0 as int]@[s@[g].1[i].id.1 as int], true))
        },
        r is None ==> {
            let vs = model_vertices(model@, enc.n());
            let es = model_edges(model@, enc.n(), enc.order_pairs@);
            ||| vs.len() >= GRAPH_CAPACITY
            ||| es.len() >= GRAPH_CAPACITY
            ||| !exists|order: Seq<usize>| #[trigger] is_topological_order(order, vs.len(), position_edges(vs, es))
            ||| !decode_fits(enc, problem_requests(problem), model@, now)
        },
{
    let ghost reqs = problem_requests(problem);
    let (vertices, edges) = read_model(enc, Ghost(reqs), model);
    let order = match order_alternatives(enc, Ghost(reqs), &vertices, &edges) {
        Some(o) => o,
        None => { return None; },
    };
    proof {
        assert forall|i: int| 0 <= i < order@.len() implies is_alternative(reqs, #[trigger] order@[i]) by {
            lemma_granted(enc, reqs, vertices@, model@, order@[i]);
        }
    }
    proof {
        let o = choose|o: Seq<usize>| #[trigger] is_topological_order(o, vertices@.len(), position_edges(vertices@, edges@))
            && order@ == o.map_values(|i: usize| enc.alts_of(vertices@)[i as int]);
        assert(order@.len() == vertices@.len());
        assert forall|q: int, a: int| 0 <= q < reqs.len() && 0 <= a < reqs[q].len() && #[trigger] granted(enc, model@, q, a)
            implies order@.contains((q as usize, a as usize)) by {
            let v = enc.var_of@[q]@[a];
            lemma_model_vertices_contains(model@, enc.n(), v);
            let t = choose|t: int| 0 <= t < vertices@.len() && vertices@[t] == v;
            lemma_perm_covers(o, vertices@.len(), t);
            let k = choose|k: int| 0 <= k < o.len() && o[k] == t;
            assert(enc.alts_of(vertices@)[t] == (q as usize, a as usize));
            assert(order@[k] == (q as usize, a as usize));
        }
    }
    let groups = group_by_resource(problem, &order);
    let mut sched = ResourceSchedules::new();
    let mut learned: Vec<Vec<usize>> = Vec::new();
    let mut ok = true;
    let mut g: usize = 0;
    while g < groups.len()
        invariant
            reqs == problem_requests(problem),
            enc.wf(reqs),
            forall|t: int| 0 <= t < vertices@.len() ==> #[trigger] vertices@[t] < enc.n() && model@.contains((vertices@[t], true)),
            forall|i: int| 0 <= i < order@.len() ==> enc.alts_of(vertices@).contains(#[trigger] order@[i]),
            vertices@ == model_vertices(model@, enc.n()),
            order@.len() == vertices@.len(),
            one_per_request(enc, reqs, model@),
            forall|q: int, a: int| 0 <= q < reqs.len() && 0 <= a < reqs[q].len() && #[trigger] granted(enc, model@, q, a)
                ==> order@.contains((q as usize, a as usize)),
            forall|i: int| 0 <= i < order@.len() ==> has_group(groups@, resource_of(reqs, #[trigger] order@[i])),
            ok ==> forall|g2: int| 0 <= g2 < g ==> #[trigger] placed_all(reqs, groups@[g2].1@, sched@[g2].1),
            forall|g2: int| 0 <= g2 < groups@.len() ==> (#[trigger] groups@[g2]).1@ == order@.filter(on_resource(reqs, groups@[g2].0@)),
            forall|a: int, b: int| 0 <= a < b < groups@.len() ==> groups@[a].0@ != groups@[b].0@,
            forall|g2: int, j: int| 0 <= g2 < groups@.len() && 0 <= j < groups@[g2].1@.len() ==>
                order@.contains(#[trigger] groups@[g2].1@[j]) && resource_of(reqs, groups@[g2].1@[j]) == groups@[g2].0@,
            g <= groups@.len(),
            sched@.len() == g,
            forall|g2: int| 0 <= g2 < g ==> (#[trigger] sched@[g2]).0 == groups@[g2].0@,
            packed_schedule(reqs, sched@, now as int),
            !ok ==> learned@.len() > 0,
            forall|k: int, t: int| 0 <= k < learned@.len() && 0 <= t < learned@[k]@.len() ==>
                #[trigger] learned@[k]@[t] < enc.n() && model@.contains((learned@[k]@[t], true)),
            forall|g2: int, i: int| 0 <= g2 < sched@.len() && 0 <= i < sched@[g2].1.len() ==>
                enc.var_of@[(#[trigger] sched@[g2].1[i]).id.0 as int]@[sched@[g2].1[i].id.1 as int] < enc.n()
                && model@.contains((enc.var_of@[sched@[g2].1[i].id.0 as int]@[sched@[g2].1[i].id.1 as int], true)),
        decreases groups@.len() - g,
    {
        let list = &groups[g].1;
        proof {
            assert forall|j: int| 0 <= j < list@.len() implies is_alternative(reqs, #[trigger] list@[j]) by {
                assert(order@.contains(groups@[g as int].1@[j]));
                let i = choose|i: int| 0 <= i < order@.len() && order@[i] == list@[j];
                lemma_granted(enc, reqs, vertices@, model@, list@[j]);
            }
        }
        proof {
            if decode_fits(enc, reqs, model@, now) {
                let alts = enc.alts_of(vertices@);
                assert(alts == enc.alts_of(model_vertices(model@, enc.n())));
                let b = choose|b: int| #[trigger] bounded_by(reqs, enc.alts_of(model_vertices(model@, enc.n())), now, b);
                assert(bounded_by(reqs, alts, now, b));
                assert(list@ == groups@[g as int].1@);
                assert(list@ == order@.filter(on_resource(reqs, groups@[g as int].0@)));
                order@.lemma_filter_len(on_resource(reqs, groups@[g as int].0@));
                assert forall|j: int| 0 <= j < list@.len() implies
                    (duration_of(reqs, #[trigger] list@[j]) matches Some(d) && -b <= d <= b)
                    && (reqs[list@[j].0 as int][list@[j].1 as int].parameters.start_time.earliest_start matches Some(e)
                        ==> i64::MIN + alts.len() * b <= e <= i64::MAX - alts.len() * b) by {
                    assert(order@.contains(groups@[g as int].1@[j]));
                    let i = choose|i: int| 0 <= i < order@.len() && order@[i] == list@[j];
                    assert(alts.contains(order@[i]));
                    let t = choose|t: int| 0 <= t < alts.len() && alts[t] == order@[i];
                    assert(bounded_by(reqs, alts, now, b));
                    assert(duration_of(reqs, alts[t]) matches Some(d) && -b <= d <= b);
                }
                lemma_span_bounded(reqs, list@, list@.len() as int, b);
                assert(order@.len() == alts.len());
                assert(list@.len() * b <= alts.len() * b) by (nonlinear_arith)
                    requires list@.len() <= alts.len(), 0 <= b;
                assert(open_ended_last(reqs, list@));
                assert(pack_fits(reqs, list@, now));
            }
        }
        let (out, ok_r, learned_r) = match pack_resource(enc, problem, list, now) {
            Some(res) => res,
            None => { return None; },
        };
        proof {
            assert forall|i: int| 0 <= i < sched@.len() implies sched@[i].0 != groups@[g as int].0@ by {
                assert(sched@[i].0 == groups@[i].0@);
            }
        }
        let ghost sched_before = sched@;
        let name = groups[g].0.clone();
        sched.push_resource(name, out);
        proof {
            assert forall|j: int| 0 <= j < list@.len() implies enc.var_of@[list@[j].0 as int]@[list@[j].1 as int] < enc.n()
                && model@.contains((enc.var_of@[list@[j].0 as int]@[list@[j].1 as int], true)) by {
                assert(order@.contains(groups@[g as int].1@[j]));
                let i = choose|i: int| 0 <= i < order@.len() && order@[i] == list@[j];
                lemma_granted(enc, reqs, vertices@, model@, list@[j]);
            }
            assert forall|g2: int| 0 <= g2 < sched@.len() implies {
                &&& packed_from(reqs, (#[trigger] sched@[g2]).1, now as int)
                &&& forall|i: int| 0 <= i < sched@[g2].1.len() ==> resource_of(reqs, #[trigger] sched@[g2].1[i].id) == sched@[g2].0
            } by {
                if g2 < g {
                    assert(sched@[g2] == sched_before[g2]);
                } else {
                    assert forall|i: int| 0 <= i < sched@[g2].1.len() implies resource_of(reqs, #[trigger] sched@[g2].1[i].id) == sched@[g2].0 by {
                        assert(list@.contains(out@[i].id));
                        let j = choose|j: int| 0 <= j < list@.len() && list@[j] == out@[i].id;
                        assert(groups@[g as int].1@[j] == out@[i].id);
                    }
                }
            }
            assert forall|g2: int, i: int| 0 <= g2 < sched@.len() && 0 <= i < sched@[g2].1.len() implies
                enc.var_of@[(#[trigger] sched@[g2].1[i]).id.0 as int]@[sched@[g2].1[i].id.1 as int] < enc.n()
                && model@.contains((enc.var_of@[sched@[g2].1[i].id.0 as int]@[sched@[g2].1[i].id.1 as int], true)) by {
                if g2 < g {
                    assert(sched@[g2] == sched_before[g2]);
                } else {
                    assert(list@.contains(out@[i].id));
                    let j = choose|j: int| 0 <= j < list@.len() && list@[j] == out@[i].id;
                    assert(list@[j] == sched@[g2].1[i].id);
                }
            }
        }
        let mut k: usize = 0;
        while k < learned_r.len()
            invariant
                enc.wf(reqs),
                forall|j: int| 0 <= j < list@.len() ==> enc.var_of@[(#[trigger] list@[j]).0 as int]@[list@[j].1 as int] < enc.n()
                    && model@.contains((enc.var_of@[list@[j].0 as int]@[list@[j].1 as int], true)),
                forall|k2: int, t: int| 0 <= k2 < learned_r@.len() && 0 <= t < learned_r@[k2]@.len() ==>
                    enc.vars_of_entries(list@).contains(#[trigger] learned_r@[k2]@[t]),
                k <= learned_r@.len(),
                (!ok || !ok_r) ==> learned@.len() > 0 || (k == 0 && learned_r@.len() > 0),
                k > 0 ==> learned@.len() > 0,
                forall|k2: int, t: int| 0 <= k2 < learned@.len() && 0 <= t < learned@[k2]@.len() ==>
                    #[trigger] learned@[k2]@[t] < enc.n() && model@.contains((learned@[k2]@[t], true)),
            decreases learned_r@.len() - k,
        {
            let ghost before_learned = learned@;
            let c = learned_r[k].clone();
            proof {
                assert(c@ == learned_r@[k as int]@);
                assert forall|t: int| 0 <= t < c@.len() implies #[trigger] c@[t] < enc.n() && model@.contains((c@[t], true)) by {
                    assert(enc.vars_of_entries(list@).contains(learned_r@[k as int]@[t]));
                    let j = choose|j: int| 0 <= j < list@.len() && c@[t] == #[trigger] enc.var_of@[list@[j].0 as int]@[list@[j].1 as int];
                }
            }
            learned.push(c);
            proof {
                assert forall|k2: int, t: int| 0 <= k2 < learned@.len() && 0 <= t < learned@[k2]@.len() implies
                    #[trigger] learned@[k2]@[t] < enc.n() && model@.contains((learned@[k2]@[t], true)) by {
                    if k2 < before_learned.len() { assert(learned@[k2] == before_learned[k2]); }
                }
            }
            k = k + 1;
        }
        proof {
            if ok && ok_r {
                assert forall|g2: int| 0 <= g2 < g + 1 implies #[trigger] placed_all(reqs, groups@[g2].1@, sched@[g2].1) by {
                    if g2 == g {
                        assert(sched@[g2].1 == out@);
                    } else {
                        assert(sched@[g2] == sched_before[g2]);
                    }
                }
            }
        }
        ok = ok && ok_r;
        g = g + 1;
    }
    proof {
        if ok {
            assert forall|q: int| 0 <= q < reqs.len() implies #[trigger] crate::algorithms::sat_flexible_time_model::checks::has_choice(reqs, sched@, q) by {
                let a = choose|a: int| 0 <= a < reqs[q].len() && #[trigger] granted(enc, model@, q, a);
                let x = (q as usize, a as usize);
                assert(reqs[q][a] == reqs[q][a]);
                if packable(reqs, x) {
                    assert(order@.contains(x));
                    let k = choose|k: int| 0 <= k < order@.len() && order@[k] == x;
                    assert(has_group(groups@, resource_of(reqs, order@[k])));
                    let g3 = choose|g3: int| 0 <= g3 < groups@.len() && (#[trigger] groups@[g3]).0@ == resource_of(reqs, order@[k]);
                    order@.lemma_filter_contains(on_resource(reqs, groups@[g3].0@), k);
                    assert(groups@[g3].1@.contains(x));
                    let j = choose|j: int| 0 <= j < groups@[g3].1@.len() && groups@[g3].1@[j] == x;
                    assert(placed_all(reqs, groups@[g3].1@, sched@[g3].1));
                    assert(packable(reqs, groups@[g3].1@[j]));
                    let k2 = choose|k2: int| 0 <= k2 < sched@[g3].1.len() && sched@[g3].1[k2].id == groups@[g3].1@[j];
                    assert(sched@[g3].1[k2].id == x);
                    assert(has_assignment(sched@, x));
                }
                assert(packable(reqs, x) ==> has_assignment(sched@, x));
                assert forall|a2: int| #![trigger has_assignment(sched@, (q as usize, a2 as usize))]
                    0 <= a2 < reqs[q].len() && has_assignment(sched@, (q as usize, a2 as usize)) implies a2 == a by {
                    let (r2, i2) = choose|r2: int, i2: int| 0 <= r2 < sched@.len() && 0 <= i2 < sched@[r2].1.len()
                        && (#[trigger] sched@[r2].1[i2]).id == (q as usize, a2 as usize);
                    assert(model@.contains((enc.var_of@[sched@[r2].1[i2].id.0 as int]@[sched@[r2].1[i2].id.1 as int], true)));
                    assert(granted(enc, model@, q, a2));
                }
                assert(0 <= a < reqs[q].len());
                assert(chosen_alternative(reqs, sched@, q, a));
            }
            assert(one_alternative_each(reqs, sched@));
        }
    }
    Some((sched, ok, learned))
}

/// Why no schedule came out.
#[derive(Debug, Clone, Copy, PartialEq, Eq)]
pub enum FlexibleSatError {
    /// A stop was requested.
    TimedOut,
    /// No schedule was found.
    NoSolution,
}

/// The option variables among `0..n` that are true in `m`.
pub open spec fn positive_set(m: Seq<(usize, bool)>, n: nat) -> Set<int> {
    Set::new(|v: int| 0 <= v < n && m.contains((v as usize, true)))
}

/// The clause "not all of `b`".
pub open spec fn neg_clause(b: Seq<usize>) -> Seq<(usize, bool)> {
    b.map_values(|v: usize| (v, false))
}

/// The members of `b`.
pub open spec fn as_int_set(b: Seq<usize>) -> Set<int> {
    Set::new(|x: int| exists|t: int| 0 <= t < b.len() && b[t] as int == x)
}

/// The sets excluded by the learned clauses `learned`.
pub open spec fn excluded_sets(learned: Seq<Seq<usize>>) -> Seq<Set<int>> {
    learned.map_values(|b: Seq<usize>| as_int_set(b))
}

/// A model of clauses holding "not all of `b`" does not make all of `b` true.
proof fn lemma_model_avoids(m: Seq<(usize, bool)>, cs: Seq<Seq<(usize, bool)>>, b: Seq<usize>, n: nat)
    requires
        is_model_of(m, cs),
        cs.contains(neg_clause(b)),
    ensures
        !as_int_set(b).subset_of(positive_set(m, n)),
{
    let k = choose|k: int| 0 <= k < cs.len() && cs[k] == neg_clause(b);
    assert(crate::sat_backend::clause_holds(m, cs[k]));
    let i = choose|i: int| 0 <= i < neg_clause(b).len() && m.contains(#[trigger] neg_clause(b)[i]);
    let v = b[i];
    assert(neg_clause(b)[i] == (v, false));
    if as_int_set(b).subset_of(positive_set(m, n)) {
        assert(as_int_set(b).contains(v as int));
        assert(positive_set(m, n).contains(v as int));
        assert(m.contains((v, true)));
        let j1 = choose|j: int| 0 <= j < m.len() && m[j] == (v, true);
        let j2 = choose|j: int| 0 <= j < m.len() && m[j] == (v, false);
        assert(m[j1].0 == m[j2].0);
    }
}

/// The clause "not all of `b`" as solver literals.
fn neg_lits(b: &Vec<usize>) -> (r: Vec<(usize, bool)>)
    ensures
        r@ == neg_clause(b@),
{
    let mut out: Vec<(usize, bool)> = Vec::new();
    let mut i: usize = 0;
    while i < b.len()
        invariant
            i <= b@.len(),
            out@ == neg_clause(b@.take(i as int)),
        decreases b@.len() - i,
    {
        out.push((b[i], false));
        proof { assert(out@ =~= neg_clause(b@.take(i + 1))); }
        i = i + 1;
    }
    proof { assert(b@.take(b@.len() as int) =~= b@); }
    out
}

/// Adds the clauses "not all of `b`" for each learned `b`.
fn add_learned(s: &mut Solver<'static>, learned: &Vec<Vec<usize>>, n: usize, Ghost(known): Ghost<Seq<Seq<usize>>>)
    requires
        sat_usable(*old(s)),
        n <= MAX_SAT_VAR,
        forall|k: int, t: int| 0 <= k < learned@.len() && 0 <= t < learned@[k]@.len() ==> #[trigger] learned@[k]@[t] < n,
        forall|k: int| 0 <= k < known.len() ==> sat_clauses(*old(s)).contains(neg_clause(#[trigger] known[k])),
    ensures
        sat_usable(*final(s)),
        forall|k: int| 0 <= k < known.len() ==> sat_clauses(*final(s)).contains(neg_clause(#[trigger] known[k])),
        forall|k: int| 0 <= k < learned@.len() ==> sat_clauses(*final(s)).contains(neg_clause(#[trigger] learned@[k]@)),
        forall|c: Seq<(usize, bool)>| sat_clauses(*old(s)).contains(c) ==> #[trigger] sat_clauses(*final(s)).contains(c),
{
    let mut i: usize = 0;
    while i < learned.len()
        invariant
            forall|c: Seq<(usize, bool)>| sat_clauses(*old(s)).contains(c) ==> #[trigger] sat_clauses(*s).contains(c),
            sat_usable(*s),
            n <= MAX_SAT_VAR,
            i <= learned@.len(),
            forall|k: int, t: int| 0 <= k < learned@.len() && 0 <= t < learned@[k]@.len() ==> #[trigger] learned@[k]@[t] < n,
            forall|k: int| 0 <= k < known.len() ==> sat_clauses(*s).contains(neg_clause(#[trigger] known[k])),
            forall|k: int| 0 <= k < i ==> sat_clauses(*s).contains(neg_clause(#[trigger] learned@[k]@)),
        decreases learned@.len() - i,
    {
        let c = neg_lits(&learned[i]);
        proof {
            assert forall|t: int| 0 <= t < c@.len() implies #[trigger] c@[t].0 <= MAX_SAT_VAR by {
                assert(c@[t] == (learned@[i as int]@[t], false));
            }
        }
        let ghost before = sat_clauses(*s);
        sat_add_clause(s, &c);
        proof {
            broadcast use vstd::seq_lib::lemma_seq_contains_after_push;
            assert(sat_clauses(*s)[before.len() as int] == c@);
            assert forall|k: int| 0 <= k < known.len() implies sat_clauses(*s).contains(neg_clause(#[trigger] known[k])) by {
                let j = choose|j: int| 0 <= j < before.len() && before[j] == neg_clause(known[k]);
                assert(sat_clauses(*s)[j] == before[j]);
            }
            assert forall|k: int| 0 <= k < i + 1 implies sat_clauses(*s).contains(neg_clause(#[trigger] learned@[k]@)) by {
                if k < i {
                    let j = choose|j: int| 0 <= j < before.len() && before[j] == neg_clause(learned@[k]@);
                    assert(sat_clauses(*s)[j] == before[j]);
                }
            }
        }
        i = i + 1;
    }
}

/// Learning clauses excluding a set of granted alternatives, the first of
/// which is a subset of the model's, leaves fewer open choices.
proof fn lemma_round_progress(n: nat, known: Seq<Seq<usize>>, new: Seq<Seq<usize>>, m: Seq<(usize, bool)>, cs: Seq<Seq<(usize, bool)>>)
    requires
        is_model_of(m, cs),
        forall|k: int| 0 <= k < known.len() ==> cs.contains(neg_clause(#[trigger] known[k])),
        new.len() > 0,
        forall|t: int| 0 <= t < new[0].len() ==> #[trigger] new[0][t] < n && m.contains((new[0][t], true)),
    ensures
        open_subsets(n, excluded_sets(known + new)).len() < open_subsets(n, excluded_sets(known)).len(),
{
    let s = positive_set(m, n);
    assert(within(s, n));
    assert forall|k: int| 0 <= k < excluded_sets(known).len() implies !(#[trigger] excluded_sets(known)[k]).subset_of(s) by {
        lemma_model_avoids(m, cs, known[k], n);
    }
    assert(as_int_set(new[0]).subset_of(s)) by {
        assert forall|x: int| as_int_set(new[0]).contains(x) implies s.contains(x) by {
            let t = choose|t: int| 0 <= t < new[0].len() && new[0][t] as int == x;
            assert(m.contains((new[0][t], true)));
        }
    }
    assert(excluded_sets(known + new) =~= excluded_sets(known) + excluded_sets(new));
    assert(excluded_sets(new)[0] == as_int_set(new[0]));
    lemma_open_subsets_extend(n, excluded_sets(known), excluded_sets(new), s);
}

/// The feasibility rounds at time `now`: solve, pack the proposed order,
/// learn from what did not fit, until a packing fits or the solver runs out
/// of proposals. A stop request ends with `TimedOut`.
fn feasibility_rounds(enc: &FlexibleEncoding, problem: &Problem, now: i64, stop: &Arc<AtomicBool>)
    -> (r: Result<ResourceSchedules, FlexibleSatError>)
    requires
        enc.wf(problem_requests(problem)),
    ensures
        r matches Ok(s) ==> packed_schedule(problem_requests(problem), s@, now as int),
        r matches Ok(s) ==> one_alternative_each(problem_requests(problem), s@),
{
    let ghost reqs = problem_requests(problem);
    let n = enc.options.len();
    let mut solver = encode(enc, problem, false);
    let ghost mut known: Seq<Seq<usize>> = Seq::empty();
    loop
        invariant_except_break
            sat_usable(solver),
        invariant
            reqs == problem_requests(problem),
            enc.wf(reqs),
            n == enc.n(),
            forall|k: int| 0 <= k < known.len() ==> sat_clauses(solver).contains(neg_clause(#[trigger] known[k])),
            grants_one(enc, reqs, sat_clauses(solver)),
        decreases open_subsets(n as nat, excluded_sets(known)).len(),
    {
        if stop_requested(stop) {
            return Err(FlexibleSatError::TimedOut);
        }
        match sat_solve(&mut solver) {
            Ok(true) => {},
            _ => { break; },
        }
        let model = match sat_model(&solver) {
            Some(m) => m,
            None => { break; },
        };
        proof { lemma_model_one_per_request(enc, reqs, model@, sat_clauses(solver)); }
        let (sched, ok, learned) = match decode_round(enc, problem, &model, now) {
            Some(res) => res,
            None => { break; },
        };
        let ghost cs = sat_clauses(solver);
        add_learned(&mut solver, &learned, n, Ghost(known));
        if ok {
            return Ok(sched);
        }
        proof {
            let new = learned@.map_values(|b: Vec<usize>| b@);
            lemma_round_progress(n as nat, known, new, model@, cs);
            assert forall|k: int| 0 <= k < (known + new).len() implies sat_clauses(solver).contains(neg_clause(#[trigger] (known + new)[k])) by {
                if k >= known.len() { assert((known + new)[k] == learned@[k - known.len()]@); }
            }
            known = known + new;
        }
    }
    Err(FlexibleSatError::NoSolution)
}

/// Adds `clause`, keeping the clauses "not all of" each of `known`.
fn add_clause_keeping(s: &mut Solver<'static>, clause: Vec<(usize, bool)>, Ghost(known): Ghost<Seq<Seq<usize>>>)
    requires
        lits_in_range(clause@),
        sat_usable(*old(s)),
        forall|k: int| 0 <= k < known.len() ==> sat_clauses(*old(s)).contains(neg_clause(#[trigger] known[k])),
    ensures
        sat_usable(*final(s)),
        sat_clauses(*final(s)) == sat_clauses(*old(s)).push(clause@),
        forall|k: int| 0 <= k < known.len() ==> sat_clauses(*final(s)).contains(neg_clause(#[trigger] known[k])),
        forall|c: Seq<(usize, bool)>| sat_clauses(*old(s)).contains(c) ==> #[trigger] sat_clauses(*final(s)).contains(c),
{
    let ghost before = sat_clauses(*s);
    sat_add_clause(s, &clause);
    proof {
        broadcast use vstd::seq_lib::lemma_seq_contains_after_push;
        assert forall|k: int| 0 <= k < known.len() implies sat_clauses(*s).contains(neg_clause(#[trigger] known[k])) by {
            let j = choose|j: int| 0 <= j < before.len() && before[j] == neg_clause(known[k]);
            assert(sat_clauses(*s)[j] == before[j]);
        }
    }
}

/// The alternative of option variable `u`.
spec fn option_alt(enc: &FlexibleEncoding, reqs: Seq<Seq<ReservationRequestAlternative>>, u: usize) -> ReservationRequestAlternative {
    reqs[enc.options@[u as int].0 as int][enc.options@[u as int].1 as int]
}

/// `cs` holds the unit clause banning variable `x`.
spec fn bans(cs: Seq<Seq<(usize, bool)>>, x: usize) -> bool {
    cs.contains(seq![(x, false)])
}

/// `cs` bans `u` running before `w`.
spec fn bans_order(enc: &FlexibleEncoding, cs: Seq<Seq<(usize, bool)>>, u: usize, w: usize) -> bool {
    exists|x: usize| enc.n() <= x < enc.num_vars() && enc.order_pairs@[x - enc.n()] == (u, w) && #[trigger] bans(cs, x)
}

/// The narrowing of the options `u` and `w` of one resource to start by
/// `tw` is in `cs`: an option that cannot start that early is banned; of two
/// that can, neither runs before the other if, narrowed, it cannot be
/// scheduled after it.
spec fn shrink_pair_in(enc: &FlexibleEncoding, reqs: Seq<Seq<ReservationRequestAlternative>>, u: usize, w: usize, tw: i64,
    cs: Seq<Seq<(usize, bool)>>) -> bool {
    let su = shrunk(option_alt(enc, reqs, u), tw);
    let sw = shrunk(option_alt(enc, reqs, w), tw);
    &&& su is None ==> bans(cs, u)
    &&& sw is None ==> bans(cs, w)
    &&& match (su, sw) {
        (Some(a), Some(b)) => u != w ==> {
            &&& !spec_can_be_scheduled_after(b.parameters, a.parameters) ==> bans_order(enc, cs, u, w)
            &&& !spec_can_be_scheduled_after(a.parameters, b.parameters) ==> bans_order(enc, cs, w, u)
        },
        _ => true,
    }
}

/// Clauses kept when more are added stay in.
proof fn lemma_shrink_pair_kept(enc: &FlexibleEncoding, reqs: Seq<Seq<ReservationRequestAlternative>>, u: usize, w: usize, tw: i64,
    cs: Seq<Seq<(usize, bool)>>, c: Seq<(usize, bool)>)
    requires
        shrink_pair_in(enc, reqs, u, w, tw, cs),
    ensures
        shrink_pair_in(enc, reqs, u, w, tw, cs.push(c)),
{
    broadcast use vstd::seq_lib::lemma_seq_contains_after_push;
    if bans_order(enc, cs, u, w) {
        let x = choose|x: usize| enc.n() <= x < enc.num_vars() && enc.order_pairs@[x - enc.n()] == (u, w) && #[trigger] bans(cs, x);
        assert(bans(cs.push(c), x));
    }
    if bans_order(enc, cs, w, u) {
        let x = choose|x: usize| enc.n() <= x < enc.num_vars() && enc.order_pairs@[x - enc.n()] == (w, u) && #[trigger] bans(cs, x);
        assert(bans(cs.push(c), x));
    }
}

/// Pair `(i2, j2)` of resource `r2` comes before pair `(i, j)` of resource `r`.
spec fn pair_before(r2: int, i2: int, j2: int, r: int, i: int, j: int) -> bool {
    r2 < r || (r2 == r && i2 < i) || (r2 == r && i2 == i && j2 < j)
}

/// Every pair of options of one resource, before pair `(i, j)` of resource
/// `r`, has its narrowing in `cs`.
spec fn shrink_pairs_before(enc: &FlexibleEncoding, reqs: Seq<Seq<ReservationRequestAlternative>>, tw: i64,
    cs: Seq<Seq<(usize, bool)>>, r: int, i: int, j: int) -> bool {
    forall|r2: int, i2: int, j2: int| #![trigger enc.members@[r2]@[i2], enc.members@[r2]@[j2]]
        0 <= r2 < enc.members@.len() && 0 <= i2 < j2 < enc.members@[r2]@.len() && pair_before(r2, i2, j2, r, i, j)
        ==> shrink_pair_in(enc, reqs, enc.members@[r2]@[i2], enc.members@[r2]@[j2], tw, cs)
}

/// Adding a clause keeps the narrowings already in.
proof fn lemma_shrink_pairs_kept(enc: &FlexibleEncoding, reqs: Seq<Seq<ReservationRequestAlternative>>, tw: i64,
    cs: Seq<Seq<(usize, bool)>>, c: Seq<(usize, bool)>, r: int, i: int, j: int)
    requires
        shrink_pairs_before(enc, reqs, tw, cs, r, i, j),
    ensures
        shrink_pairs_before(enc, reqs, tw, cs.push(c), r, i, j),
{
    assert forall|r2: int, i2: int, j2: int| #![trigger enc.members@[r2]@[i2], enc.members@[r2]@[j2]]
        0 <= r2 < enc.members@.len() && 0 <= i2 < j2 < enc.members@[r2]@.len() && pair_before(r2, i2, j2, r, i, j)
        implies shrink_pair_in(enc, reqs, enc.members@[r2]@[i2], enc.members@[r2]@[j2], tw, cs.push(c)) by {
        lemma_shrink_pair_kept(enc, reqs, enc.members@[r2]@[i2], enc.members@[r2]@[j2], tw, cs, c);
    }
}

/// Adds the clauses that narrow every alternative to start by `time_window`:
/// an alternative that cannot start that early is banned, and of two that can
/// on one resource, one may not run before the other if, narrowed, it cannot
/// be scheduled after it.
fn add_shrink_clauses(s: &mut Solver<'static>, enc: &FlexibleEncoding, problem: &Problem, time_window: i64, Ghost(known): Ghost<Seq<Seq<usize>>>)
    requires
        enc.wf(problem_requests(problem)),
        sat_usable(*old(s)),
        forall|k: int| 0 <= k < known.len() ==> sat_clauses(*old(s)).contains(neg_clause(#[trigger] known[k])),
    ensures
        sat_usable(*final(s)),
        forall|k: int| 0 <= k < known.len() ==> sat_clauses(*final(s)).contains(neg_clause(#[trigger] known[k])),
        shrink_pairs_before(enc, problem_requests(problem), time_window, sat_clauses(*final(s)), enc.members@.len() as int, 0, 0),
        forall|c: Seq<(usize, bool)>| sat_clauses(*old(s)).contains(c) ==> #[trigger] sat_clauses(*final(s)).contains(c),
{
    let ghost reqs = problem_requests(problem);
    let mut r: usize = 0;
    while r < enc.members.len()
        invariant
            shrink_pairs_before(enc, reqs, time_window, sat_clauses(*s), r as int, 0, 0),
            enc.wf(reqs),
            reqs == problem_requests(problem),
            r <= enc.members@.len(),
            sat_usable(*s),
            forall|c: Seq<(usize, bool)>| sat_clauses(*old(s)).contains(c) ==> #[trigger] sat_clauses(*s).contains(c),
            forall|k: int| 0 <= k < known.len() ==> sat_clauses(*s).contains(neg_clause(#[trigger] known[k])),
        decreases enc.members@.len() - r,
    {
        let list = &enc.members[r];
        let mut i: usize = 0;
        while i < list.len()
            invariant
                shrink_pairs_before(enc, reqs, time_window, sat_clauses(*s), r as int, i as int, 0),
                enc.wf(reqs),
                reqs == problem_requests(problem),
                r < enc.members@.len(),
                list@ == enc.members@[r as int]@,
                i <= list@.len(),
                sat_usable(*s),
                forall|c: Seq<(usize, bool)>| sat_clauses(*old(s)).contains(c) ==> #[trigger] sat_clauses(*s).contains(c),
            forall|c: Seq<(usize, bool)>| sat_clauses(*old(s)).contains(c) ==> #[trigger] sat_clauses(*s).contains(c),
                forall|k: int| 0 <= k < known.len() ==> sat_clauses(*s).contains(neg_clause(#[trigger] known[k])),
            decreases list@.len() - i,
        {
            let mut j: usize = i + 1;
            while j < list.len()
                invariant
                    shrink_pairs_before(enc, reqs, time_window, sat_clauses(*s), r as int, i as int, j as int),
                    enc.wf(reqs),
                    reqs == problem_requests(problem),
                    r < enc.members@.len(),
                    list@ == enc.members@[r as int]@,
                    i < list@.len(),
                    i < j <= list@.len(),
                    sat_usable(*s),
                    forall|c: Seq<(usize, bool)>| sat_clauses(*old(s)).contains(c) ==> #[trigger] sat_clauses(*s).contains(c),
                forall|c: Seq<(usize, bool)>| sat_clauses(*old(s)).contains(c) ==> #[trigger] sat_clauses(*s).contains(c),
            forall|c: Seq<(usize, bool)>| sat_clauses(*old(s)).contains(c) ==> #[trigger] sat_clauses(*s).contains(c),
                    forall|k: int| 0 <= k < known.len() ==> sat_clauses(*s).contains(neg_clause(#[trigger] known[k])),
                decreases list@.len() - j,
            {
                let u = list[i];
                let w = list[j];
                proof {
                    let _ = enc.members@[r as int]@[i as int];
                    let _ = enc.members@[r as int]@[j as int];
                    let _ = enc.options@[u as int];
                    let _ = enc.options@[w as int];
                }
                let ou = enc.options[u];
                let ow = enc.options[w];
                let shrunk_u = shrink_reservation_request(&problem.requests[ou.0][ou.1], time_window);
                let shrunk_w = shrink_reservation_request(&problem.requests[ow.0][ow.1], time_window);
                let ghost cs0 = sat_clauses(*s);
                proof {
                    assert(shrunk_u == shrunk(option_alt(enc, reqs, u), time_window));
                    assert(shrunk_w == shrunk(option_alt(enc, reqs, w), time_window));
                }
                if shrunk_u.is_none() {
                    let ghost before = sat_clauses(*s);
                    let c = vec![(u, false)];
                    proof { assert(c@ =~= seq![(u, false)]); }
                    add_clause_keeping(s, c, Ghost(known));
                    proof {
                        lemma_shrink_pairs_kept(enc, reqs, time_window, before, seq![(u, false)], r as int, i as int, j as int);
                    }
                }
                let ghost cs1 = sat_clauses(*s);
                proof {
                    broadcast use vstd::seq_lib::lemma_seq_contains_after_push;
                    assert(shrunk_u is None ==> bans(cs1, u)) by {
                        if shrunk_u is None { assert(cs1[cs1.len() - 1] == seq![(u, false)]); }
                    }
                }
                if shrunk_w.is_none() {
                    let ghost before = sat_clauses(*s);
                    let c = vec![(w, false)];
                    proof { assert(c@ =~= seq![(w, false)]); }
                    add_clause_keeping(s, c, Ghost(known));
                    proof {
                        broadcast use vstd::seq_lib::lemma_seq_contains_after_push;
                        lemma_shrink_pairs_kept(enc, reqs, time_window, before, seq![(w, false)], r as int, i as int, j as int);
                        assert(bans(sat_clauses(*s), w));
                        if shrunk_u is None { assert(bans(sat_clauses(*s), u)); }
                    }
                }
                let ghost cs2 = sat_clauses(*s);
                proof {
                    assert(shrunk_w is None ==> bans(cs2, w)) by {
                        if shrunk_w is None { assert(cs2.last() == seq![(w, false)]); assert(cs2[cs2.len() - 1] == seq![(w, false)]); }
                    }
                }
                if let (Some(su), Some(sw)) = (&shrunk_u, &shrunk_w) {
                    proof {
                        assert(enc.resource_of_opt@[u as int] == r && enc.resource_of_opt@[w as int] == r);
                    }
                    if let (Some(xuw), Some(xwu)) = (enc.order_var(Ghost(reqs), u, w), enc.order_var(Ghost(reqs), w, u)) {
                        if !sw.can_be_scheduled_after(&su.parameters) {
                            let ghost before = sat_clauses(*s);
                            let c = vec![(xuw, false)];
                            proof { assert(c@ =~= seq![(xuw, false)]); }
                            add_clause_keeping(s, c, Ghost(known));
                            proof {
                                broadcast use vstd::seq_lib::lemma_seq_contains_after_push;
                                lemma_shrink_pairs_kept(enc, reqs, time_window, before, seq![(xuw, false)], r as int, i as int, j as int);
                                        assert(bans(sat_clauses(*s), xuw));
                            }
                        }
                        let ghost cs3 = sat_clauses(*s);
                        proof {
                            assert(!spec_can_be_scheduled_after(sw.parameters, su.parameters) ==> bans_order(enc, cs3, u, w)) by {
                                if !spec_can_be_scheduled_after(sw.parameters, su.parameters) { assert(bans(cs3, xuw)); }
                            }
                        }
                        if !su.can_be_scheduled_after(&sw.parameters) {
                            let ghost before = sat_clauses(*s);
                            let c = vec![(xwu, false)];
                            proof { assert(c@ =~= seq![(xwu, false)]); }
                            add_clause_keeping(s, c, Ghost(known));
                            proof {
                                broadcast use vstd::seq_lib::lemma_seq_contains_after_push;
                                lemma_shrink_pairs_kept(enc, reqs, time_window, before, seq![(xwu, false)], r as int, i as int, j as int);
                                        assert(bans(sat_clauses(*s), xwu));
                                if !spec_can_be_scheduled_after(sw.parameters, su.parameters) {
                                    assert(bans(sat_clauses(*s), xuw));
                                }
                            }
                        }
                        proof {
                            let cs4 = sat_clauses(*s);
                            assert(!spec_can_be_scheduled_after(sw.parameters, su.parameters) ==> bans_order(enc, cs4, u, w)) by {
                                broadcast use vstd::seq_lib::lemma_seq_contains_after_push;
                                if !spec_can_be_scheduled_after(sw.parameters, su.parameters) { assert(bans(cs4, xuw)); }
                            }
                            assert(!spec_can_be_scheduled_after(su.parameters, sw.parameters) ==> bans_order(enc, cs4, w, u)) by {
                                if !spec_can_be_scheduled_after(su.parameters, sw.parameters) { assert(bans(cs4, xwu)); }
                            }
                            assert(shrink_pair_in(enc, reqs, u, w, time_window, cs4));
                        }
                    }
                }
                proof {
                    let cf = sat_clauses(*s);
                    assert(shrink_pair_in(enc, reqs, u, w, time_window, cf));
                    assert forall|r2: int, i2: int, j2: int| #![trigger enc.members@[r2]@[i2], enc.members@[r2]@[j2]]
                        0 <= r2 < enc.members@.len() && 0 <= i2 < j2 < enc.members@[r2]@.len() && pair_before(r2, i2, j2, r as int, i as int, j + 1)
                        implies shrink_pair_in(enc, reqs, enc.members@[r2]@[i2], enc.members@[r2]@[j2], time_window, cf) by {
                        if !pair_before(r2, i2, j2, r as int, i as int, j as int) {
                            assert(r2 == r && i2 == i && j2 == j);
                        }
                    }
                }
                j = j + 1;
            }
            i = i + 1;
        }
        r = r + 1;
    }
}

/// The latest start of the last assignment of a resource, over the resources
/// that have assignments.
fn latest_last_start(s: &ResourceSchedules) -> (r: Option<i64>)
    ensures
        r is None ==> forall|g: int| 0 <= g < s@.len() ==> (#[trigger] s@[g]).1.len() == 0,
        r matches Some(t) ==> (exists|g: int| 0 <= g < s@.len() && (#[trigger] s@[g]).1.len() > 0 && s@[g].1.last().start_time == t)
            && forall|g: int| 0 <= g < s@.len() && (#[trigger] s@[g]).1.len() > 0 ==> s@[g].1.last().start_time <= t,
{
    let mut best: Option<i64> = None;
    let mut g: usize = 0;
    while g < s.len()
        invariant
            g <= s@.len(),
            best is None ==> forall|g2: int| 0 <= g2 < g ==> (#[trigger] s@[g2]).1.len() == 0,
            best matches Some(t) ==> (exists|g2: int| 0 <= g2 < g && (#[trigger] s@[g2]).1.len() > 0 && s@[g2].1.last().start_time == t)
                && forall|g2: int| 0 <= g2 < g && (#[trigger] s@[g2]).1.len() > 0 ==> s@[g2].1.last().start_time <= t,
        decreases s@.len() - g,
    {
        let list = s.assignments(g);
        if list.len() > 0 {
            let t = list[list.len() - 1].start_time;
            best = match best {
                Some(b) => if t > b { Some(t) } else { Some(b) },
                None => Some(t),
            };
        }
        g = g + 1;
    }
    best
}

/// The option variables of the assignments `l`, in order.
spec fn list_vars(enc: &FlexibleEncoding, l: Seq<Assignment>) -> Seq<usize> {
    l.map_values(|a: Assignment| enc.var_of@[a.id.0 as int]@[a.id.1 as int])
}

/// The option variables of the assignments of `s`, resource after resource.
spec fn schedule_vars(enc: &FlexibleEncoding, s: Seq<(Seq<char>, Seq<Assignment>)>) -> Seq<usize>
    decreases s.len(),
{
    if s.len() == 0 { Seq::empty() } else { schedule_vars(enc, s.drop_last()) + list_vars(enc, s.last().1) }
}

/// The option variables of every assignment of `s`.
fn assigned_vars(enc: &FlexibleEncoding, s: &ResourceSchedules, Ghost(m): Ghost<Seq<(usize, bool)>>) -> (r: Vec<usize>)
    requires
        forall|g: int, i: int| 0 <= g < s@.len() && 0 <= i < s@[g].1.len() ==>
            enc.var_of@[(#[trigger] s@[g].1[i]).id.0 as int]@[s@[g].1[i].id.1 as int] < enc.n()
            && m.contains((enc.var_of@[s@[g].1[i].id.0 as int]@[s@[g].1[i].id.1 as int], true)),
        forall|g: int, i: int| 0 <= g < s@.len() && 0 <= i < s@[g].1.len() ==>
            (#[trigger] s@[g].1[i]).id.0 < enc.var_of@.len() && s@[g].1[i].id.1 < enc.var_of@[s@[g].1[i].id.0 as int]@.len(),
    ensures
        forall|t: int| 0 <= t < r@.len() ==> #[trigger] r@[t] < enc.n() && m.contains((r@[t], true)),
        r@ == schedule_vars(enc, s@),
{
    let mut out: Vec<usize> = Vec::new();
    let mut g: usize = 0;
    proof { assert(s@.take(0) =~= Seq::<(Seq<char>, Seq<Assignment>)>::empty()); }
    while g < s.len()
        invariant
            g <= s@.len(),
            out@ == schedule_vars(enc, s@.take(g as int)),
            forall|g2: int, i: int| 0 <= g2 < s@.len() && 0 <= i < s@[g2].1.len() ==>
                enc.var_of@[(#[trigger] s@[g2].1[i]).id.0 as int]@[s@[g2].1[i].id.1 as int] < enc.n()
                && m.contains((enc.var_of@[s@[g2].1[i].id.0 as int]@[s@[g2].1[i].id.1 as int], true)),
            forall|g2: int, i: int| 0 <= g2 < s@.len() && 0 <= i < s@[g2].1.len() ==>
                (#[trigger] s@[g2].1[i]).id.0 < enc.var_of@.len() && s@[g2].1[i].id.1 < enc.var_of@[s@[g2].1[i].id.0 as int]@.len(),
            forall|t: int| 0 <= t < out@.len() ==> #[trigger] out@[t] < enc.n() && m.contains((out@[t], true)),
        decreases s@.len() - g,
    {
        let list = s.assignments(g);
        let mut i: usize = 0;
        while i < list.len()
            invariant
                g < s@.len(),
                list@ == s@[g as int].1,
                i <= list@.len(),
                out@ == schedule_vars(enc, s@.take(g as int)) + list_vars(enc, list@.take(i as int)),
                forall|g2: int, i2: int| 0 <= g2 < s@.len() && 0 <= i2 < s@[g2].1.len() ==>
                    enc.var_of@[(#[trigger] s@[g2].1[i2]).id.0 as int]@[s@[g2].1[i2].id.1 as int] < enc.n()
                    && m.contains((enc.var_of@[s@[g2].1[i2].id.0 as int]@[s@[g2].1[i2].id.1 as int], true)),
                forall|g2: int, i2: int| 0 <= g2 < s@.len() && 0 <= i2 < s@[g2].1.len() ==>
                    (#[trigger] s@[g2].1[i2]).id.0 < enc.var_of@.len() && s@[g2].1[i2].id.1 < enc.var_of@[s@[g2].1[i2].id.0 as int]@.len(),
                forall|t: int| 0 <= t < out@.len() ==> #[trigger] out@[t] < enc.n() && m.contains((out@[t], true)),
            decreases list@.len() - i,
        {
            let id = list[i].id;
            proof { let _ = s@[g as int].1[i as int]; }
            out.push(enc.var_of[id.0][id.1]);
            proof {
                assert(list_vars(enc, list@.take(i + 1)) =~= list_vars(enc, list@.take(i as int)).push(enc.var_of@[id.0 as int]@[id.1 as int]));
            }
            i = i + 1;
        }
        proof {
            assert(s@.take(g + 1).drop_last() =~= s@.take(g as int));
            assert(list@.take(list@.len() as int) =~= list@);
        }
        g = g + 1;
    }
    proof { assert(s@.take(s@.len() as int) =~= s@); }
    out
}

/// A schedule without resources honours any dependencies.
proof fn lemma_empty_respects(deps: Seq<((usize, usize), (usize, usize))>, sched: Seq<(Seq<char>, Seq<Assignment>)>)
    requires
        sched.len() == 0,
    ensures
        respects_dependencies(deps, sched),
{
    let g = Set::<(usize, usize)>::empty();
    assert(dependency_closed(deps, g));
    assert(forall|r: int, i: int| 0 <= r < sched.len() && 0 <= i < sched[r].1.len() ==> g.contains(#[trigger] sched[r].1[i].id));
}

/// A schedule decoded from a model of a formula holding the dependency
/// clauses honours the dependencies: the alternatives the model grants are a
/// choice of one per request closed under them.
proof fn lemma_decoded_respects(enc: &FlexibleEncoding, problem: &Problem, cs: Seq<Seq<(usize, bool)>>, m: Seq<(usize, bool)>,
    sched: Seq<(Seq<char>, Seq<Assignment>)>, now: int)
    requires
        enc.wf(problem_requests(problem)),
        constraints_valid(problem),
        deps_encoded(enc, problem, cs),
        is_model_of(m, cs),
        one_per_request(enc, problem_requests(problem), m),
        packed_schedule(problem_requests(problem), sched, now),
        forall|r: int, i: int| 0 <= r < sched.len() && 0 <= i < sched[r].1.len() ==>
            m.contains((enc.var_of@[(#[trigger] sched[r].1[i]).id.0 as int]@[sched[r].1[i].id.1 as int], true)),
    ensures
        respects_dependencies(problem.dependencies@, sched),
{
    let reqs = problem_requests(problem);
    let deps = problem.dependencies@;
    let g = Set::new(|x: (usize, usize)| is_alternative(reqs, x) && granted(enc, m, x.0 as int, x.1 as int));
    lemma_dependencies_hold(enc, problem, cs, m);
    assert forall|x: (usize, usize), y: (usize, usize)| #[trigger] g.contains(x) && #[trigger] g.contains(y) && x.0 == y.0 implies x == y by {
        let q = x.0 as int;
        let _ = reqs[q];
        assert(granted(enc, m, q, x.1 as int) && granted(enc, m, q, y.1 as int));
    }
    assert forall|k: int| 0 <= k < deps.len() && #[trigger] g.contains(deps[k].0) implies g.contains(deps[k].1) by {
        assert(is_alternative(reqs, deps[k].1));
        assert(m.contains((enc.var_of@[deps[k].0.0 as int]@[deps[k].0.1 as int], true)));
    }
    assert(dependency_closed(deps, g));
    assert forall|r: int, i: int| 0 <= r < sched.len() && 0 <= i < sched[r].1.len() implies g.contains(#[trigger] sched[r].1[i].id) by {
        assert(packed_from(reqs, sched[r].1, now));
        assert(is_alternative(reqs, sched[r].1[i].id));
    }
}

/// The optimisation rounds at time `now`: like the feasibility rounds, but
/// every packing that fits is reported on `sender`, then banned as a whole,
/// and from the next round on every alternative must start by the latest
/// start of the last assignments of that packing. Ends when the solver runs
/// out of proposals, with the schedule of the round before; `None` when a stop
/// was requested (after reporting `NotFound`).
fn optimality_rounds(enc: &FlexibleEncoding, problem: &Problem, now: i64, sender: &Sender<AlgorithmState>, stop: &Arc<AtomicBool>)
    -> (r: Option<ResourceSchedules>)
    requires
        enc.wf(problem_requests(problem)),
        constraints_valid(problem),
    ensures
        r matches Some(s) ==> packed_schedule(problem_requests(problem), s@, now as int),
        r matches Some(s) ==> respects_dependencies(problem.dependencies@, s@),
{
    let ghost reqs = problem_requests(problem);
    let n = enc.options.len();
    let mut solver = encode(enc, problem, true);
    let ghost mut known: Seq<Seq<usize>> = Seq::empty();
    let mut final_schedule = ResourceSchedules::new();
    let mut prev_schedule = ResourceSchedules::new();
    proof {
        lemma_empty_respects(problem.dependencies@, final_schedule@);
        lemma_empty_respects(problem.dependencies@, prev_schedule@);
    }
    let mut time_window: Option<i64> = None;
    loop
        invariant_except_break
            sat_usable(solver),
        invariant
            reqs == problem_requests(problem),
            enc.wf(reqs),
            n == enc.n(),
            packed_schedule(reqs, final_schedule@, now as int),
            packed_schedule(reqs, prev_schedule@, now as int),
            respects_dependencies(problem.dependencies@, final_schedule@),
            respects_dependencies(problem.dependencies@, prev_schedule@),
            constraints_valid(problem),
            deps_encoded(enc, problem, sat_clauses(solver)),
            forall|k: int| 0 <= k < known.len() ==> sat_clauses(solver).contains(neg_clause(#[trigger] known[k])),
            grants_one(enc, reqs, sat_clauses(solver)),
        decreases open_subsets(n as nat, excluded_sets(known)).len(),
    {
        if stop_requested(stop) {
            send_state(sender, AlgorithmState::NotFound);
            return None;
        }
        prev_schedule = final_schedule;
        final_schedule = ResourceSchedules::new();
        proof { lemma_empty_respects(problem.dependencies@, final_schedule@); }
        if let Some(tw) = time_window {
            add_shrink_clauses(&mut solver, enc, problem, tw, Ghost(known));
        }
        match sat_solve(&mut solver) {
            Ok(true) => {},
            _ => { break; },
        }
        let model = match sat_model(&solver) {
            Some(m) => m,
            None => { break; },
        };
        proof { lemma_model_one_per_request(enc, reqs, model@, sat_clauses(solver)); }
        let (sched, ok, learned) = match decode_round(enc, problem, &model, now) {
            Some(res) => res,
            None => { break; },
        };
        proof { lemma_decoded_respects(enc, problem, sat_clauses(solver), model@, sched@, now as int); }
        final_schedule = sched;
        if learned.len() == 0 {
            send_state(sender, AlgorithmState::FeasibleScheduleSolution(final_schedule.duplicate()));
        }
        let ghost cs = sat_clauses(solver);
        add_learned(&mut solver, &learned, n, Ghost(known));
        let ghost new = learned@.map_values(|b: Vec<usize>| b@);
        if ok {
            time_window = latest_last_start(&final_schedule);
            proof {
                assert forall|g: int, i: int| 0 <= g < final_schedule@.len() && 0 <= i < final_schedule@[g].1.len() implies
                    (#[trigger] final_schedule@[g].1[i]).id.0 < enc.var_of@.len()
                    && final_schedule@[g].1[i].id.1 < enc.var_of@[final_schedule@[g].1[i].id.0 as int]@.len() by {
                    assert(packed_from(reqs, final_schedule@[g].1, now as int));
                    assert(is_alternative(reqs, final_schedule@[g].1[i].id));
                }
            }
            let banned = assigned_vars(enc, &final_schedule, Ghost(model@));
            let ghost known_before = known;
            proof {
                known = known + new;
                assert forall|k: int| 0 <= k < known.len() implies sat_clauses(solver).contains(neg_clause(#[trigger] known[k])) by {
                    if k >= known_before.len() { assert(known[k] == learned@[k - known_before.len()]@); }
                }
            }
            let c = neg_lits(&banned);
            proof {
                assert forall|t: int| 0 <= t < c@.len() implies #[trigger] c@[t].0 <= MAX_SAT_VAR by {
                    assert(c@[t] == (banned@[t], false));
                }
            }
            add_clause_keeping(&mut solver, c, Ghost(known));
            proof {
                let all_new = new.push(banned@);
                assert(all_new.len() > 0);
                if new.len() > 0 {
                    assert(all_new[0] == learned@[0]@);
                } else {
                    assert(all_new[0] == banned@);
                }
                lemma_round_progress(n as nat, known_before, all_new, model@, cs);
                assert(known_before + all_new =~= known.push(banned@));
                let last = sat_clauses(solver).len() - 1;
                assert(sat_clauses(solver)[last] == neg_clause(banned@));
                known = known.push(banned@);
            }
        } else {
            proof {
                lemma_round_progress(n as nat, known, new, model@, cs);
                let known_before = known;
                known = known + new;
                assert forall|k: int| 0 <= k < known.len() implies sat_clauses(solver).contains(neg_clause(#[trigger] known[k])) by {
                    if k >= known_before.len() { assert(known[k] == learned@[k - known_before.len()]@); }
                }
            }
        }
    }
    Some(prev_schedule)
}

/// Every alternative of `reqs` has a duration.
pub open spec fn all_durations(reqs: Seq<Seq<ReservationRequestAlternative>>) -> bool {
    forall|q: int, a: int| 0 <= q < reqs.len() && 0 <= a < reqs[q].len() ==> (#[trigger] reqs[q][a]).parameters.duration is Some
}

/// Looks for a schedule, at time `now`, that grants one alternative of every
/// request, in windows on every resource (ignoring costs). `Ok` holds a
/// valid schedule: every assignment meets its window, and on each resource
/// none starts before `now` or before the previous one ends; every request has
/// exactly one alternative chosen, and it has an assignment unless it lacks
/// an earliest start or a duration (such alternatives are granted but not
/// placed). `TimedOut` when
/// `stop` was raised; `NoSolution` when the boolean solver ran out of
/// proposals or no order of a proposal exists.
pub fn feasibility_analysis_at(problem: &Problem, now: i64, stop: &Arc<AtomicBool>) -> (r: Result<ResourceSchedules, FlexibleSatError>)
    requires
        total_alternatives(problem_requests(problem)) <= MAX_ALTERNATIVES,
    ensures
        r matches Ok(s) ==> packed_schedule(problem_requests(problem), s@, now as int),
        r matches Ok(s) ==> one_alternative_each(problem_requests(problem), s@),
{
    let enc = build_encoding(&problem.requests);
    feasibility_rounds(&enc, problem, now, stop)
}

/// Packs the schedule as early as it can, at time `now`: every schedule that
/// fits is reported on `sender` as feasible, and the search goes on with every
/// alternative made to start by the latest start of that schedule's last
/// assignments, until nothing more fits. Returns the schedule of the last
/// round (to be reported as the best), or `None` when `stop` was raised.
pub fn time_optimality_at(problem: &Problem, now: i64, sender: &Sender<AlgorithmState>, stop: &Arc<AtomicBool>) -> (r: Option<ResourceSchedules>)
    requires
        total_alternatives(problem_requests(problem)) <= MAX_ALTERNATIVES,
        constraints_valid(problem),
        all_durations(problem_requests(problem)),
    ensures
        r matches Some(s) ==> packed_schedule(problem_requests(problem), s@, now as int),
        r matches Some(s) ==> respects_dependencies(problem.dependencies@, s@),
{
    let enc = build_encoding(&problem.requests);
    optimality_rounds(&enc, problem, now, sender, stop)
}

/// Whether a problem is one the solvers take: not too many alternatives in
/// all, constraints naming alternatives of it, and durations everywhere.
pub fn problem_fits(problem: &Problem) -> (r: bool)
    ensures
        r == (total_alternatives(problem_requests(problem)) <= MAX_ALTERNATIVES
            && constraints_valid(problem) && all_durations(problem_requests(problem))),
{
    let ghost reqs = problem_requests(problem);
    let mut total: usize = 0;
    let mut q: usize = 0;
    while q < problem.requests.len()
        invariant
            reqs == problem_requests(problem),
            q <= reqs.len(),
            total == total_alternatives(reqs.take(q as int)),
            total <= MAX_ALTERNATIVES,
            forall|q2: int, a: int| 0 <= q2 < q && 0 <= a < reqs[q2].len() ==> (#[trigger] reqs[q2][a]).parameters.duration is Some,
        decreases reqs.len() - q,
    {
        proof {
            assert(reqs.take(q + 1).drop_last() =~= reqs.take(q as int));
            lemma_total_monotone(reqs, q + 1);
        }
        let row = &problem.requests[q];
        if row.len() > MAX_ALTERNATIVES - total {
            return false;
        }
        total = total + row.len();
        let mut a: usize = 0;
        while a < row.len()
            invariant
                reqs == problem_requests(problem),
                q < reqs.len(),
                row@ == reqs[q as int],
                a <= row@.len(),
                forall|q2: int, a2: int| 0 <= q2 < q && 0 <= a2 < reqs[q2].len() ==> (#[trigger] reqs[q2][a2]).parameters.duration is Some,
                forall|a2: int| 0 <= a2 < a ==> (#[trigger] reqs[q as int][a2]).parameters.duration is Some,
            decreases row@.len() - a,
        {
            if row[a].parameters.duration.is_none() {
                return false;
            }
            a = a + 1;
        }
        q = q + 1;
    }
    proof { assert(reqs.take(reqs.len() as int) =~= reqs); }
    let mut k: usize = 0;
    while k < problem.dependencies.len()
        invariant
            reqs == problem_requests(problem),
            k <= problem.dependencies@.len(),
            forall|k2: int| 0 <= k2 < k ==> is_alternative(reqs, (#[trigger] problem.dependencies@[k2]).0) && is_alternative(reqs, problem.dependencies@[k2].1),
        decreases problem.dependencies@.len() - k,
    {
        let (x, y) = problem.dependencies[k];
        if !(x.0 < problem.requests.len() && x.1 < problem.requests[x.0].len() && y.0 < problem.requests.len() && y.1 < problem.requests[y.0].len()) {
            return false;
        }
        k = k + 1;
    }
    let mut k: usize = 0;
    while k < problem.must_be_immediately_after.len()
        invariant
            reqs == problem_requests(problem),
            k <= problem.must_be_immediately_after@.len(),
            forall|k2: int| 0 <= k2 < k ==> is_alternative(reqs, (#[trigger] problem.must_be_immediately_after@[k2]).0)
                && is_alternative(reqs, problem.must_be_immediately_after@[k2].1),
        decreases problem.must_be_immediately_after@.len() - k,
    {
        let (x, y) = problem.must_be_immediately_after[k];
        if !(x.0 < problem.requests.len() && x.1 < problem.requests[x.0].len() && y.0 < problem.requests.len() && y.1 < problem.requests[y.0].len()) {
            return false;
        }
        k = k + 1;
    }
    true
}

/// Prefixes of the requests have no more alternatives than all of them.
pub proof fn lemma_total_monotone(reqs: Seq<Seq<ReservationRequestAlternative>>, q: int)
    requires
        0 <= q <= reqs.len(),
    ensures
        total_alternatives(reqs.take(q)) <= total_alternatives(reqs),
    decreases reqs.len() - q,
{
    if q < reqs.len() {
        lemma_total_prefix(reqs, q);
    } else {
        assert(reqs.take(q) =~= reqs);
    }
}

/// Solver for requests with start-time windows instead of fixed start times.
/// It ignores costs. The clock gives the time from which schedules start.
pub struct SATFlexibleTimeModel<CS: ClockSource> {
    /// The clock.
    pub clock_source: CS,
}

impl<CS: ClockSource> SATFlexibleTimeModel<CS> {
    /// [`feasibility_analysis_at`] the clock's current time.
    pub fn feasibility_analysis(&self, problem: &Problem, stop: Arc<AtomicBool>) -> (r: Result<ResourceSchedules, FlexibleSatError>)
        requires
            total_alternatives(problem_requests(problem)) <= MAX_ALTERNATIVES,
        ensures
            r matches Ok(s) ==> exists|now: int| packed_schedule(problem_requests(problem), s@, now),
            r matches Ok(s) ==> one_alternative_each(problem_requests(problem), s@),
    {
        let now = self.clock_source.now();
        let r = feasibility_analysis_at(problem, now, &stop);
        proof {
            if let Ok(ref s) = r { assert(packed_schedule(problem_requests(problem), s@, now as int)); }
        }
        r
    }

    /// [`time_optimality_at`] the clock's current time, then reports the
    /// schedule of the last round on `sender` as the best one.
    pub fn time_optimality_solver(&self, problem: &Problem, sender: Sender<AlgorithmState>, stop: Arc<AtomicBool>)
        requires
            total_alternatives(problem_requests(problem)) <= MAX_ALTERNATIVES,
            constraints_valid(problem),
            all_durations(problem_requests(problem)),
    {
        let now = self.clock_source.now();
        if let Some(best) = time_optimality_at(problem, now, &sender, &stop) {
            send_state(&sender, AlgorithmState::OptimalScheduleSolution(best));
        }
    }
}

impl<CS: ClockSource> SolverAlgorithm<Problem> for SATFlexibleTimeModel<CS> {
    /// Reports a feasible schedule, then the optimisation rounds; a problem
    /// with no feasible schedule, or one the solvers do not take, is reported
    /// unsolvable.
    fn iterative_solve(&self, result_channel: Sender<AlgorithmState>, stop: Arc<AtomicBool>, problem: Problem) {
        if !problem_fits(&problem) {
            send_state(&result_channel, AlgorithmState::UnSolveable);
            return;
        }
        match self.feasibility_analysis(&problem, stop.clone()) {
            Ok(feasible) => {
                send_state(&result_channel, AlgorithmState::FeasibleScheduleSolution(feasible));
                self.time_optimality_solver(&problem, result_channel, stop);
            },
            Err(_) => {
                send_state(&result_channel, AlgorithmState::UnSolveable);
            },
        }
    }
}

/// Alternatives of the first `q` requests, counted row by row.
pub proof fn lemma_total_prefix(reqs: Seq<Seq<ReservationRequestAlternative>>, q: int)
    requires
        0 <= q < reqs.len(),
    ensures
        total_alternatives(reqs.take(q)) + reqs[q].len() == total_alternatives(reqs.take(q + 1)),
        total_alternatives(reqs.take(q + 1)) <= total_alternatives(reqs),
    decreases reqs.len() - q,
{
    assert(reqs.take(q + 1).drop_last() =~= reqs.take(q));
    if q + 1 < reqs.len() {
        lemma_total_prefix(reqs, q + 1);
    } else {
        assert(reqs.take(q + 1) =~= reqs);
    }
}

} // verus!
