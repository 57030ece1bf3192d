//! Fixed-time scheduling by boolean satisfiability over a conflict model:
//! one variable per alternative, exactly one alternative per request, and
//! never two conflicting alternatives.

use vstd::prelude::*;
use std::collections::HashMap;
use std::collections::VecDeque;
use varisat::Solver;
use crate::sat_backend::{MAX_SAT_VAR, clause_holds, distinct_vars, is_model_of, lits_in_range, model_consistent,
    sat_add_clause, sat_clauses, sat_model, sat_new, sat_solve, sat_usable};
use crate::algorithms::hierarchical_kuhn_munkres::{SparseScheduleConflictHillClimber, allocation_cost, lemma_cost_step, valid_id};
use crate::utils::subsets::{satisfying_subsets, set_satisfies, subsets_below, within, lemma_satisfying_shrink, lemma_subsets_below_complete, lemma_subsets_below_finite};
use crate::algorithms::sat_flexible_time_model::solver::total_alternatives;
use crate::request::{ReservationParameters, ReservationRequestAlternative, SharedCostFunction, StartTimeRange};
use crate::text::{format_number, number_label};

verus! {

/// One alternative per request, each of its request, no two of them conflicting.
pub open spec fn is_feasible_assignment(h: SparseScheduleConflictHillClimber, sol: Seq<usize>) -> bool {
    &&& sol.len() == h.requests().len()
    &&& forall|q: int| 0 <= q < sol.len() ==> (#[trigger] sol[q]) < h.requests()[q].len()
    &&& forall|q1: int, q2: int| 0 <= q1 < sol.len() && 0 <= q2 < sol.len() && q1 != q2 ==>
            !h.conflict_set((q1 as usize, #[trigger] sol[q1])).contains((q2 as usize, #[trigger] sol[q2]))
}

/// Total score of an assignment.
pub open spec fn assignment_cost(h: SparseScheduleConflictHillClimber, sol: Seq<usize>) -> int {
    allocation_cost(h.scores(), sol.map_values(|a: usize| Some(a)))
}

/// Numbering of the alternatives as boolean variables `1..=n`.
struct Numbering {
    var_of: Vec<Vec<usize>>,
    options: Vec<(usize, usize)>,
}

impl Numbering {
    /// Number of alternatives.
    spec fn n(&self) -> nat {
        self.options@.len()
    }

    /// Variable of alternative `x`.
    spec fn var(&self, x: (usize, usize)) -> usize {
        self.var_of@[x.0 as int]@[x.1 as int]
    }

    spec fn wf(&self, reqs: Seq<Seq<ReservationRequestAlternative>>) -> bool {
        &&& self.n() < MAX_SAT_VAR
        &&& reqs.len() <= usize::MAX
        &&& forall|q: int| 0 <= q < reqs.len() ==> (#[trigger] reqs[q]).len() <= usize::MAX
        &&& self.var_of@.len() == reqs.len()
        &&& forall|q: int| 0 <= q < reqs.len() ==> (#[trigger] self.var_of@[q])@.len() == reqs[q].len()
        &&& forall|q: int, a: int| 0 <= q < reqs.len() && 0 <= a < reqs[q].len() ==>
                1 <= #[trigger] self.var_of@[q]@[a] <= self.n() && self.options@[self.var_of@[q]@[a] - 1] == (q as usize, a as usize)
        &&& forall|i: int| 0 <= i < self.n() ==> valid_id(reqs, #[trigger] self.options@[i])
                && self.var_of@[self.options@[i].0 as int]@[self.options@[i].1 as int] == i + 1
    }
}

/// Numbers the alternatives of the model `h` request by request from 1.
fn number_alternatives(h: &SparseScheduleConflictHillClimber) -> (r: Numbering)
    requires
        total_alternatives(h.requests()) < MAX_SAT_VAR,
    ensures
        r.wf(h.requests()),
{
    let n = h.num_requests();
    let ghost reqs = h.requests();
    let mut var_of: Vec<Vec<usize>> = Vec::new();
    let mut options: Vec<(usize, usize)> = Vec::new();
    let mut q: usize = 0;
    while q < n
        invariant
            reqs == h.requests(),
            n == reqs.len(),
            reqs.len() <= usize::MAX,
            forall|q2: int| 0 <= q2 < reqs.len() ==> (#[trigger] reqs[q2]).len() <= usize::MAX,
            total_alternatives(reqs) < MAX_SAT_VAR,
            q <= n,
            options@.len() == total_alternatives(reqs.take(q as int)),
            var_of@.len() == q,
            forall|q2: int| 0 <= q2 < q ==> (#[trigger] var_of@[q2])@.len() == reqs[q2].len(),
            forall|q2: int, a: int| 0 <= q2 < q && 0 <= a < reqs[q2].len() ==>
                1 <= #[trigger] var_of@[q2]@[a] <= options@.len() && options@[var_of@[q2]@[a] - 1] == (q2 as usize, a as usize),
            forall|i: int| 0 <= i < options@.len() ==> (#[trigger] options@[i]).0 < q && valid_id(reqs, options@[i])
                && var_of@[options@[i].0 as int]@[options@[i].1 as int] == i + 1,
        decreases n - q,
    {
        proof {
            crate::algorithms::sat_flexible_time_model::solver::lemma_total_prefix(reqs, q as int);
        }
        let m = h.num_alternatives(q);
        let mut row: Vec<usize> = Vec::new();
        let mut a: usize = 0;
        while a < m
            invariant
                reqs == h.requests(),
                q < n,
                n == reqs.len(),
                m == reqs[q as int].len(),
                a <= m,
                options@.len() == total_alternatives(reqs.take(q as int)) + a,
                total_alternatives(reqs.take(q as int)) + m <= total_alternatives(reqs),
                total_alternatives(reqs) < MAX_SAT_VAR,
                row@.len() == a,
                var_of@.len() == q,
                forall|q2: int| 0 <= q2 < q ==> (#[trigger] var_of@[q2])@.len() == reqs[q2].len(),
                forall|q2: int, a2: int| 0 <= q2 < q && 0 <= a2 < reqs[q2].len() ==>
                    1 <= #[trigger] var_of@[q2]@[a2] <= options@.len() && options@[var_of@[q2]@[a2] - 1] == (q2 as usize, a2 as usize),
                forall|a2: int| 0 <= a2 < a ==> 1 <= #[trigger] row@[a2] <= options@.len() && options@[row@[a2] - 1] == (q, a2 as usize),
                forall|i: int| 0 <= i < options@.len() ==> (#[trigger] options@[i]).0 <= q && valid_id(reqs, options@[i])
                    && (options@[i].0 < q ==> var_of@[options@[i].0 as int]@[options@[i].1 as int] == i + 1)
                    && (options@[i].0 == q ==> options@[i].1 < a && row@[options@[i].1 as int] == i + 1),
            decreases m - a,
        {
            options.push((q, a));
            row.push(options.len());
            a = a + 1;
        }
        var_of.push(row);
        q = q + 1;
    }
    proof { assert(reqs.take(n as int) =~= reqs); }
    Numbering { var_of, options }
}

/// The clauses every formula over the model holds: for each request, one of
/// its alternatives; no two alternatives of a request; no two conflicting
/// alternatives.
spec fn base_clauses_in(num: &Numbering, h: SparseScheduleConflictHillClimber, cs: Seq<Seq<(usize, bool)>>) -> bool {
    &&& forall|q: int| 0 <= q < h.requests().len() ==> #[trigger] has_one_of_clause(num, q, cs)
    &&& forall|q: int, a1: int, a2: int| 0 <= q < h.requests().len() && 0 <= a1 < a2 < h.requests()[q].len() ==>
            cs.contains(seq![(#[trigger] num.var_of@[q]@[a1], false), (#[trigger] num.var_of@[q]@[a2], false)])
    &&& forall|x: (usize, usize), y: (usize, usize)| valid_id(h.requests(), x) && #[trigger] h.conflict_set(x).contains(y) ==>
            cs.contains(seq![(num.var(x), false), (num.var(y), false)])
}

/// `cs` holds the clause "one of the alternatives of request `q`".
spec fn has_one_of_clause(num: &Numbering, q: int, cs: Seq<Seq<(usize, bool)>>) -> bool {
    exists|k: int| 0 <= k < cs.len() && #[trigger] is_one_of_clause(num, q, cs[k])
}

proof fn lemma_one_of_kept(num: &Numbering, l: int, before: Seq<Seq<(usize, bool)>>, c: Seq<(usize, bool)>)
    requires
        forall|q: int| 0 <= q < l ==> #[trigger] has_one_of_clause(num, q, before),
    ensures
        forall|q: int| 0 <= q < l ==> #[trigger] has_one_of_clause(num, q, before.push(c)),
{
    assert forall|q: int| 0 <= q < l implies #[trigger] has_one_of_clause(num, q, before.push(c)) by {
        assert(has_one_of_clause(num, q, before));
        let k = choose|k: int| 0 <= k < before.len() && #[trigger] is_one_of_clause(num, q, before[k]);
        assert(before.push(c)[k] == before[k]);
    }
}

/// `c` lists the variables of every alternative of request `q`, positively.
spec fn is_one_of_clause(num: &Numbering, q: int, c: Seq<(usize, bool)>) -> bool {
    &&& c.len() == num.var_of@[q]@.len()
    &&& forall|a: int| 0 <= a < c.len() ==> #[trigger] c[a] == (num.var_of@[q]@[a], true)
}

/// Adds `clause`, keeping every clause already there.
fn add_keeping(s: &mut Solver<'static>, clause: Vec<(usize, bool)>)
    requires
        lits_in_range(clause@),
        sat_usable(*old(s)),
    ensures
        sat_usable(*final(s)),
        sat_clauses(*final(s)) == sat_clauses(*old(s)).push(clause@),
        forall|c: Seq<(usize, bool)>| sat_clauses(*old(s)).contains(c) ==> #[trigger] sat_clauses(*final(s)).contains(c),
{
    let ghost before = sat_clauses(*s);
    sat_add_clause(s, &clause);
    proof {
        assert forall|c: Seq<(usize, bool)>| before.contains(c) implies #[trigger] sat_clauses(*s).contains(c) by {
            let i = choose|i: int| 0 <= i < before.len() && before[i] == c;
            assert(sat_clauses(*s)[i] == c);
        }
    }
}

/// A solver holding the base clauses of the model.
fn encode_model(h: &SparseScheduleConflictHillClimber, num: &Numbering) -> (s: Solver<'static>)
    requires
        num.wf(h.requests()),
    ensures
        sat_usable(s),
        base_clauses_in(num, *h, sat_clauses(s)),
        forall|k: int| 0 <= k < sat_clauses(s).len() ==> holds_for_feasible(num, *h, #[trigger] sat_clauses(s)[k]),
{
    let n = h.num_requests();
    let ghost reqs = h.requests();
    let mut s = sat_new();
    let mut q: usize = 0;
    while q < n
        invariant
            reqs == h.requests(),
            n == reqs.len(),
            num.wf(reqs),
            q <= n,
            sat_usable(s),
            forall|k: int| 0 <= k < sat_clauses(s).len() ==> holds_for_feasible(num, *h, #[trigger] sat_clauses(s)[k]),
            forall|q2: int| 0 <= q2 < q ==> #[trigger] has_one_of_clause(num, q2, sat_clauses(s)),
            forall|q2: int, a1: int, a2: int| 0 <= q2 < q && 0 <= a1 < a2 < reqs[q2].len() ==>
                sat_clauses(s).contains(seq![(#[trigger] num.var_of@[q2]@[a1], false), (#[trigger] num.var_of@[q2]@[a2], false)]),
        decreases n - q,
    {
        let row = &num.var_of[q];
        let mut clause: Vec<(usize, bool)> = Vec::new();
        let mut a: usize = 0;
        while a < row.len()
            invariant
                num.wf(reqs),
                q < reqs.len(),
                row@ == num.var_of@[q as int]@,
                a <= row@.len(),
                clause@.len() == a,
                forall|i: int| 0 <= i < a ==> #[trigger] clause@[i] == (row@[i], true),
            decreases row@.len() - a,
        {
            clause.push((row[a], true));
            a = a + 1;
        }
        proof {
            assert forall|i: int| 0 <= i < clause@.len() implies #[trigger] clause@[i].0 <= MAX_SAT_VAR by {
                assert(row@[i] == num.var_of@[q as int]@[i]);
            }
        }
        let ghost before = sat_clauses(s);
        let ghost c = clause@;
        add_keeping(&mut s, clause);
        proof {
            assert(is_one_of_clause(num, q as int, sat_clauses(s)[before.len() as int]));
            lemma_one_of_kept(num, q as int, before, c);
            lemma_one_of_feasible(num, *h, q as int, c);
            lemma_feasible_kept(num, *h, before, c);
            assert(has_one_of_clause(num, q as int, sat_clauses(s)));
        }
        let mut a1: usize = 0;
        while a1 < row.len()
            invariant
                reqs == h.requests(),
                num.wf(reqs),
                q < reqs.len(),
                row@ == num.var_of@[q as int]@,
                a1 <= row@.len(),
                sat_usable(s),
                forall|k: int| 0 <= k < sat_clauses(s).len() ==> holds_for_feasible(num, *h, #[trigger] sat_clauses(s)[k]),
            forall|k: int| 0 <= k < sat_clauses(s).len() ==> holds_for_feasible(num, *h, #[trigger] sat_clauses(s)[k]),
                forall|q2: int| 0 <= q2 < q + 1 ==> #[trigger] has_one_of_clause(num, q2, sat_clauses(s)),
                forall|q2: int, b1: int, b2: int| ((0 <= q2 < q && 0 <= b1 < b2 < reqs[q2].len()) || (q2 == q && 0 <= b1 < a1 && b1 < b2 < reqs[q2].len())) ==>
                    sat_clauses(s).contains(seq![(#[trigger] num.var_of@[q2]@[b1], false), (#[trigger] num.var_of@[q2]@[b2], false)]),
            decreases row@.len() - a1,
        {
            let mut a2: usize = a1 + 1;
            while a2 < row.len()
                invariant
                    reqs == h.requests(),
                    num.wf(reqs),
                    q < reqs.len(),
                    row@ == num.var_of@[q as int]@,
                    a1 < row@.len(),
                    a1 < a2,
                    sat_usable(s),
                    forall|k: int| 0 <= k < sat_clauses(s).len() ==> holds_for_feasible(num, *h, #[trigger] sat_clauses(s)[k]),
                forall|k: int| 0 <= k < sat_clauses(s).len() ==> holds_for_feasible(num, *h, #[trigger] sat_clauses(s)[k]),
            forall|k: int| 0 <= k < sat_clauses(s).len() ==> holds_for_feasible(num, *h, #[trigger] sat_clauses(s)[k]),
                    forall|q2: int| 0 <= q2 < q + 1 ==> #[trigger] has_one_of_clause(num, q2, sat_clauses(s)),
                    forall|q2: int, b1: int, b2: int| ((0 <= q2 < q && 0 <= b1 < b2 < reqs[q2].len()) || (q2 == q && 0 <= b1 < a1 && b1 < b2 < reqs[q2].len())
                        || (q2 == q && b1 == a1 && a1 < b2 < a2)) ==>
                        sat_clauses(s).contains(seq![(#[trigger] num.var_of@[q2]@[b1], false), (#[trigger] num.var_of@[q2]@[b2], false)]),
                decreases row@.len() - a2,
            {
                proof {
                    let _ = num.var_of@[q as int]@[a1 as int];
                    let _ = num.var_of@[q as int]@[a2 as int];
                }
                let ghost before = sat_clauses(s);
                add_keeping(&mut s, vec![(row[a1], false), (row[a2], false)]);
                proof {
                    assert(sat_clauses(s)[before.len() as int] == seq![(num.var_of@[q as int]@[a1 as int], false), (num.var_of@[q as int]@[a2 as int], false)]);
                    lemma_one_of_kept(num, q + 1, before, seq![(num.var_of@[q as int]@[a1 as int], false), (num.var_of@[q as int]@[a2 as int], false)]);
                    lemma_pair_feasible(num, *h, q as int, a1 as int, a2 as int);
                    lemma_feasible_kept(num, *h, before, seq![(num.var_of@[q as int]@[a1 as int], false), (num.var_of@[q as int]@[a2 as int], false)]);
                }
                a2 = a2 + 1;
            }
            a1 = a1 + 1;
        }
        q = q + 1;
    }
    // Conflicts.
    let mut q: usize = 0;
    while q < n
        invariant
            forall|x: (usize, usize), y: (usize, usize)| #[trigger] h.conflict_set(x).contains(y) ==> valid_id(h.requests(), y) && y != x,
            reqs == h.requests(),
            n == reqs.len(),
            num.wf(reqs),
            q <= n,
            sat_usable(s),
            forall|k: int| 0 <= k < sat_clauses(s).len() ==> holds_for_feasible(num, *h, #[trigger] sat_clauses(s)[k]),
            forall|q2: int| 0 <= q2 < reqs.len() ==> #[trigger] has_one_of_clause(num, q2, sat_clauses(s)),
            forall|q2: int, a1: int, a2: int| 0 <= q2 < reqs.len() && 0 <= a1 < a2 < reqs[q2].len() ==>
                sat_clauses(s).contains(seq![(#[trigger] num.var_of@[q2]@[a1], false), (#[trigger] num.var_of@[q2]@[a2], false)]),
            forall|x: (usize, usize), y: (usize, usize)| valid_id(reqs, x) && x.0 < q && #[trigger] h.conflict_set(x).contains(y) ==>
                sat_clauses(s).contains(seq![(num.var(x), false), (num.var(y), false)]),
        decreases n - q,
    {
        let m = h.num_alternatives(q);
        let mut a: usize = 0;
        while a < m
            invariant
                forall|x: (usize, usize), y: (usize, usize)| #[trigger] h.conflict_set(x).contains(y) ==> valid_id(h.requests(), y) && y != x,
                reqs == h.requests(),
                n == reqs.len(),
                num.wf(reqs),
                q < n,
                m == reqs[q as int].len(),
                a <= m,
                sat_usable(s),
                forall|k: int| 0 <= k < sat_clauses(s).len() ==> holds_for_feasible(num, *h, #[trigger] sat_clauses(s)[k]),
            forall|k: int| 0 <= k < sat_clauses(s).len() ==> holds_for_feasible(num, *h, #[trigger] sat_clauses(s)[k]),
                forall|q2: int| 0 <= q2 < reqs.len() ==> #[trigger] has_one_of_clause(num, q2, sat_clauses(s)),
                forall|q2: int, a1: int, a2: int| 0 <= q2 < reqs.len() && 0 <= a1 < a2 < reqs[q2].len() ==>
                    sat_clauses(s).contains(seq![(#[trigger] num.var_of@[q2]@[a1], false), (#[trigger] num.var_of@[q2]@[a2], false)]),
                forall|x: (usize, usize), y: (usize, usize)| valid_id(reqs, x) && (x.0 < q || (x.0 == q && x.1 < a)) && #[trigger] h.conflict_set(x).contains(y) ==>
                    sat_clauses(s).contains(seq![(num.var(x), false), (num.var(y), false)]),
            decreases m - a,
        {
            let list = h.conflicts_with(q, a);
            let vx = num.var_of[q][a];
            let mut k: usize = 0;
            while k < list.len()
                invariant
                    forall|x: (usize, usize), y: (usize, usize)| #[trigger] h.conflict_set(x).contains(y) ==> valid_id(h.requests(), y) && y != x,
                    reqs == h.requests(),
                    num.wf(reqs),
                    valid_id(reqs, (q, a)),
                    list@.to_set() == h.conflict_set((q, a)),
                    vx == num.var((q, a)),
                    k <= list@.len(),
                    sat_usable(s),
                    forall|k: int| 0 <= k < sat_clauses(s).len() ==> holds_for_feasible(num, *h, #[trigger] sat_clauses(s)[k]),
                forall|k: int| 0 <= k < sat_clauses(s).len() ==> holds_for_feasible(num, *h, #[trigger] sat_clauses(s)[k]),
            forall|k: int| 0 <= k < sat_clauses(s).len() ==> holds_for_feasible(num, *h, #[trigger] sat_clauses(s)[k]),
                    forall|q2: int| 0 <= q2 < reqs.len() ==> #[trigger] has_one_of_clause(num, q2, sat_clauses(s)),
                    forall|q2: int, a1: int, a2: int| 0 <= q2 < reqs.len() && 0 <= a1 < a2 < reqs[q2].len() ==>
                        sat_clauses(s).contains(seq![(#[trigger] num.var_of@[q2]@[a1], false), (#[trigger] num.var_of@[q2]@[a2], false)]),
                    forall|x: (usize, usize), y: (usize, usize)| valid_id(reqs, x) && (x.0 < q || (x.0 == q && x.1 < a)) && #[trigger] h.conflict_set(x).contains(y) ==>
                        sat_clauses(s).contains(seq![(num.var(x), false), (num.var(y), false)]),
                    forall|j: int| 0 <= j < k ==> sat_clauses(s).contains(seq![(vx, false), (num.var(#[trigger] list@[j]), false)]),
                decreases list@.len() - k,
            {
                let y = list[k];
                proof {
                    assert(list@.to_set().contains(y));
                    let _ = num.var_of@[y.0 as int]@[y.1 as int];
                }
                let vy = num.var_of[y.0][y.1];
                let ghost before = sat_clauses(s);
                add_keeping(&mut s, vec![(vx, false), (vy, false)]);
                proof {
                    assert(sat_clauses(s)[before.len() as int] == seq![(vx, false), (vy, false)]);
                    lemma_one_of_kept(num, reqs.len() as int, before, seq![(vx, false), (vy, false)]);
                    lemma_conflict_feasible(num, *h, (q, a), y);
                    lemma_feasible_kept(num, *h, before, seq![(vx, false), (vy, false)]);
                }
                k = k + 1;
            }
            proof {
                assert forall|x: (usize, usize), y: (usize, usize)| valid_id(reqs, x) && (x.0 < q || (x.0 == q && x.1 < a + 1)) && #[trigger] h.conflict_set(x).contains(y) implies
                    sat_clauses(s).contains(seq![(num.var(x), false), (num.var(y), false)]) by {
                    if x == (q, a) {
                        assert(list@.to_set().contains(y));
                        let j = choose|j: int| 0 <= j < list@.len() && list@[j] == y;
                        assert(sat_clauses(s).contains(seq![(vx, false), (num.var(list@[j]), false)]));
                    }
                }
            }
            a = a + 1;
        }
        q = q + 1;
    }
    s
}


/// The literals an assignment sets: variable `v` is true when the
/// alternative it numbers is the one chosen for its request.
spec fn model_of(num: &Numbering, sol: Seq<usize>) -> Seq<(usize, bool)> {
    Seq::new(num.n(), |i: int| ((i + 1) as usize, sol[num.options@[i].0 as int] == num.options@[i].1))
}

/// Variable `var(x)` is true in the literals of `sol` exactly when `x` is chosen.
proof fn lemma_model_of(num: &Numbering, h: SparseScheduleConflictHillClimber, sol: Seq<usize>, x: (usize, usize), b: bool)
    requires
        num.wf(h.requests()),
        valid_id(h.requests(), x),
        sol.len() == h.requests().len(),
    ensures
        model_of(num, sol).contains((num.var(x), b)) <==> b == (sol[x.0 as int] == x.1),
{
    let v = num.var(x);
    let i = v - 1;
    assert(num.options@[i] == x);
    if b == (sol[x.0 as int] == x.1) {
        assert(model_of(num, sol)[i] == (num.var(x), b));
    }
    if model_of(num, sol).contains((num.var(x), b)) {
        let j = choose|j: int| 0 <= j < model_of(num, sol).len() && model_of(num, sol)[j] == (num.var(x), b);
        assert(j == i);
    }
}

/// Every feasible assignment satisfies `c`.
spec fn holds_for_feasible(num: &Numbering, h: SparseScheduleConflictHillClimber, c: Seq<(usize, bool)>) -> bool {
    forall|sol: Seq<usize>| #[trigger] is_feasible_assignment(h, sol) ==> clause_holds(model_of(num, sol), c)
}

/// Every feasible assignment cheaper than `bound` (if any) satisfies `c`.
spec fn holds_for_cheaper(num: &Numbering, h: SparseScheduleConflictHillClimber, c: Seq<(usize, bool)>, bound: Option<int>) -> bool {
    forall|sol: Seq<usize>| #[trigger] is_feasible_assignment(h, sol) && (bound matches Some(b) ==> assignment_cost(h, sol) < b)
        ==> clause_holds(model_of(num, sol), c)
}

/// The literals of an assignment are consistent.
proof fn lemma_model_of_consistent(num: &Numbering, sol: Seq<usize>)
    requires
        num.n() < MAX_SAT_VAR,
    ensures
        model_consistent(model_of(num, sol)),
{
    let m = model_of(num, sol);
    assert forall|i: int, j: int| 0 <= i < m.len() && 0 <= j < m.len() && #[trigger] m[i].0 == #[trigger] m[j].0 implies m[i].1 == m[j].1 by {
        assert(m[i].0 == (i + 1) as usize);
        assert(m[j].0 == (j + 1) as usize);
        assert(i == j);
    }
}

/// The alternative chosen per request by the model `m` of the base clauses.
fn read_assignment(h: &SparseScheduleConflictHillClimber, num: &Numbering, m: &Vec<(usize, bool)>, Ghost(cs): Ghost<Seq<Seq<(usize, bool)>>>)
    -> (r: Vec<usize>)
    requires
        num.wf(h.requests()),
        is_model_of(m@, cs),
        base_clauses_in(num, *h, cs),
    ensures
        is_feasible_assignment(*h, r@),
        forall|x: (usize, usize)| valid_id(h.requests(), x) ==> (m@.contains((num.var(x), true)) <==> r@[x.0 as int] == x.1),
{
    let n = h.num_requests();
    let ghost reqs = h.requests();
    let nv = num.options.len();
    let mut sol: Vec<Option<usize>> = Vec::new();
    let mut q: usize = 0;
    while q < n
        invariant
            q <= n,
            sol@.len() == q,
            forall|q2: int| 0 <= q2 < q ==> #[trigger] sol@[q2] is None,
        decreases n - q,
    {
        sol.push(None);
        q = q + 1;
    }
    let mut i: usize = 0;
    while i < m.len()
        invariant
            reqs == h.requests(),
            n == reqs.len(),
            num.wf(reqs),
            nv == num.n(),
            i <= m@.len(),
            sol@.len() == n,
            forall|q2: int| 0 <= q2 < n ==> (#[trigger] sol@[q2] matches Some(a) ==> a < reqs[q2].len() && m@.contains((num.var((q2 as usize, a)), true))),
            forall|j: int| 0 <= j < i && (#[trigger] m@[j]).1 && 1 <= m@[j].0 <= nv ==> sol@[num.options@[m@[j].0 - 1].0 as int] is Some,
        decreases m@.len() - i,
    {
        let (v, positive) = m[i];
        if positive && v >= 1 && v <= nv {
            let (q2, a) = num.options[v - 1];
            proof {
                assert(valid_id(reqs, num.options@[v - 1]));
                assert(num.var((q2, a)) == v);
                assert(m@[i as int] == (v, true));
            }
            sol.set(q2, Some(a));
        }
        i = i + 1;
    }
    let ghost solv = sol@;
    proof {
        assert forall|q2: int| 0 <= q2 < n implies #[trigger] solv[q2] is Some by {
            assert(has_one_of_clause(num, q2, cs));
            let k = choose|k: int| 0 <= k < cs.len() && #[trigger] is_one_of_clause(num, q2, cs[k]);
            assert(clause_holds(m@, cs[k]));
            let j = choose|j: int| 0 <= j < cs[k].len() && m@.contains(#[trigger] cs[k][j]);
            assert(cs[k][j] == (num.var_of@[q2]@[j], true));
            let w = choose|w: int| 0 <= w < m@.len() && m@[w] == cs[k][j];
            let v = num.var_of@[q2]@[j];
            assert(num.options@[v - 1] == (q2 as usize, j as usize));
            assert(m@[w].1 && 1 <= m@[w].0 <= nv);
        }
    }
    let mut out: Vec<usize> = Vec::new();
    let mut q: usize = 0;
    while q < n
        invariant
            n == reqs.len(),
            sol@ == solv,
            solv.len() == n,
            forall|q2: int| 0 <= q2 < n ==> #[trigger] solv[q2] is Some,
            q <= n,
            out@.len() == q,
            forall|q2: int| 0 <= q2 < q ==> Some(#[trigger] out@[q2]) == solv[q2],
        decreases n - q,
    {
        let a = match sol[q] { Some(a) => a, None => 0 };
        out.push(a);
        q = q + 1;
    }
    proof {
        // A chosen alternative is the one read.
        assert forall|x: (usize, usize)| valid_id(reqs, x) implies (m@.contains((num.var(x), true)) <==> out@[x.0 as int] == x.1) by {
            let q2 = x.0 as int;
            let a = out@[q2];
            assert(solv[q2] == Some(a));
            assert(m@.contains((num.var((x.0, a)), true)));
            if m@.contains((num.var(x), true)) && a != x.1 {
                let (lo, hi) = if a < x.1 { (a, x.1) } else { (x.1, a) };
                assert(cs.contains(seq![(num.var_of@[q2]@[lo as int], false), (num.var_of@[q2]@[hi as int], false)]));
                let c = seq![(num.var_of@[q2]@[lo as int], false), (num.var_of@[q2]@[hi as int], false)];
                let k = choose|k: int| 0 <= k < cs.len() && cs[k] == c;
                assert(clause_holds(m@, cs[k]));
                let j = choose|j: int| 0 <= j < c.len() && m@.contains(#[trigger] c[j]);
                let w1 = choose|w: int| 0 <= w < m@.len() && m@[w] == c[j];
                let v = c[j].0;
                assert(m@.contains((v, true)));
                let w2 = choose|w: int| 0 <= w < m@.len() && m@[w] == (v, true);
                assert(m@[w1].0 == m@[w2].0);
            }
        }
        assert forall|q1: int, q2: int| 0 <= q1 < out@.len() && 0 <= q2 < out@.len() && q1 != q2 implies
            !h.conflict_set((q1 as usize, #[trigger] out@[q1])).contains((q2 as usize, #[trigger] out@[q2])) by {
            let x = (q1 as usize, out@[q1]);
            let y = (q2 as usize, out@[q2]);
            if h.conflict_set(x).contains(y) {
                assert(solv[q1] == Some(out@[q1]));
                assert(solv[q2] == Some(out@[q2]));
                let c = seq![(num.var(x), false), (num.var(y), false)];
                assert(cs.contains(c));
                let k = choose|k: int| 0 <= k < cs.len() && cs[k] == c;
                assert(clause_holds(m@, cs[k]));
                let j = choose|j: int| 0 <= j < c.len() && m@.contains(#[trigger] c[j]);
                let w1 = choose|w: int| 0 <= w < m@.len() && m@[w] == c[j];
                let v = c[j].0;
                assert(m@.contains((v, true)));
                let w2 = choose|w: int| 0 <= w < m@.len() && m@[w] == (v, true);
                assert(m@[w1].0 == m@[w2].0);
            }
        }
        assert forall|q2: int| 0 <= q2 < out@.len() implies (#[trigger] out@[q2]) < reqs[q2].len() by {
            assert(solv[q2] == Some(out@[q2]));
        }
    }
    out
}

/// Total score of `sol`.
fn cost_of(h: &SparseScheduleConflictHillClimber, sol: &Vec<usize>) -> (r: i128)
    requires
        is_feasible_assignment(*h, sol@),
    ensures
        r == assignment_cost(*h, sol@),
{
    let n = h.num_requests();
    let ghost alloc = sol@.map_values(|a: usize| Some(a));
    let mut total: i128 = 0;
    let mut q: usize = 0;
    while q < n
        invariant
            n == h.requests().len(),
            is_feasible_assignment(*h, sol@),
            alloc == sol@.map_values(|a: usize| Some(a)),
            q <= n,
            total == allocation_cost(h.scores(), alloc.take(q as int)),
            -(q as int) * 0x8000_0000_0000_0000 <= total <= (q as int) * 0x8000_0000_0000_0000,
        decreases n - q,
    {
        proof {
            lemma_cost_step(h.scores(), alloc, q as int);
            assert(sol@[q as int] < h.requests()[q as int].len());
        }
        total = total + h.score(q, sol[q]) as i128;
        q = q + 1;
    }
    proof { assert(alloc.take(n as int) =~= alloc); }
    total
}

proof fn lemma_feasible_kept(num: &Numbering, h: SparseScheduleConflictHillClimber, before: Seq<Seq<(usize, bool)>>, c: Seq<(usize, bool)>)
    requires
        forall|k: int| 0 <= k < before.len() ==> holds_for_feasible(num, h, #[trigger] before[k]),
        holds_for_feasible(num, h, c),
    ensures
        forall|k: int| 0 <= k < before.push(c).len() ==> holds_for_feasible(num, h, #[trigger] before.push(c)[k]),
{
    assert forall|k: int| 0 <= k < before.push(c).len() implies holds_for_feasible(num, h, #[trigger] before.push(c)[k]) by {
        if k < before.len() { assert(before.push(c)[k] == before[k]); }
    }
}

proof fn lemma_one_of_feasible(num: &Numbering, h: SparseScheduleConflictHillClimber, q: int, c: Seq<(usize, bool)>)
    requires
        num.wf(h.requests()),
        0 <= q < h.requests().len(),
        is_one_of_clause(num, q, c),
    ensures
        holds_for_feasible(num, h, c),
{
    assert forall|sol: Seq<usize>| #[trigger] is_feasible_assignment(h, sol) implies clause_holds(model_of(num, sol), c) by {
        let a = sol[q];
        lemma_model_of(num, h, sol, (q as usize, a), true);
        assert(c[a as int] == (num.var_of@[q]@[a as int], true));
    }
}

proof fn lemma_pair_feasible(num: &Numbering, h: SparseScheduleConflictHillClimber, q: int, a1: int, a2: int)
    requires
        num.wf(h.requests()),
        0 <= q < h.requests().len(),
        0 <= a1 < a2 < h.requests()[q].len(),
    ensures
        holds_for_feasible(num, h, seq![(num.var_of@[q]@[a1], false), (num.var_of@[q]@[a2], false)]),
{
    let c = seq![(num.var_of@[q]@[a1], false), (num.var_of@[q]@[a2], false)];
    assert forall|sol: Seq<usize>| #[trigger] is_feasible_assignment(h, sol) implies clause_holds(model_of(num, sol), c) by {
        lemma_model_of(num, h, sol, (q as usize, a1 as usize), false);
        lemma_model_of(num, h, sol, (q as usize, a2 as usize), false);
        if sol[q] != a1 as usize { assert(model_of(num, sol).contains(c[0])); } else { assert(model_of(num, sol).contains(c[1])); }
    }
}

proof fn lemma_conflict_feasible(num: &Numbering, h: SparseScheduleConflictHillClimber, x: (usize, usize), y: (usize, usize))
    requires
        num.wf(h.requests()),
        valid_id(h.requests(), x),
        valid_id(h.requests(), y),
        x != y,
        h.conflict_set(x).contains(y),
    ensures
        holds_for_feasible(num, h, seq![(num.var(x), false), (num.var(y), false)]),
{
    let c = seq![(num.var(x), false), (num.var(y), false)];
    assert forall|sol: Seq<usize>| #[trigger] is_feasible_assignment(h, sol) implies clause_holds(model_of(num, sol), c) by {
        lemma_model_of(num, h, sol, x, false);
        lemma_model_of(num, h, sol, y, false);
        if sol[x.0 as int] != x.1 {
            assert(model_of(num, sol).contains(c[0]));
        } else if sol[y.0 as int] != y.1 {
            assert(model_of(num, sol).contains(c[1]));
        } else {
            if x.0 != y.0 {
                assert(!h.conflict_set((x.0, sol[x.0 as int])).contains((y.0, sol[y.0 as int])));
            }
        }
    }
}

/// The assignment `sol` as a map from request to alternative.
pub open spec fn assignment_map(sol: Seq<usize>) -> Map<usize, usize> {
    Map::new(|q: usize| q < sol.len(), |q: usize| sol[q as int])
}

/// The variables among `0..n` that are true in `m`.
spec fn positive_vars(m: Seq<(usize, bool)>, n: nat) -> Set<int> {
    Set::new(|v: int| 0 <= v < n && m.contains((v as usize, true)))
}

/// A clause that holds in a consistent model, over variables below `n`,
/// holds under the set of its true variables.
proof fn lemma_model_set_sat(m: Seq<(usize, bool)>, c: Seq<(usize, bool)>, n: nat)
    requires
        model_consistent(m),
        clause_holds(m, c),
        forall|t: int| 0 <= t < c.len() ==> (#[trigger] c[t]).0 < n,
    ensures
        set_satisfies(positive_vars(m, n), c),
{
    let i = choose|i: int| 0 <= i < c.len() && m.contains(#[trigger] c[i]);
    if c[i].1 {
        assert(positive_vars(m, n).contains(c[i].0 as int));
    } else {
        if positive_vars(m, n).contains(c[i].0 as int) {
            let w1 = choose|w: int| 0 <= w < m.len() && m[w] == c[i];
            let w2 = choose|w: int| 0 <= w < m.len() && m[w] == (c[i].0, true);
            assert(m[w1].0 == m[w2].0);
        }
    }
}

/// If `a` costs less than `s`, some request has a cheaper alternative in `a`.
proof fn lemma_cheaper_somewhere(h: SparseScheduleConflictHillClimber, a: Seq<usize>, s: Seq<usize>, p: int)
    requires
        is_feasible_assignment(h, a),
        is_feasible_assignment(h, s),
        0 <= p <= a.len(),
        allocation_cost(h.scores(), a.map_values(|x: usize| Some(x)).take(p)) < allocation_cost(h.scores(), s.map_values(|x: usize| Some(x)).take(p)),
    ensures
        exists|q: int| 0 <= q < p && h.scores()[q][a[q] as int] < h.scores()[q][s[q] as int],
    decreases p,
{
    let aa = a.map_values(|x: usize| Some(x));
    let ss = s.map_values(|x: usize| Some(x));
    if p > 0 {
        lemma_cost_step(h.scores(), aa, p - 1);
        lemma_cost_step(h.scores(), ss, p - 1);
        if !(h.scores()[p - 1][a[p - 1] as int] < h.scores()[p - 1][s[p - 1] as int]) {
            lemma_cheaper_somewhere(h, a, s, p - 1);
        }
    } else {
        assert(aa.take(0) =~= Seq::<Option<usize>>::empty());
        assert(ss.take(0) =~= Seq::<Option<usize>>::empty());
    }
}

/// "Some request gets an alternative cheaper than in `sol`".
fn better_clause(h: &SparseScheduleConflictHillClimber, num: &Numbering, sol: &Vec<usize>) -> (r: Vec<(usize, bool)>)
    requires
        num.wf(h.requests()),
        is_feasible_assignment(*h, sol@),
    ensures
        lits_in_range(r@),
        forall|t: int| 0 <= t < r@.len() ==> (#[trigger] r@[t]).1 && 1 <= r@[t].0 <= num.n()
            && h.scores()[num.options@[r@[t].0 - 1].0 as int][num.options@[r@[t].0 - 1].1 as int]
                < h.scores()[num.options@[r@[t].0 - 1].0 as int][sol@[num.options@[r@[t].0 - 1].0 as int] as int],
        forall|x: (usize, usize)| valid_id(h.requests(), x) && h.scores()[x.0 as int][x.1 as int] < h.scores()[x.0 as int][sol@[x.0 as int] as int]
            ==> r@.contains((#[trigger] num.var(x), true)),
{
    let n = h.num_requests();
    let ghost reqs = h.requests();
    let mut out: Vec<(usize, bool)> = Vec::new();
    let mut q: usize = 0;
    while q < n
        invariant
            reqs == h.requests(),
            n == reqs.len(),
            num.wf(reqs),
            h.scores().len() == reqs.len(),
            forall|q2: int| 0 <= q2 < reqs.len() ==> (#[trigger] h.scores()[q2]).len() == reqs[q2].len(),
            is_feasible_assignment(*h, sol@),
            q <= n,
            lits_in_range(out@),
            forall|t: int| 0 <= t < out@.len() ==> (#[trigger] out@[t]).1 && 1 <= out@[t].0 <= num.n()
                && h.scores()[num.options@[out@[t].0 - 1].0 as int][num.options@[out@[t].0 - 1].1 as int]
                    < h.scores()[num.options@[out@[t].0 - 1].0 as int][sol@[num.options@[out@[t].0 - 1].0 as int] as int],
            forall|x: (usize, usize)| valid_id(reqs, x) && x.0 < q && h.scores()[x.0 as int][x.1 as int] < h.scores()[x.0 as int][sol@[x.0 as int] as int]
                ==> out@.contains((#[trigger] num.var(x), true)),
        decreases n - q,
    {
        let m = h.num_alternatives(q);
        proof { assert(sol@[q as int] < reqs[q as int].len()); }
        let cur = h.score(q, sol[q]);
        let mut i: usize = 0;
        while i < m
            invariant
                reqs == h.requests(),
                n == reqs.len(),
                num.wf(reqs),
                q < n,
                m == reqs[q as int].len(),
                is_feasible_assignment(*h, sol@),
                cur == h.scores()[q as int][sol@[q as int] as int],
                i <= m,
                lits_in_range(out@),
                forall|t: int| 0 <= t < out@.len() ==> (#[trigger] out@[t]).1 && 1 <= out@[t].0 <= num.n()
                    && h.scores()[num.options@[out@[t].0 - 1].0 as int][num.options@[out@[t].0 - 1].1 as int]
                        < h.scores()[num.options@[out@[t].0 - 1].0 as int][sol@[num.options@[out@[t].0 - 1].0 as int] as int],
                forall|x: (usize, usize)| valid_id(reqs, x) && (x.0 < q || (x.0 == q && x.1 < i))
                    && h.scores()[x.0 as int][x.1 as int] < h.scores()[x.0 as int][sol@[x.0 as int] as int]
                    ==> out@.contains((#[trigger] num.var(x), true)),
            decreases m - i,
        {
            let sc = h.score(q, i);
            if sc < cur {
                let v = num.var_of[q][i];
                proof {
                    assert(num.options@[v - 1] == (q, i));
                }
                let ghost before = out@;
                out.push((v, true));
                proof {
                    assert forall|x: (usize, usize)| valid_id(reqs, x) && (x.0 < q || (x.0 == q && x.1 < i + 1))
                        && h.scores()[x.0 as int][x.1 as int] < h.scores()[x.0 as int][sol@[x.0 as int] as int]
                        implies out@.contains((#[trigger] num.var(x), true)) by {
                        if x == (q, i) { assert(out@[before.len() as int] == (v, true)); }
                        else { let t = choose|t: int| 0 <= t < before.len() && before[t] == (num.var(x), true); assert(out@[t] == before[t]); }
                    }
                }
            }
            i = i + 1;
        }
        q = q + 1;
    }
    out
}

/// "Not exactly the alternatives of `sol`".
fn elim_clause(h: &SparseScheduleConflictHillClimber, num: &Numbering, sol: &Vec<usize>) -> (r: Vec<(usize, bool)>)
    requires
        num.wf(h.requests()),
        is_feasible_assignment(*h, sol@),
    ensures
        lits_in_range(r@),
        forall|t: int| 0 <= t < r@.len() ==> !(#[trigger] r@[t]).1 && 1 <= r@[t].0 <= num.n()
            && sol@[num.options@[r@[t].0 - 1].0 as int] == num.options@[r@[t].0 - 1].1,
        forall|q: int| 0 <= q < h.requests().len() ==> r@.contains((num.var((q as usize, #[trigger] sol@[q])), false)),
{
    let n = h.num_requests();
    let ghost reqs = h.requests();
    let mut out: Vec<(usize, bool)> = Vec::new();
    let mut q: usize = 0;
    while q < n
        invariant
            reqs == h.requests(),
            n == reqs.len(),
            num.wf(reqs),
            is_feasible_assignment(*h, sol@),
            q <= n,
            lits_in_range(out@),
            forall|t: int| 0 <= t < out@.len() ==> !(#[trigger] out@[t]).1 && 1 <= out@[t].0 <= num.n()
                && sol@[num.options@[out@[t].0 - 1].0 as int] == num.options@[out@[t].0 - 1].1,
            forall|q2: int| 0 <= q2 < q ==> out@.contains((num.var((q2 as usize, #[trigger] sol@[q2])), false)),
        decreases n - q,
    {
        proof { assert(sol@[q as int] < reqs[q as int].len()); }
        let v = num.var_of[q][sol[q]];
        proof { assert(num.options@[v - 1] == (q, sol@[q as int])); }
        let ghost before = out@;
        out.push((v, false));
        proof {
            assert forall|q2: int| 0 <= q2 < q + 1 implies out@.contains((num.var((q2 as usize, #[trigger] sol@[q2])), false)) by {
                if q2 == q { assert(out@[before.len() as int] == (v, false)); }
                else { let t = choose|t: int| 0 <= t < before.len() && before[t] == (num.var((q2 as usize, sol@[q2])), false); assert(out@[t] == before[t]); }
            }
        }
        q = q + 1;
    }
    out
}

/// The assignment `sol` as a map.
fn to_map(sol: &Vec<usize>) -> (r: HashMap<usize, usize>)
    ensures
        r@ == assignment_map(sol@),
{
    let mut m: HashMap<usize, usize> = HashMap::new();
    let mut q: usize = 0;
    while q < sol.len()
        invariant
            q <= sol@.len(),
            m@ == Map::new(|q2: usize| q2 < q, |q2: usize| sol@[q2 as int]),
        decreases sol@.len() - q,
    {
        m.insert(q, sol[q]);
        proof { assert(m@ =~= Map::new(|q2: usize| q2 < q + 1, |q2: usize| sol@[q2 as int])); }
        q = q + 1;
    }
    proof { assert(m@ =~= assignment_map(sol@)); }
    m
}

/// The first of the cheapest assignments of `met`, in the order they were met.
pub open spec fn cheapest_met(h: SparseScheduleConflictHillClimber, met: Seq<Seq<usize>>) -> Seq<usize>
    decreases met.len(),
{
    if met.len() == 0 {
        Seq::empty()
    } else if met.len() == 1 {
        met[0]
    } else {
        let prev = cheapest_met(h, met.drop_last());
        if assignment_cost(h, met.last()) < assignment_cost(h, prev) { met.last() } else { prev }
    }
}

/// Of the assignments met, the one kept is one of them and costs no more than
/// any of them.
pub proof fn lemma_cheapest_met_minimal(h: SparseScheduleConflictHillClimber, met: Seq<Seq<usize>>)
    requires
        met.len() > 0,
    ensures
        met.contains(cheapest_met(h, met)),
        forall|i: int| 0 <= i < met.len() ==> assignment_cost(h, cheapest_met(h, met)) <= assignment_cost(h, #[trigger] met[i]),
    decreases met.len(),
{
    if met.len() > 1 {
        let prev = met.drop_last();
        lemma_cheapest_met_minimal(h, prev);
        let j = choose|j: int| 0 <= j < prev.len() && prev[j] == cheapest_met(h, prev);
        assert(met[j] == prev[j]);
        assert(met[met.len() - 1] == met.last());
        assert forall|i: int| 0 <= i < met.len() implies assignment_cost(h, cheapest_met(h, met)) <= assignment_cost(h, #[trigger] met[i]) by {
            if i < prev.len() { assert(met[i] == prev[i]); }
        }
    } else {
        assert(met[0] == cheapest_met(h, met));
    }
}

/// Solvers over the conflict model of fixed-time requests.
pub struct SATSolver {}

impl SATSolver {
    /// Explores assignments by ruling out one chosen alternative at a time:
    /// every assignment the boolean solver proposes spawns, for each of its
    /// chosen alternatives, a search with that alternative banned (a set of
    /// bans met before is not searched again). Returns the cheapest assignment
    /// met; the empty map when no feasible assignment exists.
    pub fn from_hill_climber(problem: SparseScheduleConflictHillClimber) -> (r: Option<HashMap<usize, usize>>)
        requires
            total_alternatives(problem.requests()) < MAX_SAT_VAR,
        ensures
            r is Some,
            r matches Some(best) ==>
                (exists|s: Seq<usize>| is_feasible_assignment(problem, s) && best@ == assignment_map(s))
                || (best@ == Map::<usize, usize>::empty() && forall|a: Seq<usize>| !#[trigger] is_feasible_assignment(problem, a)),
            r matches Some(best) ==> best@ == Map::<usize, usize>::empty()
                || exists|met: Seq<Seq<usize>>| met.len() > 0
                    && (forall|i: int| 0 <= i < met.len() ==> is_feasible_assignment(problem, #[trigger] met[i]))
                    && best@ == assignment_map(cheapest_met(problem, met)),
    {
        let n = problem.num_requests();
        let num = number_alternatives(&problem);
        let nv = num.options.len();
        let ghost width = (nv + 1) as nat;
        let ghost universe = subsets_below(width);
        proof { lemma_subsets_below_finite(width); }
        let mut bound: Option<i128> = None;
        let mut best: Vec<usize> = Vec::new();
        let mut seen: Vec<Vec<bool>> = Vec::new();
        let mut queue: VecDeque<BruteNode> = VecDeque::new();
        let mut root_mask: Vec<bool> = Vec::new();
        let mut v: usize = 0;
        while v <= nv
            invariant
                v <= nv + 1,
                nv < MAX_SAT_VAR,
                root_mask@.len() == v,
            decreases nv + 1 - v,
        {
            root_mask.push(false);
            v = v + 1;
        }
        queue.push_back(BruteNode { vars: Vec::new(), mask: root_mask });
        proof {
            assert(seen_sets(seen@) =~= Set::<Set<int>>::empty());
        }
        let ghost mut root_pending = true;
        let ghost mut met: Seq<Seq<usize>> = Seq::empty();
        loop
            invariant
                root_pending ==> queue@.len() == 1 && queue@[0].vars@.len() == 0 && bound is None,
                bound matches Some(b) ==> b == assignment_cost(problem, best@) && met.len() > 0 && best@ == cheapest_met(problem, met),
                bound is None ==> met.len() == 0,
                forall|i: int| 0 <= i < met.len() ==> is_feasible_assignment(problem, #[trigger] met[i]),
                !root_pending && bound is None ==> forall|a: Seq<usize>| !#[trigger] is_feasible_assignment(problem, a),
                num.wf(problem.requests()),
                n == problem.requests().len(),
                nv == num.n(),
                width == nv + 1,
                universe == subsets_below(width),
                universe.finite(),
                forall|i: int| 0 <= i < queue@.len() ==> (#[trigger] queue@[i]).mask@.len() == width
                    && forall|t: int| 0 <= t < queue@[i].vars@.len() ==> 1 <= #[trigger] queue@[i].vars@[t] <= nv,
                forall|i: int| 0 <= i < seen@.len() ==> (#[trigger] seen@[i])@.len() == width,
                seen_sets(seen@).subset_of(universe),
                bound matches Some(b) ==> is_feasible_assignment(problem, best@),
                bound is None ==> best@.len() == 0,
            ensures
                !root_pending,
                bound matches Some(b) ==> met.len() > 0 && best@ == cheapest_met(problem, met),
                forall|i: int| 0 <= i < met.len() ==> is_feasible_assignment(problem, #[trigger] met[i]),
                bound matches Some(b) ==> is_feasible_assignment(problem, best@),
                bound is None ==> best@.len() == 0,
                bound is None ==> forall|a: Seq<usize>| !#[trigger] is_feasible_assignment(problem, a),
            decreases 2 * universe.difference(seen_sets(seen@)).len() + queue@.len(),
        {
            let ghost m0 = 2 * universe.difference(seen_sets(seen@)).len() + queue@.len();
            let node = match queue.pop_front() {
                Some(node) => node,
                None => { break; },
            };
            let mut solver = encode_model(&problem, &num);
            if node.vars.len() > 0 {
                let last = node.vars[node.vars.len() - 1];
                let ghost before = sat_clauses(solver);
                let unit = vec![(last, false)];
                let ghost unit_view = unit@;
                add_keeping(&mut solver, unit);
                proof { lemma_base_kept(&num, problem, before, unit_view); }
            }
            let ghost is_root = root_pending;
            proof { root_pending = false; }
            match sat_solve(&mut solver) {
                Ok(true) => {},
                Ok(false) => {
                    proof {
                        if is_root {
                            assert(node.vars@.len() == 0);
                            assert forall|a: Seq<usize>| !#[trigger] is_feasible_assignment(problem, a) by {
                                if is_feasible_assignment(problem, a) {
                                    lemma_model_of_consistent(&num, a);
                                    assert forall|k: int| 0 <= k < sat_clauses(solver).len() implies clause_holds(model_of(&num, a), #[trigger] sat_clauses(solver)[k]) by {
                                        assert(holds_for_feasible(&num, problem, sat_clauses(solver)[k]));
                                    }
                                    assert(is_model_of(model_of(&num, a), sat_clauses(solver)));
                                }
                            }
                        }
                    }
                    continue;
                },
                Err(_) => { return None; },
            }
            let model = match sat_model(&solver) {
                Some(m) => m,
                None => { return None; },
            };
            let sol = read_assignment(&problem, &num, &model, Ghost(sat_clauses(solver)));
            let score = cost_of(&problem, &sol);
            let ghost prev_met = met;
            proof {
                met = met.push(sol@);
                assert(met.drop_last() =~= prev_met);
            }
            let improves = match bound { Some(b) => score < b, None => true };
            if improves {
                bound = Some(score);
                best = copy_assignment(&sol);
            }
            proof {
                if prev_met.len() == 0 {
                    assert(best@ == sol@);
                }
            }
            let mut q: usize = 0;
            while q < n
                invariant
                    !root_pending,
                    bound is Some,
                    num.wf(problem.requests()),
                    n == problem.requests().len(),
                    nv == num.n(),
                    width == nv + 1,
                    universe == subsets_below(width),
                    universe.finite(),
                    is_feasible_assignment(problem, sol@),
                    node.mask@.len() == width,
                    forall|t: int| 0 <= t < node.vars@.len() ==> 1 <= #[trigger] node.vars@[t] <= nv,
                    q <= n,
                    forall|i: int| 0 <= i < queue@.len() ==> (#[trigger] queue@[i]).mask@.len() == width
                        && forall|t: int| 0 <= t < queue@[i].vars@.len() ==> 1 <= #[trigger] queue@[i].vars@[t] <= nv,
                    forall|i: int| 0 <= i < seen@.len() ==> (#[trigger] seen@[i])@.len() == width,
                    seen_sets(seen@).subset_of(universe),
                    2 * universe.difference(seen_sets(seen@)).len() + queue@.len() + 1 <= m0,
                    bound matches Some(b) ==> b == assignment_cost(problem, best@) && met.len() > 0 && best@ == cheapest_met(problem, met),
                    forall|i: int| 0 <= i < met.len() ==> is_feasible_assignment(problem, #[trigger] met[i]),
                decreases n - q,
            {
                proof { assert(sol@[q as int] < problem.requests()[q as int].len()); }
                let var = num.var_of[q][sol[q]];
                let mut vars = copy_assignment(&node.vars);
                vars.push(var);
                let mut mask = copy_mask(&node.mask);
                mask.set(var, true);
                if !seen_contains(&seen, &mask) {
                    let ghost before = seen@;
                    proof {
                        let ms = mask_set(mask@);
                        assert(within(ms, width));
                        lemma_subsets_below_complete(width, ms);
                        if seen_sets(before).contains(ms) {
                            let i = choose|i: int| 0 <= i < before.len() && ms == mask_set((#[trigger] before[i])@);
                            assert(mask@ =~= before[i]@) by {
                                assert forall|t: int| 0 <= t < mask@.len() implies mask@[t] == before[i]@[t] by {
                                    assert(mask_set(mask@).contains(t) == mask@[t]);
                                    assert(mask_set(before[i]@).contains(t) == before[i]@[t]);
                                }
                            }
                        }
                        assert(universe.difference(seen_sets(before).insert(ms)) =~= universe.difference(seen_sets(before)).remove(ms));
                        vstd::set_lib::lemma_len_subset(universe.difference(seen_sets(before)), universe);
                    }
                    seen.push(copy_mask(&mask));
                    proof {
                        assert(seen_sets(seen@) =~= seen_sets(before).insert(mask_set(mask@))) by {
                            assert forall|st: Set<int>| seen_sets(seen@).contains(st) implies seen_sets(before).insert(mask_set(mask@)).contains(st) by {
                                let i = choose|i: int| 0 <= i < seen@.len() && st == mask_set((#[trigger] seen@[i])@);
                                if i < before.len() { assert(seen@[i] == before[i]); }
                            }
                            assert forall|st: Set<int>| seen_sets(before).contains(st) implies seen_sets(seen@).contains(st) by {
                                let i = choose|i: int| 0 <= i < before.len() && st == mask_set((#[trigger] before[i])@);
                                assert(seen@[i] == before[i]);
                            }
                            assert(seen@[before.len() as int]@ == mask@);
                        }
                    }
                    queue.push_front(BruteNode { vars, mask });
                }
                q = q + 1;
            }
        }
        proof {
            if bound is None {
                assert(assignment_map(best@) =~= Map::<usize, usize>::empty());
            }
        }
        let out = to_map(&best);
        proof {
            assert(!root_pending);
            if bound is Some {
                assert(met.len() > 0 && out@ == assignment_map(cheapest_met(problem, met)));
            }
            if bound is Some {
                assert(is_feasible_assignment(problem, best@) && out@ == assignment_map(best@));
            } else {
                assert(out@ =~= Map::<usize, usize>::empty());
                assert(forall|a: Seq<usize>| !#[trigger] is_feasible_assignment(problem, a));
            }
        }
        Some(out)
    }

    /// Finds a feasible assignment of least total score: every time the
    /// boolean solver proposes an assignment, either it is the cheapest so
    /// far and the next must make some request cheaper, or it is not and it
    /// is ruled out; when no proposal is left the cheapest one found is
    /// optimal. `Some` of that assignment (empty when there is none).
    pub fn from_hill_climber_with_optimality_proof(problem: SparseScheduleConflictHillClimber) -> (r: Option<HashMap<usize, usize>>)
        requires
            total_alternatives(problem.requests()) < MAX_SAT_VAR,
        ensures
            r is Some,
            r matches Some(best) ==>
                (exists|s: Seq<usize>| is_feasible_assignment(problem, s) && best@ == assignment_map(s)
                    && forall|a: Seq<usize>| #[trigger] is_feasible_assignment(problem, a) ==> assignment_cost(problem, a) >= assignment_cost(problem, s))
                || (best@ == Map::<usize, usize>::empty() && forall|a: Seq<usize>| !#[trigger] is_feasible_assignment(problem, a)),
    {
        let n0 = problem.num_requests();
        let num = number_alternatives(&problem);
        let nv = num.options.len();
        let ghost nvars = (nv + 1) as nat;
        let mut solver = encode_model(&problem, &num);
        let mut bound: Option<i128> = None;
        let mut best: Vec<usize> = Vec::new();
        let ghost mut learned: Seq<Seq<(usize, bool)>> = Seq::empty();
        loop
            invariant_except_break
                sat_usable(solver),
            invariant
                num.wf(problem.requests()),
                nv == num.n(),
                nvars == nv + 1,
                problem.scores().len() == problem.requests().len(),
                forall|q2: int| 0 <= q2 < problem.requests().len() ==> (#[trigger] problem.scores()[q2]).len() == problem.requests()[q2].len(),
                base_clauses_in(&num, problem, sat_clauses(solver)),
                forall|k: int| 0 <= k < sat_clauses(solver).len() ==>
                    holds_for_cheaper(&num, problem, #[trigger] sat_clauses(solver)[k], match bound { Some(b) => Some(b as int), None => None }),
                forall|k: int| 0 <= k < learned.len() ==> sat_clauses(solver).contains(#[trigger] learned[k]),
                forall|k: int, t: int| 0 <= k < learned.len() && 0 <= t < learned[k].len() ==> (#[trigger] learned[k][t]).0 < nvars,
                bound matches Some(b) ==> is_feasible_assignment(problem, best@) && b == assignment_cost(problem, best@),
                bound is None ==> best@.len() == 0,
            ensures
                forall|a: Seq<usize>| #[trigger] is_feasible_assignment(problem, a) ==>
                    (bound matches Some(b) && assignment_cost(problem, a) >= b),
            decreases satisfying_subsets(nvars, learned).len(),
        {
            match sat_solve(&mut solver) {
                Ok(true) => {},
                Ok(false) => {
                    proof {
                        assert forall|a: Seq<usize>| #[trigger] is_feasible_assignment(problem, a) implies
                            (bound matches Some(b) && assignment_cost(problem, a) >= b) by {
                            if bound is None || assignment_cost(problem, a) < bound.unwrap() {
                                lemma_model_of_consistent(&num, a);
                                assert forall|k: int| 0 <= k < sat_clauses(solver).len() implies clause_holds(model_of(&num, a), #[trigger] sat_clauses(solver)[k]) by {
                                    assert(holds_for_cheaper(&num, problem, sat_clauses(solver)[k], match bound { Some(b) => Some(b as int), None => None }));
                                }
                                assert(is_model_of(model_of(&num, a), sat_clauses(solver)));
                            }
                        }
                    }
                    break;
                },
                Err(_) => { return None; },
            }
            let model = match sat_model(&solver) {
                Some(m) => m,
                None => { return None; },
            };
            let ghost cs = sat_clauses(solver);
            let sol = read_assignment(&problem, &num, &model, Ghost(cs));
            let ghost solv = sol@;
            proof { assert(is_feasible_assignment(problem, solv)); }
            let score = cost_of(&problem, &sol);
            let improves = match bound { Some(b) => score < b, None => true };
            let clause = if improves {
                bound = Some(score);
                best = copy_assignment(&sol);
                better_clause(&problem, &num, &sol)
            } else {
                elim_clause(&problem, &num, &sol)
            };
            let ghost c = clause@;
            proof {
                // Termination: the new clause fails under the proposal.
                let sset = positive_vars(model@, nvars);
                assert(within(sset, nvars));
                assert forall|k: int| 0 <= k < learned.len() implies set_satisfies(sset, #[trigger] learned[k]) by {
                    let j = choose|j: int| 0 <= j < cs.len() && cs[j] == learned[k];
                    assert(crate::sat_backend::all_clauses_hold(model@, cs));
                    assert(clause_holds(model@, cs[j]));
                    lemma_model_set_sat(model@, learned[k], nvars);
                }
                if set_satisfies(sset, c) {
                    let t = choose|t: int| 0 <= t < c.len() && (if (#[trigger] c[t]).1 { sset.contains(c[t].0 as int) } else { !sset.contains(c[t].0 as int) });
                    let x = num.options@[c[t].0 - 1];
                    assert(num.var(x) == c[t].0);
                    assert(valid_id(problem.requests(), x));
                    if improves {
                        assert(model@.contains((num.var(x), true)));
                    } else {
                        assert(!model@.contains((num.var(x), true)));
                    }
                }
                lemma_satisfying_shrink(nvars, learned, c, sset);
                // Every cheaper feasible assignment satisfies the new clause.
                assert forall|a: Seq<usize>| #[trigger] is_feasible_assignment(problem, a) && (bound matches Some(b) ==> assignment_cost(problem, a) < b)
                    implies clause_holds(model_of(&num, a), c) by {
                    if improves {
                        assert(a.len() == solv.len());
                        assert(a.map_values(|x: usize| Some(x)).take(a.len() as int) =~= a.map_values(|x: usize| Some(x)));
                        assert(solv.map_values(|x: usize| Some(x)).take(a.len() as int) =~= solv.map_values(|x: usize| Some(x)));
                        lemma_cheaper_somewhere(problem, a, solv, a.len() as int);
                        let q = choose|q: int| 0 <= q < a.len() && problem.scores()[q][a[q] as int] < problem.scores()[q][solv[q] as int];
                        let x = (q as usize, a[q]);
                        assert(c.contains((num.var(x), true)));
                        lemma_model_of(&num, problem, a, x, true);
                        let t = choose|t: int| 0 <= t < c.len() && c[t] == (num.var(x), true);
                        assert(model_of(&num, a).contains(c[t]));
                    } else {
                        assert(assignment_cost(problem, a) < assignment_cost(problem, solv));
                        assert(a.len() == solv.len());
                        assert(!(a =~= solv));
                        let q = choose|q: int| 0 <= q < a.len() && a[q] != solv[q];
                        let x = (q as usize, solv[q]);
                        assert(c.contains((num.var(x), false)));
                        lemma_model_of(&num, problem, a, x, false);
                        let t = choose|t: int| 0 <= t < c.len() && c[t] == (num.var(x), false);
                        assert(model_of(&num, a).contains(c[t]));
                    }
                }
            }
            let ghost before = sat_clauses(solver);
            add_keeping(&mut solver, clause);
            proof {
                lemma_base_kept(&num, problem, before, c);
                assert forall|k: int| 0 <= k < sat_clauses(solver).len() implies
                    holds_for_cheaper(&num, problem, #[trigger] sat_clauses(solver)[k], match bound { Some(b) => Some(b as int), None => None }) by {
                    if k < before.len() {
                        assert(sat_clauses(solver)[k] == before[k]);
                    }
                }
                assert forall|k: int| 0 <= k < learned.push(c).len() implies sat_clauses(solver).contains(#[trigger] learned.push(c)[k]) by {
                    if k == learned.len() { assert(sat_clauses(solver)[before.len() as int] == c); }
                    else { assert(learned.push(c)[k] == learned[k]); }
                }
                learned = learned.push(c);
            }
        }
        proof {
            if bound is Some {
                assert(is_feasible_assignment(problem, best@));
            } else {
                assert(assignment_map(best@) =~= Map::<usize, usize>::empty());
            }
        }
        Some(to_map(&best))
    }
}

/// A copy of `v`.
fn copy_assignment(v: &Vec<usize>) -> (r: Vec<usize>)
    ensures
        r@ == v@,
{
    let mut out: Vec<usize> = Vec::new();
    let mut i: usize = 0;
    while i < v.len()
        invariant
            i <= v@.len(),
            out@ == v@.take(i as int),
        decreases v@.len() - i,
    {
        out.push(v[i]);
        proof { assert(out@ =~= v@.take(i + 1)); }
        i = i + 1;
    }
    proof { assert(v@.take(v@.len() as int) =~= v@); }
    out
}

proof fn lemma_base_kept(num: &Numbering, h: SparseScheduleConflictHillClimber, before: Seq<Seq<(usize, bool)>>, c: Seq<(usize, bool)>)
    requires
        base_clauses_in(num, h, before),
    ensures
        base_clauses_in(num, h, before.push(c)),
{
    lemma_one_of_kept(num, h.requests().len() as int, before, c);
    assert forall|q: int, a1: int, a2: int| 0 <= q < h.requests().len() && 0 <= a1 < a2 < h.requests()[q].len() implies
        before.push(c).contains(seq![(#[trigger] num.var_of@[q]@[a1], false), (#[trigger] num.var_of@[q]@[a2], false)]) by {
        let x = seq![(num.var_of@[q]@[a1], false), (num.var_of@[q]@[a2], false)];
        let k = choose|k: int| 0 <= k < before.len() && before[k] == x;
        assert(before.push(c)[k] == x);
    }
    assert forall|x: (usize, usize), y: (usize, usize)| valid_id(h.requests(), x) && #[trigger] h.conflict_set(x).contains(y) implies
        before.push(c).contains(seq![(num.var(x), false), (num.var(y), false)]) by {
        let z = seq![(num.var(x), false), (num.var(y), false)];
        let k = choose|k: int| 0 <= k < before.len() && before[k] == z;
        assert(before.push(c)[k] == z);
    }
}

/// A search node: the alternatives banned so far, in order (only the last
/// one is in force), and their set.
struct BruteNode {
    vars: Vec<usize>,
    mask: Vec<bool>,
}

/// The variables set in `mask`.
spec fn mask_set(mask: Seq<bool>) -> Set<int> {
    Set::new(|v: int| 0 <= v < mask.len() && mask[v])
}

/// The variable sets of `seen`.
spec fn seen_sets(seen: Seq<Vec<bool>>) -> Set<Set<int>> {
    Set::new(|s: Set<int>| exists|i: int| 0 <= i < seen.len() && s == mask_set((#[trigger] seen[i])@))
}

/// A copy of `v`.
fn copy_mask(v: &Vec<bool>) -> (r: Vec<bool>)
    ensures
        r@ == v@,
{
    let mut out: Vec<bool> = Vec::new();
    let mut i: usize = 0;
    while i < v.len()
        invariant
            i <= v@.len(),
            out@ == v@.take(i as int),
        decreases v@.len() - i,
    {
        out.push(v[i]);
        proof { assert(out@ =~= v@.take(i + 1)); }
        i = i + 1;
    }
    proof { assert(v@.take(v@.len() as int) =~= v@); }
    out
}

/// Whether `seen` holds `mask`.
fn seen_contains(seen: &Vec<Vec<bool>>, mask: &Vec<bool>) -> (r: bool)
    ensures
        r == exists|i: int| 0 <= i < seen@.len() && (#[trigger] seen@[i])@ == mask@,
{
    let mut i: usize = 0;
    while i < seen.len()
        invariant
            i <= seen@.len(),
            forall|j: int| 0 <= j < i ==> (#[trigger] seen@[j])@ != mask@,
        decreases seen@.len() - i,
    {
        let s = &seen[i];
        if s.len() == mask.len() {
            let mut k: usize = 0;
            let mut same = true;
            while k < s.len()
                invariant
                    s@.len() == mask@.len(),
                    k <= s@.len(),
                    same == forall|t: int| 0 <= t < k ==> s@[t] == mask@[t],
                decreases s@.len() - k,
            {
                if s[k] != mask[k] {
                    same = false;
                }
                k = k + 1;
            }
            if same {
                proof { assert(s@ =~= mask@); }
                return true;
            }
            proof {
                let t = choose|t: int| 0 <= t < s@.len() && s@[t] != mask@[t];
            }
        }
        i = i + 1;
    }
    false
}

/// 2014-07-08 09:10:11 UTC, in milliseconds since the Unix epoch.
pub const SAT_DEVIL_START: i64 = 1404810611000;

/// A scenario hard for boolean solvers: `n_resources` resources named by
/// their number, and `n_resources` requests of `n_alt` alternatives each, all
/// at the same time for 100 seconds; alternative `j` of request `i` uses
/// resource `(i + j) % n_resources` and costs `j`.
pub fn generate_sat_devil(n_resources: usize, n_alt: usize) -> (r: (Vec<Vec<ReservationRequestAlternative>>, Vec<String>))
    requires
        n_alt <= i64::MAX,
        n_resources + n_alt <= usize::MAX,
    ensures
        r.1@.len() == n_resources,
        forall|i: int| 0 <= i < n_resources ==> (#[trigger] r.1@[i])@ == number_label(i as usize),
        r.0@.len() == n_resources,
        forall|i: int| 0 <= i < n_resources ==> (#[trigger] r.0@[i])@.len() == n_alt,
        forall|i: int, j: int| 0 <= i < n_resources && 0 <= j < n_alt ==> {
            let alt = #[trigger] r.0@[i]@[j];
            &&& alt.parameters.resource_name@ == number_label(((i + j) % (n_resources as int)) as usize)
            &&& alt.parameters.duration == Some(100000i64)
            &&& alt.parameters.start_time.earliest_start == Some(SAT_DEVIL_START)
            &&& alt.parameters.start_time.latest_start == Some(SAT_DEVIL_START)
        },
{
    let mut names: Vec<String> = Vec::new();
    let mut i: usize = 0;
    while i < n_resources
        invariant
            i <= n_resources,
            names@.len() == i,
            forall|k: int| 0 <= k < i ==> (#[trigger] names@[k])@ == number_label(k as usize),
        decreases n_resources - i,
    {
        names.push(format_number(i));
        i = i + 1;
    }
    let mut requests: Vec<Vec<ReservationRequestAlternative>> = Vec::new();
    let mut i: usize = 0;
    while i < n_resources
        invariant
            n_alt <= i64::MAX,
            n_resources + n_alt <= usize::MAX,
            i <= n_resources,
            names@.len() == n_resources,
            forall|k: int| 0 <= k < n_resources ==> (#[trigger] names@[k])@ == number_label(k as usize),
            requests@.len() == i,
            forall|k: int| 0 <= k < i ==> (#[trigger] requests@[k])@.len() == n_alt,
            forall|k: int, j: int| 0 <= k < i && 0 <= j < n_alt ==> {
                let alt = #[trigger] requests@[k]@[j];
                &&& alt.parameters.resource_name@ == number_label(((k + j) % (n_resources as int)) as usize)
                &&& alt.parameters.duration == Some(100000i64)
                &&& alt.parameters.start_time.earliest_start == Some(SAT_DEVIL_START)
                &&& alt.parameters.start_time.latest_start == Some(SAT_DEVIL_START)
            },
        decreases n_resources - i,
    {
        let mut row: Vec<ReservationRequestAlternative> = Vec::new();
        let mut j: usize = 0;
        while j < n_alt
            invariant
                n_alt <= i64::MAX,
                n_resources + n_alt <= usize::MAX,
                i < n_resources,
                j <= n_alt,
                names@.len() == n_resources,
                forall|k: int| 0 <= k < n_resources ==> (#[trigger] names@[k])@ == number_label(k as usize),
                row@.len() == j,
                forall|j2: int| 0 <= j2 < j ==> {
                    let alt = #[trigger] row@[j2];
                    &&& alt.parameters.resource_name@ == number_label(((i + j2) % (n_resources as int)) as usize)
                    &&& alt.parameters.duration == Some(100000i64)
                    &&& alt.parameters.start_time.earliest_start == Some(SAT_DEVIL_START)
                    &&& alt.parameters.start_time.latest_start == Some(SAT_DEVIL_START)
                },
            decreases n_alt - j,
        {
            let k = (i + j) % n_resources;
            let start = SAT_DEVIL_START;
            row.push(ReservationRequestAlternative {
                parameters: ReservationParameters {
                    resource_name: names[k].clone(),
                    duration: Some(100000),
                    start_time: StartTimeRange::exactly_at(&start),
                },
                cost_function: SharedCostFunction::from_static(j as i64),
            });
            j = j + 1;
        }
        requests.push(row);
        i = i + 1;
    }
    (requests, names)
}
} // verus!
