//! The boolean satisfiability solver (`varisat`), seen through clauses of
//! `(variable index, polarity)` literals.

use vstd::prelude::*;
use varisat::{ExtendFormula, Lit, Solver};

verus! {

/// Largest variable index the solver accepts.
pub const MAX_SAT_VAR: usize = 268435455;

#[verifier::external_type_specification]
#[verifier::external_body]
pub struct ExSolver<'a>(Solver<'a>);

/// The clauses added to the solver so far.
pub uninterp spec fn sat_clauses(s: Solver<'static>) -> Seq<Seq<(usize, bool)>>;

/// The solver has not met an unrecoverable error.
pub uninterp spec fn sat_usable(s: Solver<'static>) -> bool;

/// The last solve found the formula satisfiable, and no clause was added since.
pub uninterp spec fn sat_found(s: Solver<'static>) -> bool;

/// Every literal of `c` names a variable the solver accepts.
pub open spec fn lits_in_range(c: Seq<(usize, bool)>) -> bool {
    forall|i: int| 0 <= i < c.len() ==> #[trigger] c[i].0 <= MAX_SAT_VAR
}

/// No variable occurs with both polarities in `m`.
pub open spec fn model_consistent(m: Seq<(usize, bool)>) -> bool {
    forall|i: int, j: int| 0 <= i < m.len() && 0 <= j < m.len() && #[trigger] m[i].0 == #[trigger] m[j].0 ==> m[i].1 == m[j].1
}

/// Some literal of clause `c` is in `m`.
pub open spec fn clause_holds(m: Seq<(usize, bool)>, c: Seq<(usize, bool)>) -> bool {
    exists|i: int| 0 <= i < c.len() && m.contains(#[trigger] c[i])
}

/// Every clause of `cs` holds in `m`.
pub open spec fn all_clauses_hold(m: Seq<(usize, bool)>, cs: Seq<Seq<(usize, bool)>>) -> bool {
    forall|k: int| 0 <= k < cs.len() ==> clause_holds(m, #[trigger] cs[k])
}

/// `m` is a consistent set of literals satisfying the clauses.
pub open spec fn is_model_of(m: Seq<(usize, bool)>, cs: Seq<Seq<(usize, bool)>>) -> bool {
    &&& model_consistent(m)
    &&& all_clauses_hold(m, cs)
}

/// `varisat::Solver::new`: an empty formula.
#[verifier::external_body]
pub fn sat_new() -> (s: Solver<'static>)
    ensures
        sat_clauses(s) == Seq::<Seq<(usize, bool)>>::empty(),
        sat_usable(s),
{
    Solver::new()
}

/// `ExtendFormula::add_clause` on the solver: the clause joins the formula.
#[verifier::external_body]
pub fn sat_add_clause(s: &mut Solver<'static>, clause: &Vec<(usize, bool)>)
    requires
        lits_in_range(clause@),
    ensures
        sat_clauses(*final(s)) == sat_clauses(*old(s)).push(clause@),
        sat_usable(*final(s)) == sat_usable(*old(s)),
{
    let lits: Vec<Lit> = clause.iter().map(|&(v, p)| Lit::from_index(v, p)).collect();
    s.add_clause(&lits);
}

/// `varisat::Solver::solve`: `Ok(true)` when some consistent set of literals
/// satisfies the clauses, `Ok(false)` when none does; the formula is unchanged.
/// It errs only when writing or checking a proof fails, or when interrupted;
/// the solvers made here write no proof and are never interrupted, so it
/// always answers.
#[verifier::external_body]
pub fn sat_solve(s: &mut Solver<'static>) -> (r: Result<bool, ()>)
    requires
        sat_usable(*old(s)),
    ensures
        r is Ok,
        sat_clauses(*final(s)) == sat_clauses(*old(s)),
        r is Ok ==> sat_usable(*final(s)),
        r == Ok::<bool, ()>(true) ==> sat_found(*final(s)),
        r == Ok::<bool, ()>(false) ==> !exists|m: Seq<(usize, bool)>| is_model_of(m, sat_clauses(*old(s))),
        r == Ok::<bool, ()>(true) ==> exists|m: Seq<(usize, bool)>| is_model_of(m, sat_clauses(*old(s))),
{
    match s.solve() {
        Ok(b) => Ok(b),
        Err(_) => Err(()),
    }
}

/// No variable occurs twice in `m`.
pub open spec fn distinct_vars(m: Seq<(usize, bool)>) -> bool {
    forall|i: int, j: int| 0 <= i < m.len() && 0 <= j < m.len() && i != j ==> #[trigger] m[i].0 != #[trigger] m[j].0
}

/// `varisat::Solver::model`: when present, a set of literals, one per
/// assigned variable, that satisfies every clause of the formula; it is
/// present exactly after a solve that found the formula satisfiable, with no
/// clause added since.
#[verifier::external_body]
pub fn sat_model(s: &Solver<'static>) -> (r: Option<Vec<(usize, bool)>>)
    ensures
        sat_found(*s) ==> r is Some,
        r matches Some(m) ==> is_model_of(m@, sat_clauses(*s)) && distinct_vars(m@),
{
    match s.model() {
        Some(lits) => Some(lits.iter().map(|l| (l.var().index(), l.is_positive())).collect()),
        None => None,
    }
}

} // verus!
