//! Solvers for reservation problems, and the messages they report.

pub mod hierarchical_kuhn_munkres;
pub mod kuhn_munkres;
pub mod sat;
pub mod sat_flexible_time_model;
pub mod sat_teg;

use vstd::prelude::*;
use std::collections::HashMap;
use std::sync::atomic::AtomicBool;
use std::sync::atomic::Ordering;
use std::sync::mpsc::Sender;
use std::sync::Arc;
use crate::algorithms::sat_flexible_time_model::ResourceSchedules;

verus! {

#[verifier::external_type_specification]
#[verifier::external_body]
#[verifier::reject_recursive_types(T)]
pub struct ExSender<T>(Sender<T>);

/// What a solver reports.
#[derive(Debug)]
pub enum AlgorithmState {
    /// A schedule that meets every constraint.
    FeasibleScheduleSolution(ResourceSchedules),
    /// The last schedule found before the solver could not improve it.
    OptimalScheduleSolution(ResourceSchedules),
    /// An optimal choice of alternative per request.
    OptimalSolution(HashMap<usize, usize>),
    /// A choice of alternative per request, and its cost.
    PartialSolution(HashMap<usize, usize>, i64),
    /// Nothing found yet.
    NotFound,
    /// The problem has no solution.
    UnSolveable,
}

impl Clone for AlgorithmState {
    fn clone(&self) -> (r: Self)
        ensures
            (self is FeasibleScheduleSolution) == (r is FeasibleScheduleSolution),
            (self is OptimalScheduleSolution) == (r is OptimalScheduleSolution),
            (self is OptimalSolution) == (r is OptimalSolution),
            (self is PartialSolution) == (r is PartialSolution),
            (self is NotFound) == (r is NotFound),
            (self is UnSolveable) == (r is UnSolveable),
            self matches AlgorithmState::FeasibleScheduleSolution(s) ==> r matches AlgorithmState::FeasibleScheduleSolution(t) && t@ == s@,
            self matches AlgorithmState::OptimalScheduleSolution(s) ==> r matches AlgorithmState::OptimalScheduleSolution(t) && t@ == s@,
            self matches AlgorithmState::OptimalSolution(s) ==> r matches AlgorithmState::OptimalSolution(t) && t@ == s@,
            self matches AlgorithmState::PartialSolution(s, c) ==> r matches AlgorithmState::PartialSolution(t, d) && t@ == s@ && d == c,
    {
        match self {
            AlgorithmState::FeasibleScheduleSolution(s) => AlgorithmState::FeasibleScheduleSolution(s.duplicate()),
            AlgorithmState::OptimalScheduleSolution(s) => AlgorithmState::OptimalScheduleSolution(s.duplicate()),
            AlgorithmState::OptimalSolution(s) => AlgorithmState::OptimalSolution(s.clone()),
            AlgorithmState::PartialSolution(s, c) => AlgorithmState::PartialSolution(s.clone(), *c),
            AlgorithmState::NotFound => AlgorithmState::NotFound,
            AlgorithmState::UnSolveable => AlgorithmState::UnSolveable,
        }
    }
}

/// A pool of solvers goes on while its best proposal is partial or absent.
pub open spec fn keeps_running(state: AlgorithmState) -> bool {
    state is PartialSolution || state is NotFound
}

/// A partial solution stays the best proposal against a partial solution that
/// costs as much or more; any other report takes its place.
pub open spec fn merged(current: AlgorithmState, incoming: AlgorithmState) -> AlgorithmState {
    if current matches AlgorithmState::PartialSolution(_, c) && incoming matches AlgorithmState::PartialSolution(_, d) && d >= c {
        current
    } else {
        incoming
    }
}

/// Once a report is merged in, the pool goes on exactly when that report alone
/// would let it go on: whatever it keeps is partial when the report is, and is
/// the report otherwise. Of two partial solutions it keeps the cheaper one,
/// the one it had on a tie.
pub proof fn lemma_merge_decides_by_report(current: AlgorithmState, incoming: AlgorithmState)
    ensures
        keeps_running(merged(current, incoming)) == keeps_running(incoming),
        (match (current, incoming) {
            (AlgorithmState::PartialSolution(_, c), AlgorithmState::PartialSolution(_, d)) =>
                merged(current, incoming) matches AlgorithmState::PartialSolution(_, e) && e == (if d < c { d } else { c }),
            _ => true,
        }),
{
}

/// Whether a pool of solvers keeps running once `state` is the best proposal:
/// only while it has nothing or a partial solution.
pub fn should_continue(state: &AlgorithmState) -> (r: bool)
    ensures
        r == keeps_running(*state),
{
    match state {
        AlgorithmState::FeasibleScheduleSolution(_) => false,
        AlgorithmState::OptimalScheduleSolution(_) => false,
        AlgorithmState::OptimalSolution(_) => false,
        AlgorithmState::PartialSolution(_, _) => true,
        AlgorithmState::NotFound => true,
        AlgorithmState::UnSolveable => false,
    }
}

/// The proposal kept when `incoming` arrives while `current` is the best: a
/// partial solution replaces a partial solution only when it costs strictly
/// less; any other report replaces the current one.
pub fn merge_proposal(current: AlgorithmState, incoming: AlgorithmState) -> (r: AlgorithmState)
    ensures
        r == merged(current, incoming),
{
    let keep = match (&current, &incoming) {
        (AlgorithmState::PartialSolution(_, c), AlgorithmState::PartialSolution(_, d)) => *d >= *c,
        _ => false,
    };
    if keep { current } else { incoming }
}

/// The choice of alternative per request of a proposal, if it has one.
pub fn best_fixed_time_solution(state: &AlgorithmState) -> (r: Option<HashMap<usize, usize>>)
    ensures
        state matches AlgorithmState::OptimalSolution(s) ==> r matches Some(t) && t@ == s@,
        state matches AlgorithmState::PartialSolution(s, _) ==> r matches Some(t) && t@ == s@,
        !(state is OptimalSolution || state is PartialSolution) ==> r is None,
{
    match state {
        AlgorithmState::OptimalSolution(s) => Some(s.clone()),
        AlgorithmState::PartialSolution(s, _) => Some(s.clone()),
        _ => None,
    }
}

/// The schedule of a proposal, if it has one: a feasible schedule, or the
/// last (feasible) schedule of the optimisation rounds.
pub fn feasible_schedule(state: &AlgorithmState) -> (r: Option<ResourceSchedules>)
    ensures
        state matches AlgorithmState::FeasibleScheduleSolution(s) ==> r matches Some(t) && t@ == s@,
        state matches AlgorithmState::OptimalScheduleSolution(s) ==> r matches Some(t) && t@ == s@,
        !(state is FeasibleScheduleSolution || state is OptimalScheduleSolution) ==> r is None,
{
    match state {
        AlgorithmState::FeasibleScheduleSolution(s) => Some(s.duplicate()),
        AlgorithmState::OptimalScheduleSolution(s) => Some(s.duplicate()),
        _ => None,
    }
}

/// A solver that reports its progress on `result_channel` and gives up when
/// `stop` is raised. Implemented by users of the library.
pub trait SolverAlgorithm<P> {
    /// Solves `problem`, reporting on `result_channel`.
    fn iterative_solve(&self, result_channel: Sender<AlgorithmState>, stop: Arc<AtomicBool>, problem: P);
}

/// `Sender::send`: hands `state` to the receiving end. A closed channel is
/// ignored.
#[verifier::external_body]
pub fn send_state(channel: &Sender<AlgorithmState>, state: AlgorithmState) {
    let _ = channel.send(state);
}

/// Whether a stop was requested on `stop`.
pub fn stop_requested(stop: &Arc<AtomicBool>) -> bool {
    stop.load(Ordering::Relaxed)
}

} // verus!
