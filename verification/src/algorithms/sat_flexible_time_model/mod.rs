//! Scheduling with start-time windows by boolean satisfiability: a solver
//! picks one alternative per request and an order on every resource; start
//! times are then packed as early as the windows allow, and orders that cannot
//! be packed are ruled out for the next round.

pub mod checks;
pub mod problem;
pub mod same_time;
pub mod solver;
pub mod schedules;

pub use problem::{PairMap, Problem};
pub use schedules::{Assignment, ResourceSchedules};
pub use checks::{check_consistency, shrink_reservation_request};
pub use same_time::solve_same_time_constraints;
pub use solver::{FlexibleSatError, SATFlexibleTimeModel, MAX_ALTERNATIVES, feasibility_analysis_at, problem_fits, time_optimality_at};
