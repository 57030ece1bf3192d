//! Resource reservation and scheduling for multi-robot systems.
//!
//! A robot asks for one of several alternative reservations (a resource, a
//! duration and a window of acceptable start times, each with a cost); the
//! solvers in [`algorithms`] pick alternatives and start times so that no two
//! granted reservations overlap on the same resource.
//!
//! Times are integer milliseconds since the Unix epoch and durations are integer
//! milliseconds. Costs are integers.

pub mod algorithms;
pub mod database;
pub mod discretization;
pub mod graph;
pub mod request;
pub mod scenario_generation;
pub mod sat_backend;
pub mod schedule;
pub mod text;
pub mod utils;
pub mod wait_points;

pub use request::{
    CostFunction, CustomCost, ReservationParameters, ReservationRequestAlternative, SharedCostFunction,
    StartTimeRange, StaticCost, TimeAsCost,
};
