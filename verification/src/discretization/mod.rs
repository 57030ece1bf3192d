//! Turning start-time windows into lists of fixed start times.

pub mod fixed_timestep;

use vstd::prelude::*;
use crate::request::ReservationRequestAlternative;

verus! {

/// A way to discretize requests: each alternative with a start-time window
/// becomes alternatives at fixed start times.
pub trait DescretizationStrategy {
    /// An equivalent problem whose alternatives start at fixed times.
    fn discretize(&mut self, requests: &Vec<Vec<ReservationRequestAlternative>>) -> Vec<Vec<ReservationRequestAlternative>>;

    /// The request and alternative a discretized `(request, alternative)` stands for.
    fn remap(&self, ticket_id: &(usize, usize)) -> Option<(usize, usize)>;
}

} // verus!
