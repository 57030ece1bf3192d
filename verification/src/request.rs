//! Reservation requests: start-time windows, parameters and alternatives.

use vstd::prelude::*;
use std::sync::Arc;

verus! {

/// Constraints on the start time, in milliseconds since the Unix epoch.
#[derive(Copy, Clone, Debug, PartialEq, Eq, Structural)]
pub struct StartTimeRange {
    /// Earliest start time. `None` means there is no earliest time.
    pub earliest_start: Option<i64>,
    /// Latest start time. `None` means there is no latest time.
    pub latest_start: Option<i64>,
}

impl StartTimeRange {
    /// A time range with no constraint at all.
    pub fn no_specifics() -> (r: Self)
        ensures
            r.earliest_start is None,
            r.latest_start is None,
    {
        Self { earliest_start: None, latest_start: None }
    }

    /// A time range which starts exactly at `time`.
    pub fn exactly_at(time: &i64) -> (r: Self)
        ensures
            r.earliest_start == Some(*time),
            r.latest_start == Some(*time),
    {
        Self { earliest_start: Some(*time), latest_start: Some(*time) }
    }
}

/// Parameters of one reservation.
#[derive(Debug)]
pub struct ReservationParameters {
    /// The resource to reserve.
    pub resource_name: String,
    /// Duration in milliseconds. `None` means the reservation never ends.
    pub duration: Option<i64>,
    /// Start time constraints.
    pub start_time: StartTimeRange,
}

impl Clone for ReservationParameters {
    fn clone(&self) -> (r: Self)
        ensures
            r == *self,
    {
        ReservationParameters {
            resource_name: self.resource_name.clone(),
            duration: self.duration,
            start_time: self.start_time,
        }
    }
}

/// A cost model for reservations. Implemented by users of the library.
pub trait CostFunction: Send + Sync {
    /// The cost of a reservation with `parameters` starting at `instant`.
    fn cost(&self, parameters: &ReservationParameters, instant: i64) -> i64;
}

/// A cost that does not depend on the parameters or on the start time.
#[derive(Debug)]
pub struct StaticCost {
    cost: i64,
}

impl StaticCost {
    pub fn new(cost: i64) -> (r: Self)
        ensures
            r.value() == cost,
    {
        Self { cost }
    }

    pub closed spec fn value(&self) -> i64 {
        self.cost
    }
}

impl CostFunction for StaticCost {
    fn cost(&self, _parameters: &ReservationParameters, _instant: i64) -> (r: i64)
        ensures
            r == self.value(),
    {
        self.cost
    }
}

/// A cost equal to the number of whole seconds between the earliest
/// representable instant and the start time: picking it minimises the total time spent.
#[derive(Debug)]
pub struct TimeAsCost {}

/// Earliest instant a reservation can name, in milliseconds since the Unix epoch.
pub const MIN_UTC_MILLIS: i64 = -8334601315200000i64;

impl CostFunction for TimeAsCost {
    fn cost(&self, _parameters: &ReservationParameters, instant: i64) -> (r: i64)
        ensures
            instant >= MIN_UTC_MILLIS ==> r == (instant - MIN_UTC_MILLIS) / 1000,
            instant < MIN_UTC_MILLIS ==> r == 0,
    {
        if instant >= MIN_UTC_MILLIS {
            let since: i128 = (instant as i128) - (MIN_UTC_MILLIS as i128);
            (since / 1000) as i64
        } else {
            0
        }
    }
}

/// A user cost function behind a shared pointer.
///
/// The handle is opaque to the verifier: a trait object cannot be built or
/// copied inside verified code, so the operations on it are trusted.
#[verifier::external_body]
pub struct CustomCost {
    inner: Arc<dyn CostFunction>,
}

impl CustomCost {
    /// Wraps a user cost function (`Arc::new` happens at the caller).
    #[verifier::external_body]
    pub fn new(inner: Arc<dyn CostFunction>) -> Self {
        CustomCost { inner }
    }

    /// Evaluates the user cost function (`CostFunction::cost` through the
    /// trait object). Nothing is promised of the value: it is the user's.
    #[verifier::external_body]
    pub fn cost(&self, parameters: &ReservationParameters, instant: i64) -> i64 {
        self.inner.cost(parameters, instant)
    }
}

impl Clone for CustomCost {
    /// Shares the same cost function (`Arc::clone`): the copy is the same handle.
    #[verifier::external_body]
    fn clone(&self) -> (r: Self)
        ensures
            r == *self,
    {
        CustomCost { inner: self.inner.clone() }
    }
}

/// The cost function of an alternative: one of the library's, or the user's.
pub enum SharedCostFunction {
    /// [`StaticCost`] of this value.
    Static(i64),
    /// [`TimeAsCost`].
    TimeAsCost,
    /// A user cost function.
    Custom(CustomCost),
}

impl Clone for SharedCostFunction {
    fn clone(&self) -> (r: Self)
        ensures
            r == *self,
    {
        match self {
            SharedCostFunction::Static(c) => SharedCostFunction::Static(*c),
            SharedCostFunction::TimeAsCost => SharedCostFunction::TimeAsCost,
            SharedCostFunction::Custom(f) => SharedCostFunction::Custom(f.clone()),
        }
    }
}

/// The cost a library cost function gives a reservation starting at `instant`;
/// `None` for a user cost function.
pub open spec fn known_cost(f: SharedCostFunction, instant: i64) -> Option<i64> {
    match f {
        SharedCostFunction::Static(c) => Some(c),
        SharedCostFunction::TimeAsCost => Some(time_as_cost(instant)),
        SharedCostFunction::Custom(_) => None,
    }
}

/// Whole seconds between the earliest representable instant and `instant`.
pub open spec fn time_as_cost(instant: i64) -> i64 {
    if instant >= MIN_UTC_MILLIS { ((instant - MIN_UTC_MILLIS) / 1000) as i64 } else { 0 }
}

impl SharedCostFunction {
    /// A [`StaticCost`] of `cost`.
    pub fn from_static(cost: i64) -> (r: Self)
        ensures
            r == SharedCostFunction::Static(cost),
    {
        SharedCostFunction::Static(cost)
    }

    /// The cost of a reservation with `parameters` starting at `instant`.
    pub fn cost(&self, parameters: &ReservationParameters, instant: i64) -> (r: i64)
        ensures
            known_cost(*self, instant) matches Some(c) ==> r == c,
    {
        match self {
            SharedCostFunction::Static(c) => StaticCost::new(*c).cost(parameters, instant),
            SharedCostFunction::TimeAsCost => TimeAsCost {}.cost(parameters, instant),
            SharedCostFunction::Custom(f) => f.cost(parameters, instant),
        }
    }
}

/// One possible alternative of a reservation request.
pub struct ReservationRequestAlternative {
    /// The parameters.
    pub parameters: ReservationParameters,
    /// The cost function to use.
    pub cost_function: SharedCostFunction,
}

impl Clone for ReservationRequestAlternative {
    fn clone(&self) -> (r: Self)
        ensures
            r == *self,
    {
        ReservationRequestAlternative {
            parameters: self.parameters.clone(),
            cost_function: self.cost_function.clone(),
        }
    }
}

/// A start at `start` with `duration` satisfies the request of `p`.
pub open spec fn spec_satisfies_request(p: ReservationParameters, start: i64, duration: Option<i64>) -> bool {
    &&& (p.start_time.earliest_start matches Some(e) ==> e <= start)
    &&& (p.start_time.latest_start matches Some(l) ==> start <= l)
    &&& duration == p.duration
}

/// A start at `time` is within the start window of `p`.
pub open spec fn spec_falls_within(p: ReservationParameters, time: i64) -> bool {
    &&& (p.start_time.earliest_start matches Some(e) ==> e <= time)
    &&& (p.start_time.latest_start matches Some(l) ==> time <= l)
}

/// `me` may be scheduled after `other`: `other` has a duration, and, when
/// both windows are bounded on that side, it can end (starting at its earliest)
/// before the latest start of `me`.
pub open spec fn spec_can_be_scheduled_after(me: ReservationParameters, other: ReservationParameters) -> bool {
    match me.start_time.latest_start {
        Some(my_latest) => match other.duration {
            Some(d) => match other.start_time.earliest_start {
                Some(e) => e + d < my_latest,
                None => true,
            },
            None => false,
        },
        None => other.duration is Some,
    }
}

/// `me` must always come after `other`.
pub open spec fn spec_is_always_after(me: ReservationParameters, other: ReservationParameters) -> bool {
    &&& me.start_time.earliest_start is Some
    &&& other.duration is Some
    &&& other.start_time.latest_start is Some
    &&& other.start_time.latest_start.unwrap() < me.start_time.earliest_start.unwrap()
}

impl ReservationRequestAlternative {
    /// Whether starting at `start_time` for `duration` satisfies this alternative.
    pub fn satisfies_request(&self, start_time: &i64, duration: Option<i64>) -> (r: bool)
        ensures
            r == spec_satisfies_request(self.parameters, *start_time, duration),
    {
        if let Some(earliest_start_time) = self.parameters.start_time.earliest_start {
            if earliest_start_time > *start_time {
                return false;
            }
        }
        if let Some(latest_start_time) = self.parameters.start_time.latest_start {
            if latest_start_time < *start_time {
                return false;
            }
        }
        match (duration, self.parameters.duration) {
            (Some(a), Some(b)) => a == b,
            (None, None) => true,
            _ => false,
        }
    }

    /// Whether starting at `time` is within this alternative's start window.
    pub fn falls_within_acceptable_time(&self, time: &i64) -> (r: bool)
        ensures
            r == spec_falls_within(self.parameters, *time),
    {
        if let Some(earliest) = self.parameters.start_time.earliest_start {
            if earliest > *time {
                return false;
            }
        }
        if let Some(latest) = self.parameters.start_time.latest_start {
            if latest < *time {
                return false;
            }
        }
        true
    }

    /// Whether this alternative can be scheduled after the reservation `alternative`.
    pub fn can_be_scheduled_after(&self, alternative: &ReservationParameters) -> (r: bool)
        ensures
            r == spec_can_be_scheduled_after(self.parameters, *alternative),
    {
        if let Some(my_latest) = self.parameters.start_time.latest_start {
            if let Some(dur) = alternative.duration {
                let Some(earliest_start) = alternative.start_time.earliest_start else {
                    return true;
                };
                (earliest_start as i128) + (dur as i128) < (my_latest as i128)
            } else {
                false
            }
        } else {
            alternative.duration.is_some()
        }
    }

    /// Whether this alternative always has to come after the reservation `alternative`.
    pub fn is_always_after(&self, alternative: &ReservationParameters) -> (r: bool)
        ensures
            r == spec_is_always_after(self.parameters, *alternative),
    {
        if let Some(earliest) = self.parameters.start_time.earliest_start {
            if let Some(_duration_alt) = alternative.duration {
                if let Some(alt_latest_start) = alternative.start_time.latest_start {
                    alt_latest_start < earliest
                } else {
                    false
                }
            } else {
                false
            }
        } else {
            false
        }
    }
}

} // verus!
