use chrono::{TimeZone, Utc};
use rmf_reservations::request::MIN_UTC_MILLIS;
use rmf_reservations::schedule::{Assignment, ReservationSchedule};
use rmf_reservations::{ReservationParameters, ReservationRequestAlternative, SharedCostFunction, StartTimeRange};

fn at(h: u32, m: u32, s: u32) -> i64 {
    Utc.with_ymd_and_hms(2023, 7, 8, h, m, s).unwrap().timestamp_millis()
}

fn minutes(m: i64) -> i64 {
    m * 60_000
}

fn alternative(earliest: Option<i64>, latest: Option<i64>, duration: Option<i64>) -> ReservationRequestAlternative {
    ReservationRequestAlternative {
        parameters: ReservationParameters {
            resource_name: "resource1".to_string(),
            start_time: StartTimeRange { earliest_start: earliest, latest_start: latest },
            duration,
        },
        cost_function: SharedCostFunction::from_static(0),
    }
}

#[test]
fn test_satisfies_request() {
    let req = ReservationRequestAlternative {
        parameters: ReservationParameters {
            resource_name: "test".to_string(),
            duration: Some(minutes(30)),
            start_time: StartTimeRange { earliest_start: None, latest_start: None },
        },
        cost_function: SharedCostFunction::from_static(0),
    };

    let start_time = at(6, 10, 11);
    assert!(req.satisfies_request(&start_time, Some(minutes(30))));
    assert!(req.satisfies_request(&start_time, Some(minutes(20))) == false);
    assert!(req.satisfies_request(&start_time, None) == false);

    let req = ReservationRequestAlternative {
        parameters: ReservationParameters {
            resource_name: "test".to_string(),
            duration: Some(minutes(30)),
            start_time: StartTimeRange { earliest_start: Some(at(6, 10, 11)), latest_start: Some(at(8, 10, 11)) },
        },
        cost_function: SharedCostFunction::from_static(0),
    };

    // Too early
    let start_time = at(5, 10, 11);
    assert!(req.satisfies_request(&start_time, Some(minutes(30))) == false);

    // Too late
    let start_time = at(10, 10, 11);
    assert!(req.satisfies_request(&start_time, Some(minutes(30))) == false);

    // OK
    let start_time = at(7, 10, 11);
    assert!(req.satisfies_request(&start_time, Some(minutes(30))));
}

#[test]
fn lib_test_conflict_checker() {
    let indefinite_no_constraints = alternative(None, None, None);
    let indefinite_with_constraints = alternative(Some(at(6, 10, 11)), Some(at(7, 10, 11)), None);
    let definite_request_starting_with_specified_start_time = alternative(Some(at(6, 10, 11)), Some(at(7, 10, 11)), Some(minutes(30)));
    let definite_request_with_no_earliest = alternative(None, Some(at(7, 10, 11)), Some(minutes(30)));
    let definite_request_with_no_latest = alternative(Some(at(6, 10, 11)), None, Some(minutes(30)));

    let mut reservation_schedule = ReservationSchedule::new();

    let res = reservation_schedule.check_potential_conflict(&indefinite_no_constraints);
    assert_eq!(res.len(), 0);

    // Add an indefinite reservation to the schedule.
    reservation_schedule.insert((0, 0), None, at(9, 10, 11));

    let res = reservation_schedule.check_potential_conflict(&indefinite_no_constraints);
    assert_eq!(res.len(), 1);

    let res = reservation_schedule.check_potential_conflict(&indefinite_with_constraints);
    assert_eq!(res.len(), 1);

    let res = reservation_schedule.check_potential_conflict(&definite_request_starting_with_specified_start_time);
    assert_eq!(res.len(), 0);

    // The latest end time is before the last reservation so there should be no conflict
    let res = reservation_schedule.check_potential_conflict(&definite_request_with_no_earliest);
    assert_eq!(res.len(), 0);

    // Since no latest time it could conflict with the last reservation
    let res = reservation_schedule.check_potential_conflict(&definite_request_with_no_latest);
    assert_eq!(res.len(), 1);

    // Clear schedule
    let mut reservation_schedule = ReservationSchedule::new();

    // Empty schedule no conflicts
    let res = reservation_schedule.check_potential_conflict(&indefinite_no_constraints);
    assert_eq!(res.len(), 0);

    // Add a reservation
    reservation_schedule.insert((0, 0), Some(minutes(30)), at(2, 10, 11));

    let res = reservation_schedule.check_potential_conflict(&definite_request_starting_with_specified_start_time);
    assert_eq!(res.len(), 0);

    // Insert a potentially overlapping reservation
    reservation_schedule.insert((0, 0), Some(minutes(90)), at(5, 10, 11));

    let res = reservation_schedule.check_potential_conflict(&definite_request_starting_with_specified_start_time);
    assert_eq!(res.len(), 1);
}

#[test]
fn falls_within_acceptable_time_checks_both_ends() {
    let alt = alternative(Some(at(6, 0, 0)), Some(at(7, 0, 0)), Some(minutes(10)));
    assert!(alt.falls_within_acceptable_time(&at(6, 0, 0)));
    assert!(alt.falls_within_acceptable_time(&at(7, 0, 0)));
    assert!(!alt.falls_within_acceptable_time(&at(5, 59, 59)));
    assert!(!alt.falls_within_acceptable_time(&at(7, 0, 1)));
    let open = alternative(None, None, None);
    assert!(open.falls_within_acceptable_time(&at(3, 0, 0)));
}

#[test]
fn scheduling_order_predicates() {
    let early = alternative(Some(at(6, 0, 0)), Some(at(6, 30, 0)), Some(minutes(10)));
    let late = alternative(Some(at(8, 0, 0)), Some(at(9, 0, 0)), Some(minutes(10)));
    // `late` starts after the latest start of `early`.
    assert!(late.is_always_after(&early.parameters));
    assert!(!early.is_always_after(&late.parameters));
    // `early` can end (6:10) before the latest start of `late` (9:00): `late` can come after it.
    assert!(late.can_be_scheduled_after(&early.parameters));
    // `late` ends at 8:10 at the earliest, after the latest start of `early` (6:30).
    assert!(!early.can_be_scheduled_after(&late.parameters));
    // Nothing can follow a reservation without a duration.
    let endless = alternative(Some(at(6, 0, 0)), None, None);
    assert!(!late.can_be_scheduled_after(&endless.parameters));
    // Fixed at 8:00 for 30 minutes cannot come after one fixed at 10:00 for an hour.
    let at_eight = alternative(Some(at(8, 0, 0)), Some(at(8, 0, 0)), Some(minutes(30)));
    let at_ten = alternative(Some(at(10, 0, 0)), Some(at(10, 0, 0)), Some(minutes(60)));
    assert!(!at_eight.can_be_scheduled_after(&at_ten.parameters));
    assert!(at_ten.can_be_scheduled_after(&at_eight.parameters));
}

#[test]
fn schedule_garbage_collect_keeps_later_entries() {
    let mut schedule = ReservationSchedule::new();
    schedule.insert((0, 0), Some(minutes(10)), at(6, 0, 0));
    schedule.insert((1, 0), Some(minutes(10)), at(8, 0, 0));
    schedule.insert((2, 1), None, at(7, 0, 0));
    assert_eq!(schedule.len(), 3);
    // Entries are kept in start-time order.
    assert_eq!(schedule.entry(1), (at(7, 0, 0), Assignment(2, 1, None)));
    schedule.garbage_collect(at(7, 0, 0));
    assert_eq!(schedule.len(), 2);
    assert_eq!(schedule.entry(0), (at(7, 0, 0), Assignment(2, 1, None)));
    assert_eq!(schedule.entry(1), (at(8, 0, 0), Assignment(1, 0, Some(minutes(10)))));
}

#[test]
fn time_as_cost_counts_seconds_from_the_earliest_instant() {
    let f = SharedCostFunction::TimeAsCost;
    let p = alternative(None, None, None).parameters;
    assert_eq!(f.cost(&p, MIN_UTC_MILLIS), 0);
    assert_eq!(f.cost(&p, MIN_UTC_MILLIS + 2500), 2);
    assert_eq!(SharedCostFunction::from_static(7).cost(&p, 0), 7);
}
