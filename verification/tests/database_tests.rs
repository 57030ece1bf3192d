use std::collections::HashMap;
use rmf_reservations::algorithms::sat_flexible_time_model::{Assignment, ResourceSchedules};
use rmf_reservations::algorithms::{best_fixed_time_solution, feasible_schedule, merge_proposal, should_continue, AlgorithmState};
use rmf_reservations::database::{ClaimSpot, ClockSource, FixedTimeReservationSystem, FlexibleTimeReservationSystem, Ticket};
use rmf_reservations::{ReservationParameters, ReservationRequestAlternative, SharedCostFunction, StartTimeRange};

#[derive(Default)]
struct FixedClock;

impl ClockSource for FixedClock {
    fn now(&self) -> i64 {
        1_000
    }
}

fn fixed(resource: &str, start: i64, duration: i64) -> ReservationRequestAlternative {
    ReservationRequestAlternative {
        parameters: ReservationParameters {
            resource_name: resource.to_string(),
            duration: Some(duration),
            start_time: StartTimeRange::exactly_at(&start),
        },
        cost_function: SharedCostFunction::from_static(2),
    }
}

#[test]
fn ticket_round_trip() {
    assert_eq!(Ticket::from_id(42).get_id(), 42);
}

#[test]
fn fixed_time_system_refuses_windows() {
    let mut system = FixedTimeReservationSystem::create_with_resources(vec!["res1".to_string(), "res2".to_string()]);
    let mut window = fixed("res1", 10, 5);
    window.parameters.start_time.latest_start = Some(20);
    assert_eq!(system.request_resources(vec![window]).unwrap_err(), "FixedTimeReservationSystem supports only fixed time frames");
    let t0 = system.request_resources(vec![fixed("res1", 10, 5)]).unwrap();
    let t1 = system.request_resources(vec![fixed("res1", 12, 5), fixed("res2", 12, 5)]).unwrap();
    assert_eq!(t0.get_id(), 0);
    assert_eq!(t1.get_id(), 1);
    // Ticket 0's only alternative conflicts with ticket 1's first one.
    let snapshot = system.get_snapshot();
    assert_eq!(snapshot.num_requests(), 2);
}

#[test]
fn fixed_time_system_claims_the_solver_choice() {
    let mut system = FixedTimeReservationSystem::create_with_resources(vec!["res1".to_string()]);
    let ticket = system.request_resources(vec![fixed("res1", 10, 5)]).unwrap();
    assert_eq!(system.claim_request(ticket, None), None);
    let mut choice = HashMap::new();
    choice.insert(0usize, 0usize);
    assert_eq!(system.claim_request(ticket, Some(choice)), Some(0));
    assert_eq!(system.claim_request(Ticket::from_id(5), Some(HashMap::new())), None);
}

#[test]
fn flexible_system_without_schedule_waits() {
    let mut system: FlexibleTimeReservationSystem<FixedClock> = FlexibleTimeReservationSystem::default();
    let ticket = system.request_resources(vec![fixed("res1", 10, 5)]).unwrap();
    let spots = vec!["1".to_string(), "2".to_string()];
    let claim = system.claim_request(ticket, &spots, None).unwrap();
    assert!(matches!(claim, ClaimSpot::WaitPermanently(0)));
    // Spot "1" is held now: the next robot gets spot "2".
    let ticket2 = system.request_resources(vec![fixed("res1", 20, 5)]).unwrap();
    let claim2 = system.claim_request(ticket2, &spots, None).unwrap();
    assert!(matches!(claim2, ClaimSpot::WaitPermanently(1)));
}

#[test]
fn flexible_system_goes_or_waits_by_start_time() {
    let mut system = FlexibleTimeReservationSystem::create_with_clock(FixedClock);
    let t0 = system.request_resources(vec![fixed("res1", 500, 5)]).unwrap();
    let t1 = system.request_resources(vec![fixed("res2", 5_000, 5)]).unwrap();
    let (problem, mapping) = system.get_snapshot();
    assert_eq!(problem.requests.len(), 2);
    assert_eq!(mapping[&1], 1);
    let mut sched = ResourceSchedules::new();
    sched.push_resource("res1".to_string(), vec![Assignment { id: (0, 0), start_time: 500 }]);
    sched.push_resource("res2".to_string(), vec![Assignment { id: (1, 0), start_time: 5_000 }]);
    let spots = vec!["wp".to_string()];
    // Starts before the clock's 1000 ms: go now.
    let claim0 = system.claim_request(t0, &spots, Some((sched.duplicate(), mapping.clone()))).unwrap();
    match claim0 {
        ClaimSpot::GoImmediately(goal) => {
            assert_eq!(goal.resource, "res1".to_string());
            assert_eq!(goal.time, 500);
        },
        _ => panic!("expected to go immediately"),
    }
    // Starts later: wait first.
    let claim1 = system.claim_request(t1, &spots, Some((sched.duplicate(), mapping.clone()))).unwrap();
    assert!(matches!(claim1, ClaimSpot::WaitAtThenGo(0, _)));
    system.release_waitspot(&"wp".to_string());
}

#[test]
fn flexible_system_missing_request_in_schedule() {
    let mut system = FlexibleTimeReservationSystem::create_with_clock(FixedClock);
    let t0 = system.request_resources(vec![fixed("res1", 500, 5)]).unwrap();
    let (_, mapping) = system.get_snapshot();
    let claim = system.claim_request(t0, &vec![], Some((ResourceSchedules::new(), mapping)));
    assert_eq!(claim.unwrap_err(), "We should never reach here. Something went wrong internally");
}

#[test]
fn flexible_system_no_wait_point() {
    let mut system = FlexibleTimeReservationSystem::create_with_clock(FixedClock);
    let t0 = system.request_resources(vec![fixed("res1", 500, 5)]).unwrap();
    let claim = system.claim_request(t0, &vec![], None);
    assert_eq!(claim.unwrap_err(), "Could not allocate any wait points. Are we sure there are enough waitpoints available?");
}

#[test]
fn pool_decisions() {
    let mut cheap = HashMap::new();
    cheap.insert(0usize, 1usize);
    let kept = merge_proposal(AlgorithmState::PartialSolution(cheap.clone(), 3), AlgorithmState::PartialSolution(HashMap::new(), 5));
    assert!(matches!(kept, AlgorithmState::PartialSolution(_, 3)));
    let replaced = merge_proposal(AlgorithmState::PartialSolution(HashMap::new(), 5), AlgorithmState::PartialSolution(cheap.clone(), 3));
    assert!(matches!(replaced, AlgorithmState::PartialSolution(_, 3)));
    assert!(should_continue(&AlgorithmState::NotFound));
    assert!(!should_continue(&AlgorithmState::UnSolveable));
    assert_eq!(best_fixed_time_solution(&AlgorithmState::OptimalSolution(cheap.clone())), Some(cheap.clone()));
    assert_eq!(best_fixed_time_solution(&AlgorithmState::NotFound), None);
    assert!(feasible_schedule(&AlgorithmState::FeasibleScheduleSolution(ResourceSchedules::new())).is_some());
    assert!(feasible_schedule(&AlgorithmState::UnSolveable).is_none());
}

#[test]
fn flexible_claim_at_a_given_time() {
    let mut system = FlexibleTimeReservationSystem::create_with_clock(FixedClock);
    let t0 = system.request_resources(vec![fixed("res1", 500, 5)]).unwrap();
    let t1 = system.request_resources(vec![fixed("res1", 600, 5)]).unwrap();
    let (_, mapping) = system.get_snapshot();
    let mut sched = ResourceSchedules::new();
    sched.push_resource("res1".to_string(), vec![Assignment { id: (0, 0), start_time: 500 }, Assignment { id: (1, 0), start_time: 600 }]);
    let spots = vec!["wp".to_string()];
    // At 400 the first assignment has not started: wait first.
    let early = system.claim_request_at(t0, &spots, Some((sched.duplicate(), mapping.clone())), 400).unwrap();
    assert!(matches!(early, ClaimSpot::WaitAtThenGo(0, _)));
    // At exactly 600 the second one starts: go now.
    let on_time = system.claim_request_at(t1, &spots, Some((sched.duplicate(), mapping.clone())), 600).unwrap();
    match on_time {
        ClaimSpot::GoImmediately(goal) => assert_eq!(goal.time, 600),
        _ => panic!("expected to go immediately"),
    }
}
