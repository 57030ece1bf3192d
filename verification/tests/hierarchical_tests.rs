use chrono::{TimeZone, Utc};
use std::collections::HashMap;
use rmf_reservations::algorithms::hierarchical_kuhn_munkres::{generate_test_scenario_with_known_best, TimeBasedBranchAndBound};
use rmf_reservations::algorithms::sat::SATSolver;
use rmf_reservations::scenario_generation::{add_conflict, next_station_request, MINUTE, SCENARIO_START};
use rmf_reservations::{ReservationParameters, ReservationRequestAlternative, SharedCostFunction, StartTimeRange};

fn at(h: u32, m: u32, s: u32) -> i64 {
    Utc.with_ymd_and_hms(2023, 7, 8, h, m, s).unwrap().timestamp_millis()
}

fn station_alternative(resource: &String, cost: i64) -> ReservationRequestAlternative {
    ReservationRequestAlternative {
        parameters: ReservationParameters {
            resource_name: resource.clone(),
            start_time: StartTimeRange { earliest_start: Some(at(6, 10, 11)), latest_start: Some(at(7, 10, 11)) },
            duration: Some(30 * 60_000),
        },
        cost_function: SharedCostFunction::from_static(cost),
    }
}

#[test]
fn hierarchical_kuhn_munkres_test_conflict_checker() {
    let resources = vec!["station1".to_string(), "station2".to_string()];
    let alternative1 = station_alternative(&resources[0], 3);
    let alternative2 = station_alternative(&resources[1], 6);
    let alternative1_cheaper = station_alternative(&resources[0], 2);

    let req1 = vec![alternative1, alternative2];
    let req2 = vec![alternative1_cheaper];

    let mut system = TimeBasedBranchAndBound::create_with_resources(&resources);

    system.request_resources(req1);
    system.request_resources(req2);

    let solver = system.generate_literals_and_remap_requests();
    let (solution, _) = solver.solve(HashMap::new()).unwrap();
    println!("{:?}", solution);
    assert!((solution.cost() - 8).abs() < 1);
}

#[test]
fn test_generation() {
    let (requests, resources) = generate_test_scenario_with_known_best(4, 4, 3);

    let mut system = TimeBasedBranchAndBound::create_with_resources(&resources);
    for req in requests {
        system.request_resources(req);
    }
    let soln = system.generate_literals_and_remap_requests();
    let _ = soln.solve(HashMap::new()).unwrap();
}

#[test]
fn test_sat() {
    let (requests, resources) = generate_test_scenario_with_known_best(10, 10, 5);

    let mut system = TimeBasedBranchAndBound::create_with_resources(&resources);
    for req in requests {
        system.request_resources(req);
    }

    let timer = std::time::SystemTime::now();
    SATSolver::from_hill_climber_with_optimality_proof(system.generate_literals_and_remap_requests());
    let optimality_proof_dur = timer.elapsed();

    let timer = std::time::SystemTime::now();
    SATSolver::from_hill_climber(system.generate_literals_and_remap_requests());
    let brute_force_proof_dur = timer.elapsed();

    let soln = system.generate_literals_and_remap_requests();
    let timer = std::time::SystemTime::now();
    let _ = soln.solve(HashMap::new());
    let greedy_dur = timer.elapsed();

    println!("{:?} {:?} {:?}", optimality_proof_dur, brute_force_proof_dur, greedy_dur);
}

#[test]
fn generated_scenario_has_conflict_free_first_choices() {
    let (requests, resources) = generate_test_scenario_with_known_best(3, 4, 4);
    assert_eq!(resources, vec!["Station 0".to_string(), "Station 1".to_string(), "Station 2".to_string()]);
    for (q1, r1) in requests.iter().enumerate() {
        assert!(!r1.is_empty());
        assert!(matches!(r1[0].cost_function, SharedCostFunction::Static(10)));
        for alt in r1.iter().skip(1) {
            assert!(matches!(alt.cost_function, SharedCostFunction::Static(9)));
        }
        for (q2, r2) in requests.iter().enumerate() {
            if q1 != q2 && r1[0].parameters.resource_name == r2[0].parameters.resource_name {
                let (s1, e1) = (r1[0].parameters.start_time.earliest_start.unwrap(), r1[0].parameters.duration.unwrap());
                let (s2, e2) = (r2[0].parameters.start_time.earliest_start.unwrap(), r2[0].parameters.duration.unwrap());
                assert!(s1 + e1 <= s2 || s2 + e2 <= s1);
            }
        }
    }
}

#[test]
fn sat_optimality_on_small_conflict() {
    let resources = vec!["station1".to_string(), "station2".to_string()];
    let mut system = TimeBasedBranchAndBound::create_with_resources(&resources);
    system.request_resources(vec![station_alternative(&resources[0], 3), station_alternative(&resources[1], 6)]);
    system.request_resources(vec![station_alternative(&resources[0], 2)]);
    let best = SATSolver::from_hill_climber_with_optimality_proof(system.generate_literals_and_remap_requests()).unwrap();
    assert_eq!(best[&0], 1);
    assert_eq!(best[&1], 0);
}

fn fixed_at(resource: &String, start: i64, minutes: i64, cost: i64) -> ReservationRequestAlternative {
    ReservationRequestAlternative {
        parameters: ReservationParameters {
            resource_name: resource.clone(),
            start_time: StartTimeRange { earliest_start: Some(start), latest_start: Some(start) },
            duration: Some(minutes * 60_000),
        },
        cost_function: SharedCostFunction::from_static(cost),
    }
}

#[test]
fn back_to_back_reservations_do_not_conflict() {
    let resources = vec!["station1".to_string()];
    let mut system = TimeBasedBranchAndBound::create_with_resources(&resources);
    // The second starts at the very instant the first ends.
    system.request_resources(vec![fixed_at(&resources[0], at(6, 0, 0), 30, 1)]);
    system.request_resources(vec![fixed_at(&resources[0], at(6, 30, 0), 30, 1)]);
    // The third starts one minute before the second ends.
    system.request_resources(vec![fixed_at(&resources[0], at(6, 59, 0), 30, 1)]);
    let solver = system.generate_literals_and_remap_requests();
    assert!(solver.conflicts_with(0, 0).is_empty());
    assert_eq!(solver.conflicts_with(1, 0), &vec![(2usize, 0usize)]);
    assert_eq!(solver.conflicts_with(2, 0), &vec![(1usize, 0usize)]);
}

#[test]
fn generated_scenarios_are_always_solved() {
    for _ in 0..200 {
        let (requests, resources) = generate_test_scenario_with_known_best(4, 4, 3);
        let mut system = TimeBasedBranchAndBound::create_with_resources(&resources);
        for req in requests {
            system.request_resources(req);
        }
        let soln = system.generate_literals_and_remap_requests();
        let (solution, _) = soln.solve(HashMap::new()).unwrap();
        assert_eq!(solution.unallocated(), 0);
        assert_eq!(solution.num_conflicts(), 0);
    }
}

#[test]
fn scenario_steps_from_given_draws() {
    let station = "Station 0".to_string();
    let (first, start, duration) = next_station_request(&station, SCENARIO_START, 5, 30);
    assert_eq!(start, SCENARIO_START + 5 * MINUTE);
    assert_eq!(duration, 30 * MINUTE);
    assert_eq!(first.parameters.start_time.earliest_start, Some(start));
    assert!(matches!(first.cost_function, SharedCostFunction::Static(10)));
    let (second, start2, duration2) = next_station_request(&station, start + duration, 0, 20);
    assert_eq!(start2, start + duration);
    let mut results = vec![vec![first], vec![second]];
    let schedules = vec![vec![(start, duration), (start2, duration2)]];
    let resources = vec![station.clone()];
    add_conflict(&mut results, &resources, &schedules, 0, 1, 0);
    assert_eq!(results[0].len(), 2);
    assert_eq!(results[1].len(), 1);
    let conflict = &results[0][1];
    assert_eq!(conflict.parameters.start_time.earliest_start, Some(start));
    assert_eq!(conflict.parameters.duration, Some(start2 + duration2 - start));
    assert!(matches!(conflict.cost_function, SharedCostFunction::Static(9)));
    // No request 2 on the station: nothing is added.
    add_conflict(&mut results, &resources, &schedules, 0, 2, 1);
    assert_eq!(results[1].len(), 1);
}
