use rmf_reservations::algorithms::sat_flexible_time_model::Problem;
use rmf_reservations::algorithms::sat_teg::TEGSolver;
use rmf_reservations::{ReservationParameters, ReservationRequestAlternative, SharedCostFunction, StartTimeRange};

fn seconds(s: i64) -> i64 {
    s * 1000
}

fn alternative(resource: &str, duration: i64, earliest: i64, latest: i64) -> ReservationRequestAlternative {
    ReservationRequestAlternative {
        parameters: ReservationParameters {
            resource_name: resource.to_string(),
            duration: Some(duration),
            start_time: StartTimeRange { earliest_start: Some(earliest), latest_start: Some(latest) },
        },
        cost_function: SharedCostFunction::from_static(1),
    }
}

#[test]
fn test_teg_one_item_teg_solver() {
    let current_time = chrono::Utc::now().timestamp_millis();
    let req1 = vec![alternative("Resource1", seconds(100), current_time + seconds(50), current_time + seconds(100))];
    let mut problem = Problem::default();
    problem.requests = vec![req1];

    let solver = TEGSolver { time_step: seconds(50), max_time_steps: seconds(500), start: current_time };

    let soln = solver.solve(problem);
    println!("{:?}", soln);
    assert!(soln.is_ok());
}

#[test]
fn test_teg_one_item_teg_solver_too_small() {
    let current_time = chrono::Utc::now().timestamp_millis();
    let req1 = vec![alternative("Resource1", seconds(600), current_time + seconds(50), current_time + seconds(100))];
    let mut problem = Problem::default();
    problem.requests = vec![req1];

    let solver = TEGSolver { time_step: seconds(50), max_time_steps: seconds(500), start: current_time };

    let soln = solver.solve(problem);
    println!("{:?}", soln);
    assert!(soln.is_err());
}

#[test]
fn sat_teg_test_multi_alternative_sat_solver() {
    let current_time = chrono::Utc::now().timestamp_millis();
    let req1 = vec![alternative("Resource1", seconds(100), current_time + seconds(50), current_time + seconds(120))];
    let req2 = vec![
        alternative("Resource1", seconds(100), current_time + seconds(150), current_time + seconds(160)),
        alternative("Resource2", seconds(100), current_time + seconds(50), current_time + seconds(160)),
    ];
    let mut problem = Problem::default();
    problem.request_one_of(req1);
    problem.request_one_of(req2);

    let solver = TEGSolver { time_step: seconds(50), max_time_steps: seconds(500), start: current_time };

    let soln = solver.solve(problem);
    println!("{:?}", soln);
}

#[test]
fn teg_places_on_grid_without_overlap() {
    let start = 1_000_000;
    // Two one-step requests on one resource, both allowed from step 1 to step 3.
    let req1 = vec![alternative("R", seconds(100), start + seconds(100), start + seconds(300))];
    let req2 = vec![alternative("R", seconds(100), start + seconds(100), start + seconds(300))];
    let mut problem = Problem::default();
    problem.requests = vec![req1, req2];
    let solver = TEGSolver { time_step: seconds(100), max_time_steps: seconds(1000), start };
    let sched = solver.solve(problem).unwrap();
    assert_eq!(sched.len(), 1);
    assert_eq!(sched.name(0), "R");
    let list = sched.assignments(0);
    assert_eq!(list.len(), 2);
    assert!(list[0].start_time < list[1].start_time);
    for a in list.iter() {
        assert!(a.start_time >= start + seconds(100) && a.start_time <= start + seconds(300));
        assert_eq!((a.start_time - start) % seconds(100), 0);
    }
    // The first holds the resource for one step from its start.
    assert!(list[1].start_time >= list[0].start_time + seconds(100));
}

#[test]
fn teg_no_request_is_empty_schedule() {
    let solver = TEGSolver { time_step: seconds(1), max_time_steps: seconds(10), start: 0 };
    let sched = solver.solve(Problem::default()).unwrap();
    assert_eq!(sched.len(), 0);
}

#[test]
fn teg_window_outside_grid_has_no_solution() {
    let start = 0;
    let req = vec![alternative("R", seconds(10), seconds(5000), seconds(6000))];
    let mut problem = Problem::default();
    problem.requests = vec![req];
    let solver = TEGSolver { time_step: seconds(10), max_time_steps: seconds(100), start };
    assert_eq!(solver.solve(problem).unwrap_err(), "No solution found".to_string());
}
