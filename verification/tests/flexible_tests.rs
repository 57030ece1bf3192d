use std::sync::atomic::AtomicBool;
use std::sync::Arc;
use rmf_reservations::algorithms::sat_flexible_time_model::{
    check_consistency, shrink_reservation_request, solve_same_time_constraints, Assignment, FlexibleSatError, Problem,
    ResourceSchedules, SATFlexibleTimeModel,
};
use rmf_reservations::algorithms::AlgorithmState;
use rmf_reservations::database::DefaultUtcClock;
use rmf_reservations::{ReservationParameters, ReservationRequestAlternative, SharedCostFunction, StartTimeRange};

fn seconds(s: i64) -> i64 {
    s * 1000
}

fn alternative(resource: &str, duration: i64, earliest: i64, latest: i64) -> ReservationRequestAlternative {
    ReservationRequestAlternative {
        parameters: ReservationParameters {
            resource_name: resource.to_string(),
            duration: Some(duration),
            start_time: StartTimeRange { earliest_start: Some(earliest), latest_start: Some(latest) },
        },
        cost_function: SharedCostFunction::from_static(1),
    }
}

fn model() -> SATFlexibleTimeModel<DefaultUtcClock> {
    SATFlexibleTimeModel { clock_source: DefaultUtcClock::default() }
}

fn optimal_schedule(problem: &Problem) -> ResourceSchedules {
    let (sender, rx) = std::sync::mpsc::channel();
    let stop = Arc::new(AtomicBool::new(false));
    model().time_optimality_solver(problem, sender, stop);
    let mut v = vec![];
    for t in rx.iter() {
        v.push(t);
    }
    let Some(last) = v.pop() else {
        panic!("Unable to get any solution");
    };
    let AlgorithmState::OptimalScheduleSolution(sched) = last else {
        panic!("Optimal solution was not found");
    };
    sched
}

#[test]
fn test_solve_time_constraints() {
    let current_time = chrono::Utc::now().timestamp_millis();
    let mut problem = Problem::default();

    let w0 = problem.request_one_of(vec![alternative("Resource1", seconds(60), current_time + seconds(50), current_time + seconds(120))]);
    let w1 = problem.request_one_of(vec![alternative("Resource1", seconds(60), current_time + seconds(50), current_time + seconds(120))]);
    let w2 = problem.request_one_of(vec![alternative("Resource2", seconds(60), current_time + seconds(50), current_time + seconds(120))]);

    problem.must_start_at_same_time(&(w0, 0), &(w2, 0)).unwrap();

    let mut final_schedule = ResourceSchedules::new();
    final_schedule.push_resource("Resource2".to_string(), vec![Assignment { id: (w2, 0), start_time: current_time + seconds(50) }]);
    final_schedule.push_resource(
        "Resource1".to_string(),
        vec![
            Assignment { id: (w0, 0), start_time: current_time },
            Assignment { id: (w1, 0), start_time: current_time + seconds(60) },
        ],
    );

    let Ok(sched) = solve_same_time_constraints(&final_schedule, &problem) else {
        panic!("Got error instead of solution");
    };
    println!("{:?}", sched);
    let r1 = sched.get("Resource1").unwrap();
    let r2 = sched.get("Resource2").unwrap();
    assert_eq!(r2[0].start_time, r1[0].start_time);
    assert!(r1[1].start_time > r1[0].start_time);
}

#[test]
fn test_multi_item_sat_solver() {
    let current_time = chrono::Utc::now().timestamp_millis();
    let req1 = vec![alternative("Resource1", seconds(100), current_time + seconds(50), current_time + seconds(120))];
    let req2 = vec![alternative("Resource1", seconds(100), current_time + seconds(50), current_time + seconds(160))];

    let mut problem = Problem::default();
    problem.request_one_of(req1);
    problem.request_one_of(req2);

    let (sender, rx) = std::sync::mpsc::channel();
    let stop = Arc::new(AtomicBool::new(false));
    model().time_optimality_solver(&problem, sender, stop);
    for t in rx.iter() {
        println!("{:?}", t)
    }
}

#[test]
fn sat_flexible_time_model_test_multi_alternative_sat_solver() {
    let current_time = chrono::Utc::now().timestamp_millis();
    let req1 = vec![alternative("Resource1", seconds(100), current_time + seconds(50), current_time + seconds(120))];
    let req2 = vec![
        alternative("Resource1", seconds(100), current_time + seconds(150), current_time + seconds(160)),
        alternative("Resource2", seconds(100), current_time + seconds(50), current_time + seconds(160)),
    ];

    let mut problem = Problem::default();
    problem.request_one_of(req1);
    problem.request_one_of(req2);

    let sched = optimal_schedule(&problem);

    assert_eq!(sched.get("Resource1").unwrap()[0].id, (0usize, 0usize));
    assert_eq!(sched.get("Resource1").unwrap().len(), 1usize);
    assert_eq!(sched.get("Resource2").unwrap()[0].id, (1usize, 1usize));
    assert_eq!(sched.get("Resource2").unwrap().len(), 1usize);
    assert_eq!(sched.len(), 2usize);
}

#[test]
fn test_multi_alternative_sat_solver_with_dep() {
    let current_time = chrono::Utc::now().timestamp_millis();
    let req1 = vec![alternative("Resource1", seconds(100), current_time + seconds(50), current_time + seconds(120))];
    let req2 = vec![
        alternative("Resource1", seconds(100), current_time + seconds(150), current_time + seconds(160)),
        alternative("Resource2", seconds(100), current_time + seconds(50), current_time + seconds(160)),
    ];

    let mut problem = Problem::default();
    let req1_id = problem.request_one_of(req1);
    let req2_id = problem.request_one_of(req2);

    problem.implies(&(req1_id, 0), &(req2_id, 0)).unwrap();
    problem.implies(&(req2_id, 0), &(req1_id, 0)).unwrap();

    let sched = optimal_schedule(&problem);

    assert_eq!(sched.get("Resource1").unwrap()[0].id, (0usize, 0usize));
    assert_eq!(sched.get("Resource1").unwrap().len(), 2usize);
    assert_eq!(sched.get("Resource1").unwrap()[1].id, (1usize, 0usize));
    assert_eq!(sched.len(), 1usize);
}

#[test]
fn test_flexible_one_item_sat_solver() {
    let current_time = chrono::Utc::now().timestamp_millis();
    let req1 = vec![alternative("Resource1", seconds(100), current_time + seconds(50), current_time + seconds(120))];
    let mut problem = Problem::default();
    problem.requests = vec![req1];

    let stop = Arc::new(AtomicBool::new(false));
    let result = model().feasibility_analysis(&problem, stop).unwrap();

    assert_eq!(result.len(), 1usize);
    assert_eq!(result.get("Resource1").unwrap().len(), 1usize);
}

#[test]
fn test_flexible_two_items_sat_solver() {
    let current_time = chrono::Utc::now().timestamp_millis();
    let req1 = vec![alternative("Resource1", seconds(100), current_time + seconds(50), current_time + seconds(120))];
    let req2 = vec![
        alternative("Resource1", seconds(100), current_time + seconds(50), current_time + seconds(120)),
        alternative("Resource1", seconds(100), current_time + seconds(50), current_time + seconds(180)),
    ];
    let mut problem = Problem::default();
    problem.requests = vec![req1, req2];

    let stop = Arc::new(AtomicBool::new(false));
    let result = model().feasibility_analysis(&problem, stop).unwrap();

    assert_eq!(result.len(), 1usize);
    assert_eq!(result.get("Resource1").unwrap().len(), 2usize);
    assert!(check_consistency(result.get("Resource1").unwrap(), &problem))
}

fn n_requests(n: usize) -> Problem {
    let current_time = chrono::Utc::now().timestamp_millis();
    let task_dur = seconds(100);
    let mut requests = vec![];
    for _i in 0..n {
        requests.push(vec![alternative("Resource1", task_dur, current_time, current_time + task_dur * (n as i64 + 1))]);
    }
    let mut problem = Problem::default();
    problem.requests = requests;
    problem
}

#[test]
fn test_flexible_n_items_sat_solver() {
    let n = 40usize;
    let problem = n_requests(n);

    let stop = Arc::new(AtomicBool::new(false));
    let result = model().feasibility_analysis(&problem, stop).unwrap();

    assert_eq!(result.len(), 1usize);
    assert_eq!(result.get("Resource1").unwrap().len(), n);
    assert!(check_consistency(result.get("Resource1").unwrap(), &problem))
}

#[test]
fn test_flexible_no_soln_sat_solver() {
    let n = 60usize;
    let problem = n_requests(n);

    let stop = Arc::new(AtomicBool::new(false));
    let result = model().feasibility_analysis(&problem, stop).unwrap();

    assert_eq!(result.len(), 1usize);
    assert_eq!(result.get("Resource1").unwrap().len(), n);
    assert!(check_consistency(result.get("Resource1").unwrap(), &problem))
}

#[test]
fn flexible_infeasible_is_no_solution() {
    let t = 1_000_000;
    // Two 100 s reservations that must both start within the same 10 s.
    let mut problem = Problem::default();
    problem.requests = vec![
        vec![alternative("R", seconds(100), t, t + seconds(10))],
        vec![alternative("R", seconds(100), t, t + seconds(10))],
    ];
    let stop = Arc::new(AtomicBool::new(false));
    assert_eq!(model().feasibility_analysis(&problem, stop).unwrap_err(), FlexibleSatError::NoSolution);
}

#[test]
fn problem_constraint_errors() {
    let mut problem = Problem::default();
    let a = problem.request_one_of(vec![alternative("R1", 1, 0, 10)]);
    let b = problem.request_one_of(vec![alternative("R2", 1, 0, 10)]);
    assert_eq!(problem.implies(&(a, 0), &(7, 0)), Err("Request and alternative was not found.".to_string()));
    assert_eq!(
        problem.must_come_immediately_after(&(a, 0), &(b, 0)),
        Err("Request and alternative was not found or between two different resources".to_string())
    );
    assert_eq!(
        problem.must_start_at_same_time(&(a, 0), &(a, 0)),
        Err("Request and alternative was not found or between two different resources".to_string())
    );
    assert!(problem.must_start_at_same_time(&(a, 0), &(b, 0)).is_ok());
    let c = problem.request_one_of_or_none(vec![alternative("R1", 1, 0, 10)]);
    assert_eq!(problem.requests[c].len(), 2);
    assert_eq!(problem.requests[c][1].parameters.resource_name, "".to_string());
}

#[test]
fn consistency_detects_overlap() {
    let mut problem = Problem::default();
    problem.requests = vec![vec![alternative("R", 100, 0, 1000)], vec![alternative("R", 100, 0, 1000)]];
    let ok = vec![Assignment { id: (0, 0), start_time: 0 }, Assignment { id: (1, 0), start_time: 100 }];
    let overlapping = vec![Assignment { id: (0, 0), start_time: 0 }, Assignment { id: (1, 0), start_time: 50 }];
    assert!(check_consistency(&ok, &problem));
    assert!(!check_consistency(&overlapping, &problem));
}

#[test]
fn shrink_narrows_the_window() {
    let alt = alternative("R", seconds(10), 0, seconds(100));
    let shrunk = shrink_reservation_request(&alt, seconds(30)).unwrap();
    assert_eq!(shrunk.parameters.start_time.earliest_start, Some(0));
    assert_eq!(shrunk.parameters.start_time.latest_start, Some(seconds(30)));
}

#[test]
fn same_start_pass_handles_each_constraint_once() {
    // On Resource1, P (0 s) then Q (10 s), 10 s each. Q must start with Z
    // (50 s, Resource2); P must start with W (45 s, Resource3). The constraint
    // with the latest start (Q, Z) is handled first: Q moves to 50 s. Then P
    // moves to 45 s, which pushes Q to 55 s; (Q, Z) is not handled again.
    let mut problem = Problem::default();
    let p = problem.request_one_of(vec![alternative("Resource1", seconds(10), 0, seconds(100))]);
    let q = problem.request_one_of(vec![alternative("Resource1", seconds(10), 0, seconds(100))]);
    let z = problem.request_one_of(vec![alternative("Resource2", seconds(10), 0, seconds(100))]);
    let w = problem.request_one_of(vec![alternative("Resource3", seconds(10), 0, seconds(100))]);
    problem.must_start_at_same_time(&(q, 0), &(z, 0)).unwrap();
    problem.must_start_at_same_time(&(p, 0), &(w, 0)).unwrap();
    let mut schedule = ResourceSchedules::new();
    schedule.push_resource(
        "Resource1".to_string(),
        vec![Assignment { id: (p, 0), start_time: 0 }, Assignment { id: (q, 0), start_time: seconds(10) }],
    );
    schedule.push_resource("Resource2".to_string(), vec![Assignment { id: (z, 0), start_time: seconds(50) }]);
    schedule.push_resource("Resource3".to_string(), vec![Assignment { id: (w, 0), start_time: seconds(45) }]);
    let out = solve_same_time_constraints(&schedule, &problem).unwrap();
    let r1 = out.get("Resource1").unwrap();
    assert_eq!(r1[0].start_time, seconds(45));
    assert_eq!(r1[1].start_time, seconds(55));
    assert_eq!(out.get("Resource2").unwrap()[0].start_time, seconds(50));
    assert_eq!(out.get("Resource3").unwrap()[0].start_time, seconds(45));
}
