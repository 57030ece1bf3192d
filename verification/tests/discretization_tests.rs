use rmf_reservations::database::ClockSource;
use rmf_reservations::discretization::fixed_timestep::FixedTimestep;
use rmf_reservations::discretization::DescretizationStrategy;
use rmf_reservations::{ReservationParameters, ReservationRequestAlternative, SharedCostFunction, StartTimeRange};

struct FixedClock;

impl ClockSource for FixedClock {
    fn now(&self) -> i64 {
        100
    }
}

fn window(earliest: Option<i64>, latest: Option<i64>) -> ReservationRequestAlternative {
    ReservationRequestAlternative {
        parameters: ReservationParameters {
            resource_name: "R".to_string(),
            duration: Some(5),
            start_time: StartTimeRange { earliest_start: earliest, latest_start: latest },
        },
        cost_function: SharedCostFunction::TimeAsCost,
    }
}

#[test]
fn fixed_timestep_breaks_windows_into_starts() {
    let mut d = FixedTimestep::new(10, 140, FixedClock);
    let requests = vec![vec![window(Some(0), Some(30)), window(None, None)]];
    let out = d.discretize(&requests);
    assert_eq!(out.len(), 1);
    // 0, 10, 20, 30 from the first window; 100 to 140 from the clock to `latest`.
    assert_eq!(out[0].len(), 9);
    let starts: Vec<i64> = out[0].iter().map(|a| a.parameters.start_time.earliest_start.unwrap()).collect();
    assert_eq!(starts, vec![0, 10, 20, 30, 100, 110, 120, 130, 140]);
    for a in out[0].iter() {
        assert_eq!(a.parameters.start_time.latest_start, a.parameters.start_time.earliest_start);
        assert!(matches!(a.cost_function, SharedCostFunction::Static(_)));
    }
    assert_eq!(d.remap(&(0, 3)), Some((0, 0)));
    assert_eq!(d.remap(&(0, 4)), Some((0, 1)));
    assert_eq!(d.remap(&(0, 9)), None);
}

#[test]
fn fixed_timestep_uneven_window_stops_before_its_end() {
    let mut d = FixedTimestep::new(10, 140, FixedClock);
    let requests = vec![vec![window(Some(0), Some(25))]];
    let out = d.discretize(&requests);
    let starts: Vec<i64> = out[0].iter().map(|a| a.parameters.start_time.earliest_start.unwrap()).collect();
    assert_eq!(starts, vec![0, 10, 20]);
}

#[test]
fn fixed_timestep_keeps_an_exact_start() {
    let mut d = FixedTimestep::new(10, 140, FixedClock);
    let requests = vec![vec![window(Some(42), Some(42))], vec![window(Some(50), Some(40))]];
    let out = d.discretize(&requests);
    assert_eq!(out[0].len(), 1);
    assert_eq!(out[0][0].parameters.start_time.earliest_start, Some(42));
    assert_eq!(out[0][0].parameters.start_time.latest_start, Some(42));
    assert_eq!(d.remap(&(0, 0)), Some((0, 0)));
    // A window that ends before it starts gives no start.
    assert_eq!(out[1].len(), 0);
}
