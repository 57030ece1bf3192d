use rmf_reservations::algorithms::kuhn_munkres::{ReservationsKuhnMunkres, SparseAxisMasker};
use rmf_reservations::{ReservationParameters, ReservationRequestAlternative, SharedCostFunction, StartTimeRange};

fn spot(name: &str, cost: i64) -> ReservationRequestAlternative {
    ReservationRequestAlternative {
        parameters: ReservationParameters {
            resource_name: name.to_string(),
            duration: None,
            start_time: StartTimeRange::no_specifics(),
        },
        cost_function: SharedCostFunction::from_static(cost),
    }
}

fn parking_system() -> (ReservationsKuhnMunkres, Option<usize>, Option<usize>) {
    let resources: Vec<String> = vec!["Parking Spot 1", "Parking Spot 2", "Parking Spot 3"]
        .iter()
        .map(|c| c.to_string())
        .collect();
    let mut res_sys = ReservationsKuhnMunkres::create_with_resources(&resources);
    let req1 = vec![spot("Parking Spot 1", 10), spot("Parking Spot 2", 1)];
    let req2 = vec![spot("Parking Spot 2", 10), spot("Parking Spot 3", 1)];
    let idx1 = res_sys.request_resources(req1);
    let idx2 = res_sys.request_resources(req2);
    (res_sys, idx1, idx2)
}

#[test]
fn test_sparse_axis_masker() {
    let mut skip_indices: Vec<usize> = vec![3, 8];
    let arr: Vec<usize> = vec![0, 1, 2, 3, 4, 5, 6, 7, 8, 9];

    let mut masker = SparseAxisMasker::init(arr.len());
    masker.clear_and_rebuild_view(&mut skip_indices);

    let expected: Vec<_> = arr.iter().filter(|p| !skip_indices.contains(p)).map(|p| *p).collect();
    let mut res = vec![];
    for i in 0..masker.len() {
        res.push(arr[masker.remap(i).unwrap()]);
    }

    assert_eq!(expected, res);
}

#[test]
fn test_kuhn_munkres_correctness() {
    let (mut res_sys, idx1, idx2) = parking_system();

    let (cost, res) = res_sys.solve().unwrap();

    let r1 = res[&idx1.unwrap()].unwrap();
    let r2 = res[&idx2.unwrap()].unwrap();

    println!("cost {}", cost);
    assert!((cost - 2).abs() < 1);
    assert_eq!(r1, 1);
    assert_eq!(r2, 1);
}

#[test]
fn test_resource_constraint() {
    let (mut res_sys, idx1, idx2) = parking_system();

    let removed_resources = vec![1];
    let (cost, res) = res_sys.solve_with_constraint(vec![], removed_resources).unwrap();

    println!("{:?}", res);

    let r1 = res[&idx1.unwrap()].unwrap();
    let r2 = res[&idx2.unwrap()].unwrap();

    println!("cost {cost}");

    assert_eq!(r1, 0);
    assert_eq!(r2, 1);
}

#[test]
fn test_rquest_constraint() {
    let (mut res_sys, idx1, idx2) = parking_system();

    let removed_resources = vec![1];
    let (cost, res) = res_sys.solve_with_constraint(vec![], removed_resources).unwrap();

    println!("{:?}", res);

    let r1 = res[&idx1.unwrap()].unwrap();
    let r2 = res[&idx2.unwrap()].unwrap();

    println!("cost {cost}");

    assert_eq!(r1, 0);
    assert_eq!(r2, 1);
}

#[test]
fn masker_remap_errors_out_of_view() {
    let mut masker = SparseAxisMasker::init(3);
    assert_eq!(masker.len(), 0);
    assert_eq!(masker.remap(0), Err("Index is out of mask bounds"));
    assert_eq!(masker.remap(5), Err("Index out of bounds"));
    let mut skip = vec![2, 0, 2];
    masker.clear_and_rebuild_view(&mut skip);
    assert_eq!(skip, vec![0, 2]);
    assert_eq!(masker.len(), 1);
    assert_eq!(masker.remap(0), Ok(1));
    masker.grow(2);
    assert_eq!(masker.len(), 1);
    assert_eq!(masker.remap(0), Ok(1));
}

#[test]
fn kuhn_munkres_unknown_resource_is_refused() {
    let (mut res_sys, _, _) = parking_system();
    assert_eq!(res_sys.request_resources(vec![spot("Nowhere", 1)]), None);
    assert_eq!(res_sys.request_resources(vec![spot("Parking Spot 3", 4)]), Some(2));
}

#[test]
fn kuhn_munkres_positive_constraint_hides_request_and_resource() {
    let (mut res_sys, _, idx2) = parking_system();
    // Request 0 is held to its alternative 1 (Parking Spot 2): request 0 and
    // Parking Spot 2 leave the assignment; request 1 gets Parking Spot 3.
    let (cost, res) = res_sys.solve_with_constraint(vec![(0, 1)], vec![]).unwrap();
    assert_eq!(res.len(), 1);
    assert_eq!(res[&idx2.unwrap()], Some(1));
    assert_eq!(cost, 1);
}

#[test]
fn kuhn_munkres_weight_limit_gives_none() {
    let resources = vec!["A".to_string()];
    let mut res_sys = ReservationsKuhnMunkres::create_with_resources(&resources);
    res_sys.request_resources(vec![spot("A", 1i64 << 40)]);
    assert!(res_sys.solve().is_none());
}

#[test]
fn masker_shows_every_index_not_hidden() {
    let mut masker = SparseAxisMasker::init(4);
    let mut skip = vec![7, 1, 1];
    masker.clear_and_rebuild_view(&mut skip);
    assert_eq!(skip, vec![1, 7]);
    assert_eq!(masker.len(), 3);
    assert_eq!(masker.remap(0), Ok(0));
    assert_eq!(masker.remap(1), Ok(2));
    assert_eq!(masker.remap(2), Ok(3));
}
