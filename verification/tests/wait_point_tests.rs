use chrono::{TimeZone, Utc};
use rmf_reservations::wait_points::wait_points::{WaitPointRequest, WaitPointSystem};

fn test_time(time: i64) -> i64 {
    Utc.with_ymd_and_hms(2023, 7, 8, 0, 0, 0).unwrap().timestamp_millis() + time * 1000
}

#[test]
fn test_waitpoint() {
    let mut wait_point_system = WaitPointSystem::default();

    let wp1 = "wp1".to_string();
    let wp2 = "wp2".to_string();
    let time = test_time(10);
    let wait_points = vec![
        WaitPointRequest { wait_point: wp1.clone(), time: time },
        WaitPointRequest { wait_point: wp2.clone(), time: time },
    ];
    let result = wait_point_system.request_waitpoint(&wait_points);
    // Could allocate a waitpoint
    assert!(result.is_ok());
    // Order by requests sent so waypoint1 should be selected.
    assert_eq!(result.clone().unwrap().selected_index, 0usize);

    let claim_time = test_time(5);
    let result1 = wait_point_system.release_waitpoint_at_time(&wp1, &claim_time);
    assert!(result1.is_ok());

    // Attempt invalid request
    let result1 = wait_point_system.release_waitpoint_at_time(&wp2, &claim_time);
    assert!(result1.is_err());

    // Try again, we should get the same spot as we arrive early.
    let result_wp1 = wait_point_system.request_waitpoint(&wait_points);
    // Could allocate a waitpoint
    assert!(result_wp1.is_ok());
    // Order by requests sent so waypoint1 should be selected.
    assert_eq!(result_wp1.clone().unwrap().selected_index, 0usize);

    // We should get the same request.
    let result = wait_point_system.request_waitpoint(&wait_points);
    // Could allocate a waitpoint
    assert!(result.is_ok());
    // Waypoint 0 has not yet been claimed. Waypoint 1 has to be used.
    assert_eq!(result.clone().unwrap().selected_index, 1usize);
}

#[test]
fn waitpoint_release_errors() {
    let mut system = WaitPointSystem::default();
    let name = "wp".to_string();
    assert_eq!(system.release_waitpoint_at_time(&name, &5), Err("No waitpoint with given name found."));
    system.block_waitpoints(&vec![name.clone()]).unwrap();
    assert_eq!(system.release_waitpoint_at_time(&name, &5), Ok(()));
    system.flush_until(&10);
    // The only holder left at 5, before 10: the queue is empty now.
    assert_eq!(system.release_waitpoint_at_time(&name, &5), Err("Wait point was empty"));
}

#[test]
fn waitpoint_none_free() {
    let mut system = WaitPointSystem::default();
    let requests = vec![WaitPointRequest { wait_point: "a".to_string(), time: 0 }];
    let first = system.request_waitpoint(&requests).unwrap();
    assert_eq!(first.uuid().len(), 36);
    // Held, with no leaving time: not free.
    assert_eq!(system.request_waitpoint(&requests).unwrap_err(), "No solution found".to_string());
    // Blocking a held wait point fails.
    assert_eq!(system.block_waitpoints(&vec!["b".to_string(), "a".to_string()]), Err(""));
    // "b" was blocked before the failure.
    let b = vec![WaitPointRequest { wait_point: "b".to_string(), time: 0 }];
    assert!(system.request_waitpoint(&b).is_err());
}

#[test]
fn waitpoint_free_only_after_leaving_time() {
    let mut system = WaitPointSystem::default();
    let name = "a".to_string();
    system.request_waitpoint(&vec![WaitPointRequest { wait_point: name.clone(), time: 0 }]).unwrap();
    system.release_waitpoint_at_time(&name, &100).unwrap();
    // Asked for at the leaving time itself: still held.
    assert!(system.request_waitpoint(&vec![WaitPointRequest { wait_point: name.clone(), time: 100 }]).is_err());
    // Asked for after it: free.
    assert!(system.request_waitpoint(&vec![WaitPointRequest { wait_point: name.clone(), time: 101 }]).is_ok());
}
