use rmf_reservations::utils::multimap::UniqueMultiHashMap;
use std::sync::{Arc, Mutex};

use rmf_reservations::utils::queue::{take_front_or_wait, WorkQueue};
use std::collections::VecDeque;

#[test]
fn test_workqueue() {
    let queue = Arc::new(WorkQueue::<i32>::new());
    let queue2 = queue.clone();
    let _result = Arc::new(Mutex::new(0));

    // The producer and the consumer run one after the other on this thread.
    queue.push(5i32);
    let result = queue2.wait_for_work();

    assert_eq!(result, 5i32);
}

#[test]
fn workqueue_is_first_in_first_out() {
    let queue = WorkQueue::<i32>::default();
    queue.push(1);
    queue.push(2);
    queue.push(3);
    assert_eq!(queue.wait_for_work(), 1);
    assert_eq!(queue.wait_for_work(), 2);
    queue.push(4);
    assert_eq!(queue.wait_for_work(), 3);
    assert_eq!(queue.wait_for_work(), 4);
}

#[test]
fn take_front_on_empty_and_full() {
    let mut items: VecDeque<i32> = VecDeque::new();
    let mut slot: Option<i32> = None;
    assert!(take_front_or_wait(&mut items, &mut slot));
    assert_eq!(slot, None);
    items.push_back(7);
    items.push_back(8);
    assert!(!take_front_or_wait(&mut items, &mut slot));
    assert_eq!(slot, Some(7));
    assert_eq!(items.len(), 1);
}

#[test]
fn multimap_get_after_insert() {
    let mut m: UniqueMultiHashMap<usize, usize> = UniqueMultiHashMap::new();
    m.insert(1, 10);
    m.insert(1, 11);
    m.insert(1, 10);
    m.insert(2, 20);
    let ones = m.get(&1).unwrap();
    assert_eq!(ones.len(), 2);
    assert!(ones.contains(&10) && ones.contains(&11));
    assert_eq!(m.get(&2).unwrap().len(), 1);
    assert!(m.get(&3).is_none());
    assert_eq!(m.len(), 2);
}
