//! A blocking work queue shared between threads: producers push items,
//! consumers wait until one is there and take the oldest.

use std::collections::VecDeque;
use std::sync::{Condvar, Mutex, MutexGuard};
use vstd::prelude::*;

verus! {

#[verifier::external_type_specification]
#[verifier::external_body]
#[verifier::reject_recursive_types(T)]
pub struct ExMutex<T: ?Sized>(Mutex<T>);

#[verifier::external_type_specification]
#[verifier::external_body]
#[verifier::reject_recursive_types(T)]
pub struct ExMutexGuard<'a, T: ?Sized + 'a>(MutexGuard<'a, T>);

#[verifier::external_type_specification]
#[verifier::external_body]
pub struct ExCondvar(Condvar);

/// `Mutex::new`: a lock around `value`.
#[verifier::external_body]
fn mutex_new<T>(value: T) -> (r: Mutex<T>) {
    Mutex::new(value)
}

/// `Condvar::new`: a condition variable nobody waits on.
#[verifier::external_body]
fn condvar_new() -> (r: Condvar) {
    Condvar::new()
}

/// `Mutex::lock`: blocks until the lock is held. A lock poisoned by a
/// panicking holder is taken over as it is.
#[verifier::external_body]
fn mutex_lock<'a, T>(m: &'a Mutex<T>) -> (r: MutexGuard<'a, T>) {
    match m.lock() {
        Ok(g) => g,
        Err(e) => e.into_inner(),
    }
}

/// `DerefMut::deref_mut` on a guard: the value behind the held lock.
/// What the value holds depends on the other threads, so nothing is stated of it.
#[verifier::external_body]
fn guard_value<'a, 'b, T>(g: &'b mut MutexGuard<'a, T>) -> (r: &'b mut T) {
    &mut **g
}

/// Moves the front item of `items` into `slot` when there is one; says
/// whether `items` was empty (and so nothing was taken).
pub fn take_front_or_wait<T>(items: &mut VecDeque<T>, slot: &mut Option<T>) -> (still_empty: bool)
    ensures
        still_empty == (old(items)@.len() == 0),
        still_empty ==> final(items)@ == old(items)@ && *final(slot) == *old(slot),
        !still_empty ==> final(items)@ == old(items)@.drop_first() && *final(slot) == Some(old(items)@[0]),
{
    match items.pop_front() {
        Some(item) => {
            *slot = Some(item);
            false
        },
        None => true,
    }
}

/// `Condvar::wait_while`: while [`take_front_or_wait`] finds the queue
/// empty, releases the lock and blocks until notified, then takes the lock
/// again and retries; it returns once an item was moved into `slot`, which is
/// then `Some`. It would return early only on a poisoned lock; the lock is
/// private to [`WorkQueue`], whose verified holders do not panic, so it never is.
#[verifier::external_body]
fn condvar_wait_while<'a, T>(cv: &Condvar, g: MutexGuard<'a, VecDeque<T>>, slot: &mut Option<T>) -> (r: MutexGuard<'a, VecDeque<T>>)
    ensures
        *final(slot) is Some,
{
    match cv.wait_while(g, |items| take_front_or_wait(items, slot)) {
        Ok(g) => g,
        Err(e) => e.into_inner(),
    }
}

/// `Condvar::notify_all`: wakes every thread waiting on `cv`.
#[verifier::external_body]
fn condvar_notify_all(cv: &Condvar) {
    cv.notify_all()
}

/// A first-in first-out queue whose consumers wait until an item arrives.
#[verifier::reject_recursive_types(T)]
pub struct WorkQueue<T> {
    data: Mutex<VecDeque<T>>,
    cv: Condvar,
}

impl<T> WorkQueue<T> {
    /// An empty queue.
    pub fn new() -> Self {
        WorkQueue { data: mutex_new(VecDeque::new()), cv: condvar_new() }
    }

    /// Appends `work_item` at the back and wakes the waiting consumers.
    pub fn push(&self, work_item: T) {
        let mut guard = mutex_lock(&self.data);
        let items = guard_value(&mut guard);
        items.push_back(work_item);
        condvar_notify_all(&self.cv);
    }

    /// Takes the item at the front, waiting for one while the queue is empty.
    pub fn wait_for_work(&self) -> T {
        let guard = mutex_lock(&self.data);
        let mut slot: Option<T> = None;
        let _guard = condvar_wait_while(&self.cv, guard, &mut slot);
        slot.unwrap()
    }
}

impl<T> Default for WorkQueue<T> {
    fn default() -> Self {
        Self::new()
    }
}

} // verus!
