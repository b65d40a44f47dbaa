//! Scenarios for the expiration queue core, driven with an explicit clock:
//! the surrounding runtime normally supplies `now`, performs the sleeps and
//! invokes the callback with what `worker_step` hands out.

use rstq::Tq;

#[test]
fn queue_starts_empty_and_idle() {
    let mut tq: Tq<i32> = Tq::new(10);
    assert!(tq.is_empty());
    assert_eq!(tq.len(), 0);
    assert!(!tq.contains_key(&1));
    assert!(tq.get(&1).is_none());
    assert_eq!(tq.remove(&1), None);
    assert!(!tq.is_running());

    let tq2: Tq<i32> = Tq::with_capacity(10, 16);
    assert!(tq2.is_empty());
    assert_eq!(tq2.len(), 0);
    assert!(!tq2.is_running());
}

#[test]
fn reserve_changes_nothing_observable() {
    let mut tq: Tq<i32> = Tq::new(10);
    tq.reserve(8);
    assert_eq!(tq.len(), 0);
    assert!(!tq.is_running());
}

#[test]
fn expiration_fires_and_loop_restarts() {
    // timeout 5: insert (1, 10) at time 0, drain, then (2, 20) at time 20.
    let mut fired: Vec<(u64, i32)> = Vec::new();
    let mut tq: Tq<i32> = Tq::new(5);

    assert!(tq.push(1, 10, 0));
    assert!(tq.is_running());

    let (k, ev) = tq.worker_step().unwrap();
    assert_eq!(ev.expire_at, 5);
    fired.push((k, ev.value));
    assert!(tq.worker_step().is_none());
    assert!(!tq.is_running());
    assert_eq!(fired, vec![(1, 10)]);

    assert!(tq.push(2, 20, 20));
    assert!(tq.is_running());
    let (k, ev) = tq.worker_step().unwrap();
    assert_eq!(ev.expire_at, 25);
    fired.push((k, ev.value));
    assert!(tq.worker_step().is_none());
    assert_eq!(fired, vec![(1, 10), (2, 20)]);

    assert!(!tq.contains_key(&1));
    assert!(tq.get(&1).is_none());
    assert_eq!(tq.remove(&1), None);
}

#[test]
fn exactly_one_worker_is_started() {
    let mut tq: Tq<i32> = Tq::new(5);
    assert!(tq.push(1, 10, 0));
    assert!(!tq.push(2, 20, 1));
    assert!(!tq.push(3, 30, 2));
    assert!(tq.is_running());

    assert!(tq.worker_step().is_some());
    assert!(tq.worker_step().is_some());
    assert!(tq.worker_step().is_some());
    assert!(tq.worker_step().is_none());
    assert!(!tq.is_running());

    // the worker exited: the next insert is owed a fresh one
    assert!(tq.push(4, 40, 50));
}

#[test]
fn two_inserts_fire_in_insertion_order() {
    let mut tq: Tq<&str> = Tq::new(100);
    tq.push(8, "first", 0);
    tq.push(3, "second", 1);

    let (k1, ev1) = tq.worker_step().unwrap();
    assert_eq!((k1, ev1.value), (8, "first"));
    let (k2, ev2) = tq.worker_step().unwrap();
    assert_eq!((k2, ev2.value), (3, "second"));
    assert!(ev1.expire_at <= ev2.expire_at);
}

#[test]
fn removal_suppresses_expiry() {
    let mut tq: Tq<i32> = Tq::new(5);
    tq.push(1, 10, 0);
    tq.push(2, 20, 0);
    assert_eq!(tq.remove(&1), Some(10));
    assert!(!tq.contains_key(&1));
    assert!(tq.contains_key(&2));

    // the worker never hands the removed entry out
    let (k, ev) = tq.worker_step().unwrap();
    assert_eq!((k, ev.value), (2, 20));
    assert!(tq.worker_step().is_none());
}

#[test]
fn reinsertion_updates_value_and_deadline() {
    let mut tq: Tq<i32> = Tq::new(5);
    tq.push(1, 10, 0);
    tq.push(1, 11, 3);
    assert_eq!(tq.len(), 1);
    assert_eq!(tq.get(&1), Some(&11));

    let (k, ev) = tq.worker_step().unwrap();
    assert_eq!(k, 1);
    assert_eq!(ev.value, 11);
    assert_eq!(ev.expire_at, 8);
    assert!(tq.worker_step().is_none());
}
