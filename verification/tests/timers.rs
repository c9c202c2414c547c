use async_io::timers::{Timers, ESPIDF_TIMER_QUEUE_SIZE, TIMER_QUEUE_SIZE};
use std::sync::atomic::{AtomicUsize, Ordering};
use std::sync::Arc;
use std::task::{Wake, Waker};

struct Count(AtomicUsize);

impl Wake for Count {
    fn wake(self: Arc<Self>) {
        self.0.fetch_add(1, Ordering::SeqCst);
    }
}

fn waker() -> Waker {
    Waker::from(Arc::new(Count(AtomicUsize::new(0))))
}

fn same(wakers: &[Waker], expected: &[&Waker]) -> bool {
    wakers.len() == expected.len() && wakers.iter().zip(expected).all(|(a, b)| a.will_wake(b))
}

#[test]
fn queue_sizes() {
    assert_eq!(TIMER_QUEUE_SIZE, 1000);
    assert_eq!(ESPIDF_TIMER_QUEUE_SIZE, 100);
}

#[test]
fn ids_start_at_one_and_count_up() {
    let mut timers = Timers::new(TIMER_QUEUE_SIZE);
    let mut discard = Vec::new();
    assert_eq!(timers.insert_timer(5, waker(), &mut discard), 1);
    assert_eq!(timers.insert_timer(5, waker(), &mut discard), 2);
    assert_eq!(timers.insert_timer(1, waker(), &mut discard), 3);
    assert!(discard.is_empty());
}

#[test]
fn timers_fire_by_time_and_then_by_id() {
    let mut timers = Timers::new(TIMER_QUEUE_SIZE);
    let (a, b, c, d) = (waker(), waker(), waker(), waker());
    let (mut wakers, mut discard) = (Vec::new(), Vec::new());
    timers.insert_timer(30, a.clone(), &mut discard);
    timers.insert_timer(10, b.clone(), &mut discard);
    timers.insert_timer(30, c.clone(), &mut discard);
    timers.insert_timer(20, d.clone(), &mut discard);
    assert_eq!(timers.process_timers(100, &mut wakers, &mut discard), Some(0));
    assert!(same(&wakers, &[&b, &d, &a, &c]));
    assert!(discard.is_empty());
}

#[test]
fn timer_set_for_exactly_now_is_ready() {
    let mut timers = Timers::new(TIMER_QUEUE_SIZE);
    let (a, b) = (waker(), waker());
    let (mut wakers, mut discard) = (Vec::new(), Vec::new());
    timers.insert_timer(10, a.clone(), &mut discard);
    timers.insert_timer(11, b.clone(), &mut discard);
    assert_eq!(timers.process_timers(10, &mut wakers, &mut discard), Some(0));
    assert!(same(&wakers, &[&a]));
    wakers.clear();
    assert_eq!(timers.process_timers(11, &mut wakers, &mut discard), Some(0));
    assert!(same(&wakers, &[&b]));
}

#[test]
fn duration_until_next_timer() {
    let mut timers = Timers::new(TIMER_QUEUE_SIZE);
    let (mut wakers, mut discard) = (Vec::new(), Vec::new());
    assert_eq!(timers.process_timers(7, &mut wakers, &mut discard), None);
    timers.insert_timer(50, waker(), &mut discard);
    timers.insert_timer(40, waker(), &mut discard);
    assert_eq!(timers.process_timers(7, &mut wakers, &mut discard), Some(33));
    assert!(wakers.is_empty());
    assert_eq!(timers.process_timers(45, &mut wakers, &mut discard), Some(0));
    assert_eq!(wakers.len(), 1);
    assert_eq!(timers.process_timers(45, &mut wakers, &mut discard), Some(5));
    assert_eq!(wakers.len(), 1);
}

#[test]
fn removed_timer_never_fires() {
    let mut timers = Timers::new(TIMER_QUEUE_SIZE);
    let (a, b) = (waker(), waker());
    let (mut wakers, mut discard) = (Vec::new(), Vec::new());
    let first = timers.insert_timer(10, a.clone(), &mut discard);
    timers.insert_timer(10, b.clone(), &mut discard);
    timers.remove_timer(10, first, &mut discard);
    assert_eq!(timers.process_timers(10, &mut wakers, &mut discard), Some(0));
    assert!(same(&wakers, &[&b]));
    assert!(same(&discard, &[&a]));
}

#[test]
fn removal_with_another_time_or_id_changes_nothing() {
    let mut timers = Timers::new(TIMER_QUEUE_SIZE);
    let a = waker();
    let (mut wakers, mut discard) = (Vec::new(), Vec::new());
    let id = timers.insert_timer(10, a.clone(), &mut discard);
    timers.remove_timer(11, id, &mut discard);
    timers.remove_timer(10, id + 1, &mut discard);
    timers.process_timer_ops(&mut discard);
    assert!(discard.is_empty());
    assert_eq!(timers.process_timers(10, &mut wakers, &mut discard), Some(0));
    assert!(same(&wakers, &[&a]));
}

#[test]
fn full_queue_is_drained_and_tried_again() {
    let mut timers = Timers::new(2);
    let (a, b, c) = (waker(), waker(), waker());
    let (mut wakers, mut discard) = (Vec::new(), Vec::new());
    let id = timers.insert_timer(10, a.clone(), &mut discard);
    timers.remove_timer(10, id, &mut discard);
    // Nothing was processed yet, so the waker is still in the queue.
    assert!(discard.is_empty());
    timers.insert_timer(20, b.clone(), &mut discard);
    // The queue was full: the insertion and the removal were processed.
    assert!(same(&discard, &[&a]));
    timers.insert_timer(20, c.clone(), &mut discard);
    timers.insert_timer(5, a.clone(), &mut discard);
    assert_eq!(discard.len(), 1);
    assert_eq!(timers.process_timers(20, &mut wakers, &mut discard), Some(0));
    assert!(same(&wakers, &[&a, &b, &c]));
}

#[test]
fn queue_of_one() {
    let mut timers = Timers::new(1);
    let all: Vec<Waker> = (0..5).map(|_| waker()).collect();
    let (mut wakers, mut discard) = (Vec::new(), Vec::new());
    for (i, waker) in all.iter().enumerate() {
        timers.insert_timer(100 - i as u128, waker.clone(), &mut discard);
    }
    assert_eq!(timers.process_timers(98, &mut wakers, &mut discard), Some(0));
    assert!(same(&wakers, &[&all[4], &all[3], &all[2]]));
    assert!(discard.is_empty());
}

#[test]
fn polling_in_between_gives_the_same_order() {
    let all: Vec<Waker> = (0..6).map(|_| waker()).collect();
    let times = [30u128, 10, 20, 10, 40, 30];
    let mut orders: Vec<Vec<Waker>> = Vec::new();
    for stops in [vec![100u128], vec![10, 25, 100], vec![5, 30, 31, 100]] {
        let mut timers = Timers::new(3);
        let (mut wakers, mut discard) = (Vec::new(), Vec::new());
        for (waker, when) in all.iter().zip(times) {
            timers.insert_timer(when, waker.clone(), &mut discard);
        }
        for now in stops {
            timers.process_timers(now, &mut wakers, &mut discard);
        }
        orders.push(wakers);
    }
    for order in &orders {
        assert!(same(order, &[&all[1], &all[3], &all[2], &all[0], &all[5], &all[4]]));
    }
}

#[test]
fn more_timers_than_the_queue_holds() {
    let mut timers = Timers::new(TIMER_QUEUE_SIZE);
    let (mut wakers, mut discard) = (Vec::new(), Vec::new());
    for i in 0..2500u128 {
        timers.insert_timer(2500 - i, waker(), &mut discard);
    }
    assert_eq!(timers.process_timers(0, &mut wakers, &mut discard), Some(1));
    assert!(wakers.is_empty());
    assert_eq!(timers.process_timers(1250, &mut wakers, &mut discard), Some(0));
    assert_eq!(wakers.len(), 1250);
    assert!(discard.is_empty());
}

#[test]
fn timers_fire_once_in_a_long_history() {
    let mut timers = Timers::new(2);
    let (a, b, c) = (waker(), waker(), waker());
    let (mut wakers, mut discard) = (Vec::new(), Vec::new());
    timers.insert_timer(10, a.clone(), &mut discard);
    // Never early.
    timers.process_timers(9, &mut wakers, &mut discard);
    assert!(wakers.is_empty());
    let second = timers.insert_timer(10, b.clone(), &mut discard);
    timers.process_timer_ops(&mut discard);
    timers.insert_timer(30, c.clone(), &mut discard);
    timers.remove_timer(10, second, &mut discard);
    // By the first processing that is due, and not after the removal.
    timers.process_timers(20, &mut wakers, &mut discard);
    assert!(same(&wakers, &[&a]));
    assert!(same(&discard, &[&b]));
    // Once.
    timers.process_timers(20, &mut wakers, &mut discard);
    timers.process_timers(25, &mut wakers, &mut discard);
    assert!(same(&wakers, &[&a]));
    timers.process_timers(30, &mut wakers, &mut discard);
    assert!(same(&wakers, &[&a, &c]));
    assert_eq!(timers.process_timers(40, &mut wakers, &mut discard), None);
    assert_eq!(wakers.len(), 2);
}

#[test]
fn removal_undoes_insertion_in_a_history() {
    let mut timers = Timers::new(3);
    let (a, b, c) = (waker(), waker(), waker());
    let (mut wakers, mut discard) = (Vec::new(), Vec::new());
    timers.insert_timer(10, a.clone(), &mut discard);
    timers.insert_timer(20, b.clone(), &mut discard);
    timers.process_timers(15, &mut wakers, &mut discard);
    let id = timers.insert_timer(20, c.clone(), &mut discard);
    timers.remove_timer(20, id, &mut discard);
    timers.process_timers(20, &mut wakers, &mut discard);
    assert!(same(&wakers, &[&a, &b]));
    assert!(same(&discard, &[&c]));
}
