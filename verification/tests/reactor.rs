use async_io::reactor::{ErrorKind, Reactor, Round, Step, Waited};
use async_io::ready::Async;
use async_io::source::{Direction, Event, Interest, Poll, PollOutcome, Ready, Registration, Source, SourceId, READ, WRITE};
use async_io::timers::TIMER_QUEUE_SIZE;
use std::sync::atomic::{AtomicUsize, Ordering};
use std::sync::Arc;
use std::task::{Wake, Waker};

struct Count(AtomicUsize);

impl Wake for Count {
    fn wake(self: Arc<Self>) {
        self.0.fetch_add(1, Ordering::SeqCst);
    }
}

fn waker() -> Waker {
    Waker::from(Arc::new(Count(AtomicUsize::new(0))))
}

fn same(wakers: &[Waker], expected: &[&Waker]) -> bool {
    wakers.len() == expected.len() && wakers.iter().zip(expected).all(|(a, b)| a.will_wake(b))
}

fn reactor() -> Reactor {
    Reactor::new(TIMER_QUEUE_SIZE)
}

fn register(reactor: &mut Reactor, raw: u64) -> SourceId {
    let source = reactor.insert_io(Registration { raw });
    let added: Result<SourceId, ()> = reactor.finish_insert_io(source, Ok(()));
    assert_eq!(added, Ok(source));
    source
}

fn event(source: SourceId, readable: bool, writable: bool) -> Event {
    Event { key: source.key, readable, writable }
}

fn interest(raw: u64, source: SourceId, readable: bool, writable: bool) -> Option<Interest> {
    Some(Interest {
        registration: Registration { raw },
        event: event(source, readable, writable),
    })
}

fn start(reactor: &mut Reactor) -> Round {
    reactor.react(Some(0), 0, &mut Vec::new())
}

fn finish(round: Round, reactor: &mut Reactor, events: Vec<Event>) -> Step<u8> {
    let waited = Waited::Events { count: events.len(), events };
    round.waited(reactor, waited, 0, &mut Vec::new())
}

/// Runs a round in which the poller takes each change of interest.
fn run(reactor: &mut Reactor, events: Vec<Event>) -> (Vec<Waker>, Vec<Interest>) {
    let round = start(reactor);
    let mut step = finish(round, reactor, events);
    let mut changes = Vec::new();
    loop {
        match step {
            Step::Modify { delivery, interest } => {
                changes.push(interest);
                step = delivery.modified(reactor, Ok(()));
            }
            Step::Done { wakers, result } => {
                assert_eq!(result, Ok(()));
                return (wakers, changes);
            }
            Step::Failed { .. } => panic!("the poller has not failed"),
        }
    }
}

fn is_ready(outcome: &PollOutcome) -> bool {
    matches!(outcome, PollOutcome::Ready)
}

#[test]
fn sources_get_keys() {
    let mut reactor = reactor();
    let first = register(&mut reactor, 10);
    let second = register(&mut reactor, 11);
    let third = register(&mut reactor, 12);
    assert_eq!(first, SourceId { key: 0, serial: 0 });
    assert_eq!(second, SourceId { key: 1, serial: 1 });
    assert_eq!(third, SourceId { key: 2, serial: 2 });
    let removed = reactor.remove_io(second);
    assert_eq!(removed.registration(), Registration { raw: 11 });
    assert_eq!(removed.id(), second);
    assert!(!reactor.has_source(second));
    assert!(reactor.has_source(first) && reactor.has_source(third));
    // The key is given out again, the serial number is not.
    assert_eq!(register(&mut reactor, 13), SourceId { key: 1, serial: 3 });
    assert!(!reactor.has_source(second));
}

#[test]
fn refused_source_leaves_no_trace() {
    let mut reactor = reactor();
    let first = register(&mut reactor, 10);
    let source = reactor.insert_io(Registration { raw: 11 });
    assert!(reactor.has_source(source));
    let refused: Result<SourceId, &str> = reactor.finish_insert_io(source, Err("no"));
    assert_eq!(refused, Err("no"));
    assert!(!reactor.has_source(source));
    assert!(reactor.has_source(first));
    assert_eq!(register(&mut reactor, 12).key, source.key);
}

#[test]
fn futures_do_not_mistake_another_source_for_their_own() {
    let mut reactor = reactor();
    let old = Async::new(register(&mut reactor, 10), ());
    let (a, b) = (waker(), waker());
    let mut stale = Source::readable(&old);
    stale.poll(&mut reactor, a.clone());
    reactor.remove_io(old.source());

    // The new source and the new future get the key and the slot of the old ones.
    let new = Async::new(register(&mut reactor, 20), ());
    assert_eq!(new.source().key, old.source().key);
    let mut future = Source::readable(&new);
    future.poll(&mut reactor, b.clone());
    assert!(!stale.is_attached(&reactor));
    assert!(!Source::readable(&old).is_attached(&reactor));
    assert!(stale.drop(&mut reactor).is_none());
    let (wakers, _) = run(&mut reactor, vec![event(new.source(), true, false)]);
    assert!(same(&wakers, &[&b]));
}

#[test]
fn futures_outlive_the_registration_of_their_source() {
    let mut reactor = reactor();
    let id = register(&mut reactor, 10);
    let (a, b) = (waker(), waker());
    let mut future: Ready<(), READ> = Source::ready((), id);
    reactor.poll_ready(&mut future, a.clone());
    let mut source = reactor.remove_io(id);
    let ticker = reactor.ticker();
    assert_eq!(future.source(), id);
    assert!(future.is_attached(&source));
    match future.poll(&mut source, b.clone(), ticker) {
        PollOutcome::Pending { wake: None, discard: Some(replaced), interest: None } => {
            assert!(replaced.will_wake(&a));
        }
        outcome => panic!("{:?}", outcome),
    }
    assert!(reactor.drop_ready(&mut future).is_none());
    assert!(future.drop(&mut source).unwrap().will_wake(&b));
    assert!(future.drop(&mut source).is_none());
}

#[test]
fn ticker_counts_rounds() {
    let mut reactor = reactor();
    assert_eq!(reactor.ticker(), 0);
    run(&mut reactor, vec![]);
    assert_eq!(reactor.ticker(), 1);
    run(&mut reactor, vec![]);
    assert_eq!(reactor.ticker(), 2);
}

#[test]
fn first_poll_registers_interest() {
    let mut reactor = reactor();
    let key = register(&mut reactor, 10);
    let outcome = reactor.poll_readable(key, waker());
    assert!(!is_ready(&outcome));
    assert_eq!(outcome.interest(), interest(10, key, true, false));
    let outcome = reactor.poll_writable(key, waker());
    assert_eq!(outcome.interest(), interest(10, key, true, true));
}

#[test]
fn same_waker_stays_and_different_one_is_replaced_and_woken() {
    let mut reactor = reactor();
    let key = register(&mut reactor, 10);
    let (a, b) = (waker(), waker());
    reactor.poll_readable(key, a.clone());
    match reactor.poll_readable(key, a.clone()) {
        PollOutcome::Pending { wake: None, discard: None, interest: None } => {}
        outcome => panic!("{:?}", outcome),
    }
    match reactor.poll_readable(key, b.clone()) {
        PollOutcome::Pending { wake: Some(woken), discard: None, interest: None } => {
            assert!(woken.will_wake(&a));
        }
        outcome => panic!("{:?}", outcome),
    }
    let (wakers, changes) = run(&mut reactor, vec![event(key, true, false)]);
    assert!(same(&wakers, &[&b]));
    assert!(changes.is_empty());
}

#[test]
fn decision_of_the_comparison_is_followed() {
    let mut reactor = reactor();
    let key = register(&mut reactor, 10);
    let (a, b) = (waker(), waker());
    let mut source: Source = reactor.remove_io(key);
    source.register(READ, a.clone(), 0, true);
    match source.register(READ, b.clone(), 0, true) {
        PollOutcome::Pending { wake: None, .. } => {}
        outcome => panic!("{:?}", outcome),
    }
    match source.register(READ, b.clone(), 0, false) {
        PollOutcome::Pending { wake: Some(woken), .. } => assert!(woken.will_wake(&a)),
        outcome => panic!("{:?}", outcome),
    }
    assert_eq!(Some(source.interest()), interest(10, key, true, false));
}

#[test]
fn event_makes_source_ready_once() {
    let mut reactor = reactor();
    let key = register(&mut reactor, 10);
    let a = waker();
    assert!(!is_ready(&reactor.poll_readable(key, a.clone())));
    let (wakers, _) = run(&mut reactor, vec![event(key, true, false)]);
    assert!(same(&wakers, &[&a]));
    assert!(is_ready(&reactor.poll_readable(key, a.clone())));
    let outcome = reactor.poll_readable(key, a.clone());
    assert!(!is_ready(&outcome));
    assert_eq!(outcome.interest(), interest(10, key, true, false));
}

#[test]
fn event_for_the_other_direction_leaves_source_pending() {
    let mut reactor = reactor();
    let key = register(&mut reactor, 10);
    let a = waker();
    reactor.poll_readable(key, a.clone());
    let (wakers, changes) = run(&mut reactor, vec![event(key, false, true)]);
    assert!(wakers.is_empty());
    // Interest was used up by the event.
    assert_eq!(changes, vec![interest(10, key, true, false).unwrap()]);
    assert!(!is_ready(&reactor.poll_readable(key, a)));
}

#[test]
fn stale_event_leaves_source_pending() {
    let mut reactor = reactor();
    let key = register(&mut reactor, 10);
    let a = waker();
    // The round has started when the task polls, so its events may be older than the poll.
    let round = start(&mut reactor);
    reactor.poll_readable(key, a.clone());
    match finish(round, &mut reactor, vec![event(key, true, false)]) {
        Step::Done { wakers, .. } => assert!(same(&wakers, &[&a])),
        step => panic!("{:?}", step),
    }
    assert!(!is_ready(&reactor.poll_readable(key, a.clone())));
    run(&mut reactor, vec![event(key, true, false)]);
    assert!(is_ready(&reactor.poll_readable(key, a)));
}

#[test]
fn stale_event_leaves_future_pending() {
    let mut reactor = reactor();
    let object = Async::new(register(&mut reactor, 10), ());
    let mut future = Source::readable(&object);
    let a = waker();
    let round = start(&mut reactor);
    assert!(!is_ready(&future.poll(&mut reactor, a.clone())));
    match finish(round, &mut reactor, vec![event(object.source(), true, false)]) {
        Step::Done { wakers, .. } => assert!(same(&wakers, &[&a])),
        step => panic!("{:?}", step),
    }
    let outcome = future.poll(&mut reactor, a.clone());
    assert!(!is_ready(&outcome));
    // The event has used up the interest.
    assert_eq!(outcome.interest(), interest(10, object.source(), true, false));
    run(&mut reactor, vec![event(object.source(), true, false)]);
    assert!(is_ready(&future.poll(&mut reactor, a.clone())));
    // A future that is ready stays ready.
    assert!(is_ready(&future.poll(&mut reactor, a)));
}

#[test]
fn futures_wait_side_by_side() {
    let mut reactor = reactor();
    let object = Arc::new(Async::new(register(&mut reactor, 10), "io"));
    let key = object.source();
    assert_eq!(*object.get_ref(), "io");
    let (a, b, c, d) = (waker(), waker(), waker(), waker());
    let mut first = Source::readable(&object);
    let mut second = Source::readable_owned(object.clone());
    let mut third = Source::writable(&object);
    let mut fourth = Source::writable_owned(object.clone());
    assert_eq!(first.poll(&mut reactor, a.clone()).interest(), interest(10, key, true, false));
    assert_eq!(second.poll(&mut reactor, b.clone()).interest(), None);
    assert_eq!(third.poll(&mut reactor, c.clone()).interest(), interest(10, key, true, true));
    assert_eq!(fourth.poll(&mut reactor, d.clone()).interest(), None);
    // Writers come first.
    let (wakers, changes) = run(&mut reactor, vec![event(key, true, true)]);
    assert!(same(&wakers, &[&c, &d, &a, &b]));
    assert!(changes.is_empty());
    assert!(is_ready(&first.poll(&mut reactor, waker())));
    assert!(is_ready(&second.poll(&mut reactor, waker())));
    assert!(is_ready(&third.poll(&mut reactor, waker())));
    assert!(is_ready(&fourth.poll(&mut reactor, waker())));
}

#[test]
fn polled_waker_is_woken_before_those_of_futures() {
    let mut reactor = reactor();
    let object = Async::new(register(&mut reactor, 10), ());
    let (a, b) = (waker(), waker());
    let mut future = Source::readable(&object);
    future.poll(&mut reactor, a.clone());
    assert_eq!(reactor.poll_readable(object.source(), b.clone()).interest(), None);
    let (wakers, _) = run(&mut reactor, vec![event(object.source(), true, false)]);
    assert!(same(&wakers, &[&b, &a]));
}

#[test]
fn last_waker_of_a_future_counts() {
    let mut reactor = reactor();
    let object = Async::new(register(&mut reactor, 10), ());
    let (a, b) = (waker(), waker());
    let mut future = Source::writable(&object);
    future.poll(&mut reactor, a.clone());
    match future.poll(&mut reactor, b.clone()) {
        PollOutcome::Pending { wake: None, discard: Some(replaced), interest: None } => {
            assert!(replaced.will_wake(&a));
        }
        outcome => panic!("{:?}", outcome),
    }
    let (wakers, _) = run(&mut reactor, vec![event(object.source(), false, true)]);
    assert!(same(&wakers, &[&b]));
}

#[test]
fn dropped_future_is_not_woken() {
    let mut reactor = reactor();
    let object = Async::new(register(&mut reactor, 10), ());
    let (a, b) = (waker(), waker());
    let mut first = Source::readable(&object);
    let mut second = Source::readable(&object);
    assert!(first.drop(&mut reactor).is_none());
    first.poll(&mut reactor, a.clone());
    second.poll(&mut reactor, b.clone());
    assert!(first.drop(&mut reactor).unwrap().will_wake(&a));
    assert!(first.drop(&mut reactor).is_none());
    let (wakers, _) = run(&mut reactor, vec![event(object.source(), true, false)]);
    assert!(same(&wakers, &[&b]));
    // The slot of the second future is still there, but its waker was taken out.
    assert!(second.drop(&mut reactor).is_none());
}

#[test]
fn slots_are_reused() {
    let mut reactor = reactor();
    let object = Async::new(register(&mut reactor, 10), ());
    let (a, b, c) = (waker(), waker(), waker());
    let mut first = Source::readable(&object);
    let mut second = Source::readable(&object);
    let mut third = Source::readable(&object);
    first.poll(&mut reactor, a.clone());
    second.poll(&mut reactor, b.clone());
    first.drop(&mut reactor);
    third.poll(&mut reactor, c.clone());
    // Dropping it again takes nothing from the future that has its slot now.
    assert!(first.drop(&mut reactor).is_none());
    let (wakers, _) = run(&mut reactor, vec![event(object.source(), true, false)]);
    assert!(same(&wakers, &[&c, &b]));
}

#[test]
fn futures_know_whether_they_are_attached() {
    let mut reactor = reactor();
    let object = Async::new(register(&mut reactor, 10), ());
    let mut future = Source::readable(&object);
    assert!(future.is_attached(&reactor));
    future.poll(&mut reactor, waker());
    assert!(future.is_attached(&reactor));
    future.drop(&mut reactor);
    assert!(future.is_attached(&reactor));
    let mut fresh = Source::writable(&object);
    assert!(fresh.is_attached(&reactor));
    reactor.remove_io(object.source());
    assert!(!fresh.is_attached(&reactor));
    assert!(fresh.drop(&mut reactor).is_none());
}

#[test]
fn futures_show_themselves() {
    let object = Arc::new(Async::new(SourceId { key: 0, serial: 0 }, ()));
    assert_eq!(Source::readable(&object).fmt(), "Readable");
    assert_eq!(Source::readable_owned(object.clone()).fmt(), "ReadableOwned");
    assert_eq!(Source::writable(&object).fmt(), "Writable");
    assert_eq!(Source::writable_owned(object.clone()).fmt(), "WritableOwned");
}

#[test]
fn interest_is_registered_again_for_those_who_still_wait() {
    let mut reactor = reactor();
    let key = register(&mut reactor, 10);
    let other = register(&mut reactor, 20);
    let (a, b, c) = (waker(), waker(), waker());
    reactor.poll_readable(key, a.clone());
    reactor.poll_writable(key, b.clone());
    reactor.poll_readable(other, c.clone());
    let events = vec![Event { key: 77, readable: true, writable: true }, event(key, false, true), event(other, true, false)];
    let (wakers, changes) = run(&mut reactor, events);
    assert!(same(&wakers, &[&b, &c]));
    assert_eq!(changes, vec![interest(10, key, true, false).unwrap()]);
    let (wakers, changes) = run(&mut reactor, vec![event(key, true, false)]);
    assert!(same(&wakers, &[&a]));
    assert!(changes.is_empty());
}

#[test]
fn refused_change_of_interest_ends_the_round() {
    let mut reactor = reactor();
    let key = register(&mut reactor, 10);
    let other = register(&mut reactor, 20);
    let (a, b, c) = (waker(), waker(), waker());
    reactor.poll_readable(key, a.clone());
    reactor.poll_writable(key, b.clone());
    reactor.poll_readable(other, c.clone());
    let round = start(&mut reactor);
    let events = vec![event(key, false, true), event(other, true, false)];
    match finish(round, &mut reactor, events) {
        Step::Modify { delivery, interest: change } => {
            assert_eq!(Some(change), interest(10, key, true, false));
            match delivery.modified(&mut reactor, Err(5)) {
                Step::Failed { discard, error } => {
                    assert_eq!(error, 5);
                    assert!(same(&discard, &[&b]));
                }
                step => panic!("{:?}", step),
            }
        }
        step => panic!("{:?}", step),
    }
    // The event behind the failure was not delivered.
    let (wakers, _) = run(&mut reactor, vec![event(other, true, false)]);
    assert!(same(&wakers, &[&c]));
}

#[test]
fn events_in_one_batch_or_in_two_wake_the_same() {
    let mut orders = Vec::new();
    let (a, b, c) = (waker(), waker(), waker());
    for split in [0usize, 1, 2, 3] {
        let mut reactor = reactor();
        let (x, y) = (register(&mut reactor, 1), register(&mut reactor, 2));
        reactor.poll_readable(x, a.clone());
        reactor.poll_writable(x, b.clone());
        reactor.poll_writable(y, c.clone());
        let events = vec![event(x, true, false), event(y, true, true), event(x, false, true)];
        let (mut first, _) = run(&mut reactor, events[..split].to_vec());
        let (second, _) = run(&mut reactor, events[split..].to_vec());
        first.extend(second);
        orders.push(first);
    }
    for order in &orders {
        assert!(same(order, &[&a, &c, &b]));
    }
}

#[test]
fn timers_shorten_the_timeout() {
    let mut reactor = reactor();
    let mut discard = Vec::new();
    assert_eq!(reactor.react(None, 0, &mut discard).timeout(), None);
    assert_eq!(reactor.react(Some(9), 0, &mut discard).timeout(), Some(9));
    assert_eq!(reactor.insert_timer(50, waker(), &mut discard), 1);
    assert_eq!(reactor.react(None, 10, &mut discard).timeout(), Some(40));
    assert_eq!(reactor.react(Some(30), 10, &mut discard).timeout(), Some(30));
    assert_eq!(reactor.react(Some(60), 10, &mut discard).timeout(), Some(40));
    assert_eq!(reactor.react(Some(60), 50, &mut discard).timeout(), Some(0));
    assert_eq!(reactor.react(Some(60), 50, &mut discard).timeout(), Some(60));
}

#[test]
fn removed_timer_does_not_shorten_the_timeout() {
    let mut reactor = reactor();
    let mut discard = Vec::new();
    let a = waker();
    let id = reactor.insert_timer(50, a.clone(), &mut discard);
    reactor.remove_timer(50, id, &mut discard);
    assert_eq!(reactor.react(None, 10, &mut discard).timeout(), None);
    assert!(same(&discard, &[&a]));
}

#[test]
fn timers_fire_after_the_timeout() {
    let mut reactor = reactor();
    let mut discard = Vec::new();
    let (a, b) = (waker(), waker());
    reactor.insert_timer(5, a.clone(), &mut discard);
    reactor.insert_timer(20, b.clone(), &mut discard);
    // Timers are about to fire right now, so the poller does not block and they are not asked again.
    let round = reactor.react(None, 5, &mut discard);
    assert_eq!(round.timeout(), Some(0));
    let waited: Waited<u8> = Waited::Events { count: 0, events: vec![] };
    match round.waited(&mut reactor, waited, 30, &mut discard) {
        Step::Done { wakers, result } => {
            assert_eq!(result, Ok(()));
            assert!(same(&wakers, &[&a]));
        }
        step => panic!("{:?}", step),
    }
    // The non-zero timeout was hit.
    let round = reactor.react(None, 10, &mut discard);
    assert_eq!(round.timeout(), Some(10));
    let waited: Waited<u8> = Waited::Events { count: 0, events: vec![] };
    match round.waited(&mut reactor, waited, 20, &mut discard) {
        Step::Done { wakers, result } => {
            assert_eq!(result, Ok(()));
            assert!(same(&wakers, &[&b]));
        }
        step => panic!("{:?}", step),
    }
}

#[test]
fn events_come_after_timers() {
    let mut reactor = reactor();
    let key = register(&mut reactor, 10);
    let mut discard = Vec::new();
    let (a, b, c) = (waker(), waker(), waker());
    reactor.poll_readable(key, a.clone());
    reactor.insert_timer(5, b.clone(), &mut discard);
    reactor.insert_timer(6, c.clone(), &mut discard);
    let round = reactor.react(None, 5, &mut discard);
    let waited: Waited<u8> = Waited::Events { count: 1, events: vec![event(key, true, false)] };
    match round.waited(&mut reactor, waited, 9, &mut discard) {
        Step::Done { wakers, .. } => assert!(same(&wakers, &[&b, &a])),
        step => panic!("{:?}", step),
    }
}

#[test]
fn interrupted_wait_is_no_error() {
    let mut reactor = reactor();
    let mut discard = Vec::new();
    let a = waker();
    reactor.insert_timer(5, a.clone(), &mut discard);
    let round = reactor.react(None, 5, &mut discard);
    let waited = Waited::Failed { error: 4u8, kind: ErrorKind::Interrupted };
    match round.waited(&mut reactor, waited, 9, &mut discard) {
        Step::Done { wakers, result } => {
            assert_eq!(result, Ok(()));
            assert!(same(&wakers, &[&a]));
        }
        step => panic!("{:?}", step),
    }
}

#[test]
fn failed_wait_still_wakes_timers() {
    let mut reactor = reactor();
    let mut discard = Vec::new();
    let a = waker();
    reactor.insert_timer(5, a.clone(), &mut discard);
    let round = reactor.react(None, 5, &mut discard);
    let waited = Waited::Failed { error: 4u8, kind: ErrorKind::Other };
    match round.waited(&mut reactor, waited, 9, &mut discard) {
        Step::Done { wakers, result } => {
            assert_eq!(result, Err(4));
            assert!(same(&wakers, &[&a]));
        }
        step => panic!("{:?}", step),
    }
}

#[test]
fn outcomes_resolve() {
    let ready = PollOutcome::Ready;
    assert_eq!(ready.resolve::<u8>(Ok(())), Poll::Ready(Ok(())));
    let quiet = PollOutcome::Pending { wake: None, discard: None, interest: None };
    assert_eq!(quiet.resolve::<u8>(Ok(())), Poll::Pending);
    let change = interest(1, SourceId { key: 2, serial: 0 }, true, false);
    let pending = PollOutcome::Pending { wake: None, discard: None, interest: change };
    assert_eq!(pending.resolve::<u8>(Ok(())), Poll::Pending);
    assert_eq!(pending.resolve(Err(3u8)), Poll::Ready(Err(3)));
    assert_eq!(pending.interest(), change);
}

#[test]
fn events_start_empty() {
    assert_eq!(Event::none(8), Event { key: 8, readable: false, writable: false });
}

#[test]
fn fresh_direction_is_empty() {
    let mut direction = Direction::default();
    assert!(direction.is_empty());
    let mut wakers = vec![waker()];
    direction.drain_into(&mut wakers);
    assert_eq!(wakers.len(), 1);
    assert!(direction.is_empty());
}

#[test]
fn polling_a_source_directly() {
    let mut reactor = reactor();
    let key = register(&mut reactor, 10);
    let mut source = reactor.remove_io(key);
    assert_eq!(Some(source.interest()), interest(10, key, false, false));
    let a = waker();
    assert_eq!(source.poll_writable(a.clone(), 3).interest(), interest(10, key, false, true));
    assert_eq!(source.poll_ready(WRITE, a.clone(), 4).interest(), None);
    assert_eq!(source.poll_readable(a, 4).interest(), interest(10, key, true, true));
}
