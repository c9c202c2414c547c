use async_io::driver::{
    delay_us, init, unparker, wake_by_ref, BlockEvent, BlockOn, Driver, MainAction, MainEvent, MainLoop, Stage,
};

fn helper() -> MainLoop {
    init(&mut Driver::new()).unwrap()
}

#[test]
fn helper_starts_once() {
    let mut driver = Driver::new();
    assert!(!driver.helper_started);
    assert!(init(&mut driver).is_some());
    assert!(driver.helper_started);
    assert!(init(&mut driver).is_none());
    assert!(unparker(&mut driver).is_none());
}

#[test]
fn block_on_count_is_restored() {
    let mut driver = Driver::new();
    driver.enter_block_on();
    driver.enter_block_on();
    assert_eq!(driver.block_on_count, 2);
    driver.leave_block_on();
    assert_eq!(driver.block_on_count, 1);
    driver.leave_block_on();
    assert_eq!(driver, Driver::new());
}

#[test]
fn backoff_from_50us_to_10ms() {
    let delays: Vec<u64> = (0..12).map(delay_us).collect();
    assert_eq!(
        delays,
        vec![50, 75, 100, 250, 500, 750, 1000, 2500, 5000, 10_000, 10_000, 10_000]
    );
    assert_eq!(delay_us(u64::MAX), 10_000);
}

#[test]
fn helper_waits_on_io_without_block_on() {
    let mut helper = helper();
    assert_eq!(helper.action(), MainAction::ReadTicker);
    assert_eq!(helper.step(MainEvent::Ticker { tick: 0 }), MainAction::TryLock);
    assert_eq!(helper.step(MainEvent::Locked { acquired: true }), MainAction::React);
    assert_eq!(helper.step(MainEvent::Reacted { tick: 1 }), MainAction::CountBlockOn);
    // No `block_on` invocation is active: never sleep.
    assert_eq!(helper.step(MainEvent::BlockOnCount { count: 0 }), MainAction::ReadTicker);
    assert_eq!(helper.step(MainEvent::Ticker { tick: 1 }), MainAction::TryLock);
}

#[test]
fn helper_leaves_the_reactor_to_others_that_drive_it() {
    let mut helper = helper();
    assert_eq!(helper.step(MainEvent::Ticker { tick: 4 }), MainAction::CountBlockOn);
    assert_eq!(helper.step(MainEvent::BlockOnCount { count: 1 }), MainAction::Park { micros: 50 });
    assert_eq!(helper.step(MainEvent::TimedOut), MainAction::ReadTicker);
    assert_eq!(helper.step(MainEvent::Ticker { tick: 5 }), MainAction::CountBlockOn);
    assert_eq!(helper.step(MainEvent::BlockOnCount { count: 1 }), MainAction::Park { micros: 75 });
    // A notification resets the sleep counter.
    assert_eq!(helper.step(MainEvent::Notified { tick: 6 }), MainAction::ReadTicker);
    assert_eq!(helper.step(MainEvent::Ticker { tick: 6 }), MainAction::TryLock);
    assert_eq!(helper.step(MainEvent::Locked { acquired: false }), MainAction::CountBlockOn);
    assert_eq!(helper.step(MainEvent::BlockOnCount { count: 2 }), MainAction::Park { micros: 50 });
}

#[test]
fn helper_blocks_on_the_lock_after_ten_sleeps() {
    let mut helper = helper();
    for sleeps in 0..10 {
        assert_eq!(helper.step(MainEvent::Ticker { tick: 0 }), MainAction::TryLock);
        assert_eq!(helper.step(MainEvent::Locked { acquired: false }), MainAction::CountBlockOn);
        let action = helper.step(MainEvent::BlockOnCount { count: 1 });
        assert_eq!(action, MainAction::Park { micros: delay_us(sleeps) });
        assert_eq!(helper.step(MainEvent::TimedOut), MainAction::ReadTicker);
    }
    assert_eq!(helper.step(MainEvent::Ticker { tick: 0 }), MainAction::Lock);
    assert!(!helper.expects(&MainEvent::Locked { acquired: false }));
    assert_eq!(helper.step(MainEvent::Locked { acquired: true }), MainAction::React);
    assert_eq!(helper.step(MainEvent::Reacted { tick: 9 }), MainAction::CountBlockOn);
    assert_eq!(helper.step(MainEvent::BlockOnCount { count: 1 }), MainAction::Park { micros: 50 });
}

#[test]
fn helper_expects_answers_to_its_action() {
    let helper = helper();
    assert!(helper.expects(&MainEvent::Ticker { tick: 3 }));
    assert!(!helper.expects(&MainEvent::Locked { acquired: true }));
    assert!(!helper.expects(&MainEvent::Reacted { tick: 3 }));
    assert!(!helper.expects(&MainEvent::BlockOnCount { count: 0 }));
    assert!(!helper.expects(&MainEvent::Notified { tick: 3 }));
    assert!(!helper.expects(&MainEvent::TimedOut));
}

const MICRO: u128 = 1_000;

fn checked(notified: bool, now: u128) -> BlockEvent {
    BlockEvent::Checked { notified, now }
}

fn locked(acquired: bool, now: u128) -> BlockEvent {
    BlockEvent::Locked { acquired, now }
}

fn pending() -> BlockEvent {
    BlockEvent::Polled { ready: false }
}

#[test]
fn ready_future_ends_block_on() {
    let mut thread = BlockOn::new();
    assert_eq!(thread.stage(), Stage::Poll);
    assert_eq!(thread.step(BlockEvent::Polled { ready: true }), Stage::Finish);
    assert!(!thread.locks_reactor() && !thread.io_polling() && !thread.io_blocked());
    // A notification that is left is discarded.
    assert!(thread.expects(&checked(true, 0)) && thread.expects(&checked(false, 0)));
    assert_eq!(thread.step(checked(true, 0)), Stage::Return);
    assert!(!thread.locks_reactor() && !thread.io_polling() && !thread.io_blocked());
}

#[test]
fn notified_thread_processes_events_and_polls_again() {
    let mut thread = BlockOn::new();
    assert_eq!(thread.step(pending()), Stage::CheckAfterPoll);
    assert_eq!(thread.step(checked(true, 0)), Stage::LockToProcess);
    assert_eq!(thread.step(locked(true, 0)), Stage::Process);
    assert!(thread.locks_reactor() && thread.io_polling() && !thread.io_blocked());
    assert_eq!(thread.step(BlockEvent::Reacted), Stage::Poll);
    assert!(!thread.locks_reactor() && !thread.io_polling() && !thread.io_blocked());
    thread.step(pending());
    thread.step(checked(true, 0));
    assert_eq!(thread.step(locked(false, 0)), Stage::Poll);
}

#[test]
fn thread_without_the_reactor_sleeps() {
    let mut thread = BlockOn::new();
    thread.step(pending());
    assert_eq!(thread.step(checked(false, 0)), Stage::LockToWait);
    assert_eq!(thread.step(locked(false, 0)), Stage::Park);
    assert!(!thread.io_polling() && !thread.io_blocked());
    assert_eq!(thread.step(BlockEvent::Woken), Stage::Poll);
}

#[test]
fn thread_with_the_reactor_waits_on_io() {
    let mut thread = BlockOn::new();
    thread.step(pending());
    thread.step(checked(false, 0));
    assert_eq!(thread.step(locked(true, 1_000 * MICRO)), Stage::CheckBeforeWait);
    assert!(thread.locks_reactor() && thread.io_polling() && thread.io_blocked());
    assert_eq!(thread.step(checked(false, 1_001 * MICRO)), Stage::Wait);
    assert_eq!(thread.step(BlockEvent::Reacted), Stage::CheckAfterWait);
    assert_eq!(thread.step(checked(true, 1_002 * MICRO)), Stage::Poll);
    assert!(!thread.locks_reactor() && !thread.io_polling() && !thread.io_blocked());
}

#[test]
fn notification_before_the_wait_is_not_lost() {
    let mut thread = BlockOn::new();
    thread.step(pending());
    thread.step(checked(false, 0));
    thread.step(locked(true, 0));
    assert_eq!(thread.step(checked(true, 0)), Stage::Poll);
}

#[test]
fn thread_stops_hogging_the_reactor() {
    let mut thread = BlockOn::new();
    thread.step(pending());
    thread.step(checked(false, 0));
    thread.step(locked(true, 7 * MICRO));
    thread.step(checked(false, 0));
    thread.step(BlockEvent::Reacted);
    // Exactly half a millisecond is not too long.
    assert_eq!(thread.step(checked(false, 507 * MICRO)), Stage::CheckBeforeWait);
    thread.step(checked(false, 507 * MICRO));
    thread.step(BlockEvent::Reacted);
    assert_eq!(thread.step(checked(false, 507 * MICRO + 1)), Stage::Yield);
    assert!(!thread.locks_reactor() && thread.io_polling() && thread.io_blocked());
    assert_eq!(thread.step(BlockEvent::Woken), Stage::Poll);
    assert!(!thread.io_polling() && !thread.io_blocked());
}

#[test]
fn thread_expects_answers_to_its_stage() {
    let mut thread = BlockOn::new();
    assert!(thread.expects(&pending()));
    assert!(!thread.expects(&BlockEvent::Reacted));
    assert!(!thread.expects(&BlockEvent::Woken));
    thread.step(pending());
    assert!(thread.expects(&checked(false, 0)));
    assert!(!thread.expects(&pending()));
    thread.step(checked(false, 0));
    assert!(thread.expects(&locked(false, 0)));
    assert!(!thread.expects(&checked(false, 0)));
    thread.step(locked(false, 0));
    assert!(thread.expects(&BlockEvent::Woken));
}

#[test]
fn wakers_notify_threads_that_are_blocked_on_io() {
    assert!(wake_by_ref(false, true));
    // A repeated wake notifies again.
    assert!(wake_by_ref(false, true));
    assert!(!wake_by_ref(true, true));
    assert!(!wake_by_ref(false, false));
    assert!(!wake_by_ref(true, false));
}

/// Blocks on a future that is ready at poll number `ready_at`. The parker is shared by calls in a row, and
/// `wakes` notifications come while the thread sleeps. Returns how often the future was polled, or `None`
/// if the thread sleeps forever.
fn run(parker: &mut bool, ready_at: usize, wakes_itself: bool, mut wakes: usize) -> Option<usize> {
    let mut thread = BlockOn::new();
    let mut polls = 0;
    loop {
        let event = match thread.stage() {
            Stage::Poll => {
                polls += 1;
                *parker |= wakes_itself;
                BlockEvent::Polled { ready: polls == ready_at }
            }
            Stage::CheckAfterPoll | Stage::CheckBeforeWait | Stage::CheckAfterWait | Stage::Finish => {
                let notified = *parker;
                *parker = false;
                checked(notified, 0)
            }
            Stage::LockToProcess | Stage::LockToWait => locked(false, 0),
            Stage::Process | Stage::Wait => BlockEvent::Reacted,
            Stage::Yield | Stage::Park => {
                if wakes == 0 && !*parker {
                    return None;
                }
                if !*parker {
                    wakes -= 1;
                }
                *parker = false;
                BlockEvent::Woken
            }
            Stage::Return => return Some(polls),
        };
        assert!(thread.expects(&event));
        thread.step(event);
    }
}

#[test]
fn notifications_are_not_carried_over() {
    let mut parker = false;
    assert_eq!(run(&mut parker, 1, true, 0), Some(1));
    assert!(!parker);
    // The next future is polled again only after its own wake.
    assert_eq!(run(&mut parker, 2, false, 1), Some(2));
    assert_eq!(run(&mut parker, 2, false, 0), None);
}

#[test]
fn each_poll_has_its_wake() {
    assert_eq!(run(&mut false, 4, false, 3), Some(4));
    assert_eq!(run(&mut false, 4, false, 2), None);
    assert_eq!(run(&mut true, 4, false, 2), Some(4));
    assert_eq!(run(&mut false, 5, true, 0), Some(5));
}
