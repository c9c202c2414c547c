//! Who drives the reactor: the helper thread, and the threads that block on a future.
use crate::timers;
use vstd::prelude::*;

verus! {

/// What all drivers of the reactor share.
#[derive(Clone, Copy, Debug, PartialEq, Eq, Structural)]
pub struct Driver {
    /// Number of currently active `block_on` invocations.
    pub block_on_count: usize,
    /// The helper thread was started.
    pub helper_started: bool,
}

impl Driver {
    /// Nobody drives the reactor yet.
    pub fn new() -> (driver: Driver)
        ensures
            driver == (Driver { block_on_count: 0, helper_started: false }),
    {
        Driver { block_on_count: 0, helper_started: false }
    }

    /// Counts a `block_on` invocation that starts, so that the helper thread becomes less aggressive.
    pub fn enter_block_on(&mut self)
        ensures
            *final(self) == (Driver {
                block_on_count: timers::wrapping_next(old(self).block_on_count),
                ..*old(self)
            }),
    {
        self.block_on_count = self.block_on_count.wrapping_add(1);
    }

    /// Discounts a `block_on` invocation that ends. The caller then wakes the helper thread.
    pub fn leave_block_on(&mut self)
        ensures
            timers::wrapping_next(final(self).block_on_count) == old(self).block_on_count,
            final(self).helper_started == old(self).helper_started,
    {
        self.block_on_count = self.block_on_count.wrapping_sub(1);
    }
}

/// Makes sure that the helper thread runs. Where it was not started yet, the caller has to start it on
/// the main loop that is returned.
pub fn unparker(driver: &mut Driver) -> (main_loop: Option<MainLoop>)
    ensures
        *final(driver) == (Driver { helper_started: true, ..*old(driver) }),
        main_loop matches Some(started) ==> started@ == MainLoopView::started(),
        main_loop is Some <==> !old(driver).helper_started,
{
    if driver.helper_started {
        return None;
    }
    driver.helper_started = true;
    Some(MainLoop { last_tick: 0, sleeps: 0, awaited: MainAction::ReadTicker })
}

/// Initializes the helper thread.
pub fn init(driver: &mut Driver) -> (main_loop: Option<MainLoop>)
    ensures
        *final(driver) == (Driver { helper_started: true, ..*old(driver) }),
        main_loop matches Some(started) ==> started@ == MainLoopView::started(),
        main_loop is Some <==> !old(driver).helper_started,
{
    unparker(driver)
}

/// After how many sleeps the helper thread blocks on the reactor lock.
pub const PATIENCE: u64 = 10;

/// What the helper thread has to do next.
#[derive(Clone, Copy, Debug, PartialEq, Eq, Structural)]
pub enum MainAction {
    /// Read the ticker of the reactor.
    ReadTicker,
    /// Lock the reactor, blocking if the lock is held by another thread.
    Lock,
    /// Attempt to lock the reactor.
    TryLock,
    /// Wait on I/O, read the ticker of the reactor, and release it.
    React,
    /// Read the number of active `block_on` invocations.
    CountBlockOn,
    /// Sleep for some microseconds, or until notified; if notified, read the ticker.
    Park { micros: u64 },
}

/// What came of an action of the helper thread.
#[derive(Clone, Copy, Debug, PartialEq, Eq, Structural)]
pub enum MainEvent {
    /// The ticker as it was read.
    Ticker { tick: usize },
    /// Whether the reactor is locked.
    Locked { acquired: bool },
    /// The ticker after the reactor has waited on I/O.
    Reacted { tick: usize },
    /// The number of active `block_on` invocations.
    BlockOnCount { count: usize },
    /// A notification ended the sleep, and the ticker after that.
    Notified { tick: usize },
    /// The sleep was not disturbed.
    TimedOut,
}

/// The main loop of the helper thread.
#[derive(Clone, Copy, Debug, PartialEq, Eq, Structural)]
pub struct MainLoop {
    /// The last observed reactor tick.
    last_tick: usize,
    /// Number of sleeps since this thread has called `react`.
    sleeps: u64,
    /// The action that is under way.
    awaited: MainAction,
}

/// What the main loop remembers.
pub struct MainLoopView {
    pub last_tick: usize,
    pub sleeps: u64,
    pub awaited: MainAction,
}

impl View for MainLoop {
    type V = MainLoopView;

    closed spec fn view(&self) -> MainLoopView {
        MainLoopView { last_tick: self.last_tick, sleeps: self.sleeps, awaited: self.awaited }
    }
}

/// Exponential backoff from 50us to 10ms: how long the sleep after `sleeps` others is.
pub open spec fn backoff(sleeps: u64) -> u64 {
    let delays: Seq<u64> = seq![50, 75, 100, 250, 500, 750, 1000, 2500, 5000];
    if sleeps < delays.len() {
        delays[sleeps as int]
    } else {
        10_000
    }
}

/// How long the sleep after `sleeps` others is, in microseconds.
pub fn delay_us(sleeps: u64) -> (micros: u64)
    ensures
        micros == backoff(sleeps),
{
    let delays: [u64; 9] = [50, 75, 100, 250, 500, 750, 1000, 2500, 5000];
    if sleeps < 9 {
        delays[sleeps as usize]
    } else {
        10_000
    }
}

impl MainLoopView {
    /// No tick was observed, no sleep was slept.
    pub open spec fn started() -> MainLoopView {
        MainLoopView { last_tick: 0, sleeps: 0, awaited: MainAction::ReadTicker }
    }

    /// The event answers the action that is under way.
    pub open spec fn expects(self, event: MainEvent) -> bool {
        match event {
            MainEvent::Ticker { .. } => self.awaited == MainAction::ReadTicker,
            MainEvent::Locked { acquired } => self.awaited == MainAction::TryLock || (self.awaited
                == MainAction::Lock && acquired),
            MainEvent::Reacted { .. } => self.awaited == MainAction::React,
            MainEvent::BlockOnCount { .. } => self.awaited == MainAction::CountBlockOn,
            MainEvent::Notified { .. } => self.awaited is Park,
            MainEvent::TimedOut => self.awaited is Park && self.sleeps < u64::MAX,
        }
    }

    /// The loop after an event.
    pub open spec fn after(self, event: MainEvent) -> MainLoopView {
        match event {
            MainEvent::Ticker { tick } => if self.last_tick == tick {
                MainLoopView {
                    awaited: if self.sleeps >= PATIENCE {
                        MainAction::Lock
                    } else {
                        MainAction::TryLock
                    },
                    ..self
                }
            } else {
                MainLoopView { last_tick: tick, awaited: MainAction::CountBlockOn, ..self }
            },
            MainEvent::Locked { acquired } => MainLoopView {
                awaited: if acquired {
                    MainAction::React
                } else {
                    MainAction::CountBlockOn
                },
                ..self
            },
            MainEvent::Reacted { tick } => MainLoopView {
                last_tick: tick,
                sleeps: 0,
                awaited: MainAction::CountBlockOn,
            },
            MainEvent::BlockOnCount { count } => MainLoopView {
                awaited: if count > 0 {
                    MainAction::Park { micros: backoff(self.sleeps) }
                } else {
                    MainAction::ReadTicker
                },
                ..self
            },
            MainEvent::Notified { tick } => MainLoopView {
                last_tick: tick,
                sleeps: 0,
                awaited: MainAction::ReadTicker,
            },
            MainEvent::TimedOut => MainLoopView {
                sleeps: (self.sleeps + 1) as u64,
                awaited: MainAction::ReadTicker,
                ..self
            },
        }
    }
}

impl MainLoop {
    /// The action that is under way.
    pub fn action(&self) -> (action: MainAction)
        ensures
            action == self@.awaited,
    {
        self.awaited
    }

    /// Whether the event answers the action that is under way.
    pub fn expects(&self, event: &MainEvent) -> (expected: bool)
        ensures
            expected == self@.expects(*event),
    {
        match (self.awaited, *event) {
            (MainAction::ReadTicker, MainEvent::Ticker { .. }) => true,
            (MainAction::Lock, MainEvent::Locked { acquired }) => acquired,
            (MainAction::TryLock, MainEvent::Locked { .. }) => true,
            (MainAction::React, MainEvent::Reacted { .. }) => true,
            (MainAction::CountBlockOn, MainEvent::BlockOnCount { .. }) => true,
            (MainAction::Park { .. }, MainEvent::Notified { .. }) => true,
            (MainAction::Park { .. }, MainEvent::TimedOut) => self.sleeps < u64::MAX,
            _ => false,
        }
    }

    /// Takes what came of the last action, and says what to do next.
    pub fn step(&mut self, event: MainEvent) -> (action: MainAction)
        requires
            old(self)@.expects(event),
        ensures
            final(self)@ == old(self)@.after(event),
            action == final(self)@.awaited,
    {
        let action: MainAction = match event {
            MainEvent::Ticker { tick } => {
                if self.last_tick == tick {
                    if self.sleeps >= PATIENCE {
                        // If no new ticks have occurred for a while, stop sleeping and spinning in this
                        // loop and just block on the reactor lock.
                        MainAction::Lock
                    } else {
                        MainAction::TryLock
                    }
                } else {
                    self.last_tick = tick;
                    MainAction::CountBlockOn
                }
            },
            MainEvent::Locked { acquired } => {
                if acquired {
                    MainAction::React
                } else {
                    MainAction::CountBlockOn
                }
            },
            MainEvent::Reacted { tick } => {
                self.last_tick = tick;
                self.sleeps = 0;
                MainAction::CountBlockOn
            },
            MainEvent::BlockOnCount { count } => {
                if count > 0 {
                    MainAction::Park { micros: delay_us(self.sleeps) }
                } else {
                    MainAction::ReadTicker
                }
            },
            MainEvent::Notified { tick } => {
                // If notified before timeout, reset the last tick and the sleep counter.
                self.last_tick = tick;
                self.sleeps = 0;
                MainAction::ReadTicker
            },
            MainEvent::TimedOut => {
                self.sleeps = self.sleeps + 1;
                MainAction::ReadTicker
            },
        };
        self.awaited = action;
        action
    }
}

/// For how many nanoseconds a blocked thread may hold the reactor without being notified.
pub const HOG_LIMIT: u128 = 500_000;

/// What a thread that blocks on a future does.
#[derive(Clone, Copy, Debug, PartialEq, Eq, Structural)]
pub enum Stage {
    /// Poll the future.
    Poll,
    /// Check for a notification, after the future was found pending.
    CheckAfterPoll,
    /// Attempt to lock the reactor, to process available I/O events.
    LockToProcess,
    /// Process available I/O events without blocking.
    Process,
    /// Attempt to lock the reactor, to wait on I/O.
    LockToWait,
    /// Check for a notification that was received before this thread said that it blocks on I/O.
    CheckBeforeWait,
    /// Wait for I/O events.
    Wait,
    /// Check for a notification that was received meanwhile.
    CheckAfterWait,
    /// Release the reactor, notify the helper thread, and sleep until notified.
    Yield,
    /// Sleep until notified.
    Park,
    /// Discard a notification, if there is one, so that the next thing to block on does not find it.
    Finish,
    /// Return what the future gave.
    Return,
}

/// What came of a stage.
#[derive(Clone, Copy, Debug, PartialEq, Eq, Structural)]
pub enum BlockEvent {
    /// Whether the future was ready.
    Polled { ready: bool },
    /// Whether there was a notification, which is consumed, and the time.
    Checked { notified: bool, now: u128 },
    /// Whether the reactor is locked, and the time.
    Locked { acquired: bool, now: u128 },
    /// The reactor has processed I/O events.
    Reacted,
    /// A notification ended the sleep, and is consumed.
    Woken,
}

/// A thread that blocks on a future, and processes I/O events when idle.
#[derive(Clone, Copy, Debug, PartialEq, Eq, Structural)]
pub struct BlockOn {
    /// What the thread is doing.
    stage: Stage,
    /// When the reactor was locked to wait on I/O.
    start: u128,
}

/// What a blocked thread remembers.
pub struct BlockOnView {
    pub stage: Stage,
    pub start: u128,
}

impl View for BlockOn {
    type V = BlockOnView;

    closed spec fn view(&self) -> BlockOnView {
        BlockOnView { stage: self.stage, start: self.start }
    }
}

impl Stage {
    /// The thread holds the reactor lock.
    pub open spec fn locks_reactor(self) -> bool {
        self is Process || self is CheckBeforeWait || self is Wait || self is CheckAfterWait
    }

    /// In this stage the thread consumes a notification: it checks for one, discards one, or sleeps until
    /// there is one.
    pub open spec fn consumes_notification(self) -> bool {
        ||| self is CheckAfterPoll || self is CheckBeforeWait || self is CheckAfterWait
        ||| self is Yield || self is Park
        ||| self is Finish
    }

    /// The thread polls I/O, but is not necessarily blocked on it.
    pub open spec fn polls_io(self) -> bool {
        self is Process || self.blocks_on_io()
    }

    /// The thread is blocked on I/O.
    pub open spec fn blocks_on_io(self) -> bool {
        self is CheckBeforeWait || self is Wait || self is CheckAfterWait || self is Yield
    }
}

impl BlockOnView {
    /// The future was not polled yet.
    pub open spec fn started() -> BlockOnView {
        BlockOnView { stage: Stage::Poll, start: 0 }
    }

    /// The event can come of this stage.
    pub open spec fn expects(self, event: BlockEvent) -> bool {
        match event {
            BlockEvent::Polled { .. } => self.stage is Poll,
            BlockEvent::Checked { .. } => self.stage is CheckAfterPoll || self.stage is CheckBeforeWait
                || self.stage is CheckAfterWait || self.stage is Finish,
            BlockEvent::Locked { .. } => self.stage is LockToProcess || self.stage is LockToWait,
            BlockEvent::Reacted => self.stage is Process || self.stage is Wait,
            BlockEvent::Woken => self.stage is Yield || self.stage is Park,
        }
    }

    /// The thread has held the reactor for a long time.
    pub open spec fn hogs(self, now: u128) -> bool {
        now - self.start > HOG_LIMIT
    }

    /// The stage after an event.
    pub open spec fn next_stage(self, event: BlockEvent) -> Stage {
        match (self.stage, event) {
            (Stage::Poll, BlockEvent::Polled { ready }) => if ready {
                Stage::Finish
            } else {
                Stage::CheckAfterPoll
            },
            (Stage::CheckAfterPoll, BlockEvent::Checked { notified, .. }) => if notified {
                Stage::LockToProcess
            } else {
                Stage::LockToWait
            },
            (Stage::LockToProcess, BlockEvent::Locked { acquired, .. }) => if acquired {
                Stage::Process
            } else {
                Stage::Poll
            },
            (Stage::LockToWait, BlockEvent::Locked { acquired, .. }) => if acquired {
                Stage::CheckBeforeWait
            } else {
                Stage::Park
            },
            (Stage::CheckBeforeWait, BlockEvent::Checked { notified, .. }) => if notified {
                Stage::Poll
            } else {
                Stage::Wait
            },
            (Stage::Wait, BlockEvent::Reacted) => Stage::CheckAfterWait,
            (Stage::CheckAfterWait, BlockEvent::Checked { notified, now }) => if notified {
                Stage::Poll
            } else if self.hogs(now) {
                Stage::Yield
            } else {
                Stage::CheckBeforeWait
            },
            (Stage::Finish, _) => Stage::Return,
            // Processed without blocking, or woken from sleep.
            _ => Stage::Poll,
        }
    }

    /// The thread after an event.
    pub open spec fn after(self, event: BlockEvent) -> BlockOnView {
        BlockOnView {
            stage: self.next_stage(event),
            start: match (self.stage, event) {
                (Stage::LockToWait, BlockEvent::Locked { acquired: true, now }) => now,
                _ => self.start,
            },
        }
    }
}

impl BlockOn {
    /// A thread that starts to block on a future.
    pub fn new() -> (thread: BlockOn)
        ensures
            thread@ == BlockOnView::started(),
    {
        BlockOn { stage: Stage::Poll, start: 0 }
    }

    /// What the thread has to do.
    pub fn stage(&self) -> (stage: Stage)
        ensures
            stage == self@.stage,
    {
        self.stage
    }

    /// Whether the thread holds the reactor lock.
    pub fn locks_reactor(&self) -> (locks: bool)
        ensures
            locks == self@.stage.locks_reactor(),
    {
        matches!(self.stage, Stage::Process | Stage::CheckBeforeWait | Stage::Wait | Stage::CheckAfterWait)
    }

    /// Whether the thread polls I/O, but is not necessarily blocked on it.
    pub fn io_polling(&self) -> (polls: bool)
        ensures
            polls == self@.stage.polls_io(),
    {
        matches!(self.stage, Stage::Process) || self.io_blocked()
    }

    /// Whether the thread is blocked on I/O.
    pub fn io_blocked(&self) -> (blocked: bool)
        ensures
            blocked == self@.stage.blocks_on_io(),
    {
        matches!(self.stage, Stage::CheckBeforeWait | Stage::Wait | Stage::CheckAfterWait | Stage::Yield)
    }

    /// Whether the event can come of the stage that the thread is in.
    pub fn expects(&self, event: &BlockEvent) -> (expected: bool)
        ensures
            expected == self@.expects(*event),
    {
        match *event {
            BlockEvent::Polled { .. } => matches!(self.stage, Stage::Poll),
            BlockEvent::Checked { .. } => matches!(
                self.stage,
                Stage::CheckAfterPoll | Stage::CheckBeforeWait | Stage::CheckAfterWait | Stage::Finish
            ),
            BlockEvent::Locked { .. } => matches!(self.stage, Stage::LockToProcess | Stage::LockToWait),
            BlockEvent::Reacted => matches!(self.stage, Stage::Process | Stage::Wait),
            BlockEvent::Woken => matches!(self.stage, Stage::Yield | Stage::Park),
        }
    }

    /// Takes what came of the last stage, and says what to do next.
    pub fn step(&mut self, event: BlockEvent) -> (stage: Stage)
        requires
            old(self)@.expects(event),
        ensures
            final(self)@ == old(self)@.after(event),
            stage == final(self)@.stage,
    {
        let stage: Stage = match (self.stage, event) {
            (Stage::Poll, BlockEvent::Polled { ready }) => {
                if ready {
                    Stage::Finish
                } else {
                    Stage::CheckAfterPoll
                }
            },
            (Stage::CheckAfterPoll, BlockEvent::Checked { notified, .. }) => {
                if notified {
                    // Try grabbing a lock on the reactor to process I/O events.
                    Stage::LockToProcess
                } else {
                    // Try grabbing a lock on the reactor to wait on I/O.
                    Stage::LockToWait
                }
            },
            (Stage::LockToProcess, BlockEvent::Locked { acquired, .. }) => {
                if acquired {
                    Stage::Process
                } else {
                    Stage::Poll
                }
            },
            (Stage::LockToWait, BlockEvent::Locked { acquired, now }) => {
                if acquired {
                    // Record the instant at which the lock was grabbed.
                    self.start = now;
                    Stage::CheckBeforeWait
                } else {
                    // Wait for an actual notification.
                    Stage::Park
                }
            },
            (Stage::CheckBeforeWait, BlockEvent::Checked { notified, .. }) => {
                if notified {
                    Stage::Poll
                } else {
                    Stage::Wait
                }
            },
            (Stage::Wait, BlockEvent::Reacted) => Stage::CheckAfterWait,
            (Stage::CheckAfterWait, BlockEvent::Checked { notified, now }) => {
                if notified {
                    Stage::Poll
                } else if now > self.start && now - self.start > HOG_LIMIT {
                    // This thread is clearly processing I/O events for some other threads because it
                    // didn't get a notification yet. It's best to stop hogging the reactor and give
                    // other threads a chance to process I/O events for themselves.
                    Stage::Yield
                } else {
                    Stage::CheckBeforeWait
                }
            },
            (Stage::Finish, _) => Stage::Return,
            _ => Stage::Poll,
        };
        self.stage = stage;
        stage
    }
}

/// A waker that is used while its thread blocks on I/O notifies the reactor, unless the waking thread polls
/// I/O itself.
pub open spec fn notifies(io_polling: bool, io_blocked: bool) -> bool {
    !io_polling && io_blocked
}

/// Whether a waker has to notify the reactor after it has unparked a thread that blocks on a future. A
/// repeated wake, which comes before the thread has consumed the last one, notifies like the first.
///
/// `io_polling` says that the waking thread polls I/O itself, and `io_blocked` that the woken thread is
/// blocked on I/O.
pub fn wake_by_ref(io_polling: bool, io_blocked: bool) -> (notify: bool)
    ensures
        notify == notifies(io_polling, io_blocked),
{
    // Check if waking from another thread and if currently blocked on I/O.
    !io_polling && io_blocked
}

} // verus!
