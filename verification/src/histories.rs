//! What holds of the drivers over whole histories: what they do next, told from what came before.
use crate::driver::{BlockEvent, BlockOnView, MainAction, MainEvent, MainLoopView, Stage};
use crate::{driver, laws};
use vstd::prelude::*;

verus! {

/// The helper thread after some events, from a given state on.
pub open spec fn helper_from(helper: MainLoopView, events: Seq<MainEvent>) -> MainLoopView
    decreases events.len(),
{
    if events.len() == 0 {
        helper
    } else {
        helper_from(helper, events.drop_last()).after(events.last())
    }
}

/// Each of the events can come when it comes.
pub open spec fn helper_expects(helper: MainLoopView, events: Seq<MainEvent>) -> bool
    decreases events.len(),
{
    events.len() > 0 ==> {
        &&& helper_expects(helper, events.drop_last())
        &&& helper_from(helper, events.drop_last()).expects(events.last())
    }
}

/// The event brings a reading of the ticker.
pub open spec fn is_reading(event: MainEvent) -> bool {
    event is Ticker || event is Reacted || event is Notified
}

/// The tick that was read last, or zero before the first reading.
pub open spec fn last_reading(events: Seq<MainEvent>) -> usize
    decreases events.len(),
{
    if events.len() == 0 {
        0
    } else {
        match events.last() {
            MainEvent::Ticker { tick } => tick,
            MainEvent::Reacted { tick } => tick,
            MainEvent::Notified { tick } => tick,
            _ => last_reading(events.drop_last()),
        }
    }
}

/// How many sleeps were undisturbed since the thread was notified or has waited on I/O.
pub open spec fn sleeps_in_a_row(events: Seq<MainEvent>) -> nat
    decreases events.len(),
{
    if events.len() == 0 {
        0
    } else {
        match events.last() {
            MainEvent::TimedOut => sleeps_in_a_row(events.drop_last()) + 1,
            MainEvent::Reacted { .. } => 0,
            MainEvent::Notified { .. } => 0,
            _ => sleeps_in_a_row(events.drop_last()),
        }
    }
}

/// What the helper thread does next is told by its history: by the last event, by the ticks that were read,
/// and by the undisturbed sleeps in a row.
///
/// It goes for the reactor exactly when the ticker has not moved since the last reading: it blocks on the
/// lock after ten sleeps, and only tries before. It waits on I/O exactly when it has got the lock, and
/// sleeps exactly when there are `block_on` invocations.
pub proof fn law_helper_acts_on_its_history(events: Seq<MainEvent>)
    requires
        helper_expects(MainLoopView::started(), events),
    ensures
        ({
            let helper = helper_from(MainLoopView::started(), events);
            let earlier = events.drop_last();
            &&& helper.last_tick == last_reading(events)
            &&& helper.sleeps == sleeps_in_a_row(events)
            &&& events.len() == 0 ==> helper.awaited == MainAction::ReadTicker
            &&& events.len() > 0 ==> match events.last() {
                MainEvent::Ticker { tick } => {
                    let idle = tick == last_reading(earlier);
                    let patient = sleeps_in_a_row(earlier) < 10;
                    &&& helper.awaited == MainAction::TryLock <==> idle && patient
                    &&& helper.awaited == MainAction::Lock <==> idle && !patient
                    &&& helper.awaited == MainAction::CountBlockOn <==> !idle
                },
                MainEvent::Locked { acquired } => {
                    &&& helper.awaited == MainAction::React <==> acquired
                    &&& helper.awaited == MainAction::CountBlockOn <==> !acquired
                },
                MainEvent::Reacted { .. } => helper.awaited == MainAction::CountBlockOn,
                MainEvent::BlockOnCount { count } => {
                    &&& helper.awaited is Park <==> count > 0
                    &&& helper.awaited == MainAction::ReadTicker <==> count == 0
                    &&& helper.awaited matches MainAction::Park { micros } ==> micros
                        == driver::backoff(sleeps_in_a_row(earlier) as u64)
                },
                MainEvent::Notified { .. } => helper.awaited == MainAction::ReadTicker,
                MainEvent::TimedOut => helper.awaited == MainAction::ReadTicker,
            }
        }),
    decreases events.len(),
{
    if events.len() > 0 {
        law_helper_acts_on_its_history(events.drop_last());
    }
}

/// The helper thread takes over an idle reactor: where two readings in a row give the same tick, whatever
/// came before and whatever other events come between them, it goes for the lock.
pub proof fn law_helper_takes_over_an_idle_reactor(
    helper: MainLoopView,
    reading: MainEvent,
    events: Seq<MainEvent>,
)
    requires
        is_reading(reading),
        forall|i: int| 0 <= i < events.len() ==> !is_reading(#[trigger] events[i]),
    ensures
        ({
            let tick = last_reading(seq![reading]);
            let again = helper_from(helper.after(reading), events).after(MainEvent::Ticker { tick });
            again.awaited == MainAction::TryLock || again.awaited == MainAction::Lock
        }),
{
    lemma_only_readings_are_remembered(helper.after(reading), events);
    assert(seq![reading].last() == reading);
}

/// Events other than readings leave the last tick as it is.
proof fn lemma_only_readings_are_remembered(helper: MainLoopView, events: Seq<MainEvent>)
    requires
        forall|i: int| 0 <= i < events.len() ==> !is_reading(#[trigger] events[i]),
    ensures
        helper_from(helper, events).last_tick == helper.last_tick,
    decreases events.len(),
{
    if events.len() > 0 {
        assert(!is_reading(events[events.len() - 1]));
        assert forall|i: int| 0 <= i < events.len() - 1 implies !is_reading(#[trigger] events.drop_last()[i]) by {
            assert(!is_reading(events[i]));
        }
        lemma_only_readings_are_remembered(helper, events.drop_last());
    }
}

/// The helper thread takes every answer to what it does, and no other: any tick, either outcome of an
/// attempt to lock, any count, and both ends of a sleep, as long as the sleeps can be counted.
pub proof fn law_helper_takes_every_answer(helper: MainLoopView, event: MainEvent)
    ensures
        helper.expects(event) <==> match helper.awaited {
            MainAction::ReadTicker => event is Ticker,
            MainAction::TryLock => event is Locked,
            MainAction::Lock => event == (MainEvent::Locked { acquired: true }),
            MainAction::React => event is Reacted,
            MainAction::CountBlockOn => event is BlockOnCount,
            MainAction::Park { .. } => event is Notified || (event is TimedOut && helper.sleeps
                < u64::MAX),
        },
{
}

/// When the reactor was last locked to wait on I/O: the attempt came after a check that found no
/// notification. Zero before the first time.
pub open spec fn waits_since(events: Seq<BlockEvent>) -> u128
    decreases events.len(),
{
    if events.len() == 0 {
        0
    } else {
        let earlier = events.drop_last();
        match events.last() {
            BlockEvent::Locked { acquired: true, now } => if earlier.len() > 0 && found_none(earlier.last()) {
                now
            } else {
                waits_since(earlier)
            },
            _ => waits_since(earlier),
        }
    }
}

/// A check that has found no notification.
pub open spec fn found_none(event: BlockEvent) -> bool {
    event matches BlockEvent::Checked { notified, .. } && !notified
}

/// What a thread that blocks on a future does next is told by the last two events of its history, and by the
/// time at which it has last locked the reactor to wait on I/O.
///
/// It polls the future first, and again after each notification. Where none is found after a poll, it goes
/// for the reactor: with the lock it waits on I/O, without it sleeps, every time. It gives the reactor up
/// exactly when half a millisecond has passed since it got the lock and no notification has come.
pub proof fn law_block_on_acts_on_its_history(events: Seq<BlockEvent>)
    requires
        laws::events_expected(BlockOnView::started(), events),
    ensures
        ({
            let thread = laws::after_events(BlockOnView::started(), events);
            let last = events.last();
            let before = events[events.len() - 2];
            let stage = thread.stage;
            &&& thread.start == waits_since(events)
            &&& events.len() == 0 ==> stage is Poll
            &&& events.len() == 1 ==> last is Polled
            &&& events.len() > 0 ==> match last {
                BlockEvent::Polled { ready } => {
                    &&& stage is Finish <==> ready
                    &&& stage is CheckAfterPoll <==> !ready
                },
                BlockEvent::Woken => stage is Poll,
                _ => true,
            }
            &&& events.len() > 1 ==> match (before, last) {
                (BlockEvent::Polled { ready }, BlockEvent::Checked { notified, .. }) => {
                    &&& stage is Return <==> ready
                    &&& stage is LockToProcess <==> !ready && notified
                    &&& stage is LockToWait <==> !ready && !notified
                },
                (BlockEvent::Checked { notified, .. }, BlockEvent::Locked { acquired, .. }) => {
                    &&& stage is Process <==> notified && acquired
                    &&& stage is Poll <==> notified && !acquired
                    &&& stage is CheckBeforeWait <==> !notified && acquired
                    &&& stage is Park <==> !notified && !acquired
                },
                (BlockEvent::Locked { .. }, BlockEvent::Reacted) => stage is Poll,
                (BlockEvent::Locked { .. }, BlockEvent::Checked { notified, .. }) => {
                    &&& stage is Poll <==> notified
                    &&& stage is Wait <==> !notified
                },
                (BlockEvent::Locked { .. }, BlockEvent::Woken) => true,
                (BlockEvent::Locked { .. }, BlockEvent::Polled { .. }) => true,
                (BlockEvent::Checked { .. }, BlockEvent::Reacted) => stage is CheckAfterWait,
                (BlockEvent::Reacted, BlockEvent::Checked { notified, now }) => {
                    let hogs = now - waits_since(events) > 500_000;
                    &&& stage is Poll <==> notified
                    &&& stage is Yield <==> !notified && hogs
                    &&& stage is CheckBeforeWait <==> !notified && !hogs
                },
                (BlockEvent::Checked { .. }, BlockEvent::Checked { notified, .. }) => {
                    &&& stage is Poll <==> notified
                    &&& stage is Wait <==> !notified
                },
                // Polled again: after a notification that was found, after I/O events were processed, or
                // after a sleep. Woken from a sleep after the reactor was given up.
                (BlockEvent::Checked { .. }, BlockEvent::Polled { .. }) => true,
                (BlockEvent::Reacted, BlockEvent::Polled { .. }) => true,
                (BlockEvent::Woken, BlockEvent::Polled { .. }) => true,
                (BlockEvent::Checked { notified, .. }, BlockEvent::Woken) => !notified,
                // Nothing else follows on one another.
                _ => false,
            }
        }),
    decreases events.len(),
{
    if events.len() > 0 {
        let earlier = events.drop_last();
        law_block_on_acts_on_its_history(earlier);
        if earlier.len() > 0 {
            assert(earlier.last() == events[events.len() - 2]);
            reveal_with_fuel(laws::events_expected, 2);
            law_block_on_acts_on_its_history(earlier.drop_last());
        }
    }
}

/// A thread that is idle drives the reactor: whatever came before, when its future is pending and no
/// notification is found, it goes for the lock; if it gets the lock, and there is still no notification, it
/// waits on I/O before anything else; if it does not, somebody else drives the reactor, and it sleeps.
pub proof fn law_idle_threads_drive_the_reactor(
    thread: BlockOnView,
    acquired: bool,
    at: u128,
    locked: u128,
    checked: u128,
)
    requires
        thread.stage is Poll,
    ensures
        ({
            let idle = thread.after(BlockEvent::Polled { ready: false }).after(
                BlockEvent::Checked { notified: false, now: at },
            );
            let tried = idle.after(BlockEvent::Locked { acquired, now: locked });
            let last = tried.after(BlockEvent::Checked { notified: false, now: checked });
            &&& idle.stage is LockToWait
            &&& acquired ==> tried.stage.locks_reactor() && last.stage is Wait && last.start == locked
            &&& !acquired ==> tried.stage is Park
        }),
{
}

/// A thread takes every answer to what it does, and no other.
pub proof fn law_block_on_takes_every_answer(thread: BlockOnView, event: BlockEvent)
    ensures
        thread.expects(event) <==> match thread.stage {
            Stage::Poll => event is Polled,
            Stage::CheckAfterPoll => event is Checked,
            Stage::CheckBeforeWait => event is Checked,
            Stage::CheckAfterWait => event is Checked,
            Stage::Finish => event is Checked,
            Stage::LockToProcess => event is Locked,
            Stage::LockToWait => event is Locked,
            Stage::Process => event is Reacted,
            Stage::Wait => event is Reacted,
            Stage::Yield => event is Woken,
            Stage::Park => event is Woken,
            Stage::Return => false,
        },
{
}

/// A thread holds the reactor lock from the attempt that gets it on, until it polls the future or yields:
/// in between nothing takes the lock from it, and nothing else gives it the lock.
pub proof fn law_lock_is_held_until_released(thread: BlockOnView, event: BlockEvent)
    requires
        thread.expects(event),
    ensures
        ({
            let next = thread.after(event).stage;
            &&& event matches BlockEvent::Locked { acquired, .. } ==> next.locks_reactor() == acquired
            &&& !(event is Locked) ==> next.locks_reactor() == (thread.stage.locks_reactor() && !(
            next is Poll || next is Yield))
            &&& next is Process || next is Wait ==> next.locks_reactor()
        }),
        BlockOnView::started().stage.locks_reactor() == false,
{
}

/// A thread says that it is blocked on I/O from the moment at which it gets the lock to wait, until it polls
/// its future again; and that it polls I/O in all that time, and while it processes events.
pub proof fn law_threads_say_when_they_block_on_io(thread: BlockOnView, event: BlockEvent)
    requires
        thread.expects(event),
    ensures
        ({
            let next = thread.after(event).stage;
            let gets_lock_to_wait = thread.stage is LockToWait && (event matches BlockEvent::Locked {
                acquired,
                ..
            } && acquired);
            &&& next.blocks_on_io() <==> gets_lock_to_wait || (thread.stage.blocks_on_io() && !(
            next is Poll))
            &&& next.polls_io() <==> next.blocks_on_io() || next is Process
        }),
        !BlockOnView::started().stage.blocks_on_io(),
        !BlockOnView::started().stage.polls_io(),
{
}

/// A notification is consumed exactly where it can be found: by each check, and by the end of each sleep.
pub proof fn law_notifications_are_consumed_where_found(thread: BlockOnView, event: BlockEvent)
    requires
        thread.expects(event),
    ensures
        thread.stage.consumes_notification() <==> event is Checked || event is Woken,
{
}

} // verus!
