//! What calls do, in terms of what goes in and what comes out, and how calls in a row relate.
use crate::awaiting::asks_for_all;
use crate::driver::{BlockEvent, BlockOn, Driver, MainAction, MainEvent, MainLoop, Stage};
use crate::reactor::{Delivery, DeliveryView, ErrorKind, Reactor, ReactorView, Round, Step, Waited};
use crate::ready::{Async, Readable, ReadableOwned, Writable, WritableOwned};
use crate::source::{
    Direction, Event, Interest, Poll, PollOutcome, Ready, ReadyView, Registration, Source, SourceId, READ, WRITE,
};
use crate::timers::{TimerKey, TimerOp, Timers, TimersView};
use crate::{awaiting, driver, laws, timers};
use std::sync::Arc;
use std::task::Waker;
use vstd::prelude::*;

verus! {

/// A `block_on` invocation counts for one while it is active: entering adds one, and leaving takes it away
/// again. Neither touches the helper thread.
pub proof fn law_invocations_are_counted()
    ensures
        forall|entered: &mut Driver| #[trigger]
            call_ensures(Driver::enter_block_on, (entered,), ()) ==> {
                &&& (*entered).block_on_count < usize::MAX ==> (*final(entered)).block_on_count
                    == (*entered).block_on_count + 1
                &&& (*final(entered)).helper_started == (*entered).helper_started
            },
        forall|left: &mut Driver| #[trigger]
            call_ensures(Driver::leave_block_on, (left,), ()) ==> {
                &&& (*left).block_on_count > 0 ==> (*final(left)).block_on_count == (*left).block_on_count
                    - 1
                &&& (*final(left)).helper_started == (*left).helper_started
            },
        forall|entered: &mut Driver, left: &mut Driver|
            #![trigger call_ensures(Driver::enter_block_on, (entered,), ()), call_ensures(Driver::leave_block_on, (left,), ())]
            call_ensures(Driver::enter_block_on, (entered,), ()) && call_ensures(
                Driver::leave_block_on,
                (left,),
                (),
            ) && *left == *final(entered) ==> *final(left) == *entered,
{
}

/// There is one helper thread: the first call starts it, from the beginning of its loop, and no later call
/// does. No call counts as a `block_on` invocation.
pub proof fn law_helper_is_started_once()
    ensures
        forall|shared: &mut Driver, helper: Option<MainLoop>| #[trigger]
            call_ensures(driver::unparker, (shared,), helper) ==> {
                &&& helper is Some <==> !(*shared).helper_started
                &&& helper matches Some(started) ==> started@.awaited == MainAction::ReadTicker
                    && started@.sleeps == 0 && started@.last_tick == 0
                &&& (*final(shared)).helper_started
                &&& (*final(shared)).block_on_count == (*shared).block_on_count
            },
        forall|shared: &mut Driver, helper: Option<MainLoop>| #[trigger]
            call_ensures(driver::init, (shared,), helper) ==> {
                &&& helper is Some <==> !(*shared).helper_started
                &&& helper matches Some(started) ==> started@.awaited == MainAction::ReadTicker
                    && started@.sleeps == 0 && started@.last_tick == 0
                &&& (*final(shared)).helper_started
                &&& (*final(shared)).block_on_count == (*shared).block_on_count
            },
        forall|first: &mut Driver, second: &mut Driver, helper: Option<MainLoop>, other: Option<MainLoop>|
            #![trigger call_ensures(driver::init, (first,), helper), call_ensures(driver::init, (second,), other)]
            call_ensures(driver::init, (first,), helper) && call_ensures(driver::init, (second,), other)
                && *second == *final(first) ==> other is None,
{
}

/// The helper thread, and a thread that blocks on a future, take each step as their histories tell, and say
/// truly what they are doing.
pub proof fn law_drivers_take_their_steps()
    ensures
        forall|helper: &mut MainLoop, event: MainEvent, action: MainAction| #[trigger]
            call_ensures(MainLoop::step, (helper, event), action) ==> (*final(helper))@ == (
            *helper)@.after(event) && action == (*final(helper))@.awaited,
        forall|helper: MainLoop, action: MainAction| #[trigger]
            call_ensures(MainLoop::action, (&helper,), action) ==> action == helper@.awaited,
        forall|helper: MainLoop, event: MainEvent, expected: bool| #[trigger]
            call_ensures(MainLoop::expects, (&helper, &event), expected) ==> expected == helper@.expects(
                event,
            ),
        forall|sleeps: u64, micros: u64| #[trigger]
            call_ensures(driver::delay_us, (sleeps,), micros) ==> micros == driver::backoff(sleeps),
        forall|thread: &mut BlockOn, event: BlockEvent, stage: Stage| #[trigger]
            call_ensures(BlockOn::step, (thread, event), stage) ==> (*final(thread))@ == (
            *thread)@.after(event) && stage == (*final(thread))@.stage,
        forall|thread: BlockOn, stage: Stage| #[trigger]
            call_ensures(BlockOn::stage, (&thread,), stage) ==> stage == thread@.stage,
        forall|thread: BlockOn, event: BlockEvent, expected: bool| #[trigger]
            call_ensures(BlockOn::expects, (&thread, &event), expected) ==> expected == thread@.expects(
                event,
            ),
        forall|thread: BlockOn| #[trigger]
            call_ensures(BlockOn::new, (), thread) ==> thread@.stage is Poll,
        forall|thread: BlockOn, locks: bool| #[trigger]
            call_ensures(BlockOn::locks_reactor, (&thread,), locks) ==> locks
                == thread@.stage.locks_reactor(),
        forall|thread: BlockOn, polls: bool| #[trigger]
            call_ensures(BlockOn::io_polling, (&thread,), polls) ==> polls == thread@.stage.polls_io(),
        forall|thread: BlockOn, blocked: bool| #[trigger]
            call_ensures(BlockOn::io_blocked, (&thread,), blocked) ==> blocked
                == thread@.stage.blocks_on_io(),
{
}

/// A waker notifies the reactor exactly when its thread is blocked on I/O and the waking thread does not
/// poll I/O itself.
pub proof fn law_wakers_interrupt_blocked_threads()
    ensures
        forall|io_polling: bool, io_blocked: bool, notify: bool| #[trigger]
            call_ensures(driver::wake_by_ref, (io_polling, io_blocked), notify) ==> (notify <==> io_blocked
                && !io_polling),
{
}

/// `order` holds the timers that are set for `now` or before, from the first to fire to the last.
pub open spec fn due_in_order(registered: Map<TimerKey, Waker>, now: u128, order: Seq<TimerKey>) -> bool {
    &&& forall|i: int, j: int|
        #![trigger order[i], order[j]]
        0 <= i < j < order.len() ==> order[i].0 < order[j].0 || (order[i].0 == order[j].0 && order[i].1
            < order[j].1)
    &&& forall|key: TimerKey| #[trigger]
        order.contains(key) <==> registered.contains_key(key) && key.0 <= now
}

/// `wakers` are those of the timers that are set for `now` or before, in the order in which they fire.
pub open spec fn fires(registered: Map<TimerKey, Waker>, now: u128, wakers: Seq<Waker>) -> bool {
    exists|order: Seq<TimerKey>| #[trigger]
        due_in_order(registered, now, order) && wakers.len() == order.len() && forall|i: int|
            0 <= i < order.len() ==> wakers[i] == registered[#[trigger] order[i]]
}

/// `left` are the timers that are set for later than `now`.
pub open spec fn leaves(registered: Map<TimerKey, Waker>, now: u128, left: Map<TimerKey, Waker>) -> bool {
    &&& forall|key: TimerKey| #[trigger]
        left.contains_key(key) <==> registered.contains_key(key) && key.0 > now
    &&& forall|key: TimerKey|
        left.contains_key(key) ==> #[trigger] left[key] == registered[key]
}

/// `timeout` is the time from `now` to the first of the timers and the limit, whichever comes first: no time
/// at all where a timer is due, and none where there is neither timer nor limit.
pub open spec fn until_first(
    registered: Map<TimerKey, Waker>,
    now: u128,
    limit: Option<u128>,
    timeout: Option<u128>,
) -> bool {
    match timeout {
        None => limit is None && registered.is_empty(),
        Some(time) => {
            &&& limit matches Some(most) ==> time <= most
            &&& forall|key: TimerKey| #[trigger]
                registered.contains_key(key) ==> time == 0 || now + time <= key.0
            &&& limit == Some(time) || exists|key: TimerKey| #[trigger]
                registered.contains_key(key) && (key.0 == now + time || (time == 0 && key.0 <= now))
        },
    }
}

/// What is due fires in order, what is not due stays, and the time until the next timer is exact.
proof fn lemma_timers_fire(timers: TimersView, now: u128, limit: Option<u128>)
    requires
        timers.processed.dom().finite(),
    ensures
        fires(timers.registered(), now, timers.due(now)),
        leaves(timers.registered(), now, timers.fired(now).registered()),
        until_first(timers.registered(), now, None, timers.until_next(now)),
        until_first(
            timers.registered(),
            now,
            limit,
            crate::reactor::shorter(timers.until_next(now), limit),
        ),
{
    let order = laws::law_due_timers_fire_in_order(timers, now);
    assert(due_in_order(timers.registered(), now, order)) by {
        assert forall|i: int, j: int|
            #![trigger order[i], order[j]]
            0 <= i < j < order.len() implies order[i].0 < order[j].0 || (order[i].0 == order[j].0
            && order[i].1 < order[j].1) by {
            assert(timers::fires_before(order[i], order[j]));
        }
    }
    laws::law_timers_fire_once(timers, now);
    laws::law_time_until_next_timer(timers, now);
    laws::law_timeout_is_the_shorter(timers.until_next(now), limit);
    if let Some(time) = timers.until_next(now) {
        if time == 0 {
            assert(timers.due(now).len() > 0);
            assert(order.contains(order[0]));
        } else {
            let key = choose|key: TimerKey| #[trigger]
                timers.registered().contains_key(key) && key.0 <= now + time;
            assert(key.0 == now + time);
        }
    }
}

/// The waker of the timer that an operation on `key` replaces or removes.
pub open spec fn displaced_by(registered: Map<TimerKey, Waker>, key: TimerKey) -> Seq<Waker> {
    if registered.contains_key(key) {
        seq![registered[key]]
    } else {
        seq![]
    }
}

/// Whenever the queue is processed, the same wakers are displaced, in the same order: an operation adds to
/// what is displaced, sooner or later, exactly the waker of the timer that it replaces or removes.
pub proof fn law_displaced_wakers_are_not_lost(timers: TimersView, op: TimerOp, now: u128)
    ensures
        ({
            let key = match op {
                TimerOp::Insert(when, id, _) => (when, id),
                TimerOp::Remove(when, id) => (when, id),
            };
            timers.displaced_when_full() + timers.enqueued(op).displaced() == timers.displaced()
                + displaced_by(timers.registered(), key)
        }),
        timers.settled().displaced() == Seq::<Waker>::empty(),
        timers.fired(now).displaced() == Seq::<Waker>::empty(),
{
    let key = match op {
        TimerOp::Insert(when, id, _) => (when, id),
        TimerOp::Remove(when, id) => (when, id),
    };
    if timers.queued.len() < timers.capacity {
        assert(timers.queued.push(op).drop_last() =~= timers.queued);
    } else {
        assert(seq![op].drop_last() =~= Seq::<TimerOp>::empty());
        reveal_with_fuel(timers::ops_displace, 2);
        reveal_with_fuel(timers::apply_ops, 2);
    }
    assert(timers.displaced_when_full() + timers.enqueued(op).displaced() =~= timers.displaced()
        + displaced_by(timers.registered(), key));
}

/// An operation waits in the queue as long as there is room, and nothing is processed then; a full queue is
/// processed first. The IDs and the size of the queue stay.
pub proof fn law_operations_wait_while_there_is_room(timers: TimersView, op: TimerOp, now: u128)
    ensures
        ({
            let after = timers.enqueued(op);
            &&& after.queued.len() > 0 && after.queued.last() == op
            &&& timers.queued.len() < timers.capacity ==> after.processed == timers.processed
                && after.queued.drop_last() == timers.queued && timers.displaced_when_full().len() == 0
            &&& timers.queued.len() >= timers.capacity ==> after.queued.len() == 1 && after.processed
                == timers.registered()
            &&& after.next_id == timers.next_id && after.capacity == timers.capacity
        }),
        timers.settled().next_id == timers.next_id && timers.settled().capacity == timers.capacity,
        timers.settled().queued.len() == 0,
        timers.fired(now).next_id == timers.next_id && timers.fired(now).capacity == timers.capacity,
        timers.fired(now).queued.len() == 0,
{
    if timers.queued.len() < timers.capacity {
        assert(timers.enqueued(op).queued.drop_last() =~= timers.queued);
    }
}

/// Inserting and removing timers changes what is registered by just that timer, and gives out IDs one after
/// the other. What is displaced comes out sooner or later, in order.
pub proof fn law_timer_calls_change_one_timer()
    ensures
        forall|t: &mut Timers, when: u128, waker: Waker, discard: &mut Vec<Waker>, id: usize| #[trigger]
            call_ensures(Timers::insert_timer, (t, when, waker, discard), id) ==> {
                let before = (*t)@;
                let after = (*final(t))@;
                &&& id == before.next_id && after.next_id == timers::wrapping_next(id)
                &&& after.registered() == before.registered().insert((when, id), waker)
                &&& after.capacity == before.capacity
                &&& (*final(discard))@ + after.displaced() == (*discard)@ + before.displaced()
                    + displaced_by(before.registered(), (when, id))
            },
        forall|t: &mut Timers, when: u128, id: usize, discard: &mut Vec<Waker>| #[trigger]
            call_ensures(Timers::remove_timer, (t, when, id, discard), ()) ==> {
                let before = (*t)@;
                let after = (*final(t))@;
                &&& after.registered() == before.registered().remove((when, id))
                &&& after.next_id == before.next_id && after.capacity == before.capacity
                &&& (*final(discard))@ + after.displaced() == (*discard)@ + before.displaced()
                    + displaced_by(before.registered(), (when, id))
            },
        forall|r: &mut Reactor, when: u128, waker: Waker, discard: &mut Vec<Waker>, id: usize| #[trigger]
            call_ensures(Reactor::insert_timer, (r, when, waker, discard), id) ==> {
                let before = (*r)@;
                let after = (*final(r))@;
                &&& after == (ReactorView { timers: after.timers, ..before })
                &&& id == before.timers.next_id && after.timers.next_id == timers::wrapping_next(id)
                &&& after.timers.registered() == before.timers.registered().insert((when, id), waker)
                &&& after.timers.capacity == before.timers.capacity
                &&& (*final(discard))@ + after.timers.displaced() == (*discard)@
                    + before.timers.displaced() + displaced_by(before.timers.registered(), (when, id))
            },
        forall|r: &mut Reactor, when: u128, id: usize, discard: &mut Vec<Waker>| #[trigger]
            call_ensures(Reactor::remove_timer, (r, when, id, discard), ()) ==> {
                let before = (*r)@;
                let after = (*final(r))@;
                &&& after == (ReactorView { timers: after.timers, ..before })
                &&& after.timers.registered() == before.timers.registered().remove((when, id))
                &&& after.timers.next_id == before.timers.next_id
                &&& after.timers.capacity == before.timers.capacity
                &&& (*final(discard))@ + after.timers.displaced() == (*discard)@
                    + before.timers.displaced() + displaced_by(before.timers.registered(), (when, id))
            },
{
    assert forall|t: &mut Timers, when: u128, waker: Waker, discard: &mut Vec<Waker>, id: usize| #[trigger]
        call_ensures(Timers::insert_timer, (t, when, waker, discard), id) implies {
        let before = (*t)@;
        let after = (*final(t))@;
        &&& id == before.next_id && after.next_id == timers::wrapping_next(id)
        &&& after.registered() == before.registered().insert((when, id), waker)
        &&& after.capacity == before.capacity
        &&& (*final(discard))@ + after.displaced() == (*discard)@ + before.displaced() + displaced_by(
            before.registered(),
            (when, id),
        )
    } by {
        lemma_operation((*t)@, TimerOp::Insert(when, id, waker), (*discard)@);
    }
    assert forall|t: &mut Timers, when: u128, id: usize, discard: &mut Vec<Waker>| #[trigger]
        call_ensures(Timers::remove_timer, (t, when, id, discard), ()) implies {
        let before = (*t)@;
        let after = (*final(t))@;
        &&& after.registered() == before.registered().remove((when, id))
        &&& after.next_id == before.next_id && after.capacity == before.capacity
        &&& (*final(discard))@ + after.displaced() == (*discard)@ + before.displaced() + displaced_by(
            before.registered(),
            (when, id),
        )
    } by {
        lemma_operation((*t)@, TimerOp::Remove(when, id), (*discard)@);
    }
    assert forall|r: &mut Reactor, when: u128, waker: Waker, discard: &mut Vec<Waker>, id: usize| #[trigger]
        call_ensures(Reactor::insert_timer, (r, when, waker, discard), id) implies {
        let before = (*r)@;
        let after = (*final(r))@;
        &&& after == (ReactorView { timers: after.timers, ..before })
        &&& id == before.timers.next_id && after.timers.next_id == timers::wrapping_next(id)
        &&& after.timers.registered() == before.timers.registered().insert((when, id), waker)
        &&& after.timers.capacity == before.timers.capacity
        &&& (*final(discard))@ + after.timers.displaced() == (*discard)@ + before.timers.displaced()
            + displaced_by(before.timers.registered(), (when, id))
    } by {
        lemma_operation((*r)@.timers, TimerOp::Insert(when, id, waker), (*discard)@);
    }
    assert forall|r: &mut Reactor, when: u128, id: usize, discard: &mut Vec<Waker>| #[trigger]
        call_ensures(Reactor::remove_timer, (r, when, id, discard), ()) implies {
        let before = (*r)@;
        let after = (*final(r))@;
        &&& after == (ReactorView { timers: after.timers, ..before })
        &&& after.timers.registered() == before.timers.registered().remove((when, id))
        &&& after.timers.next_id == before.timers.next_id
        &&& after.timers.capacity == before.timers.capacity
        &&& (*final(discard))@ + after.timers.displaced() == (*discard)@ + before.timers.displaced()
            + displaced_by(before.timers.registered(), (when, id))
    } by {
        lemma_operation((*r)@.timers, TimerOp::Remove(when, id), (*discard)@);
    }
}

/// What one operation does, whatever the next ID is.
proof fn lemma_operation(timers: TimersView, op: TimerOp, discard: Seq<Waker>)
    ensures
        ({
            let key = match op {
                TimerOp::Insert(when, id, _) => (when, id),
                TimerOp::Remove(when, id) => (when, id),
            };
            let after = timers.enqueued(op);
            let later = TimersView { next_id: timers::wrapping_next(timers.next_id), ..after };
            let discarded = discard + timers.displaced_when_full();
            &&& after.registered() == timers::apply_op(timers.registered(), op)
            &&& later.registered() == after.registered()
            &&& discarded + after.displaced() == discard + timers.displaced() + displaced_by(
                timers.registered(),
                key,
            )
            &&& later.displaced() == after.displaced()
            &&& after.next_id == timers.next_id && after.capacity == timers.capacity
        }),
{
    let key = match op {
        TimerOp::Insert(when, id, _) => (when, id),
        TimerOp::Remove(when, id) => (when, id),
    };
    let after = timers.enqueued(op);
    laws::law_timer_operations_take_effect_at_once(timers, op);
    law_displaced_wakers_are_not_lost(timers, op, 0);
    assert(discard + timers.displaced_when_full() + after.displaced() =~= discard + (
    timers.displaced_when_full() + after.displaced()));
    assert(discard + timers.displaced() + displaced_by(timers.registered(), key) =~= discard + (
    timers.displaced() + displaced_by(timers.registered(), key)));
}

/// Processing the timers hands out exactly the due ones, in order, keeps all others, and says how long it is
/// until the next. Processing the queue changes nothing about the registered timers. Both hand out all that
/// was displaced.
pub proof fn law_processing_fires_what_is_due()
    ensures
        forall|t: &mut Timers, now: u128, wakers: &mut Vec<Waker>, discard: &mut Vec<Waker>, next: Option<u128>|
            #[trigger] call_ensures(Timers::process_timers, (t, now, wakers, discard), next) ==> {
                let before = (*t)@;
                let after = (*final(t))@;
                let start = (*wakers)@.len() as int;
                &&& (*final(wakers))@.len() >= start && (*final(wakers))@.take(start) == (*wakers)@
                &&& fires(before.registered(), now, (*final(wakers))@.skip(start))
                &&& leaves(before.registered(), now, after.registered())
                &&& until_first(before.registered(), now, None, next)
                &&& (*final(discard))@ == (*discard)@ + before.displaced() && after.displaced().len() == 0
                &&& after.next_id == before.next_id && after.capacity == before.capacity
            },
        forall|t: &mut Timers, discard: &mut Vec<Waker>| #[trigger]
            call_ensures(Timers::process_timer_ops, (t, discard), ()) ==> {
                let before = (*t)@;
                let after = (*final(t))@;
                &&& after.registered() == before.registered()
                &&& (*final(discard))@ == (*discard)@ + before.displaced() && after.displaced().len() == 0
                &&& after.next_id == before.next_id && after.capacity == before.capacity
            },
{
    assert forall|t: &mut Timers, now: u128, wakers: &mut Vec<Waker>, discard: &mut Vec<Waker>, next: Option<u128>|
        #[trigger] call_ensures(Timers::process_timers, (t, now, wakers, discard), next) implies {
        let before = (*t)@;
        let after = (*final(t))@;
        let start = (*wakers)@.len() as int;
        &&& (*final(wakers))@.len() >= start && (*final(wakers))@.take(start) == (*wakers)@
        &&& fires(before.registered(), now, (*final(wakers))@.skip(start))
        &&& leaves(before.registered(), now, after.registered())
        &&& until_first(before.registered(), now, None, next)
        &&& (*final(discard))@ == (*discard)@ + before.displaced() && after.displaced().len() == 0
        &&& after.next_id == before.next_id && after.capacity == before.capacity
    } by {
        let before = (*t)@;
        let start = (*wakers)@.len() as int;
        (*t).lemma_finite();
        lemma_timers_fire(before, now, None);
        law_displaced_wakers_are_not_lost(before, TimerOp::Remove(0, 0), now);
        assert((*final(wakers))@.take(start) =~= (*wakers)@);
        assert((*final(wakers))@.skip(start) =~= before.due(now));
    }
    assert forall|t: &mut Timers, discard: &mut Vec<Waker>| #[trigger]
        call_ensures(Timers::process_timer_ops, (t, discard), ()) implies {
        let before = (*t)@;
        let after = (*final(t))@;
        &&& after.registered() == before.registered()
        &&& (*final(discard))@ == (*discard)@ + before.displaced() && after.displaced().len() == 0
        &&& after.next_id == before.next_id && after.capacity == before.capacity
    } by {
        laws::law_timer_operations_take_effect_at_once((*t)@, TimerOp::Remove(0, 0));
        law_displaced_wakers_are_not_lost((*t)@, TimerOp::Remove(0, 0), 0);
    }
}

/// A round starts by firing the timers that are due. It may block until the next timer or the limit, and no
/// longer and no shorter. It is the round after the one before, and leaves the sources as they are.
pub proof fn law_rounds_start_with_timers()
    ensures
        forall|r: &mut Reactor, limit: Option<u128>, now: u128, discard: &mut Vec<Waker>, round: Round|
            #[trigger] call_ensures(Reactor::react, (r, limit, now, discard), round)
                && (*r).wf() ==> {
                let before = (*r)@;
                let after = (*final(r))@;
                &&& after.ticker == laws::advanced(before.ticker, 1) && round@.tick == after.ticker
                &&& after == (ReactorView { ticker: after.ticker, timers: after.timers, ..before })
                &&& fires(before.timers.registered(), now, round@.wakers)
                &&& leaves(before.timers.registered(), now, after.timers.registered())
                &&& until_first(before.timers.registered(), now, limit, round@.timeout)
                &&& (*final(discard))@ == (*discard)@ + before.timers.displaced()
                &&& after.timers.displaced().len() == 0
                &&& after.timers.next_id == before.timers.next_id
                &&& after.timers.capacity == before.timers.capacity
            },
        forall|round: Round, timeout: Option<u128>| #[trigger]
            call_ensures(Round::timeout, (&round,), timeout) ==> timeout == round@.timeout,
{
    assert forall|r: &mut Reactor, limit: Option<u128>, now: u128, discard: &mut Vec<Waker>, round: Round|
        #[trigger] call_ensures(Reactor::react, (r, limit, now, discard), round) && (*r).wf() implies {
        let before = (*r)@;
        let after = (*final(r))@;
        &&& after.ticker == laws::advanced(before.ticker, 1) && round@.tick == after.ticker
        &&& after == (ReactorView { ticker: after.ticker, timers: after.timers, ..before })
        &&& fires(before.timers.registered(), now, round@.wakers)
        &&& leaves(before.timers.registered(), now, after.timers.registered())
        &&& until_first(before.timers.registered(), now, limit, round@.timeout)
        &&& (*final(discard))@ == (*discard)@ + before.timers.displaced()
        &&& after.timers.displaced().len() == 0
        &&& after.timers.next_id == before.timers.next_id
        &&& after.timers.capacity == before.timers.capacity
    } by {
        let before = (*r)@;
        (*r).lemma_valid();
        lemma_timers_fire(before.timers, now, limit);
        law_displaced_wakers_are_not_lost(before.timers, TimerOp::Remove(0, 0), now);
        reveal_with_fuel(laws::advanced, 2);
    }
}

/// The delivery of a round starts with all events of the poller, and with the wakers of the timers.
pub open spec fn delivery_of(round: Round, events: Vec<Event>) -> DeliveryView {
    DeliveryView { wakers: round@.wakers, tick: round@.tick, events: events@, next: 0 }
}

/// A round goes on from the poller's answer. Where there were no events, it fires the timers that have
/// become due, unless the poller was not to block, and is over. Where there were events, it delivers all of
/// them. Where the poller has failed, it is over, with the error, unless the failure was an interruption. In
/// every case those who were collected before are kept, first of all.
pub proof fn law_rounds_go_on_from_the_answer<E>()
    ensures
        forall|round: Round, r: &mut Reactor, count: usize, events: Vec<Event>, now: u128, discard: &mut Vec<Waker>, step: Step<E>|
            #[trigger] call_ensures(
                Round::waited::<E>,
                (round, r, Waited::Events { count, events }, now, discard),
                step,
            ) && (*r).wf() ==> {
                let before = (*r)@;
                let after = (*final(r))@;
                let kept = round@.wakers.len() as int;
                &&& count > 0 ==> {
                    &&& after == (ReactorView { sources: after.sources, ..before })
                    &&& delivery_of(round, events).continues(before.sources, after.sources, step)
                    &&& (*final(discard))@ == (*discard)@
                }
                &&& count == 0 ==> {
                    &&& after == (ReactorView { timers: after.timers, ..before })
                    &&& step matches Step::Done { wakers, result } && result is Ok && wakers@.len() >= kept
                        && wakers@.take(kept) == round@.wakers && if round@.timeout == Some(0u128) {
                        wakers@.len() == kept && after.timers == before.timers && (*final(discard))@ == (
                        *discard)@
                    } else {
                        &&& fires(before.timers.registered(), now, wakers@.skip(kept))
                        &&& leaves(before.timers.registered(), now, after.timers.registered())
                        &&& (*final(discard))@ == (*discard)@ + before.timers.displaced()
                        &&& after.timers.displaced().len() == 0
                        &&& after.timers.next_id == before.timers.next_id
                        &&& after.timers.capacity == before.timers.capacity
                    }
                }
            },
        forall|round: Round, r: &mut Reactor, error: E, kind: ErrorKind, now: u128, discard: &mut Vec<Waker>, step: Step<E>|
            #[trigger] call_ensures(
                Round::waited::<E>,
                (round, r, Waited::Failed { error, kind }, now, discard),
                step,
            ) ==> {
                &&& *final(r) == *r
                &&& (*final(discard))@ == (*discard)@
                &&& step matches Step::Done { wakers, result } && wakers@ == round@.wakers && (result is Ok
                    <==> kind is Interrupted) && (result matches Err(returned) ==> returned == error)
            },
{
    assert forall|round: Round, r: &mut Reactor, count: usize, events: Vec<Event>, now: u128, discard: &mut Vec<Waker>, step: Step<E>|
        #[trigger] call_ensures(
            Round::waited::<E>,
            (round, r, Waited::Events { count, events }, now, discard),
            step,
        ) && (*r).wf() implies {
        let before = (*r)@;
        let after = (*final(r))@;
        let kept = round@.wakers.len() as int;
        &&& count > 0 ==> {
            &&& after == (ReactorView { sources: after.sources, ..before })
            &&& delivery_of(round, events).continues(before.sources, after.sources, step)
            &&& (*final(discard))@ == (*discard)@
        }
        &&& count == 0 ==> {
            &&& after == (ReactorView { timers: after.timers, ..before })
            &&& step matches Step::Done { wakers, result } && result is Ok && wakers@.len() >= kept
                && wakers@.take(kept) == round@.wakers && if round@.timeout == Some(0u128) {
                wakers@.len() == kept && after.timers == before.timers && (*final(discard))@ == (
                *discard)@
            } else {
                &&& fires(before.timers.registered(), now, wakers@.skip(kept))
                &&& leaves(before.timers.registered(), now, after.timers.registered())
                &&& (*final(discard))@ == (*discard)@ + before.timers.displaced()
                &&& after.timers.displaced().len() == 0
                &&& after.timers.next_id == before.timers.next_id
                &&& after.timers.capacity == before.timers.capacity
            }
        }
    } by {
        let before = (*r)@;
        let kept = round@.wakers.len() as int;
        (*r).lemma_valid();
        lemma_timers_fire(before.timers, now, None);
        law_displaced_wakers_are_not_lost(before.timers, TimerOp::Remove(0, 0), now);
        if count == 0 {
            if let Step::Done { wakers, .. } = step {
                assert(wakers@.take(kept) =~= round@.wakers);
                if round@.timeout != Some(0u128) {
                    assert(wakers@.skip(kept) =~= before.timers.due(now));
                } else {
                    assert(wakers@ =~= round@.wakers);
                }
            }
        }
    }
}

/// A delivery goes on where it has stopped when the poller took the change of interest, and ends, with the
/// error and nobody woken, when it did not.
pub proof fn law_deliveries_go_on_from_the_answer<E>()
    ensures
        forall|delivery: Delivery, r: &mut Reactor, step: Step<E>| #[trigger]
            call_ensures(Delivery::modified::<E>, (delivery, r, Ok(())), step) ==> {
                let before = (*r)@;
                let after = (*final(r))@;
                &&& after == (ReactorView { sources: after.sources, ..before })
                &&& delivery@.continues(before.sources, after.sources, step)
            },
        forall|delivery: Delivery, r: &mut Reactor, error: E, step: Step<E>| #[trigger]
            call_ensures(Delivery::modified::<E>, (delivery, r, Err(error)), step) ==> {
                &&& *final(r) == *r
                &&& step matches Step::Failed { discard, error: returned } && discard@ == delivery@.wakers
                    && returned == error
            },
{
}

/// A new reactor has seen no round, and holds neither sources nor timers.
pub proof fn law_new_reactors_are_empty()
    ensures
        forall|size: usize, r: Reactor| #[trigger]
            call_ensures(Reactor::new, (size,), r) ==> r@.ticker == 0 && r@.sources.is_empty()
                && r@.next_serial == 0 && r@.timers.registered().is_empty()
                && r@.timers.displaced().len() == 0 && r@.timers.capacity == size && r@.timers.next_id == 1,
        forall|size: usize, t: Timers| #[trigger]
            call_ensures(Timers::new, (size,), t) ==> t@.registered().is_empty() && t@.displaced().len() == 0
                && t@.capacity == size && t@.next_id == 1,
{
}

/// Registering a source adds a source of its own on which nobody waits, under a key that was free; all
/// other sources stay. Where the poller has refused it, or when it is deregistered, it is gone again, and
/// the others still stay.
pub proof fn law_registrations_change_one_source<E>()
    ensures
        forall|r: &mut Reactor, registration: Registration, id: SourceId| #[trigger]
            call_ensures(Reactor::insert_io, (r, registration), id) ==> {
                let before = (*r)@;
                let after = (*final(r))@;
                &&& !before.sources.contains_key(id.key) && id.serial == before.next_serial
                &&& before.next_serial < u64::MAX ==> after.next_serial == before.next_serial + 1
                &&& after == (ReactorView {
                    sources: after.sources,
                    next_serial: after.next_serial,
                    ..before
                })
                &&& after.holds(id) && after.sources[id.key].registration == registration
                &&& forall|dir: int|
                    0 <= dir < 2 ==> !awaiting::waits(#[trigger] after.sources[id.key].state[dir])
                        && after.sources[id.key].state[dir].tick == 0
                        && after.sources[id.key].state[dir].ticks is None
                &&& after.sources.remove(id.key) == before.sources
            },
        forall|r: &mut Reactor, id: SourceId, added: Result<(), E>, result: Result<SourceId, E>| #[trigger]
            call_ensures(Reactor::finish_insert_io::<E>, (r, id, added), result) ==> {
                let before = (*r)@;
                let after = (*final(r))@;
                &&& result is Ok <==> added is Ok
                &&& result matches Ok(registered) ==> registered == id && *final(r) == *r
                &&& added matches Err(error) ==> result == Err::<SourceId, E>(error)
                &&& added is Err ==> after == (ReactorView { sources: before.sources.remove(id.key), ..before })
            },
        forall|r: &mut Reactor, id: SourceId, removed: Source| #[trigger]
            call_ensures(Reactor::remove_io, (r, id), removed) ==> {
                let before = (*r)@;
                let after = (*final(r))@;
                &&& removed@ == before.sources[id.key]
                &&& after == (ReactorView { sources: before.sources.remove(id.key), ..before })
            },
        forall|r: Reactor, id: SourceId, found: bool| #[trigger]
            call_ensures(Reactor::has_source, (&r, id), found) ==> (found <==> r@.sources.contains_key(id.key)
                && r@.sources[id.key].key == id.key && r@.sources[id.key].serial == id.serial),
        forall|r: Reactor, ticker: usize| #[trigger]
            call_ensures(Reactor::ticker, (&r,), ticker) ==> ticker == r@.ticker,
        forall|s: Source, registration: Registration| #[trigger]
            call_ensures(Source::registration, (&s,), registration) ==> registration == s@.registration,
        forall|s: Source, id: SourceId| #[trigger]
            call_ensures(Source::id, (&s,), id) ==> id.key == s@.key && id.serial == s@.serial,
{
    assert forall|r: &mut Reactor, registration: Registration, id: SourceId| #[trigger]
        call_ensures(Reactor::insert_io, (r, registration), id) implies (
    *final(r))@.sources.remove(id.key) == (*r)@.sources by {
        assert((*final(r))@.sources.remove(id.key) =~= (*r)@.sources);
    }
}

/// `same_task` is what asking the registered waker, if there is one, whether it wakes the same task as `waker`
/// can give.
pub open spec fn answer_of_comparison(registered: Option<Waker>, waker: Waker, same_task: bool) -> bool {
    match registered {
        Some(held) => call_ensures(Waker::will_wake, (&held, &waker), same_task),
        None => true,
    }
}

/// A source is polled with the ticker of the reactor, for the operation that is asked for, and with nothing
/// but the answer of the comparison left open.
pub proof fn law_sources_are_polled_in_the_current_round()
    ensures
        forall|r: &mut Reactor, id: SourceId, waker: Waker, outcome: PollOutcome| #[trigger]
            call_ensures(Reactor::poll_readable, (r, id, waker), outcome) ==> exists|same_task: bool| {
                &&& ((*final(r))@.sources[id.key], outcome) == #[trigger] (*r)@.sources[id.key].poll_ready(
                    READ,
                    waker,
                    (*r)@.ticker,
                    same_task,
                )
                &&& ((*final(r))@, outcome) == (*r)@.poll_source(id, READ, waker, same_task)
                &&& answer_of_comparison((*r)@.sources[id.key].state[READ as int].waker, waker, same_task)
            },
        forall|r: &mut Reactor, id: SourceId, waker: Waker, outcome: PollOutcome| #[trigger]
            call_ensures(Reactor::poll_writable, (r, id, waker), outcome) ==> exists|same_task: bool| {
                &&& ((*final(r))@.sources[id.key], outcome) == #[trigger] (*r)@.sources[id.key].poll_ready(
                    WRITE,
                    waker,
                    (*r)@.ticker,
                    same_task,
                )
                &&& ((*final(r))@, outcome) == (*r)@.poll_source(id, WRITE, waker, same_task)
                &&& answer_of_comparison((*r)@.sources[id.key].state[WRITE as int].waker, waker, same_task)
            },
        forall|s: &mut Source, waker: Waker, ticker: usize, outcome: PollOutcome| #[trigger]
            call_ensures(Source::poll_readable, (s, waker, ticker), outcome) ==> exists|same_task: bool| {
                &&& ((*final(s))@, outcome) == #[trigger] (*s)@.poll_ready(READ, waker, ticker, same_task)
                &&& answer_of_comparison((*s)@.state[READ as int].waker, waker, same_task)
            },
        forall|s: &mut Source, waker: Waker, ticker: usize, outcome: PollOutcome| #[trigger]
            call_ensures(Source::poll_writable, (s, waker, ticker), outcome) ==> exists|same_task: bool| {
                &&& ((*final(s))@, outcome) == #[trigger] (*s)@.poll_ready(WRITE, waker, ticker, same_task)
                &&& answer_of_comparison((*s)@.state[WRITE as int].waker, waker, same_task)
            },
        forall|s: &mut Source, dir: usize, waker: Waker, ticker: usize, outcome: PollOutcome| #[trigger]
            call_ensures(Source::poll_ready, (s, dir, waker, ticker), outcome) ==> exists|same_task: bool| {
                &&& ((*final(s))@, outcome) == #[trigger] (*s)@.poll_ready(dir, waker, ticker, same_task)
                &&& answer_of_comparison((*s)@.state[dir as int].waker, waker, same_task)
            },
        forall|s: &mut Source, dir: usize, waker: Waker, ticker: usize, same_task: bool, outcome: PollOutcome|
            #[trigger] call_ensures(Source::register, (s, dir, waker, ticker, same_task), outcome) ==> (
            (*final(s))@,
            outcome,
        ) == (*s)@.poll_ready(dir, waker, ticker, same_task),
{
    assert forall|r: &mut Reactor, id: SourceId, waker: Waker, outcome: PollOutcome| #[trigger]
        call_ensures(Reactor::poll_readable, (r, id, waker), outcome) implies exists|same_task: bool| {
        &&& ((*final(r))@.sources[id.key], outcome) == #[trigger] (*r)@.sources[id.key].poll_ready(
            READ,
            waker,
            (*r)@.ticker,
            same_task,
        )
        &&& ((*final(r))@, outcome) == (*r)@.poll_source(id, READ, waker, same_task)
        &&& answer_of_comparison((*r)@.sources[id.key].state[READ as int].waker, waker, same_task)
    } by {
        let same_task = choose|same_task: bool|
            ((*final(r))@, outcome) == #[trigger] (*r)@.poll_source(id, READ, waker, same_task)
                && answer_of_comparison((*r)@.sources[id.key].state[READ as int].waker, waker, same_task);
        assert(((*final(r))@.sources[id.key], outcome) == (*r)@.sources[id.key].poll_ready(
            READ,
            waker,
            (*r)@.ticker,
            same_task,
        ));
    }
    assert forall|r: &mut Reactor, id: SourceId, waker: Waker, outcome: PollOutcome| #[trigger]
        call_ensures(Reactor::poll_writable, (r, id, waker), outcome) implies exists|same_task: bool| {
        &&& ((*final(r))@.sources[id.key], outcome) == #[trigger] (*r)@.sources[id.key].poll_ready(
            WRITE,
            waker,
            (*r)@.ticker,
            same_task,
        )
        &&& ((*final(r))@, outcome) == (*r)@.poll_source(id, WRITE, waker, same_task)
        &&& answer_of_comparison((*r)@.sources[id.key].state[WRITE as int].waker, waker, same_task)
    } by {
        let same_task = choose|same_task: bool|
            ((*final(r))@, outcome) == #[trigger] (*r)@.poll_source(id, WRITE, waker, same_task)
                && answer_of_comparison((*r)@.sources[id.key].state[WRITE as int].waker, waker, same_task);
        assert(((*final(r))@.sources[id.key], outcome) == (*r)@.sources[id.key].poll_ready(
            WRITE,
            waker,
            (*r)@.ticker,
            same_task,
        ));
    }
}

/// What polling a future leads to, with the ticker of the reactor.
pub open spec fn future_polled(
    before: ReactorView,
    ready: ReadyView,
    waker: Waker,
    slot: usize,
    after: ReactorView,
    polled: ReadyView,
    outcome: PollOutcome,
) -> bool {
    &&& (polled, after.sources[ready.source.key], outcome) == ready.poll(
        before.sources[ready.source.key],
        waker,
        before.ticker,
        slot,
    )
    &&& (polled, after, outcome) == before.poll_ready(ready, waker, slot)
    &&& after.attached(polled)
}

/// What dropping a future leads to: it has no slot any more, and the waker in it comes out, where its source
/// is registered; else nothing happens.
pub open spec fn future_dropped(
    before: ReactorView,
    ready: ReadyView,
    after: ReactorView,
    dropped: ReadyView,
    discard: Option<Waker>,
) -> bool {
    &&& before.holds(ready.source) ==> {
        &&& after.sources[ready.source.key] == ready.removed_from(before.sources[ready.source.key])
        &&& after == (ReactorView { sources: after.sources, ..before })
        &&& after.sources.remove(ready.source.key) == before.sources.remove(ready.source.key)
        &&& after.sources.dom() == before.sources.dom()
        &&& dropped == (ReadyView { index: None, ..ready })
        &&& discard == ready.stored_in(before.sources[ready.source.key])
    }
    &&& !before.holds(ready.source) ==> after == before && dropped == ready && discard is None
}

/// What `without` says of a future that is dropped.
proof fn lemma_future_dropped(before: ReactorView, ready: ReadyView)
    ensures
        future_dropped(
            before,
            ready,
            before.without(ready),
            if before.holds(ready.source) {
                ready.dropped()
            } else {
                ready
            },
            before.stored_waker(ready),
        ),
{
    let after = before.without(ready);
    if before.holds(ready.source) {
        assert(after.sources.remove(ready.source.key) =~= before.sources.remove(ready.source.key));
        assert(after.sources.dom() =~= before.sources.dom());
    }
}

/// Futures are polled with the ticker of the reactor, and dropped, as the laws on futures say, and each keeps
/// its handle.
pub proof fn law_futures_are_polled_in_the_current_round<T>()
    ensures
        forall|f: &mut Readable<'_, T>, r: &mut Reactor, waker: Waker, outcome: PollOutcome| #[trigger]
            call_ensures(Readable::<'_, T>::poll, (f, r, waker), outcome) ==> future_polled(
                (*r)@,
                (*f)@,
                waker,
                (*r).next_slot((*f)@.source.key, (*f)@.dir),
                (*final(r))@,
                (*final(f))@,
                outcome,
            ) && (*final(f)).handle() == (*f).handle(),
        forall|f: &mut ReadableOwned<T>, r: &mut Reactor, waker: Waker, outcome: PollOutcome| #[trigger]
            call_ensures(ReadableOwned::<T>::poll, (f, r, waker), outcome) ==> future_polled(
                (*r)@,
                (*f)@,
                waker,
                (*r).next_slot((*f)@.source.key, (*f)@.dir),
                (*final(r))@,
                (*final(f))@,
                outcome,
            ) && (*final(f)).handle() == (*f).handle(),
        forall|f: &mut Writable<'_, T>, r: &mut Reactor, waker: Waker, outcome: PollOutcome| #[trigger]
            call_ensures(Writable::<'_, T>::poll, (f, r, waker), outcome) ==> future_polled(
                (*r)@,
                (*f)@,
                waker,
                (*r).next_slot((*f)@.source.key, (*f)@.dir),
                (*final(r))@,
                (*final(f))@,
                outcome,
            ) && (*final(f)).handle() == (*f).handle(),
        forall|f: &mut WritableOwned<T>, r: &mut Reactor, waker: Waker, outcome: PollOutcome| #[trigger]
            call_ensures(WritableOwned::<T>::poll, (f, r, waker), outcome) ==> future_polled(
                (*r)@,
                (*f)@,
                waker,
                (*r).next_slot((*f)@.source.key, (*f)@.dir),
                (*final(r))@,
                (*final(f))@,
                outcome,
            ) && (*final(f)).handle() == (*f).handle(),
        forall|f: &mut Readable<'_, T>, r: &mut Reactor, discard: Option<Waker>| #[trigger]
            call_ensures(Readable::<'_, T>::drop, (f, r), discard) ==> future_dropped(
                (*r)@,
                (*f)@,
                (*final(r))@,
                (*final(f))@,
                discard,
            ),
        forall|f: &mut ReadableOwned<T>, r: &mut Reactor, discard: Option<Waker>| #[trigger]
            call_ensures(ReadableOwned::<T>::drop, (f, r), discard) ==> future_dropped(
                (*r)@,
                (*f)@,
                (*final(r))@,
                (*final(f))@,
                discard,
            ),
        forall|f: &mut Writable<'_, T>, r: &mut Reactor, discard: Option<Waker>| #[trigger]
            call_ensures(Writable::<'_, T>::drop, (f, r), discard) ==> future_dropped(
                (*r)@,
                (*f)@,
                (*final(r))@,
                (*final(f))@,
                discard,
            ),
        forall|f: &mut WritableOwned<T>, r: &mut Reactor, discard: Option<Waker>| #[trigger]
            call_ensures(WritableOwned::<T>::drop, (f, r), discard) ==> future_dropped(
                (*r)@,
                (*f)@,
                (*final(r))@,
                (*final(f))@,
                discard,
            ),
{
    assert forall|before: ReactorView, ready: ReadyView| future_dropped(
        before,
        ready,
        #[trigger] before.without(ready),
        if before.holds(ready.source) {
            ready.dropped()
        } else {
            ready
        },
        before.stored_waker(ready),
    ) by {
        lemma_future_dropped(before, ready);
    }
}

/// A new future waits for the operation that was asked for, on the source of its object, and keeps the
/// object.
pub proof fn law_new_futures_wait_for_their_object<T>()
    ensures
        forall|handle: &Async<T>, f: Readable<'_, T>| #[trigger]
            call_ensures(Source::readable::<T>, (handle,), f) ==> f@.dir == 0 && f@.source
                == handle.source_id() && f@.ticks is None && f@.index is None && f.handle() == handle,
        forall|handle: Arc<Async<T>>, f: ReadableOwned<T>| #[trigger]
            call_ensures(Source::readable_owned::<T>, (handle,), f) ==> f@.dir == 0 && f@.source
                == handle.source_id() && f@.ticks is None && f@.index is None && f.handle() == handle,
        forall|handle: &Async<T>, f: Writable<'_, T>| #[trigger]
            call_ensures(Source::writable::<T>, (handle,), f) ==> f@.dir == 1 && f@.source
                == handle.source_id() && f@.ticks is None && f@.index is None && f.handle() == handle,
        forall|handle: Arc<Async<T>>, f: WritableOwned<T>| #[trigger]
            call_ensures(Source::writable_owned::<T>, (handle,), f) ==> f@.dir == 1 && f@.source
                == handle.source_id() && f@.ticks is None && f@.index is None && f.handle() == handle,
        forall|source: SourceId, io: T, object: Async<T>| #[trigger]
            call_ensures(Async::<T>::new, (source, io), object) ==> object.source_id() == source
                && object.io() == io,
        forall|object: Async<T>, source: SourceId| #[trigger]
            call_ensures(Async::<T>::source, (&object,), source) ==> source == object.source_id(),
{
}

/// A future that is not in a reactor's table is polled and dropped on its source itself, in the same way.
pub proof fn law_futures_work_on_their_source<H>()
    ensures
        forall|f: &mut Ready<H, READ>, s: &mut Source, waker: Waker, ticker: usize, outcome: PollOutcome|
            #[trigger] call_ensures(Ready::<H, READ>::poll, (f, s, waker, ticker), outcome) ==> (
            (*final(f))@,
            (*final(s))@,
            outcome,
        ) == (*f)@.poll((*s)@, waker, ticker, (*s).next_slot((*f)@.dir)),
        forall|f: &mut Ready<H, WRITE>, s: &mut Source, waker: Waker, ticker: usize, outcome: PollOutcome|
            #[trigger] call_ensures(Ready::<H, WRITE>::poll, (f, s, waker, ticker), outcome) ==> (
            (*final(f))@,
            (*final(s))@,
            outcome,
        ) == (*f)@.poll((*s)@, waker, ticker, (*s).next_slot((*f)@.dir)),
        forall|f: &mut Ready<H, READ>, s: &mut Source, discard: Option<Waker>| #[trigger]
            call_ensures(Ready::<H, READ>::drop, (f, s), discard) ==> {
                &&& (*f)@.source == (*s)@.id() ==> (*final(s))@ == (*f)@.removed_from((*s)@)
                    && (*final(f))@.index is None && discard == (*f)@.stored_in((*s)@)
                &&& (*f)@.source != (*s)@.id() ==> *final(s) == *s && *final(f) == *f && discard is None
            },
        forall|f: &mut Ready<H, WRITE>, s: &mut Source, discard: Option<Waker>| #[trigger]
            call_ensures(Ready::<H, WRITE>::drop, (f, s), discard) ==> {
                &&& (*f)@.source == (*s)@.id() ==> (*final(s))@ == (*f)@.removed_from((*s)@)
                    && (*final(f))@.index is None && discard == (*f)@.stored_in((*s)@)
                &&& (*f)@.source != (*s)@.id() ==> *final(s) == *s && *final(f) == *f && discard is None
            },
{
}

/// Whether a future still waits is told truly: its source is there, under its own name, and so is the
/// future's slot, if it has one.
pub proof fn law_attachment_is_told<H>()
    ensures
        forall|f: Ready<H, READ>, r: Reactor, attached: bool| #[trigger]
            call_ensures(Reactor::is_attached::<H, READ>, (&r, &f), attached) ==> (attached <==> r@.holds(
                f@.source,
            ) && (f@.index matches Some(slot)
                ==> r@.sources[f@.source.key].state[READ as int].wakers.contains_key(slot))),
        forall|f: Ready<H, WRITE>, r: Reactor, attached: bool| #[trigger]
            call_ensures(Reactor::is_attached::<H, WRITE>, (&r, &f), attached) ==> (attached <==> r@.holds(
                f@.source,
            ) && (f@.index matches Some(slot)
                ==> r@.sources[f@.source.key].state[WRITE as int].wakers.contains_key(slot))),
        forall|f: &mut Ready<H, READ>, r: &mut Reactor, waker: Waker, outcome: PollOutcome| #[trigger]
            call_ensures(Reactor::poll_ready::<H, READ>, (r, f, waker), outcome) ==> future_polled(
                (*r)@,
                (*f)@,
                waker,
                (*r).next_slot((*f)@.source.key, (*f)@.dir),
                (*final(r))@,
                (*final(f))@,
                outcome,
            ),
        forall|f: &mut Ready<H, WRITE>, r: &mut Reactor, waker: Waker, outcome: PollOutcome| #[trigger]
            call_ensures(Reactor::poll_ready::<H, WRITE>, (r, f, waker), outcome) ==> future_polled(
                (*r)@,
                (*f)@,
                waker,
                (*r).next_slot((*f)@.source.key, (*f)@.dir),
                (*final(r))@,
                (*final(f))@,
                outcome,
            ),
{
    assert forall|f: Ready<H, READ>| #[trigger] f@.dir == READ by {
        f.lemma_direction();
    }
    assert forall|f: Ready<H, WRITE>| #[trigger] f@.dir == WRITE by {
        f.lemma_direction();
    }
}

/// A direction says whether anybody waits, and hands out all who do when it is drained, each once and in
/// order, keeping its slots.
pub proof fn law_directions_hand_out_all_who_wait()
    ensures
        forall|d: Direction, empty: bool| #[trigger]
            call_ensures(Direction::is_empty, (&d,), empty) ==> (empty <==> !awaiting::waits(d@)),
        forall|d: &mut Direction, dst: &mut Vec<Waker>| #[trigger]
            call_ensures(Direction::drain_into, (d, dst), ()) ==> {
                let start = (*dst)@.len() as int;
                &&& !awaiting::waits((*final(d))@)
                &&& (*final(d))@.tick == (*d)@.tick && (*final(d))@.ticks == (*d)@.ticks
                &&& (*final(d))@.wakers.dom() == (*d)@.wakers.dom()
                &&& (*final(dst))@.len() >= start && (*final(dst))@.take(start) == (*dst)@
                &&& awaiting::lists((*d)@, (*final(dst))@.skip(start))
            },
{
    assert forall|d: Direction, empty: bool| #[trigger]
        call_ensures(Direction::is_empty, (&d,), empty) implies (empty <==> !awaiting::waits(d@)) by {
        awaiting::law_those_who_wait_are_listed(d@);
    }
    assert forall|d: &mut Direction, dst: &mut Vec<Waker>| #[trigger]
        call_ensures(Direction::drain_into, (d, dst), ()) implies {
        let start = (*dst)@.len() as int;
        &&& !awaiting::waits((*final(d))@)
        &&& (*final(d))@.tick == (*d)@.tick && (*final(d))@.ticks == (*d)@.ticks
        &&& (*final(d))@.wakers.dom() == (*d)@.wakers.dom()
        &&& (*final(dst))@.len() >= start && (*final(dst))@.take(start) == (*dst)@
        &&& awaiting::lists((*d)@, (*final(dst))@.skip(start))
    } by {
        let start = (*dst)@.len() as int;
        awaiting::law_those_who_wait_are_listed((*d)@);
        awaiting::law_draining_takes_only_wakers((*d)@);
        assert((*final(d))@.wakers.dom() =~= (*d)@.wakers.dom());
        assert((*final(dst))@.take(start) =~= (*dst)@);
        assert((*final(dst))@.skip(start) =~= (*d)@.waiting());
    }
}

/// A poll is over when an event was there, or when the poller has refused the change of interest that the
/// poll asked for, with its error; else the task waits. The interest of a source is what is awaited of it.
pub proof fn law_polls_end_with_events_or_errors<E>()
    ensures
        forall|outcome: PollOutcome, modified: Result<(), E>, poll: Poll<Result<(), E>>| #[trigger]
            call_ensures(PollOutcome::resolve::<E>, (&outcome, modified), poll) ==> {
                &&& poll is Pending <==> outcome is Pending && (outcome.change() is None || modified is Ok)
                &&& poll matches Poll::Ready(result) ==> (result is Ok <==> outcome is Ready)
                &&& poll matches Poll::Ready(Err(error)) ==> modified == Err::<(), E>(error)
            },
        forall|outcome: PollOutcome, change: Option<Interest>| #[trigger]
            call_ensures(PollOutcome::interest, (&outcome,), change) ==> (change matches Some(told)
                ==> (outcome matches PollOutcome::Pending { interest, .. } && interest == Some(told))) && (
            change is None ==> (outcome matches PollOutcome::Pending { interest, .. } ==> interest is None)),
        forall|s: Source, interest: Interest| #[trigger]
            call_ensures(Source::interest, (&s,), interest) ==> asks_for_all(interest, s@),
{
    assert forall|s: Source, interest: Interest| #[trigger]
        call_ensures(Source::interest, (&s,), interest) implies asks_for_all(interest, s@) by {
        awaiting::law_interest_is_what_is_awaited(s@);
    }
}

} // verus!
