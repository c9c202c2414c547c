//! What holds of the reactor and its drivers as a whole.
use crate::driver::{BlockEvent, BlockOnView, MainAction, MainEvent, MainLoopView, Stage};
use crate::reactor::{DeliveryView, ReactorView, Step};
use crate::source::{
    DirectionView, Event, Interest, PollOutcome, ReadyView, Registration, SourceId, SourceView, READ, WRITE,
};
use crate::timers::{TimerKey, TimerOp, TimersView};
use crate::{reactor, slots, source, timers};
use std::task::Waker;
use vstd::multiset::Multiset;
use vstd::prelude::*;

verus! {

/// A counter that starts over at zero, after some steps.
pub open spec fn advanced(counter: usize, steps: nat) -> usize
    decreases steps,
{
    if steps == 0 {
        counter
    } else {
        timers::wrapping_next(advanced(counter, (steps - 1) as nat))
    }
}

/// A counter counts modulo the number of values that it can have.
pub proof fn lemma_advanced_is_modular(counter: usize, steps: nat)
    ensures
        advanced(counter, steps) == (counter + steps) % (usize::MAX + 1),
    decreases steps,
{
    let modulus: int = usize::MAX + 1;
    if steps == 0 {
        assert((counter + 0) % modulus == counter) by (nonlinear_arith)
            requires
                0 <= counter < modulus,
        ;
    } else {
        lemma_advanced_is_modular(counter, (steps - 1) as nat);
        let before: int = counter + (steps - 1) as nat;
        assert((before + 1) % modulus == (if before % modulus == modulus - 1 {
            0
        } else {
            before % modulus + 1
        })) by (nonlinear_arith)
            requires
                modulus > 1,
                before >= 0,
        ;
    }
}

/// A counter comes back to a value only after a full turn. Ticks and timer IDs are such counters: two
/// of them are the same exactly if a number of full turns lies between them.
pub proof fn law_counter_repeats_only_after_a_turn(counter: usize, earlier: nat, later: nat)
    requires
        earlier <= later,
    ensures
        advanced(counter, earlier) == advanced(counter, later) <==> (later - earlier) % (usize::MAX + 1)
            == 0,
{
    let modulus: int = usize::MAX + 1;
    lemma_advanced_is_modular(counter, earlier);
    lemma_advanced_is_modular(counter, later);
    let a: int = counter + earlier;
    let b: int = counter + later;
    assert(b - a == later - earlier);
    vstd::arithmetic::div_mod::lemma_mod_equivalence(b, a, modulus);
}

/// Steps add up.
pub proof fn lemma_advanced_adds_up(counter: usize, first: nat, second: nat)
    ensures
        advanced(advanced(counter, first), second) == advanced(counter, first + second),
    decreases second,
{
    if second > 0 {
        lemma_advanced_adds_up(counter, first, (second - 1) as nat);
    }
}

/// A registration accepts an event of any later round, and none of the round in which it was made or
/// of the round whose event it found.
///
/// The source found its last event in round `found`, the registration was made `since` rounds after
/// that, and the event comes another `until` rounds later. Only where the ticker has come back, after
/// full turns, to one of the two ticks that are remembered is a later event taken for a stale one.
pub proof fn law_only_later_rounds_are_fresh(found: usize, since: nat, until: nat)
    ensures
        source::fresh_event(
            advanced(advanced(found, since), until),
            Some((advanced(found, since), found)),
        ) <==> until % (usize::MAX as nat + 1) != 0 && (since + until) % (usize::MAX as nat + 1) != 0,
        since + until <= usize::MAX ==> (source::fresh_event(
            advanced(advanced(found, since), until),
            Some((advanced(found, since), found)),
        ) <==> until > 0),
{
    lemma_advanced_adds_up(found, since, until);
    law_counter_repeats_only_after_a_turn(found, since, since + until);
    law_counter_repeats_only_after_a_turn(found, 0, since + until);
    if since + until <= usize::MAX {
        vstd::arithmetic::div_mod::lemma_small_mod(until, usize::MAX as nat + 1);
        vstd::arithmetic::div_mod::lemma_small_mod(since + until, usize::MAX as nat + 1);
    }
}

/// The tick is that of one of the first `rounds` rounds, or of none.
pub open spec fn past_tick(tick: usize, rounds: nat) -> bool {
    exists|round: nat| round <= rounds && tick == #[trigger] advanced(0, round)
}

/// The reactor has started `rounds` rounds, and its sources know no ticks but theirs.
pub open spec fn after_rounds(reactor: ReactorView, rounds: nat) -> bool {
    &&& reactor.ticker == advanced(0, rounds)
    &&& forall|key: usize, dir: int|
        #![trigger reactor.sources[key].state[dir]]
        reactor.sources.contains_key(key) && 0 <= dir < 2 ==> past_tick(
            reactor.sources[key].state[dir].tick,
            rounds,
        )
}

/// Sources know the ticks of past rounds only, in every state of the reactor: when it is new, when
/// sources come and go, when a round starts, when tasks poll, when futures are dropped, and when an
/// event of a round that has started is delivered.
pub proof fn law_ticks_are_of_past_rounds(
    reactor: ReactorView,
    rounds: nat,
    key: usize,
    registration: Registration,
    id: SourceId,
    dir: usize,
    waker: Waker,
    same_task: bool,
    ready: ReadyView,
    next_slot: usize,
    event: Event,
    round: nat,
)
    requires
        reactor.valid(),
        after_rounds(reactor, rounds),
        round <= rounds,
    ensures
        reactor.sources.is_empty() && reactor.ticker == 0 ==> after_rounds(reactor, 0),
        after_rounds(reactor.inserted(registration, key), rounds),
        after_rounds(reactor.removed(key), rounds),
        after_rounds(
            ReactorView { ticker: timers::wrapping_next(reactor.ticker), ..reactor },
            rounds + 1,
        ),
        reactor.holds(id) && dir < 2
            ==> after_rounds(reactor.poll_source(id, dir, waker, same_task).0, rounds),
        reactor.attached(ready) ==> after_rounds(
            reactor.poll_ready(ready, waker, next_slot).1,
            rounds,
        ),
        ready.dir < 2 ==> after_rounds(reactor.without(ready), rounds),
        after_rounds(
            ReactorView {
                sources: reactor::deliver_event(reactor.sources, event, advanced(0, round)),
                ..reactor
            },
            rounds,
        ),
{
    assert(advanced(0, 0) == 0);
    assert(past_tick(0, rounds));
    assert(past_tick(advanced(0, round), rounds));
    let next = ReactorView { ticker: timers::wrapping_next(reactor.ticker), ..reactor };
    assert forall|key: usize, dir: int|
        #![trigger next.sources[key].state[dir]]
        next.sources.contains_key(key) && 0 <= dir < 2 implies past_tick(
        next.sources[key].state[dir].tick,
        rounds + 1,
    ) by {
        let tick = reactor.sources[key].state[dir].tick;
        assert(past_tick(tick, rounds));
        let known = choose|round: nat| round <= rounds && tick == #[trigger] advanced(0, round);
        assert(known <= rounds + 1);
    }
}

/// A future gets no stale events: one that was first polled after `rounds` rounds had started is
/// completed by an event of a later round, and by none of the last round that had started, whose events
/// may still be under way. No earlier round has events under way, as one round ends before the next
/// one starts.
///
/// Only where the ticker has come back, after full turns, to a tick that is remembered is an event of a
/// later round missed.
pub proof fn law_futures_get_no_stale_events(
    reactor: ReactorView,
    rounds: nat,
    found: nat,
    ready: ReadyView,
    waker: Waker,
    next_slot: usize,
    event: Event,
    round: nat,
    again: Waker,
    later: usize,
    later_slot: usize,
)
    requires
        reactor.valid(),
        after_rounds(reactor, rounds),
        reactor.attached(ready),
        ready.index is None,
        ready.ticks is None,
        reactor.sources[ready.source.key].state[ready.dir as int].tick == advanced(0, found),
        found <= rounds <= round,
        event.emits(ready.dir as int),
    ensures
        ({
            let (polled, after, outcome) = reactor.poll_ready(ready, waker, next_slot);
            let delivered = after.sources[ready.source.key].delivered(event, advanced(0, round));
            let completed = polled.poll(delivered, again, later, later_slot).2 is Ready;
            &&& completed <==> (round - rounds) as nat % (usize::MAX as nat + 1) != 0 && (round
                - found) as nat % (usize::MAX as nat + 1) != 0
            &&& round - found <= usize::MAX ==> (completed <==> round > rounds)
        }),
{
    let since = (rounds - found) as nat;
    let until = (round - rounds) as nat;
    let source = reactor.sources[ready.source.key];
    law_events_complete_futures(
        source,
        ready,
        waker,
        reactor.ticker,
        next_slot,
        event,
        advanced(0, round),
        again,
        later,
        later_slot,
    );
    lemma_advanced_adds_up(0, found, since);
    lemma_advanced_adds_up(0, rounds, until);
    law_only_later_rounds_are_fresh(advanced(0, found), since, until);
}

/// The queue of timer operations is invisible: an operation takes effect on the registered timers when
/// it is made, however full the queue is, and processing the queue changes nothing about them.
pub proof fn law_timer_operations_take_effect_at_once(timers: TimersView, op: TimerOp)
    ensures
        timers.enqueued(op).registered() == timers::apply_op(timers.registered(), op),
        timers.settled().registered() == timers.registered(),
{
    if timers.queued.len() < timers.capacity {
        assert(timers.queued.push(op).drop_last() =~= timers.queued);
    } else {
        assert(seq![op].drop_last() =~= Seq::<TimerOp>::empty());
        reveal_with_fuel(timers::apply_ops, 2);
    }
}

/// An inserted timer is registered until it is removed; a removed timer is not, and so it never fires;
/// all other timers stay as they are.
pub proof fn law_timers_are_inserted_and_removed(
    timers: TimersView,
    when: u128,
    id: usize,
    waker: Waker,
    other: TimerKey,
)
    requires
        other != (when, id),
    ensures
        ({
            let inserted = timers.enqueued(TimerOp::Insert(when, id, waker)).registered();
            let removed = timers.enqueued(TimerOp::Remove(when, id)).registered();
            &&& inserted.contains_key((when, id)) && inserted[(when, id)] == waker
            &&& !removed.contains_key((when, id))
            &&& inserted.contains_key(other) <==> timers.registered().contains_key(other)
            &&& removed.contains_key(other) <==> timers.registered().contains_key(other)
            &&& timers.registered().contains_key(other) ==> inserted[other]
                == timers.registered()[other] && removed[other] == timers.registered()[other]
        }),
{
    law_timer_operations_take_effect_at_once(timers, TimerOp::Insert(when, id, waker));
    law_timer_operations_take_effect_at_once(timers, TimerOp::Remove(when, id));
}

/// Inserting a timer and removing it again leaves the timers as they were, if the ID was not in use.
pub proof fn law_removal_undoes_insertion(timers: TimersView, when: u128, id: usize, waker: Waker)
    requires
        !timers.registered().contains_key((when, id)),
    ensures
        timers.enqueued(TimerOp::Insert(when, id, waker)).enqueued(
            TimerOp::Remove(when, id),
        ).registered() == timers.registered(),
{
    let inserted = timers.enqueued(TimerOp::Insert(when, id, waker));
    law_timer_operations_take_effect_at_once(timers, TimerOp::Insert(when, id, waker));
    law_timer_operations_take_effect_at_once(inserted, TimerOp::Remove(when, id));
    assert(inserted.enqueued(TimerOp::Remove(when, id)).registered() =~= timers.registered());
}

/// A set of timers that is not empty has a first one.
pub proof fn lemma_first_timer(keys: Set<TimerKey>) -> (first: TimerKey)
    requires
        keys.finite(),
        keys.len() > 0,
    ensures
        timers::is_least(keys, first),
        timers::least(keys) == first,
    decreases keys.len(),
{
    let some = keys.choose();
    let rest = keys.remove(some);
    if rest.len() == 0 {
        assert forall|other: TimerKey| #[trigger] keys.contains(other) && other != some implies timers::fires_before(some, other) by {
            assert(rest.contains(other));
        }
        assert(timers::is_least(keys, some));
        some
    } else {
        let first = lemma_first_timer(rest);
        assert forall|other: TimerKey| #[trigger] keys.contains(other) && other != some implies rest.contains(other) by {}
        if timers::fires_before(some, first) {
            assert(timers::is_least(keys, some));
            some
        } else {
            assert(timers::is_least(keys, first));
            first
        }
    }
}

/// Timers are in the order in which they fire, each of them once.
pub proof fn law_timers_are_ordered(keys: Set<TimerKey>)
    requires
        keys.finite(),
    ensures
        forall|i: int, j: int|
            #![trigger timers::in_order(keys)[i], timers::in_order(keys)[j]]
            0 <= i < j < timers::in_order(keys).len() ==> timers::fires_before(
                timers::in_order(keys)[i],
                timers::in_order(keys)[j],
            ),
        forall|key: TimerKey|
            #![trigger timers::in_order(keys).contains(key)]
            #![trigger keys.contains(key)]
            timers::in_order(keys).contains(key) <==> keys.contains(key),
        timers::in_order(keys).len() == keys.len(),
    decreases keys.len(),
{
    let order = timers::in_order(keys);
    if keys.len() == 0 {
        assert(order =~= seq![]);
    } else {
        let first = lemma_first_timer(keys);
        let rest = keys.remove(first);
        law_timers_are_ordered(rest);
        let tail = timers::in_order(rest);
        assert(order == seq![first] + tail);
        assert forall|key: TimerKey| order.contains(key) <==> keys.contains(key) by {
            if keys.contains(key) {
                if key == first {
                    assert(order[0] == key);
                } else {
                    assert(tail.contains(key));
                    let i = choose|i: int| 0 <= i < tail.len() && tail[i] == key;
                    assert(order[i + 1] == key);
                }
            }
            if order.contains(key) {
                let i = choose|i: int| 0 <= i < order.len() && order[i] == key;
                if i > 0 {
                    assert(tail[i - 1] == key);
                    assert(tail.contains(key));
                }
            }
        }
        assert forall|i: int, j: int|
            #![trigger order[i], order[j]]
            0 <= i < j < order.len() implies timers::fires_before(order[i], order[j]) by {
            assert(order[j] == tail[j - 1]);
            assert(tail.contains(tail[j - 1]));
            assert(rest.contains(order[j]));
            assert(keys.contains(order[j]));
            if i > 0 {
                assert(order[i] == tail[i - 1]);
            }
        }
    }
}

/// The registered timers stay finitely many.
pub proof fn lemma_finitely_many_timers(timers: TimersView)
    requires
        timers.processed.dom().finite(),
    ensures
        timers.registered().dom().finite(),
    decreases timers.queued.len(),
{
    if timers.queued.len() > 0 {
        let before = TimersView { queued: timers.queued.drop_last(), ..timers };
        lemma_finitely_many_timers(before);
        match timers.queued.last() {
            TimerOp::Insert(when, id, waker) => {
                assert(timers.registered().dom() =~= before.registered().dom().insert((when, id)));
            },
            TimerOp::Remove(when, id) => {
                assert(timers.registered().dom() =~= before.registered().dom().remove((when, id)));
            },
        }
    }
}

/// Exactly the timers that are set for `now` or before fire, in their order, and a timer set for
/// exactly `now` is among them.
pub proof fn law_due_timers_fire_in_order(timers: TimersView, now: u128) -> (order: Seq<TimerKey>)
    requires
        timers.processed.dom().finite(),
    ensures
        forall|key: TimerKey|
            order.contains(key) <==> timers.registered().contains_key(key) && key.0 <= now,
        forall|i: int, j: int|
            0 <= i < j < order.len() ==> timers::fires_before(#[trigger] order[i], #[trigger] order[j]),
        timers.due(now).len() == order.len(),
        forall|i: int|
            0 <= i < order.len() ==> timers.due(now)[i] == timers.registered()[#[trigger] order[i]],
{
    let keys = timers::due_keys(timers.registered().dom(), now);
    lemma_finitely_many_timers(timers);
    law_timers_are_ordered(keys);
    assert forall|key: TimerKey| keys.contains(key) <==> timers.registered().contains_key(key) && key.0 <= now by {}
    timers::in_order(keys)
}

/// A timer fires once: when the timers that are due have fired, none of them is registered, and the
/// others are as they were.
pub proof fn law_timers_fire_once(timers: TimersView, now: u128)
    requires
        timers.processed.dom().finite(),
    ensures
        forall|key: TimerKey|
            #![trigger timers.fired(now).registered().contains_key(key)]
            timers.fired(now).registered().contains_key(key) <==> timers.registered().contains_key(key)
                && key.0 > now,
        forall|key: TimerKey|
            #![trigger timers.fired(now).registered()[key]]
            timers.registered().contains_key(key) && key.0 > now
                ==> timers.fired(now).registered()[key] == timers.registered()[key],
        timers.fired(now).due(now) == Seq::<Waker>::empty(),
{
    lemma_finitely_many_timers(timers);
    let left = timers.fired(now);
    assert(left.registered() == left.processed);
    let keys = timers::due_keys(left.registered().dom(), now);
    assert(keys =~= Set::empty());
    law_timers_are_ordered(keys);
    assert(left.due(now) =~= seq![]);
}

/// Where the first timers of a set come before all others, they also come first in order.
proof fn lemma_order_splits(keys: Set<TimerKey>, front: Set<TimerKey>)
    requires
        keys.finite(),
        front.subset_of(keys),
        forall|a: TimerKey, b: TimerKey|
            #![trigger front.contains(a), keys.contains(b)]
            front.contains(a) && keys.contains(b) && !front.contains(b) ==> timers::fires_before(a, b),
    ensures
        timers::in_order(keys) == timers::in_order(front) + timers::in_order(keys.difference(front)),
    decreases front.len(),
{
    vstd::set_lib::lemma_set_subset_finite(keys, front);
    if front.len() == 0 {
        assert(front =~= Set::empty());
        assert(keys.difference(front) =~= keys);
        law_timers_are_ordered(front);
        assert(timers::in_order(front) =~= seq![]);
        assert(timers::in_order(keys) =~= timers::in_order(front) + timers::in_order(
            keys.difference(front),
        ));
    } else {
        let first = lemma_first_timer(front);
        assert(timers::is_least(keys, first));
        timers::lemma_least_is_unique(keys, first);
        lemma_order_splits(keys.remove(first), front.remove(first));
        assert(keys.remove(first).difference(front.remove(first)) =~= keys.difference(front));
        assert(timers::in_order(keys) =~= timers::in_order(front) + timers::in_order(
            keys.difference(front),
        ));
    }
}

/// It makes no difference to the timers whether they are polled at a time in between: the same timers
/// fire in the same order.
pub proof fn law_polling_in_between_changes_nothing(timers: TimersView, earlier: u128, later: u128)
    requires
        timers.processed.dom().finite(),
        earlier <= later,
    ensures
        timers.due(earlier) + timers.fired(earlier).due(later) == timers.due(later),
        timers.fired(earlier).fired(later).registered() == timers.fired(later).registered(),
{
    lemma_finitely_many_timers(timers);
    let all = timers.registered();
    let left = timers.fired(earlier);
    let front = timers::due_keys(all.dom(), earlier);
    let keys = timers::due_keys(all.dom(), later);
    lemma_order_splits(keys, front);
    assert(timers::due_keys(left.registered().dom(), later) =~= keys.difference(front));
    law_timers_are_ordered(keys.difference(front));
    assert forall|i: int| 0 <= i < left.due(later).len() implies left.due(later)[i]
        == all[#[trigger] timers::in_order(keys.difference(front))[i]] by {
        let key = timers::in_order(keys.difference(front))[i];
        assert(timers::in_order(keys.difference(front)).contains(key));
        assert(keys.difference(front).contains(key));
        assert(left.registered().contains_key(key));
    }
    assert(timers.due(earlier) + left.due(later) =~= timers.due(later));
    assert(left.fired(later).registered() =~= timers.fired(later).registered());
}

/// The time until the next timer is just that: no timer is set for an earlier time, and one is set for
/// that time, or already due. Without timers there is no such time.
pub proof fn law_time_until_next_timer(timers: TimersView, now: u128)
    requires
        timers.processed.dom().finite(),
    ensures
        match timers.until_next(now) {
            Some(duration) => {
                &&& exists|key: TimerKey| #[trigger]
                    timers.registered().contains_key(key) && key.0 <= now + duration
                &&& duration > 0 ==> forall|key: TimerKey| #[trigger]
                    timers.registered().contains_key(key) ==> key.0 >= now + duration
                &&& duration == 0 <==> timers.due(now).len() > 0
            },
            None => timers.registered().is_empty(),
        },
{
    lemma_finitely_many_timers(timers);
    let keys = timers.registered().dom();
    let due = timers::due_keys(keys, now);
    law_timers_are_ordered(due);
    if timers.any_due(now) {
        let key = choose|key: TimerKey| #[trigger]
            timers.registered().contains_key(key) && key.0 <= now;
        assert(due.contains(key));
        assert(timers::in_order(due).contains(key));
    } else {
        assert(due =~= Set::empty());
        if !timers.registered().is_empty() {
            if keys.len() == 0 {
                assert(keys =~= Set::empty());
            }
            let first = lemma_first_timer(keys);
            assert(timers.registered().contains_key(first));
        }
    }
}

/// A call on the timers of a reactor.
pub enum TimerCall {
    /// `insert_timer`.
    Insert { when: u128, waker: Waker },
    /// `remove_timer`.
    Remove { when: u128, id: usize },
    /// `process_timer_ops`.
    ProcessOps,
    /// `process_timers`, at time `now`.
    Process { now: u128 },
}

/// The timers after one call.
pub open spec fn after_call(timers: TimersView, call: TimerCall) -> TimersView {
    match call {
        TimerCall::Insert { when, waker } => TimersView {
            next_id: timers::wrapping_next(timers.next_id),
            ..timers.enqueued(TimerOp::Insert(when, timers.next_id, waker))
        },
        TimerCall::Remove { when, id } => timers.enqueued(TimerOp::Remove(when, id)),
        TimerCall::ProcessOps => timers.settled(),
        TimerCall::Process { now } => timers.fired(now),
    }
}

/// The timers after some calls, one after the other.
pub open spec fn after_calls(timers: TimersView, calls: Seq<TimerCall>) -> TimersView
    decreases calls.len(),
{
    if calls.len() == 0 {
        timers
    } else {
        after_call(after_calls(timers, calls.drop_last()), calls.last())
    }
}

/// The timers as call `i` finds them.
pub open spec fn before_call(timers: TimersView, calls: Seq<TimerCall>, i: int) -> TimersView {
    after_calls(timers, calls.take(i))
}

/// Call `i` inserts the timer `key`.
pub open spec fn inserts(timers: TimersView, calls: Seq<TimerCall>, i: int, key: TimerKey) -> bool {
    calls[i] matches TimerCall::Insert { when, .. } && (when, before_call(timers, calls, i).next_id) == key
}

/// A call that ends the timer `key`, if it is registered: its removal, or processing when it is due.
pub open spec fn ends(call: TimerCall, key: TimerKey) -> bool {
    match call {
        TimerCall::Remove { when, id } => (when, id) == key,
        TimerCall::Process { now } => key.0 <= now,
        _ => false,
    }
}

/// The `place`th waker that call `i` hands out is that of the timer `key`.
pub open spec fn hands_out(
    timers: TimersView,
    calls: Seq<TimerCall>,
    i: int,
    place: int,
    key: TimerKey,
) -> bool {
    calls[i] matches TimerCall::Process { now } && {
        let order = timers::in_order(
            timers::due_keys(before_call(timers, calls, i).registered().dom(), now),
        );
        0 <= place < order.len() && order[place] == key
    }
}

/// The timers stay finitely many, whatever is called.
proof fn lemma_calls_keep_timers_finite(timers: TimersView, calls: Seq<TimerCall>)
    requires
        timers.processed.dom().finite(),
    ensures
        after_calls(timers, calls).processed.dom().finite(),
    decreases calls.len(),
{
    if calls.len() > 0 {
        let before = after_calls(timers, calls.drop_last());
        lemma_calls_keep_timers_finite(timers, calls.drop_last());
        lemma_finitely_many_timers(before);
        if let TimerCall::Process { now } = calls.last() {
            vstd::set_lib::lemma_set_subset_finite(
                before.registered().dom(),
                before.fired(now).processed.dom(),
            );
        }
    }
}

/// A timer that is inserted once is registered from then on, with its waker, until it ends.
proof fn lemma_registered_until_it_ends(
    timers: TimersView,
    calls: Seq<TimerCall>,
    inserted: int,
    key: TimerKey,
    n: int,
)
    requires
        !timers.registered().contains_key(key),
        0 <= inserted < calls.len(),
        0 <= n <= calls.len(),
        forall|i: int| 0 <= i < calls.len() ==> (#[trigger] inserts(timers, calls, i, key) <==> i == inserted),
    ensures
        before_call(timers, calls, n).registered().contains_key(key) <==> inserted < n && forall|j: int|
            inserted < j < n ==> !ends(#[trigger] calls[j], key),
        before_call(timers, calls, n).registered().contains_key(key)
            ==> before_call(timers, calls, n).registered()[key] == calls[inserted]->Insert_waker,
    decreases n,
{
    if n == 0 {
        assert(calls.take(0) =~= seq![]);
    } else {
        let last = n - 1;
        lemma_registered_until_it_ends(timers, calls, inserted, key, last);
        assert(calls.take(n).drop_last() =~= calls.take(last));
        assert(calls.take(n).last() == calls[last]);
        let before = before_call(timers, calls, last);
        let after = before_call(timers, calls, n);
        assert(after == after_call(before, calls[last]));
        assert(inserts(timers, calls, last, key) <==> last == inserted);
        match calls[last] {
            TimerCall::Insert { when, waker } => {
                let op = TimerOp::Insert(when, before.next_id, waker);
                law_timer_operations_take_effect_at_once(before, op);
                assert(after.registered() == timers::apply_op(before.registered(), op));
            },
            TimerCall::Remove { when, id } => {
                law_timer_operations_take_effect_at_once(before, TimerOp::Remove(when, id));
            },
            TimerCall::ProcessOps => {},
            TimerCall::Process { now } => {
                assert(after.registered() == after.processed);
            },
        }
    }
}

/// Over any sequence of calls, the waker of a timer that was inserted once is handed out by the first
/// processing after the insertion that finds the timer due, unless the timer was removed before, and by
/// no other call. So it is handed out at most once, never early, and never after the removal.
///
/// A timer is inserted once as long as its ID is not given out anew, which takes a full turn of the
/// counter of IDs.
pub proof fn law_timers_fire_once_in_any_history(
    timers: TimersView,
    calls: Seq<TimerCall>,
    inserted: int,
    key: TimerKey,
)
    requires
        timers.processed.dom().finite(),
        !timers.registered().contains_key(key),
        0 <= inserted < calls.len(),
        forall|i: int| 0 <= i < calls.len() ==> (#[trigger] inserts(timers, calls, i, key) <==> i == inserted),
    ensures
        forall|i: int| #![trigger calls[i]]
            0 <= i < calls.len() ==> ((exists|place: int| hands_out(timers, calls, i, place, key)) <==> {
                &&& inserted < i
                &&& calls[i] matches TimerCall::Process { now } && now >= key.0
                &&& forall|j: int| inserted < j < i ==> !ends(#[trigger] calls[j], key)
            }),
        forall|i: int, place: int|
            #![trigger hands_out(timers, calls, i, place, key)]
            0 <= i < calls.len() && hands_out(timers, calls, i, place, key) ==> before_call(
                timers,
                calls,
                i,
            ).due(calls[i]->now)[place] == calls[inserted]->Insert_waker,
        forall|i: int, j: int, place: int, other: int|
            #![trigger hands_out(timers, calls, i, place, key), hands_out(timers, calls, j, other, key)]
            0 <= i < calls.len() && 0 <= j < calls.len() && hands_out(timers, calls, i, place, key)
                && hands_out(timers, calls, j, other, key) ==> i == j && place == other,
{
    assert forall|i: int| #![trigger calls[i]] 0 <= i < calls.len() implies ({
        &&& (exists|place: int| hands_out(timers, calls, i, place, key)) <==> {
            &&& inserted < i
            &&& calls[i] matches TimerCall::Process { now } && now >= key.0
            &&& forall|j: int| inserted < j < i ==> !ends(#[trigger] calls[j], key)
        }
        &&& forall|place: int| #[trigger]
            hands_out(timers, calls, i, place, key) ==> before_call(timers, calls, i).due(
                calls[i]->now,
            )[place] == calls[inserted]->Insert_waker
        &&& forall|place: int, other: int|
            #![trigger hands_out(timers, calls, i, place, key), hands_out(timers, calls, i, other, key)]
            hands_out(timers, calls, i, place, key) && hands_out(timers, calls, i, other, key) ==> place
                == other
    }) by {
        lemma_registered_until_it_ends(timers, calls, inserted, key, i);
        if let TimerCall::Process { now } = calls[i] {
            let before = before_call(timers, calls, i);
            let due = timers::due_keys(before.registered().dom(), now);
            let order = timers::in_order(due);
            lemma_calls_keep_timers_finite(timers, calls.take(i));
            lemma_finitely_many_timers(before);
            law_timers_are_ordered(due);
            assert(due.contains(key) <==> before.registered().contains_key(key) && key.0 <= now);
            if due.contains(key) {
                assert(order.contains(key));
                let place = choose|place: int| 0 <= place < order.len() && order[place] == key;
                assert(hands_out(timers, calls, i, place, key));
            }
            assert forall|place: int| #[trigger] hands_out(timers, calls, i, place, key) implies before.due(now)[place]
                == calls[inserted]->Insert_waker && due.contains(key) by {
                assert(order.contains(order[place]));
            }
            assert forall|place: int, other: int|
                #![trigger hands_out(timers, calls, i, place, key), hands_out(timers, calls, i, other, key)]
                hands_out(timers, calls, i, place, key) && hands_out(timers, calls, i, other, key) implies place
                == other by {
                if place < other {
                    assert(timers::fires_before(order[place], order[other]));
                } else if other < place {
                    assert(timers::fires_before(order[other], order[place]));
                }
            }
        }
    }
    assert forall|i: int, j: int, place: int, other: int|
        #![trigger hands_out(timers, calls, i, place, key), hands_out(timers, calls, j, other, key)]
        0 <= i < calls.len() && 0 <= j < calls.len() && hands_out(timers, calls, i, place, key) && hands_out(
            timers,
            calls,
            j,
            other,
            key,
        ) implies i == j && place == other by {
        assert(calls[i] is Process && calls[j] is Process);
        assert(exists|place: int| hands_out(timers, calls, i, place, key));
        assert(exists|place: int| hands_out(timers, calls, j, place, key));
        assert(ends(calls[i], key) && ends(calls[j], key));
    }
}

/// How many timers the calls insert.
pub open spec fn insertions(calls: Seq<TimerCall>) -> nat
    decreases calls.len(),
{
    if calls.len() == 0 {
        0
    } else {
        insertions(calls.drop_last()) + if calls.last() is Insert {
            1nat
        } else {
            0
        }
    }
}

/// The next ID has advanced by as many steps as timers were inserted.
proof fn lemma_ids_count_insertions(timers: TimersView, calls: Seq<TimerCall>)
    ensures
        after_calls(timers, calls).next_id == advanced(timers.next_id, insertions(calls)),
    decreases calls.len(),
{
    if calls.len() > 0 {
        lemma_ids_count_insertions(timers, calls.drop_last());
    }
}

/// Up to where more calls are made, no fewer timers are inserted.
proof fn lemma_insertions_grow(calls: Seq<TimerCall>, i: int, j: int)
    requires
        0 <= i <= j <= calls.len(),
    ensures
        insertions(calls.take(i)) <= insertions(calls.take(j)),
        i < j && calls[i] is Insert ==> insertions(calls.take(i)) < insertions(calls.take(j)),
    decreases j - i,
{
    if i < j {
        lemma_insertions_grow(calls, i, j - 1);
        assert(calls.take(j).drop_last() =~= calls.take(j - 1));
        assert(calls.take(j).last() == calls[j - 1]);
    }
}

/// Each timer is inserted once: of as many insertions as the counter of IDs has values, no two get the
/// same ID.
pub proof fn law_timers_get_ids_of_their_own(timers: TimersView, calls: Seq<TimerCall>, i: int, j: int)
    requires
        0 <= i < j < calls.len(),
        calls[i] is Insert,
        calls[j] is Insert,
        insertions(calls) <= usize::MAX + 1,
    ensures
        before_call(timers, calls, i).next_id != before_call(timers, calls, j).next_id,
{
    let first = insertions(calls.take(i));
    let second = insertions(calls.take(j));
    lemma_ids_count_insertions(timers, calls.take(i));
    lemma_ids_count_insertions(timers, calls.take(j));
    lemma_insertions_grow(calls, i, j);
    lemma_insertions_grow(calls, j, calls.len() as int);
    assert(calls.take(calls.len() as int) =~= calls);
    law_counter_repeats_only_after_a_turn(timers.next_id, first, second);
    vstd::arithmetic::div_mod::lemma_small_mod((second - first) as nat, usize::MAX as nat + 1);
}

/// Only timers that some call has inserted are registered.
proof fn lemma_registered_timers_were_inserted(
    capacity: usize,
    calls: Seq<TimerCall>,
    n: int,
    key: TimerKey,
) -> (inserted: int)
    requires
        0 <= n <= calls.len(),
        before_call(TimersView::empty(capacity), calls, n).registered().contains_key(key),
    ensures
        0 <= inserted < n,
        inserts(TimersView::empty(capacity), calls, inserted, key),
    decreases n,
{
    let timers = TimersView::empty(capacity);
    if n == 0 {
        assert(calls.take(0) =~= seq![]);
        0
    } else {
        let last = n - 1;
        assert(calls.take(n).drop_last() =~= calls.take(last));
        assert(calls.take(n).last() == calls[last]);
        let before = before_call(timers, calls, last);
        match calls[last] {
            TimerCall::Insert { when, waker } => {
                law_timer_operations_take_effect_at_once(
                    before,
                    TimerOp::Insert(when, before.next_id, waker),
                );
            },
            TimerCall::Remove { when, id } => {
                law_timer_operations_take_effect_at_once(before, TimerOp::Remove(when, id));
            },
            TimerCall::ProcessOps => {},
            TimerCall::Process { now } => {},
        }
        if inserts(timers, calls, last, key) {
            last
        } else {
            lemma_registered_timers_were_inserted(capacity, calls, last, key)
        }
    }
}

/// From the start, after any calls, each registered timer was inserted by one of them, with the ID that
/// was next then. As long as the IDs have not come round, no registered timer has the ID that is next.
pub proof fn law_next_id_is_unused(capacity: usize, calls: Seq<TimerCall>)
    requires
        insertions(calls) <= usize::MAX,
    ensures
        ({
            let start = TimersView::empty(capacity);
            let timers = after_calls(start, calls);
            forall|key: TimerKey| #[trigger]
                timers.registered().contains_key(key) ==> key.1 != timers.next_id && exists|i: int|
                    0 <= i < calls.len() && inserts(start, calls, i, key)
        }),
{
    let start = TimersView::empty(capacity);
    let timers = after_calls(start, calls);
    let n = calls.len() as int;
    assert(calls.take(n) =~= calls);
    assert forall|key: TimerKey| #[trigger] timers.registered().contains_key(key) implies key.1
        != timers.next_id && exists|i: int| 0 <= i < calls.len() && inserts(start, calls, i, key) by {
        let i = lemma_registered_timers_were_inserted(capacity, calls, n, key);
        let first = insertions(calls.take(i));
        let second = insertions(calls);
        lemma_ids_count_insertions(start, calls.take(i));
        lemma_ids_count_insertions(start, calls);
        lemma_insertions_grow(calls, i, n);
        law_counter_repeats_only_after_a_turn(start.next_id, first, second);
        vstd::arithmetic::div_mod::lemma_small_mod((second - first) as nat, usize::MAX as nat + 1);
    }
}

/// Inserting a timer and removing it again leaves the registered timers as they were, after any calls, as
/// long as the IDs have not come round.
pub proof fn law_removal_undoes_insertion_in_any_history(
    capacity: usize,
    calls: Seq<TimerCall>,
    when: u128,
    waker: Waker,
)
    requires
        insertions(calls) <= usize::MAX,
    ensures
        ({
            let timers = after_calls(TimersView::empty(capacity), calls);
            let inserted = after_call(timers, TimerCall::Insert { when, waker });
            let removed = after_call(inserted, TimerCall::Remove { when, id: timers.next_id });
            removed.registered() == timers.registered()
        }),
{
    let timers = after_calls(TimersView::empty(capacity), calls);
    let inserted = after_call(timers, TimerCall::Insert { when, waker });
    law_next_id_is_unused(capacity, calls);
    law_removal_undoes_insertion(timers, when, timers.next_id, waker);
    law_timer_operations_take_effect_at_once(timers, TimerOp::Insert(when, timers.next_id, waker));
    law_timer_operations_take_effect_at_once(inserted, TimerOp::Remove(when, timers.next_id));
    assert(after_call(inserted, TimerCall::Remove { when, id: timers.next_id }).registered()
        =~= timers.registered());
}

/// A waker in a slot is among the wakers of the slots.
proof fn lemma_slot_waker_is_listed(held: Map<usize, Option<Waker>>, key: usize, bound: nat)
    requires
        key < bound <= usize::MAX + 1,
        held.contains_key(key),
        held[key] is Some,
    ensures
        slots::slot_wakers_below(held, bound).contains(held[key]->0),
    decreases bound,
{
    let all = slots::slot_wakers_below(held, bound);
    let below = slots::slot_wakers_below(held, (bound - 1) as nat);
    if key == bound - 1 {
        assert(all == below.push(held[key]->0));
        assert(all[below.len() as int] == held[key]->0);
    } else {
        lemma_slot_waker_is_listed(held, key, (bound - 1) as nat);
        let i = choose|i: int| 0 <= i < below.len() && below[i] == held[key]->0;
        assert(all[i] == held[key]->0);
    }
}

/// A direction is empty exactly if nobody waits on it.
pub proof fn law_empty_means_nobody_waits(direction: DirectionView)
    ensures
        direction.is_empty() <==> direction.waiting().len() == 0,
{
    let bound: nat = usize::MAX as nat + 1;
    if direction.is_empty() {
        slots::lemma_vacated_slots_hold_no_wakers(direction.wakers, bound);
    } else if direction.waker is None {
        let key = choose|key: usize| #[trigger]
            direction.wakers.contains_key(key) && direction.wakers[key] is Some;
        lemma_slot_waker_is_listed(direction.wakers, key, bound);
    }
}

/// Every waker of a direction is among those that wait on it: the waker that a task stored by polling,
/// and the waker in each slot.
pub proof fn law_stored_wakers_wait(direction: DirectionView)
    ensures
        direction.waker matches Some(waker) ==> direction.waiting().contains(waker),
        forall|key: usize|
            #![trigger direction.wakers[key]]
            direction.wakers.contains_key(key) && direction.wakers[key] is Some
                ==> direction.waiting().contains(direction.wakers[key]->0),
{
    let slot_wakers = slots::slot_wakers(direction.wakers);
    if let Some(waker) = direction.waker {
        assert(direction.waiting()[0] == waker);
    }
    assert forall|key: usize|
        #![trigger direction.wakers[key]]
        direction.wakers.contains_key(key) && direction.wakers[key] is Some implies direction.waiting().contains(
        direction.wakers[key]->0,
    ) by {
        lemma_slot_waker_is_listed(direction.wakers, key, usize::MAX as nat + 1);
        let i = choose|i: int| 0 <= i < slot_wakers.len() && slot_wakers[i] == direction.wakers[key]->0;
        let shift = source::optional_waker(direction.waker).len() as int;
        assert(direction.waiting()[i + shift] == slot_wakers[i]);
    }
}

/// A drained direction is empty, and all its slots are still there.
pub proof fn law_drained_direction_is_empty(direction: DirectionView)
    ensures
        direction.drained().is_empty(),
        direction.drained().waiting() == Seq::<Waker>::empty(),
        direction.drained().wakers.dom() == direction.wakers.dom(),
{
    law_empty_means_nobody_waits(direction.drained());
    assert(direction.drained().waiting() =~= seq![]);
}

/// An event takes every waker of the directions that it concerns, and only these, and gives each of
/// them out once: none is lost, none is woken twice.
pub proof fn law_events_lose_no_wakers(before: SourceView, event: Event, tick: usize)
    ensures
        ({
            let after = before.delivered(event, tick);
            before.state[READ as int].waiting().to_multiset().add(
                before.state[WRITE as int].waiting().to_multiset(),
            ) == before.emitted(event).to_multiset().add(
                after.state[READ as int].waiting().to_multiset(),
            ).add(after.state[WRITE as int].waiting().to_multiset())
        }),
        forall|dir: int|
            0 <= dir < 2 && event.emits(dir) ==> (#[trigger] before.delivered(event, tick).state[dir]).is_empty(),
        forall|dir: int|
            0 <= dir < 2 && !event.emits(dir) ==> #[trigger] before.delivered(event, tick).state[dir]
                == before.state[dir],
{
    broadcast use vstd::seq_lib::group_to_multiset_ensures;
    let after = before.delivered(event, tick);
    let readers = before.state[READ as int].waiting();
    let writers = before.state[WRITE as int].waiting();
    assert forall|dir: int| 0 <= dir < 2 && event.emits(dir) implies (#[trigger] after.state[dir]).is_empty() && after.state[dir].waiting()
        == Seq::<Waker>::empty() by {
        law_drained_direction_is_empty(before.state[dir]);
        assert(after.state[dir].waiting() =~= before.state[dir].drained().waiting());
    }
    let none = Seq::<Waker>::empty();
    assert(event.writable ==> after.state[WRITE as int].waiting() == none);
    assert(event.readable ==> after.state[READ as int].waiting() == none);
    let out_writers = if event.writable { writers } else { none };
    let out_readers = if event.readable { readers } else { none };
    assert(before.emitted(event) =~= out_writers + out_readers);
    vstd::seq_lib::lemma_multiset_commutative(out_writers, out_readers);
    assert(none.to_multiset() =~= Multiset::empty());
    assert(readers.to_multiset().add(writers.to_multiset()) =~= before.emitted(
        event,
    ).to_multiset().add(after.state[READ as int].waiting().to_multiset()).add(
        after.state[WRITE as int].waiting().to_multiset(),
    ));
}

/// The poller watches each operation for which some task waits on the source.
pub open spec fn watched(source: SourceView, armed: Event) -> bool {
    &&& armed.key == source.key
    &&& !source.state[READ as int].is_empty() ==> armed.readable
    &&& !source.state[WRITE as int].is_empty() ==> armed.writable
}

/// What the poller watches once it was told a change of interest, if there is one.
pub open spec fn rearmed(armed: Event, change: Option<Interest>) -> Event {
    match change {
        Some(interest) => interest.event,
        None => armed,
    }
}

/// A new source is watched for nothing, and nobody waits on it.
pub proof fn law_new_sources_are_watched(registration: Registration, id: SourceId)
    ensures
        watched(
            SourceView::idle(registration, id),
            Event { key: id.key, readable: false, writable: false },
        ),
{
}

/// What tasks wait for is watched, after a task has polled a source too, as long as the poller takes
/// each change of interest that it is told.
pub proof fn law_polled_sources_are_watched(
    source: SourceView,
    armed: Event,
    dir: usize,
    waker: Waker,
    ticker: usize,
    same_task: bool,
)
    requires
        dir < 2,
        source.state.len() == 2,
        watched(source, armed),
    ensures
        ({
            let (after, outcome) = source.poll_ready(dir, waker, ticker, same_task);
            watched(after, rearmed(armed, outcome.change()))
        }),
{
}

/// What tasks wait for is watched, after a future was polled too, as long as the poller takes each
/// change of interest that it is told.
pub proof fn law_sources_of_polled_futures_are_watched(
    source: SourceView,
    armed: Event,
    ready: ReadyView,
    waker: Waker,
    ticker: usize,
    next_slot: usize,
)
    requires
        source.state.len() == 2,
        ready.attached(source),
        watched(source, armed),
    ensures
        ({
            let (_, after, outcome) = ready.poll(source, waker, ticker, next_slot);
            watched(after, rearmed(armed, outcome.change()))
        }),
{
}

/// A future that is dropped leaves what the others wait for watched.
pub proof fn law_sources_of_dropped_futures_are_watched(
    source: SourceView,
    armed: Event,
    ready: ReadyView,
)
    requires
        source.state.len() == 2,
        ready.dir < 2,
        watched(source, armed),
    ensures
        watched(ready.removed_from(source), armed),
{
    let after = ready.removed_from(source);
    if let Some(i) = ready.index {
        let held = source.state[ready.dir as int];
        assert forall|dir: int| 0 <= dir < 2 && source.state[dir].is_empty() implies #[trigger] after.state[dir].is_empty() by {
            if dir == ready.dir {
                assert forall|key: usize| #[trigger] after.state[dir].wakers.contains_key(key) implies after.state[dir].wakers[key] is None by {
                    assert(held.wakers.contains_key(key));
                }
            }
        }
        assert(source.state[READ as int].is_empty() ==> after.state[READ as int].is_empty());
        assert(source.state[WRITE as int].is_empty() ==> after.state[WRITE as int].is_empty());
    }
}

/// An event that the poller delivers ends what it watches for the source. What tasks still wait for is
/// watched again, once the poller was told the change of interest that the event leads to.
pub proof fn law_sources_are_watched_after_events(source: SourceView, event: Event, tick: usize)
    requires
        event.key == source.key,
    ensures
        ({
            let after = source.delivered(event, tick);
            let change = if after.is_empty() {
                None
            } else {
                Some(after.interest())
            };
            watched(
                after,
                rearmed(Event { key: source.key, readable: false, writable: false }, change),
            )
        }),
{
}

/// A future that waits keeps its slot, whatever else happens to its source: others poll, other futures
/// come and go, events are delivered.
pub proof fn law_futures_keep_their_slots(
    source: SourceView,
    ready: ReadyView,
    other: ReadyView,
    dir: usize,
    waker: Waker,
    ticker: usize,
    same_task: bool,
    next_slot: usize,
    event: Event,
    tick: usize,
)
    requires
        source.state.len() == 2,
        dir < 2,
        ready.attached(source),
        other.attached(source),
    ensures
        ready.attached(source.poll_ready(dir, waker, ticker, same_task).0),
        ready.attached(other.poll(source, waker, ticker, next_slot).1),
        ready.attached(source.delivered(event, tick)),
        (other.dir, other.index) != (ready.dir, ready.index) ==> ready.attached(
            other.removed_from(source),
        ),
{
}

/// Two futures never share a slot: the slot that a future gets is none of those that are in use.
pub proof fn law_futures_do_not_share_slots(
    source: SourceView,
    ready: ReadyView,
    other: ReadyView,
    waker: Waker,
    ticker: usize,
    next_slot: usize,
)
    requires
        source.state.len() == 2,
        ready.attached(source),
        other.attached(source),
        ready.index is Some,
        other.index is None,
        !source.state[other.dir as int].wakers.contains_key(next_slot),
    ensures
        ({
            let (polled, after, outcome) = other.poll(source, waker, ticker, next_slot);
            &&& (polled.dir, polled.index) != (ready.dir, ready.index)
            &&& outcome is Pending ==> after.state[ready.dir as int].wakers[ready.index->0]
                == source.state[ready.dir as int].wakers[ready.index->0]
        }),
{
}

/// A future is pending until an event is delivered in a later round. The event then takes the waker
/// out, to be woken, and the next poll finds the future ready. An event of the round in which the future
/// was first polled, or of the round that it found, takes the waker out too, but leaves the future
/// pending.
pub proof fn law_events_complete_futures(
    source: SourceView,
    ready: ReadyView,
    waker: Waker,
    ticker: usize,
    next_slot: usize,
    event: Event,
    tick: usize,
    again: Waker,
    later: usize,
    later_slot: usize,
)
    requires
        source.state.len() == 2,
        ready.attached(source),
        ready.index is None,
        ready.ticks is None,
        event.emits(ready.dir as int),
    ensures
        ({
            let (polled, waiting, outcome) = ready.poll(source, waker, ticker, next_slot);
            let delivered = waiting.delivered(event, tick);
            &&& outcome is Pending
            &&& polled.poll(waiting, again, later, later_slot).2 is Pending
            &&& waiting.emitted(event).contains(waker)
            &&& polled.poll(delivered, again, later, later_slot).2 is Ready <==> tick != ticker
                && tick != source.state[ready.dir as int].tick
        }),
{
    let (polled, waiting, outcome) = ready.poll(source, waker, ticker, next_slot);
    let direction = waiting.state[ready.dir as int];
    law_stored_wakers_wait(direction);
    assert(direction.wakers[next_slot] == Some(waker));
    let out = waiting.emitted(event);
    let i = choose|i: int| 0 <= i < direction.waiting().len() && direction.waiting()[i] == waker;
    if ready.dir == WRITE {
        assert(out[i] == waker);
    } else {
        let writers = out.len() - direction.waiting().len();
        assert(out[i + writers] == waker);
    }
}

/// A source that a task has polled is pending until an event is delivered in a later round. The event
/// then takes the waker out, to be woken, and the next poll finds the source ready, once.
pub proof fn law_events_complete_polls(
    source: SourceView,
    dir: usize,
    waker: Waker,
    ticker: usize,
    event: Event,
    tick: usize,
    again: Waker,
    later: usize,
    same_task: bool,
)
    requires
        source.state.len() == 2,
        dir < 2,
        source.state[dir as int].waker is None,
        source.state[dir as int].ticks is None,
        event.emits(dir as int),
    ensures
        ({
            let (waiting, outcome) = source.poll_ready(dir, waker, ticker, same_task);
            let delivered = waiting.delivered(event, tick);
            let (taken, last) = delivered.poll_ready(dir, again, later, same_task);
            &&& outcome is Pending
            &&& waiting.poll_ready(dir, again, later, same_task).1 is Pending
            &&& waiting.emitted(event).contains(waker)
            &&& last is Ready <==> tick != ticker && tick != source.state[dir as int].tick
            &&& last is Ready ==> taken.poll_ready(dir, again, later, same_task).1 is Pending
        }),
{
    let (waiting, outcome) = source.poll_ready(dir, waker, ticker, same_task);
    let direction = waiting.state[dir as int];
    law_stored_wakers_wait(direction);
    let out = waiting.emitted(event);
    let i = choose|i: int| 0 <= i < direction.waiting().len() && direction.waiting()[i] == waker;
    if dir == WRITE {
        assert(out[i] == waker);
    } else {
        let writers = out.len() - direction.waiting().len();
        assert(out[i + writers] == waker);
    }
}

/// If a different waker is already registered, it gets replaced and woken; one that wakes the same task
/// stays.
pub proof fn law_different_wakers_are_replaced_and_woken(
    source: SourceView,
    dir: usize,
    waker: Waker,
    ticker: usize,
    same_task: bool,
)
    requires
        source.state.len() == 2,
        dir < 2,
        source.state[dir as int].waker is Some,
        !source::fresh_event(source.state[dir as int].tick, source.state[dir as int].ticks),
    ensures
        ({
            let (after, outcome) = source.poll_ready(dir, waker, ticker, same_task);
            &&& outcome matches PollOutcome::Pending { wake, .. }
            &&& same_task ==> wake is None && after.state[dir as int].waker
                == source.state[dir as int].waker
            &&& !same_task ==> wake == source.state[dir as int].waker
                && after.state[dir as int].waker == Some(waker)
        }),
{
}

/// A dropped future is never woken: its waker is gone, and no other waker with it.
pub proof fn law_dropped_futures_leave_only_their_slot(source: SourceView, ready: ReadyView, dir: usize, key: usize)
    requires
        source.state.len() == 2,
        ready.dir < 2,
        dir < 2,
        ready.index is Some,
    ensures
        ({
            let after = ready.removed_from(source);
            &&& !after.state[ready.dir as int].wakers.contains_key(ready.index->0)
            &&& after.state[dir as int].waker == source.state[dir as int].waker
            &&& (dir, key) != (ready.dir, ready.index->0) ==> {
                &&& after.state[dir as int].wakers.contains_key(key)
                    == source.state[dir as int].wakers.contains_key(key)
                &&& after.state[dir as int].wakers.contains_key(key)
                    ==> after.state[dir as int].wakers[key] == source.state[dir as int].wakers[key]
            }
        }),
{
}

/// A source that the poller refused leaves no trace: the table is as it was before the registration. Only
/// its serial number is used up.
pub proof fn law_refused_sources_leave_no_trace(before: ReactorView, key: usize, registration: Registration)
    requires
        !before.sources.contains_key(key),
    ensures
        before.inserted(registration, key).removed(key) == (ReactorView {
            next_serial: reactor::serial_after(before.next_serial),
            ..before
        }),
{
    assert(before.inserted(registration, key).removed(key).sources =~= before.sources);
}

/// The same sources are registered, under the same names and handles.
pub open spec fn keeps_table(before: ReactorView, after: ReactorView) -> bool {
    &&& after.next_serial == before.next_serial
    &&& after.sources.dom() == before.sources.dom()
    &&& forall|key: usize| #[trigger]
        before.sources.contains_key(key) ==> after.sources[key].id() == before.sources[key].id()
            && after.sources[key].registration == before.sources[key].registration
}

/// Nothing but registering and deregistering changes which sources there are: not polling a source or a
/// future, not dropping a future, not delivering an event.
pub proof fn law_only_registrations_change_the_table(
    reactor: ReactorView,
    id: SourceId,
    dir: usize,
    waker: Waker,
    same_task: bool,
    ready: ReadyView,
    next_slot: usize,
    event: Event,
    tick: usize,
)
    ensures
        reactor.holds(id) ==> keeps_table(reactor, reactor.poll_source(id, dir, waker, same_task).0),
        reactor.attached(ready) ==> keeps_table(reactor, reactor.poll_ready(ready, waker, next_slot).1),
        keeps_table(reactor, reactor.without(ready)),
        keeps_table(
            reactor,
            ReactorView { sources: reactor::deliver_event(reactor.sources, event, tick), ..reactor },
        ),
{
    let polled = reactor.poll_source(id, dir, waker, same_task).0;
    let awaited = reactor.poll_ready(ready, waker, next_slot).1;
    let delivered = reactor::deliver_event(reactor.sources, event, tick);
    assert(reactor.holds(id) ==> polled.sources.dom() =~= reactor.sources.dom());
    assert(reactor.attached(ready) ==> awaited.sources.dom() =~= reactor.sources.dom());
    assert(reactor.without(ready).sources.dom() =~= reactor.sources.dom());
    assert(delivered.dom() =~= reactor.sources.dom());
}

/// A call on the table of sources.
pub enum TableCall {
    /// A source is registered under a free key.
    Insert { registration: Registration, key: usize },
    /// A source is deregistered, or was refused by the poller.
    Remove { key: usize },
    /// Anything that keeps the table.
    Other,
}

/// The call leads from one state of the reactor to the next.
pub open spec fn table_step(before: ReactorView, call: TableCall, after: ReactorView) -> bool {
    match call {
        TableCall::Insert { registration, key } => !before.sources.contains_key(key) && after
            == before.inserted(registration, key),
        TableCall::Remove { key } => after == before.removed(key),
        TableCall::Other => keeps_table(before, after),
    }
}

/// A name stands for its source as long as the source is registered, and for no other after that, though
/// the key may be given out again: in any history of the reactor, from the registration on, the name holds
/// until the source is deregistered. A future whose source is gone changes nothing when it is dropped.
///
/// Serial numbers start over when all of them were given out; that many registrations are left out.
pub proof fn law_sources_are_not_mistaken(
    states: Seq<ReactorView>,
    calls: Seq<TableCall>,
    inserted: int,
    n: int,
    ready: ReadyView,
)
    requires
        states.len() == calls.len() + 1,
        forall|i: int|
            0 <= i < calls.len() ==> #[trigger] table_step(states[i], calls[i], states[i + 1]),
        states[0].next_serial + calls.len() <= u64::MAX,
        0 <= inserted < n < states.len(),
        calls[inserted] is Insert,
        ready.source == (SourceId {
            key: calls[inserted]->Insert_key,
            serial: states[inserted].next_serial,
        }),
    ensures
        states[n].holds(ready.source) <==> forall|j: int|
            inserted < j < n ==> #[trigger] calls[j] != (TableCall::Remove { key: ready.source.key }),
        !states[n].holds(ready.source) ==> states[n].without(ready) == states[n]
            && states[n].stored_waker(ready) is None && !states[n].attached(ready),
    decreases n,
{
    lemma_serials_grow(states, calls, inserted);
    assert(table_step(states[inserted], calls[inserted], states[inserted + 1]));
    if n > inserted + 1 {
        let last = n - 1;
        law_sources_are_not_mistaken(states, calls, inserted, last, ready);
        lemma_serials_grow(states, calls, last);
        lemma_serials_grow_on(states, calls, inserted + 1, last);
        assert(table_step(states[last], calls[last], states[last + 1]));
        let id = ready.source;
        assert(states[n].holds(id) <==> states[last].holds(id) && calls[last] != (TableCall::Remove {
            key: id.key,
        }));
    }
}

/// Serial numbers do not start over within few calls.
proof fn lemma_serials_grow(states: Seq<ReactorView>, calls: Seq<TableCall>, n: int)
    requires
        states.len() == calls.len() + 1,
        forall|i: int|
            0 <= i < calls.len() ==> #[trigger] table_step(states[i], calls[i], states[i + 1]),
        states[0].next_serial + calls.len() <= u64::MAX,
        0 <= n <= calls.len(),
    ensures
        states[0].next_serial <= states[n].next_serial <= states[0].next_serial + n,
        n < calls.len() && calls[n] is Insert ==> states[n + 1].next_serial == states[n].next_serial + 1,
    decreases n,
{
    if n > 0 {
        lemma_serials_grow(states, calls, n - 1);
        assert(table_step(states[n - 1], calls[n - 1], states[n - 1 + 1]));
    }
    if n < calls.len() {
        assert(table_step(states[n], calls[n], states[n + 1]));
    }
}

/// Serial numbers never get smaller within few calls.
proof fn lemma_serials_grow_on(states: Seq<ReactorView>, calls: Seq<TableCall>, m: int, n: int)
    requires
        states.len() == calls.len() + 1,
        forall|i: int|
            0 <= i < calls.len() ==> #[trigger] table_step(states[i], calls[i], states[i + 1]),
        states[0].next_serial + calls.len() <= u64::MAX,
        0 <= m <= n <= calls.len(),
    ensures
        states[m].next_serial <= states[n].next_serial,
    decreases n - m,
{
    if m < n {
        lemma_serials_grow_on(states, calls, m, n - 1);
        lemma_serials_grow(states, calls, n - 1);
        assert(table_step(states[n - 1], calls[n - 1], states[n - 1 + 1]));
    }
}

/// A dropped future has no slot any more, so that dropping it again takes nothing from anyone.
pub proof fn law_dropping_again_changes_nothing(reactor: ReactorView, ready: ReadyView)
    requires
        reactor.holds(ready.source),
    ensures
        ({
            let after = reactor.without(ready);
            &&& after.holds(ready.source)
            &&& after.without(ready.dropped()) == after
            &&& after.stored_waker(ready.dropped()) is None
        }),
{
    let after = reactor.without(ready);
    assert(after.without(ready.dropped()).sources =~= after.sources);
}

/// The reactor never blocks for longer than until the next timer, nor for longer than it was allowed
/// to, and for no shorter time than both.
pub proof fn law_timeout_is_the_shorter(next_timer: Option<u128>, timeout: Option<u128>)
    ensures
        ({
            let shorter = reactor::shorter(next_timer, timeout);
            &&& shorter is None <==> next_timer is None && timeout is None
            &&& next_timer matches Some(t) ==> shorter matches Some(s) && s <= t
            &&& timeout matches Some(t) ==> shorter matches Some(s) && s <= t
            &&& shorter is Some ==> shorter == next_timer || shorter == timeout
        }),
{
}

/// Events can be delivered in batches: it makes no difference to the sources, nor to who is woken and
/// in what order.
pub proof fn law_events_can_be_delivered_in_batches(
    sources: Map<usize, SourceView>,
    first: Seq<Event>,
    second: Seq<Event>,
    tick: usize,
)
    ensures
        reactor::deliver_events(reactor::deliver_events(sources, first, tick), second, tick)
            == reactor::deliver_events(sources, first + second, tick),
        reactor::events_wakers(sources, first, tick) + reactor::events_wakers(
            reactor::deliver_events(sources, first, tick),
            second,
            tick,
        ) == reactor::events_wakers(sources, first + second, tick),
    decreases second.len(),
{
    let middle = reactor::deliver_events(sources, first, tick);
    if second.len() == 0 {
        assert(first + second =~= first);
        assert(reactor::events_wakers(sources, first, tick) + reactor::events_wakers(
            middle,
            second,
            tick,
        ) =~= reactor::events_wakers(sources, first, tick));
    } else {
        law_events_can_be_delivered_in_batches(sources, first, second.drop_last(), tick);
        assert((first + second).drop_last() =~= first + second.drop_last());
        assert((first + second).last() == second.last());
        assert(reactor::events_wakers(sources, first, tick) + reactor::events_wakers(
            middle,
            second,
            tick,
        ) =~= reactor::events_wakers(sources, first + second, tick));
    }
}

/// A delivery never stops behind the last event, and stops before it only where interest has to be
/// registered again.
proof fn lemma_stop_is_in_range(
    sources: Map<usize, SourceView>,
    events: Seq<Event>,
    next: int,
    tick: usize,
)
    requires
        0 <= next <= events.len(),
    ensures
        ({
            let stop = reactor::delivered_until(sources, events, next, tick);
            let batch = events.subrange(next, stop);
            &&& next <= stop <= events.len()
            &&& next < events.len() ==> next < stop
            &&& stop < events.len() ==> reactor::still_awaited(
                reactor::deliver_events(sources, batch.drop_last(), tick),
                batch.last(),
                tick,
            )
        }),
    decreases events.len() - next,
{
    let stop = reactor::delivered_until(sources, events, next, tick);
    if next < events.len() {
        if reactor::still_awaited(sources, events[next], tick) {
            let batch = events.subrange(next, next + 1);
            assert(batch.drop_last() =~= seq![]);
            assert(batch.last() == events[next]);
        } else {
            let rest = reactor::deliver_event(sources, events[next], tick);
            lemma_stop_is_in_range(rest, events, next + 1, tick);
            if stop < events.len() {
                let batch = events.subrange(next, stop);
                let tail = events.subrange(next + 1, stop);
                assert(tail.len() > 0);
                law_events_can_be_delivered_in_batches(
                    sources,
                    seq![events[next]],
                    tail.drop_last(),
                    tick,
                );
                assert(batch.drop_last() =~= seq![events[next]] + tail.drop_last());
                reveal_with_fuel(reactor::deliver_events, 2);
                assert(seq![events[next]].drop_last() =~= Seq::<Event>::empty());
                assert(reactor::deliver_events(sources, seq![events[next]], tick) == rest);
                assert(batch.last() == tail.last());
            }
        }
    }
}

/// A round that started with `collected` wakers and the sources `start` has delivered the first events of
/// its list and no others, and has come to `sources`.
pub open spec fn delivered_so_far(
    delivery: DeliveryView,
    collected: Seq<Waker>,
    start: Map<usize, SourceView>,
    sources: Map<usize, SourceView>,
) -> bool {
    let events = delivery.events.take(delivery.next);
    &&& 0 <= delivery.next <= delivery.events.len()
    &&& sources == reactor::deliver_events(start, events, delivery.tick)
    &&& delivery.wakers == collected + reactor::events_wakers(start, events, delivery.tick)
}

/// A round starts with none of its events delivered.
pub proof fn law_rounds_start_with_all_events(delivery: DeliveryView, start: Map<usize, SourceView>)
    requires
        delivery.next == 0,
    ensures
        delivered_so_far(delivery, delivery.wakers, start, start),
{
    assert(delivery.wakers + reactor::events_wakers(start, delivery.events.take(0), delivery.tick)
        =~= delivery.wakers);
}

/// A round that comes to its end has delivered all its events, however many changes of interest it had to
/// stop for: at each stop it has delivered some more of them and has kept all the others, and at the end
/// it leaves the sources, and has collected the wakers, that delivering all events at once gives.
pub proof fn law_rounds_deliver_all_events<E>(
    delivery: DeliveryView,
    collected: Seq<Waker>,
    start: Map<usize, SourceView>,
    sources: Map<usize, SourceView>,
    after: Map<usize, SourceView>,
    step: Step<E>,
)
    requires
        delivered_so_far(delivery, collected, start, sources),
        delivery.continues(sources, after, step),
    ensures
        match step {
            Step::Modify { delivery: stopped, .. } => {
                &&& delivered_so_far(stopped@, collected, start, after)
                &&& stopped@.next > delivery.next
                &&& stopped@.events == delivery.events
                &&& stopped@.tick == delivery.tick
            },
            Step::Done { wakers, .. } => {
                &&& after == reactor::deliver_events(start, delivery.events, delivery.tick)
                &&& wakers@ == collected + reactor::events_wakers(
                    start,
                    delivery.events,
                    delivery.tick,
                )
            },
            Step::Failed { .. } => false,
        },
{
    let events = delivery.events;
    let stop = delivery.stop(sources);
    let before = events.take(delivery.next);
    let batch = delivery.batch(sources);
    lemma_stop_is_in_range(sources, events, delivery.next, delivery.tick);
    law_events_can_be_delivered_in_batches(start, before, batch, delivery.tick);
    assert(before + batch =~= events.take(stop));
    assert(delivery.wakers + reactor::events_wakers(sources, batch, delivery.tick) =~= collected
        + reactor::events_wakers(start, events.take(stop), delivery.tick));
    if step is Done {
        assert(events.take(stop) =~= events);
    }
}

/// Some of the events concerns direction `dir` of the source under `key`.
pub open spec fn concerned(events: Seq<Event>, key: usize, dir: int) -> bool {
    exists|i: int| 0 <= i < events.len() && (#[trigger] events[i]).key == key && events[i].emits(dir)
}

/// A round wakes everyone who waits for one of its events, and marks the direction with its tick. Where no
/// event concerns a direction, everything there stays as it was.
pub proof fn law_rounds_wake_all_who_wait(
    sources: Map<usize, SourceView>,
    events: Seq<Event>,
    tick: usize,
    key: usize,
    dir: int,
)
    requires
        sources.contains_key(key),
        0 <= dir < 2,
        forall|key: usize| #[trigger] sources.contains_key(key) ==> sources[key].state.len() == 2,
    ensures
        ({
            let after = reactor::deliver_events(sources, events, tick);
            let woken = reactor::events_wakers(sources, events, tick);
            let before = sources[key].state[dir];
            &&& after.contains_key(key)
            &&& after[key].state.len() == 2
            &&& concerned(events, key, dir) ==> {
                &&& after[key].state[dir] == (DirectionView { tick, ..before.drained() })
                &&& forall|waker: Waker| #[trigger]
                    before.waiting().contains(waker) ==> woken.contains(waker)
            }
            &&& !concerned(events, key, dir) ==> after[key].state[dir] == before
        }),
    decreases events.len(),
{
    if events.len() > 0 {
        let earlier = events.drop_last();
        let event = events.last();
        law_rounds_wake_all_who_wait(sources, earlier, tick, key, dir);
        let middle = reactor::deliver_events(sources, earlier, tick);
        let after = reactor::deliver_events(sources, events, tick);
        let collected = reactor::events_wakers(sources, earlier, tick);
        let woken = reactor::events_wakers(sources, events, tick);
        let before = sources[key].state[dir];
        let last = reactor::event_wakers(middle, event);
        assert(woken == collected + last);
        assert(concerned(events, key, dir) <==> concerned(earlier, key, dir) || (event.key == key
            && event.emits(dir))) by {
            if concerned(earlier, key, dir) {
                let i = choose|i: int|
                    0 <= i < earlier.len() && (#[trigger] earlier[i]).key == key && earlier[i].emits(dir);
                assert(events[i] == earlier[i]);
            }
            if concerned(events, key, dir) {
                let i = choose|i: int|
                    0 <= i < events.len() && (#[trigger] events[i]).key == key && events[i].emits(dir);
                if i < earlier.len() {
                    assert(earlier[i] == events[i]);
                }
            }
            if event.key == key && event.emits(dir) {
                assert(events[events.len() - 1] == event);
            }
        }
        if concerned(earlier, key, dir) {
            assert(before.drained().drained().wakers =~= before.drained().wakers);
            assert forall|waker: Waker| #[trigger] before.waiting().contains(waker) implies woken.contains(waker) by {
                let i = choose|i: int| 0 <= i < collected.len() && collected[i] == waker;
                assert(woken[i] == waker);
            }
        } else if event.key == key && event.emits(dir) {
            assert forall|waker: Waker| #[trigger] before.waiting().contains(waker) implies woken.contains(waker) by {
                let i = choose|i: int| 0 <= i < before.waiting().len() && before.waiting()[i] == waker;
                let shift = if dir == WRITE {
                    0
                } else {
                    last.len() - before.waiting().len()
                };
                assert(last[i + shift] == waker);
                assert(woken[collected.len() + i + shift] == waker);
            }
        }
    }
}

/// Sources stay under their keys, whatever events are delivered.
pub proof fn law_events_keep_sources_under_their_keys(
    sources: Map<usize, SourceView>,
    events: Seq<Event>,
    tick: usize,
)
    ensures
        reactor::deliver_events(sources, events, tick).dom() == sources.dom(),
        forall|key: usize|
            #![trigger reactor::deliver_events(sources, events, tick)[key]]
            sources.contains_key(key) ==> reactor::deliver_events(sources, events, tick)[key].key
                == sources[key].key && reactor::deliver_events(sources, events, tick)[key].registration
                == sources[key].registration,
    decreases events.len(),
{
    if events.len() > 0 {
        law_events_keep_sources_under_their_keys(sources, events.drop_last(), tick);
        let before = reactor::deliver_events(sources, events.drop_last(), tick);
        assert(reactor::deliver_events(sources, events, tick).dom() =~= before.dom());
    }
}

/// The count of active `block_on` invocations is as before when an invocation has ended: leaving undoes
/// entering.
pub proof fn law_leaving_undoes_entering(count: usize, entered: usize, left: usize)
    requires
        entered == timers::wrapping_next(count),
        timers::wrapping_next(left) == entered,
    ensures
        left == count,
{
}

/// The helper thread backs off: each sleep is at least as long as the one before, from 50us to 10ms.
pub proof fn law_sleeps_get_longer(sleeps: u64)
    requires
        sleeps < u64::MAX,
    ensures
        50 <= crate::driver::backoff(sleeps) <= crate::driver::backoff((sleeps + 1) as u64) <= 10_000,
        sleeps == 0 ==> crate::driver::backoff(sleeps) == 50,
        sleeps >= 9 ==> crate::driver::backoff(sleeps) == 10_000,
{
}

/// The helper thread is on its way through undisturbed sleeps: it reads the same tick as before, does not
/// get the lock, finds a `block_on` invocation, and sleeps until the timeout.
pub open spec fn undisturbed(thread: MainLoopView, count: usize) -> MainLoopView {
    thread.after(MainEvent::Ticker { tick: thread.last_tick }).after(
        MainEvent::Locked { acquired: false },
    ).after(MainEvent::BlockOnCount { count }).after(MainEvent::TimedOut)
}

/// The helper thread after a number of undisturbed sleeps.
pub open spec fn undisturbed_for(thread: MainLoopView, count: usize, times: nat) -> MainLoopView
    decreases times,
{
    if times == 0 {
        thread
    } else {
        undisturbed(undisturbed_for(thread, count, (times - 1) as nat), count)
    }
}

/// Where nothing happens while others block on futures, the helper thread sleeps ever longer, and after
/// ten sleeps it stops sleeping and blocks on the reactor lock. Then it waits on I/O and starts over.
pub proof fn law_helper_ends_up_driving_the_reactor(
    thread: MainLoopView,
    count: usize,
    times: nat,
    tick: usize,
)
    requires
        thread.awaited == MainAction::ReadTicker,
        thread.sleeps == 0,
        count > 0,
        times <= 10,
    ensures
        ({
            let slept = undisturbed_for(thread, count, times);
            let asked = slept.after(MainEvent::Ticker { tick: slept.last_tick });
            let counted = asked.after(MainEvent::Locked { acquired: false }).after(
                MainEvent::BlockOnCount { count },
            );
            let locked = asked.after(MainEvent::Locked { acquired: true });
            &&& slept == (MainLoopView { sleeps: times as u64, ..thread })
            &&& times < 10 ==> asked.awaited == MainAction::TryLock
            &&& times < 10 ==> counted.awaited == (MainAction::Park {
                micros: crate::driver::backoff(times as u64),
            })
            &&& times == 10 ==> asked.awaited == MainAction::Lock
            &&& locked.awaited == MainAction::React
            &&& locked.after(MainEvent::Reacted { tick }) == (MainLoopView {
                last_tick: tick,
                sleeps: 0,
                awaited: MainAction::CountBlockOn,
            })
        }),
    decreases times,
{
    if times > 0 {
        law_helper_ends_up_driving_the_reactor(thread, count, (times - 1) as nat, tick);
    }
}

/// Without active `block_on` invocations the helper thread never sleeps.
pub proof fn law_helper_is_awake_alone(thread: MainLoopView, event: MainEvent)
    requires
        thread.expects(event),
    ensures
        thread.after(event).awaited is Park ==> (event matches MainEvent::BlockOnCount { count }
            && count > 0),
{
}

/// A notification that ends a sleep, and a wait on I/O, reset the count of sleeps; only an undisturbed
/// sleep adds to it.
pub proof fn law_sleeps_are_counted(thread: MainLoopView, event: MainEvent)
    requires
        thread.expects(event),
    ensures
        event is Notified || event is Reacted ==> thread.after(event).sleeps == 0,
        event is TimedOut ==> thread.after(event).sleeps == thread.sleeps + 1,
        !(event is Notified || event is Reacted || event is TimedOut) ==> thread.after(event).sleeps
            == thread.sleeps,
{
}

/// A thread that blocks on a future comes to the end exactly when the future is ready, and returns after it
/// has discarded a notification that may be left.
pub proof fn law_block_on_returns_when_ready(thread: BlockOnView, event: BlockEvent)
    requires
        thread.expects(event),
    ensures
        thread.after(event).stage is Finish <==> event == (BlockEvent::Polled { ready: true }),
        thread.after(event).stage is Return <==> thread.stage is Finish,
{
}

/// A thread that blocks on a future, after some events.
pub open spec fn after_events(thread: BlockOnView, events: Seq<BlockEvent>) -> BlockOnView
    decreases events.len(),
{
    if events.len() == 0 {
        thread
    } else {
        after_events(thread, events.drop_last()).after(events.last())
    }
}

/// Each of the events can come when it comes.
pub open spec fn events_expected(thread: BlockOnView, events: Seq<BlockEvent>) -> bool
    decreases events.len(),
{
    events.len() > 0 ==> {
        &&& events_expected(thread, events.drop_last())
        &&& after_events(thread, events.drop_last()).expects(events.last())
    }
}

/// The event is a notification: one that was found waiting, or one that ended a sleep.
pub open spec fn is_notification(event: BlockEvent) -> bool {
    event is Woken || (event matches BlockEvent::Checked { notified, .. } && notified)
}

/// Without a notification a thread whose future is pending does not get to poll it, nor to return.
proof fn lemma_waits_for_notification(thread: BlockOnView, events: Seq<BlockEvent>)
    requires
        thread.stage is Poll,
        events.len() > 0,
        events[0] == (BlockEvent::Polled { ready: false }),
        events_expected(thread, events),
        forall|i: int| 0 <= i < events.len() ==> !is_notification(#[trigger] events[i]),
    ensures
        ({
            let stage = after_events(thread, events).stage;
            !(stage is Poll || stage is Finish || stage is Return || stage is LockToProcess || stage is Process)
        }),
    decreases events.len(),
{
    reveal_with_fuel(after_events, 2);
    let before = events.drop_last();
    if before.len() > 0 {
        assert(before[0] == events[0]);
        assert forall|i: int| 0 <= i < before.len() implies !is_notification(#[trigger] before[i]) by {
            assert(before[i] == events[i]);
        }
        lemma_waits_for_notification(thread, before);
        assert(!is_notification(events[events.len() - 1]));
    } else {
        assert(after_events(thread, before) == thread);
    }
}

/// A future that was pending is polled again only after a notification: whatever happens in between, one
/// was found waiting, or one ended a sleep.
pub proof fn law_block_on_polls_again_when_notified(thread: BlockOnView, events: Seq<BlockEvent>)
    requires
        thread.stage is Poll,
        events.len() > 0,
        events[0] == (BlockEvent::Polled { ready: false }),
        events_expected(thread, events),
        after_events(thread, events).stage is Poll,
    ensures
        exists|i: int| 0 <= i < events.len() && is_notification(#[trigger] events[i]),
{
    if forall|i: int| 0 <= i < events.len() ==> !is_notification(#[trigger] events[i]) {
        lemma_waits_for_notification(thread, events);
    }
}

/// A notification that is found makes the thread poll its future again: at once, or after it has processed
/// I/O events, and within two further steps in any case. Only when the future is ready already is a
/// notification discarded.
pub proof fn law_notifications_lead_to_polls(thread: BlockOnView, event: BlockEvent, events: Seq<BlockEvent>)
    requires
        thread.expects(event),
        is_notification(event),
        !(thread.stage is Finish),
        events.len() == 2,
        events_expected(thread.after(event), events),
    ensures
        exists|k: int|
            0 <= k <= 2 && #[trigger] after_events(thread.after(event), events.take(k)).stage is Poll,
{
    let found = thread.after(event);
    reveal_with_fuel(after_events, 3);
    reveal_with_fuel(events_expected, 3);
    assert(events.take(0) =~= seq![]);
    assert(events.take(1) =~= events.drop_last());
    assert(events.take(2) =~= events);
    assert(events.drop_last().drop_last() =~= seq![]);
    assert(after_events(found, events.take(0)) == found);
    assert(after_events(found, events.take(1)) == found.after(events[0]));
    assert(after_events(found, events.take(2)) == found.after(events[0]).after(events[1]));
    assert(found.expects(events[0]));
    assert(found.after(events[0]).expects(events[1]));
    if !(found.stage is Poll || found.after(events[0]).stage is Poll) {
        assert(found.after(events[0]).after(events[1]).stage is Poll);
    }
}

/// A thread that blocks on a future, and whether a notification waits for it.
pub struct NotifiedThread {
    pub thread: BlockOnView,
    pub notified: bool,
}

/// What happens to a thread: it is woken, or something comes of the stage that it is in.
pub enum ThreadEvent {
    Wake,
    Came { event: BlockEvent },
}

impl NotifiedThread {
    /// The thread starts to block on a future.
    pub open spec fn started(notified: bool) -> NotifiedThread {
        NotifiedThread { thread: BlockOnView::started(), notified }
    }

    /// This can happen now: a thread finds a notification if one waits, and sleeps until one does.
    pub open spec fn expects(self, happened: ThreadEvent) -> bool {
        match happened {
            ThreadEvent::Wake => true,
            ThreadEvent::Came { event } => {
                &&& self.thread.expects(event)
                &&& event matches BlockEvent::Checked { notified, .. } ==> notified == self.notified
                &&& event is Woken ==> self.notified
            },
        }
    }

    /// The thread after that. A wake leaves one notification, however many there were.
    pub open spec fn after(self, happened: ThreadEvent) -> NotifiedThread {
        match happened {
            ThreadEvent::Wake => NotifiedThread { notified: true, ..self },
            ThreadEvent::Came { event } => NotifiedThread {
                thread: self.thread.after(event),
                notified: self.notified && !self.thread.stage.consumes_notification(),
            },
        }
    }

    /// The thread after all that has happened.
    pub open spec fn after_all(self, happened: Seq<ThreadEvent>) -> NotifiedThread
        decreases happened.len(),
    {
        if happened.len() == 0 {
            self
        } else {
            self.after_all(happened.drop_last()).after(happened.last())
        }
    }

    /// All this can happen, one after the other.
    pub open spec fn expects_all(self, happened: Seq<ThreadEvent>) -> bool
        decreases happened.len(),
    {
        happened.len() > 0 ==> {
            &&& self.expects_all(happened.drop_last())
            &&& self.after_all(happened.drop_last()).expects(happened.last())
        }
    }
}

/// How often the thread was woken.
pub open spec fn wakes(happened: Seq<ThreadEvent>) -> nat
    decreases happened.len(),
{
    if happened.len() == 0 {
        0
    } else {
        wakes(happened.drop_last()) + if happened.last() is Wake {
            1nat
        } else {
            0
        }
    }
}

/// How often the future was polled.
pub open spec fn polls(happened: Seq<ThreadEvent>) -> nat
    decreases happened.len(),
{
    if happened.len() == 0 {
        0
    } else {
        polls(happened.drop_last()) + if happened.last() matches ThreadEvent::Came { event } && event is Polled {
            1nat
        } else {
            0
        }
    }
}

/// A future is polled once at first, and then at most once for each wake, and for a notification that was
/// there before.
pub proof fn law_each_poll_has_its_wake(notified: bool, happened: Seq<ThreadEvent>)
    requires
        NotifiedThread::started(notified).expects_all(happened),
    ensures
        polls(happened) <= 1 + wakes(happened) + if notified {
            1nat
        } else {
            0
        },
        // What is still to come: a poll that the thread is on its way to, and a notification that waits.
        ({
            let now = NotifiedThread::started(notified).after_all(happened);
            let due: nat = if now.thread.stage is Poll || now.thread.stage is LockToProcess
                || now.thread.stage is Process {
                1
            } else {
                0
            };
            let waiting: nat = if now.notified {
                1
            } else {
                0
            };
            polls(happened) + due + waiting <= 1 + wakes(happened) + if notified {
                1nat
            } else {
                0
            }
        }),
    decreases happened.len(),
{
    if happened.len() > 0 {
        law_each_poll_has_its_wake(notified, happened.drop_last());
    }
}

/// A notification is not carried over from one future to the next that the same thread blocks on: when the
/// first call has discarded what was left, none waits, whatever happened before. In the second call the
/// future is polled once at first, and then at most once for each wake that comes since.
///
/// The first call ends with the step that discards; a wake that comes later counts for the second call.
pub proof fn law_notifications_are_not_carried_over(
    notified: bool,
    first: Seq<ThreadEvent>,
    second: Seq<ThreadEvent>,
)
    requires
        NotifiedThread::started(notified).expects_all(first),
        first.len() > 0,
        first.last() is Came,
        NotifiedThread::started(notified).after_all(first).thread.stage is Return,
        NotifiedThread::started(
            NotifiedThread::started(notified).after_all(first).notified,
        ).expects_all(second),
    ensures
        !NotifiedThread::started(notified).after_all(first).notified,
        polls(second) <= 1 + wakes(second),
        wakes(second) == 0 && polls(second) == 1 ==> !(NotifiedThread::started(false).after_all(
            second,
        ).thread.stage is Poll),
{
    let before = NotifiedThread::started(notified).after_all(first.drop_last());
    law_block_on_returns_when_ready(before.thread, first.last()->event);
    law_each_poll_has_its_wake(false, second);
}

/// No notification is lost: a thread blocks on I/O without a timeout only after it has said so and has
/// then found no notification, and the waker that brings one later from another thread notifies the
/// reactor.
pub proof fn law_block_on_loses_no_notification(thread: BlockOnView, event: BlockEvent)
    requires
        thread.expects(event),
        thread.after(event).stage is Wait,
    ensures
        thread.stage.blocks_on_io(),
        event matches BlockEvent::Checked { notified, .. } && !notified,
        crate::driver::notifies(false, thread.after(event).stage.blocks_on_io()),
{
}

/// A thread holds the reactor lock only while it processes I/O events: not while the future is polled,
/// not while it sleeps, and not when it returns. While the future is polled, it neither polls nor blocks
/// on I/O.
pub proof fn law_block_on_polls_and_sleeps_unlocked(thread: BlockOnView)
    ensures
        thread.stage is Poll || thread.stage is Finish || thread.stage is Return || thread.stage is Park
            || thread.stage is Yield ==> !thread.stage.locks_reactor(),
        thread.stage is Poll || thread.stage is Finish || thread.stage is Return ==> !thread.stage.polls_io()
            && !thread.stage.blocks_on_io(),
        thread.stage.blocks_on_io() ==> thread.stage.polls_io(),
{
}

/// A thread gets hold of the reactor only by locking it, and stops hogging it exactly if it was not
/// notified and has held it for more than half a millisecond.
pub proof fn law_block_on_stops_hogging(thread: BlockOnView, event: BlockEvent)
    requires
        thread.expects(event),
    ensures
        thread.after(event).stage.locks_reactor() && !thread.stage.locks_reactor() ==> (event
            matches BlockEvent::Locked { acquired, .. } && acquired),
        thread.after(event).stage is Yield <==> thread.stage is CheckAfterWait && (event
            matches BlockEvent::Checked { notified, now } && !notified && now - thread.start > 500_000),
{
}

} // verus!
