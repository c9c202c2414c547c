//! What holds of those who wait on sources: who waits, what the poller has to watch for them, when they are
//! woken, and when they are done.
use crate::reactor::{DeliveryView, ReactorView, Step};
use crate::source::{DirectionView, Event, Interest, PollOutcome, ReadyView, SourceId, SourceView, READ, WRITE};
use crate::{laws, reactor, slots, source};
use std::task::Waker;
use vstd::prelude::*;

verus! {

/// Some waker is stored: the one of a task that has polled, or the one of a future in its slot.
pub open spec fn waits(direction: DirectionView) -> bool {
    direction.waker is Some || exists|slot: usize| #[trigger]
        direction.wakers.contains_key(slot) && direction.wakers[slot] is Some
}

/// `order` holds the slots of a direction in which there is a waker, from the first to the last.
pub open spec fn slots_in_order(wakers: Map<usize, Option<Waker>>, order: Seq<usize>) -> bool {
    &&& forall|i: int, j: int| 0 <= i < j < order.len() ==> order[i] < order[j]
    &&& forall|slot: usize| #[trigger]
        order.contains(slot) <==> wakers.contains_key(slot) && wakers[slot] is Some
}

/// `listed` holds every stored waker of a direction once: first that of the task that has polled, then
/// those of the slots, from the first to the last.
pub open spec fn lists(direction: DirectionView, listed: Seq<Waker>) -> bool {
    exists|order: Seq<usize>| #[trigger]
        slots_in_order(direction.wakers, order) && {
            let first: nat = if direction.waker is Some {
                1
            } else {
                0
            };
            &&& listed.len() == first + order.len()
            &&& direction.waker matches Some(waker) ==> listed[0] == waker
            &&& forall|i: int|
                #![trigger order[i]]
                0 <= i < order.len() ==> Some(listed[first + i]) == direction.wakers[order[i]]
        }
}

/// The wakers in the slots below a bound, slot by slot.
proof fn lemma_slots_in_order(wakers: Map<usize, Option<Waker>>, bound: nat) -> (order: Seq<usize>)
    requires
        bound <= usize::MAX + 1,
    ensures
        forall|i: int, j: int| 0 <= i < j < order.len() ==> order[i] < order[j],
        forall|i: int| 0 <= i < order.len() ==> #[trigger] order[i] < bound,
        forall|slot: usize| #[trigger]
            order.contains(slot) <==> slot < bound && wakers.contains_key(slot) && wakers[slot] is Some,
        slots::slot_wakers_below(wakers, bound).len() == order.len(),
        forall|i: int|
            #![trigger order[i]]
            0 <= i < order.len() ==> Some(slots::slot_wakers_below(wakers, bound)[i]) == wakers[order[i]],
    decreases bound,
{
    if bound == 0 {
        seq![]
    } else {
        let below = lemma_slots_in_order(wakers, (bound - 1) as nat);
        let slot = (bound - 1) as usize;
        if wakers.contains_key(slot) && wakers[slot] is Some {
            let order = below.push(slot);
            assert forall|other: usize| #[trigger] order.contains(other) <==> other < bound
                && wakers.contains_key(other) && wakers[other] is Some by {
                if order.contains(other) {
                    let i = choose|i: int| 0 <= i < order.len() && order[i] == other;
                    if i < below.len() {
                        assert(below[i] == other);
                        assert(below.contains(other));
                    }
                }
                if other < bound && wakers.contains_key(other) && wakers[other] is Some {
                    if other == slot {
                        assert(order[below.len() as int] == slot);
                    } else {
                        assert(below.contains(other));
                        let i = choose|i: int| 0 <= i < below.len() && below[i] == other;
                        assert(order[i] == other);
                    }
                }
            }
            order
        } else {
            below
        }
    }
}

/// Those who wait on a direction are the stored wakers, each once and in order, and a direction is empty
/// exactly if there are none.
pub proof fn law_those_who_wait_are_listed(direction: DirectionView)
    ensures
        lists(direction, direction.waiting()),
        direction.is_empty() <==> !waits(direction),
{
    let order = lemma_slots_in_order(direction.wakers, usize::MAX as nat + 1);
    assert(slots_in_order(direction.wakers, order));
    let first: nat = if direction.waker is Some {
        1
    } else {
        0
    };
    assert forall|i: int| #![trigger order[i]] 0 <= i < order.len() implies Some(
        direction.waiting()[first + i],
    ) == direction.wakers[order[i]] by {
        assert(direction.waiting()[first + i] == slots::slot_wakers(direction.wakers)[i]);
    }
}

/// Draining a direction leaves its slots and its memory of rounds, and takes every waker.
pub proof fn law_draining_takes_only_wakers(direction: DirectionView)
    ensures
        direction.drained().tick == direction.tick,
        direction.drained().ticks == direction.ticks,
        direction.drained().waker is None,
        forall|slot: usize| #[trigger]
            direction.drained().wakers.contains_key(slot) <==> direction.wakers.contains_key(slot),
        forall|slot: usize|
            direction.wakers.contains_key(slot) ==> #[trigger] direction.drained().wakers[slot] is None,
        !waits(direction.drained()),
{
    assert forall|slot: usize| #[trigger] direction.drained().wakers.contains_key(slot) implies direction.drained().wakers[slot] is None by {
        assert(direction.wakers.contains_key(slot));
    }
}

/// A new direction and a new source know no round, and nobody waits on them.
pub proof fn law_new_sources_are_idle(registration: crate::source::Registration, id: SourceId, dir: int)
    requires
        0 <= dir < 2,
    ensures
        ({
            let new = SourceView::idle(registration, id);
            &&& new.id() == id && new.registration == registration && new.state.len() == 2
            &&& new.state[dir].tick == 0 && new.state[dir].ticks is None && new.state[dir].waker is None
            &&& new.state[dir].wakers.is_empty()
        }),
{
}

/// The interest asks for exactly the operations for which somebody waits on the source.
pub open spec fn asks_for_all(interest: Interest, source: SourceView) -> bool {
    &&& interest.registration == source.registration
    &&& interest.event.key == source.key
    &&& interest.event.readable <==> waits(source.state[READ as int])
    &&& interest.event.writable <==> waits(source.state[WRITE as int])
}

/// The interest of a source asks for exactly the operations for which somebody waits.
pub proof fn law_interest_is_what_is_awaited(source: SourceView)
    ensures
        asks_for_all(source.interest(), source),
        source.is_empty() <==> !waits(source.state[READ as int]) && !waits(source.state[WRITE as int]),
{
    law_those_who_wait_are_listed(source.state[READ as int]);
    law_those_who_wait_are_listed(source.state[WRITE as int]);
}

/// A task that has polled in vain waits, and the poller is told so exactly if nobody waited for the same
/// operation before. It is then told all that is awaited of the source.
pub proof fn law_first_to_wait_changes_the_interest(
    source: SourceView,
    dir: usize,
    waker: Waker,
    ticker: usize,
    same_task: bool,
    ready: ReadyView,
    next_slot: usize,
)
    requires
        source.state.len() == 2,
        dir < 2,
        ready.attached(source),
    ensures
        ({
            let (after, outcome) = source.poll_ready(dir, waker, ticker, same_task);
            &&& outcome is Pending ==> waits(after.state[dir as int])
            &&& outcome.change() is Some <==> outcome is Pending && !waits(source.state[dir as int])
            &&& outcome.change() matches Some(interest) ==> asks_for_all(interest, after)
        }),
        ({
            let (_, after, outcome) = ready.poll(source, waker, ticker, next_slot);
            &&& outcome is Pending ==> waits(after.state[ready.dir as int])
            &&& outcome.change() is Some <==> outcome is Pending && !waits(
                source.state[ready.dir as int],
            )
            &&& outcome.change() matches Some(interest) ==> asks_for_all(interest, after)
        }),
{
    let polled = source.poll_ready(dir, waker, ticker, same_task).0;
    let (view, awaited, outcome) = ready.poll(source, waker, ticker, next_slot);
    law_those_who_wait_are_listed(source.state[dir as int]);
    law_those_who_wait_are_listed(source.state[ready.dir as int]);
    law_interest_is_what_is_awaited(polled);
    law_interest_is_what_is_awaited(awaited);
    if outcome is Pending {
        assert(awaited.state[ready.dir as int].wakers.contains_key(view.index->0));
    }
}

/// The tick of the last of some events that concerns a direction, or `before` if there is none.
pub open spec fn last_event(steps: Seq<FutureStep>, dir: int, before: usize) -> usize
    decreases steps.len(),
{
    if steps.len() == 0 {
        before
    } else {
        match steps.last() {
            FutureStep::Event { event, tick } => if event.emits(dir) {
                tick
            } else {
                last_event(steps.drop_last(), dir, before)
            },
            _ => last_event(steps.drop_last(), dir, before),
        }
    }
}

/// What happens to a future, or to its source.
pub enum FutureStep {
    /// The future is polled.
    Poll { waker: Waker, ticker: usize, next_slot: usize },
    /// An event of a round is delivered to the source.
    Event { event: Event, tick: usize },
    /// Others poll the source, or their futures, or drop these.
    Other { after: SourceView },
}

/// A future and its source.
pub struct Waiting {
    pub ready: ReadyView,
    pub source: SourceView,
}

impl Waiting {
    /// What others do leaves the round of the last event and the slot of this future as they are.
    pub open spec fn untouched(self, after: SourceView) -> bool {
        let before = self.source.state[self.ready.dir as int];
        let now = after.state[self.ready.dir as int];
        &&& after.state.len() == 2
        &&& after.id() == self.source.id()
        &&& now.tick == before.tick
        &&& self.ready.index matches Some(slot) ==> now.wakers.contains_key(slot) && now.wakers[slot]
            == before.wakers[slot]
    }

    /// This can happen.
    pub open spec fn allows(self, step: FutureStep) -> bool {
        step matches FutureStep::Other { after } ==> self.untouched(after)
    }

    /// The future and its source after a step.
    pub open spec fn after(self, step: FutureStep) -> Waiting {
        match step {
            FutureStep::Poll { waker, ticker, next_slot } => {
                let (ready, source, _) = self.ready.poll(self.source, waker, ticker, next_slot);
                Waiting { ready, source }
            },
            FutureStep::Event { event, tick } => Waiting {
                source: self.source.delivered(event, tick),
                ..self
            },
            FutureStep::Other { after } => Waiting { source: after, ..self },
        }
    }

    /// The future and its source after some steps.
    pub open spec fn after_all(self, steps: Seq<FutureStep>) -> Waiting
        decreases steps.len(),
    {
        if steps.len() == 0 {
            self
        } else {
            self.after_all(steps.drop_last()).after(steps.last())
        }
    }

    /// All this can happen, one after the other.
    pub open spec fn allows_all(self, steps: Seq<FutureStep>) -> bool
        decreases steps.len(),
    {
        steps.len() > 0 ==> {
            &&& self.allows_all(steps.drop_last())
            &&& self.after_all(steps.drop_last()).allows(steps.last())
        }
    }
}

/// The waker that waits for a future that was first polled in round `first`, when the last event was of round
/// `found`: that of the last poll that was in vain, unless an event has taken it since.
pub open spec fn waker_of(steps: Seq<FutureStep>, dir: int, waker: Waker, first: usize, found: usize) -> Option<
    Waker,
>
    decreases steps.len(),
{
    if steps.len() == 0 {
        Some(waker)
    } else {
        let earlier = steps.drop_last();
        let stored = waker_of(earlier, dir, waker, first, found);
        match steps.last() {
            FutureStep::Poll { waker: again, .. } => {
                let tick = last_event(earlier, dir, found);
                if tick != first && tick != found {
                    stored
                } else {
                    Some(again)
                }
            },
            FutureStep::Event { event, .. } => if event.emits(dir) {
                None
            } else {
                stored
            },
            FutureStep::Other { .. } => stored,
        }
    }
}

/// A future is done exactly when the last event for its operation came in a round other than the one in
/// which the future was first polled and the one whose event it found then, however often and by whomever it
/// was polled since, and whatever else happened to its source. Until then the last waker waits in the
/// future's slot, unless an event has taken it to be woken.
pub proof fn law_futures_complete_in_any_history(
    start: Waiting,
    waker: Waker,
    ticker: usize,
    next_slot: usize,
    steps: Seq<FutureStep>,
    again: Waker,
    later: usize,
    later_slot: usize,
)
    requires
        start.source.state.len() == 2,
        start.ready.attached(start.source),
        start.ready.index is None,
        start.ready.ticks is None,
        start.after(FutureStep::Poll { waker, ticker, next_slot }).allows_all(steps),
    ensures
        ({
            let dir = start.ready.dir as int;
            let found = start.source.state[dir].tick;
            let now = start.after(FutureStep::Poll { waker, ticker, next_slot }).after_all(steps);
            let tick = last_event(steps, dir, found);
            let outcome = now.ready.poll(now.source, again, later, later_slot).2;
            &&& outcome is Ready <==> tick != ticker && tick != found
            &&& outcome is Pending <==> tick == ticker || tick == found
            &&& now.source.state.len() == 2 && now.ready.attached(now.source)
            &&& now.ready == (ReadyView {
                ticks: Some((ticker, found)),
                index: Some(next_slot),
                ..start.ready
            })
            &&& now.source.state[dir].tick == tick
            &&& now.source.state[dir].wakers[next_slot] == waker_of(steps, dir, waker, ticker, found)
        }),
    decreases steps.len(),
{
    if steps.len() > 0 {
        law_futures_complete_in_any_history(
            start,
            waker,
            ticker,
            next_slot,
            steps.drop_last(),
            again,
            later,
            later_slot,
        );
    }
}

/// A future that was polled in vain is woken by the next event for its operation, whoever polls it how often
/// before: its last waker is handed out.
pub proof fn law_events_wake_the_last_to_poll(
    ready: ReadyView,
    source: SourceView,
    waker: Waker,
    ticker: usize,
    next_slot: usize,
    event: Event,
)
    requires
        source.state.len() == 2,
        ready.attached(source),
        ready.poll(source, waker, ticker, next_slot).2 is Pending,
        event.emits(ready.dir as int),
    ensures
        ready.poll(source, waker, ticker, next_slot).1.emitted(event).contains(waker),
{
    let (polled, waiting, _) = ready.poll(source, waker, ticker, next_slot);
    let direction = waiting.state[ready.dir as int];
    let slot = polled.index->0;
    assert(direction.wakers[slot] == Some(waker));
    laws::law_stored_wakers_wait(direction);
    let out = waiting.emitted(event);
    let i = choose|i: int| 0 <= i < direction.waiting().len() && direction.waiting()[i] == waker;
    let shift = if ready.dir == WRITE {
        0
    } else {
        out.len() - direction.waiting().len()
    };
    assert(out[i + shift] == waker);
}

/// Polling a source, polling another future and dropping another future leave a future alone.
pub proof fn law_others_leave_futures_alone(
    waiting: Waiting,
    other: ReadyView,
    dir: usize,
    waker: Waker,
    ticker: usize,
    same_task: bool,
    next_slot: usize,
)
    requires
        waiting.source.state.len() == 2,
        waiting.ready.attached(waiting.source),
        other.attached(waiting.source),
        dir < 2,
        (other.dir, other.index) != (waiting.ready.dir, waiting.ready.index),
        !waiting.source.state[other.dir as int].wakers.contains_key(next_slot),
    ensures
        waiting.untouched(waiting.source.poll_ready(dir, waker, ticker, same_task).0),
        waiting.untouched(other.poll(waiting.source, waker, ticker, next_slot).1),
        waiting.untouched(other.removed_from(waiting.source)),
{
}

/// A poll of a source that stores its waker: there is no event that it may take, and no waker of the same
/// task is there already.
pub open spec fn registers(source: SourceView, dir: usize, same_task: bool) -> bool {
    let direction = source.state[dir as int];
    &&& !source::fresh_event(direction.tick, direction.ticks)
    &&& direction.waker is None || !same_task
}

/// What happens to a source on which a task waits.
pub enum PollStep {
    /// The same task polls again.
    Again { waker: Waker, ticker: usize },
    /// An event of a round is delivered.
    Event { event: Event, tick: usize },
    /// Others poll for the other operation, poll their futures, or drop these.
    Other { after: SourceView },
}

/// The source after a step.
pub open spec fn source_after(source: SourceView, dir: usize, step: PollStep) -> SourceView {
    match step {
        PollStep::Again { waker, ticker } => source.poll_ready(dir, waker, ticker, true).0,
        PollStep::Event { event, tick } => source.delivered(event, tick),
        PollStep::Other { after } => after,
    }
}

/// This can happen while the task waits. What others do leaves what the direction remembers as it is.
pub open spec fn source_allows(source: SourceView, dir: usize, step: PollStep) -> bool {
    let before = source.state[dir as int];
    match step {
        PollStep::Again { .. } => before.waker is Some,
        PollStep::Event { .. } => true,
        PollStep::Other { after } => {
            let now = after.state[dir as int];
            &&& after.state.len() == 2
            &&& now.tick == before.tick && now.ticks == before.ticks && now.waker == before.waker
        },
    }
}

/// The source after some steps.
pub open spec fn source_after_all(source: SourceView, dir: usize, steps: Seq<PollStep>) -> SourceView
    decreases steps.len(),
{
    if steps.len() == 0 {
        source
    } else {
        source_after(source_after_all(source, dir, steps.drop_last()), dir, steps.last())
    }
}

/// All this can happen, one after the other.
pub open spec fn source_allows_all(source: SourceView, dir: usize, steps: Seq<PollStep>) -> bool
    decreases steps.len(),
{
    steps.len() > 0 ==> {
        &&& source_allows_all(source, dir, steps.drop_last())
        &&& source_allows(source_after_all(source, dir, steps.drop_last()), dir, steps.last())
    }
}

/// The tick of the last of the events that concerns a direction, if there is one.
pub open spec fn last_tick(steps: Seq<PollStep>, dir: int) -> Option<usize>
    decreases steps.len(),
{
    if steps.len() == 0 {
        None
    } else {
        match steps.last() {
            PollStep::Event { event, tick } => if event.emits(dir) {
                Some(tick)
            } else {
                last_tick(steps.drop_last(), dir)
            },
            _ => last_tick(steps.drop_last(), dir),
        }
    }
}

/// A poll of a source is answered exactly when the last event since the waker was stored came in a round
/// other than the one in which it was stored and the one whose event was found then, however often the task
/// has polled since. Until an event comes, the waker stays; the event takes it, to be woken. The answer is
/// given once.
pub proof fn law_polls_complete_in_any_history(
    source: SourceView,
    dir: usize,
    waker: Waker,
    ticker: usize,
    same_task: bool,
    steps: Seq<PollStep>,
    again: Waker,
    later: usize,
    same_again: bool,
)
    requires
        source.state.len() == 2,
        dir < 2,
        registers(source, dir, same_task),
        source_allows_all(source.poll_ready(dir, waker, ticker, same_task).0, dir, steps),
    ensures
        ({
            let found = source.state[dir as int].tick;
            let (stored, first) = source.poll_ready(dir, waker, ticker, same_task);
            let now = source_after_all(stored, dir, steps);
            let (after, outcome) = now.poll_ready(dir, again, later, same_again);
            let came = last_tick(steps, dir as int);
            &&& first is Pending
            &&& outcome is Ready <==> (came matches Some(tick) && tick != ticker && tick != found)
            &&& outcome is Ready ==> after.poll_ready(dir, again, later, same_again).1 is Pending
            &&& now.state.len() == 2
            &&& now.state[dir as int].ticks == Some((ticker, found))
            &&& now.state[dir as int].tick == (if came is Some {
                came->0
            } else {
                found
            })
            &&& now.state[dir as int].waker == (if came is Some {
                None
            } else {
                Some(waker)
            })
        }),
    decreases steps.len(),
{
    if steps.len() > 0 {
        law_polls_complete_in_any_history(
            source,
            dir,
            waker,
            ticker,
            same_task,
            steps.drop_last(),
            again,
            later,
            same_again,
        );
    }
}

/// A poll of a source gets no stale events: where it has stored a waker after `rounds` rounds had started, an
/// event of a later round answers the next poll, and none of the last round that had started does, whose
/// events may still be under way.
///
/// Only where the ticker has come back, after full turns, to a tick that is remembered is an event of a
/// later round missed.
pub proof fn law_polls_get_no_stale_events(
    reactor: ReactorView,
    rounds: nat,
    found: nat,
    id: SourceId,
    dir: usize,
    waker: Waker,
    same_task: bool,
    event: Event,
    round: nat,
    again: Waker,
    same_again: bool,
)
    requires
        reactor.valid(),
        laws::after_rounds(reactor, rounds),
        reactor.holds(id),
        dir < 2,
        registers(reactor.sources[id.key], dir, same_task),
        reactor.sources[id.key].state[dir as int].tick == laws::advanced(0, found),
        found <= rounds <= round,
        event.key == id.key,
        event.emits(dir as int),
    ensures
        ({
            let (stored, first) = reactor.poll_source(id, dir, waker, same_task);
            let delivered = ReactorView {
                sources: reactor::deliver_event(stored.sources, event, laws::advanced(0, round)),
                ..stored
            };
            let answered = delivered.poll_source(id, dir, again, same_again).1 is Ready;
            &&& first is Pending
            &&& answered <==> (round - rounds) as nat % (usize::MAX as nat + 1) != 0 && (round
                - found) as nat % (usize::MAX as nat + 1) != 0
            &&& round - found <= usize::MAX ==> (answered <==> round > rounds)
        }),
{
    let since = (rounds - found) as nat;
    let until = (round - rounds) as nat;
    let steps = seq![PollStep::Event { event, tick: laws::advanced(0, round) }];
    let source = reactor.sources[id.key];
    let stored = source.poll_ready(dir, waker, reactor.ticker, same_task).0;
    assert(steps.drop_last() =~= seq![]);
    reveal_with_fuel(source_after_all, 2);
    reveal_with_fuel(source_allows_all, 2);
    reveal_with_fuel(last_tick, 2);
    assert(source_after_all(stored, dir, steps.drop_last()) == stored);
    law_polls_complete_in_any_history(
        source,
        dir,
        waker,
        reactor.ticker,
        same_task,
        steps,
        again,
        reactor.ticker,
        same_again,
    );
    laws::lemma_advanced_adds_up(0, found, since);
    laws::lemma_advanced_adds_up(0, rounds, until);
    laws::law_only_later_rounds_are_fresh(laws::advanced(0, found), since, until);
}

/// Polling a source or a future, and dropping a future, concern one source, and nothing else of the reactor.
pub proof fn law_polls_concern_one_source(
    reactor: ReactorView,
    id: SourceId,
    dir: usize,
    waker: Waker,
    same_task: bool,
    ready: ReadyView,
    next_slot: usize,
    other: usize,
)
    ensures
        ({
            let polled = reactor.poll_source(id, dir, waker, same_task).0;
            &&& polled == (ReactorView { sources: polled.sources, ..reactor })
            &&& other != id.key ==> polled.sources.contains_key(other) == reactor.sources.contains_key(
                other,
            ) && polled.sources[other] == reactor.sources[other]
        }),
        ({
            let awaited = reactor.poll_ready(ready, waker, next_slot).1;
            &&& awaited == (ReactorView { sources: awaited.sources, ..reactor })
            &&& other != ready.source.key ==> awaited.sources.contains_key(other)
                == reactor.sources.contains_key(other) && awaited.sources[other]
                == reactor.sources[other]
        }),
        ({
            let left = reactor.without(ready);
            &&& left == (ReactorView { sources: left.sources, ..reactor })
            &&& other != ready.source.key ==> left.sources.contains_key(other)
                == reactor.sources.contains_key(other) && left.sources[other] == reactor.sources[other]
        }),
{
}

/// A poll for one operation leaves the other operation, and the name and handle of the source, as they are,
/// and so do a future's poll and its drop; the wakers of other futures stay too.
pub proof fn law_polls_concern_one_direction(
    source: SourceView,
    dir: usize,
    waker: Waker,
    ticker: usize,
    same_task: bool,
    ready: ReadyView,
    next_slot: usize,
    slot: usize,
)
    requires
        source.state.len() == 2,
        dir < 2,
        ready.attached(source),
    ensures
        ({
            let after = source.poll_ready(dir, waker, ticker, same_task).0;
            &&& after.id() == source.id() && after.registration == source.registration
            &&& after.state[1 - dir] == source.state[1 - dir]
            &&& after.state[dir as int].tick == source.state[dir as int].tick
            &&& after.state[dir as int].wakers == source.state[dir as int].wakers
            &&& after.state[dir as int].waker == (if registers(source, dir, same_task) {
                Some(waker)
            } else {
                source.state[dir as int].waker
            })
        }),
        ({
            let (polled, after, _) = ready.poll(source, waker, ticker, next_slot);
            let before = source.state[ready.dir as int];
            let now = after.state[ready.dir as int];
            &&& after.id() == source.id() && after.registration == source.registration
            &&& after.state[1 - ready.dir] == source.state[1 - ready.dir]
            &&& now.tick == before.tick && now.ticks == before.ticks && now.waker == before.waker
            &&& polled.source == ready.source && polled.dir == ready.dir
            &&& Some(slot) != polled.index ==> now.wakers.contains_key(slot) == before.wakers.contains_key(
                slot,
            ) && now.wakers[slot] == before.wakers[slot]
        }),
        ({
            let after = ready.removed_from(source);
            let before = source.state[ready.dir as int];
            let now = after.state[ready.dir as int];
            &&& after.id() == source.id() && after.registration == source.registration
            &&& after.state[1 - ready.dir] == source.state[1 - ready.dir]
            &&& now.tick == before.tick && now.ticks == before.ticks && now.waker == before.waker
            &&& ready.index matches Some(own) ==> !now.wakers.contains_key(own)
            &&& Some(slot) != ready.index ==> now.wakers.contains_key(slot) == before.wakers.contains_key(
                slot,
            ) && now.wakers[slot] == before.wakers[slot]
        }),
{
}

/// Every waker that a poll displaces is handed back: a task's waker that another task replaces is to be
/// woken, a future's own waker is to be dropped. A future that is dropped hands its waker back too.
pub proof fn law_displaced_wakers_are_handed_back(
    source: SourceView,
    dir: usize,
    waker: Waker,
    ticker: usize,
    same_task: bool,
    ready: ReadyView,
    next_slot: usize,
)
    requires
        source.state.len() == 2,
        dir < 2,
        ready.attached(source),
    ensures
        source.poll_ready(dir, waker, ticker, same_task).1 matches PollOutcome::Pending { wake, discard, .. }
            ==> discard is None && wake == (if registers(source, dir, same_task) {
            source.state[dir as int].waker
        } else {
            None
        }),
        ready.poll(source, waker, ticker, next_slot).2 matches PollOutcome::Pending { wake, discard, .. }
            ==> wake is None && discard == (match ready.index {
            Some(own) => source.state[ready.dir as int].wakers[own],
            None => None,
        }),
        ready.stored_in(source) == (match ready.index {
            Some(own) => source.state[ready.dir as int].wakers[own],
            None => None,
        }),
{
}

/// A future that was not polled yet waits for its operation on its source, as soon as the source is there;
/// and a future only ever waits on its own source.
pub proof fn law_new_futures_are_attached(reactor: ReactorView, id: SourceId, dir: usize, ready: ReadyView)
    requires
        dir < 2,
    ensures
        reactor.holds(id) ==> reactor.attached(ReadyView::unpolled(id, dir)),
        reactor.attached(ready) ==> reactor.holds(ready.source),
        ReadyView::unpolled(id, dir).ticks is None && ReadyView::unpolled(id, dir).index is None,
        ReadyView::unpolled(id, dir).source == id && ReadyView::unpolled(id, dir).dir == dir,
{
}

/// Somebody waits on the source under a key.
pub open spec fn source_waits(sources: Map<usize, SourceView>, key: usize) -> bool {
    sources.contains_key(key) && (waits(sources[key].state[READ as int]) || waits(
        sources[key].state[WRITE as int],
    ))
}

/// What `still_awaited` says, of the sources after the event.
proof fn lemma_still_awaited(sources: Map<usize, SourceView>, event: Event, tick: usize)
    ensures
        reactor::still_awaited(sources, event, tick) <==> source_waits(
            reactor::deliver_event(sources, event, tick),
            event.key,
        ),
{
    if sources.contains_key(event.key) {
        law_interest_is_what_is_awaited(sources[event.key].delivered(event, tick));
    }
}

/// Delivering one more event.
proof fn lemma_deliver_one_more(
    sources: Map<usize, SourceView>,
    events: Seq<Event>,
    next: int,
    i: int,
    tick: usize,
)
    requires
        0 <= next <= i < events.len(),
    ensures
        reactor::deliver_events(sources, events.subrange(next, i + 1), tick) == reactor::deliver_event(
            reactor::deliver_events(sources, events.subrange(next, i), tick),
            events[i],
            tick,
        ),
{
    assert(events.subrange(next, i + 1).drop_last() =~= events.subrange(next, i));
    assert(events.subrange(next, i + 1).last() == events[i]);
}

/// A delivery stops behind the first event whose source is still awaited.
proof fn lemma_stop_is_the_first(
    sources: Map<usize, SourceView>,
    events: Seq<Event>,
    next: int,
    tick: usize,
    i: int,
)
    requires
        0 <= next <= i < reactor::delivered_until(sources, events, next, tick),
        next <= events.len(),
    ensures
        reactor::delivered_until(sources, events, next, tick) <= events.len(),
        i + 1 < reactor::delivered_until(sources, events, next, tick) ==> !source_waits(
            reactor::deliver_events(sources, events.subrange(next, i + 1), tick),
            events[i].key,
        ),
    decreases events.len() - next,
{
    let stop = reactor::delivered_until(sources, events, next, tick);
    if next < events.len() {
        let rest = reactor::deliver_event(sources, events[next], tick);
        lemma_still_awaited(sources, events[next], tick);
        lemma_deliver_one_more(sources, events, next, next, tick);
        assert(events.subrange(next, next) =~= seq![]);
        assert(reactor::deliver_events(sources, events.subrange(next, next), tick) == sources);
        if !reactor::still_awaited(sources, events[next], tick) {
            if next + 1 < stop {
                let j = if i == next {
                    next + 1
                } else {
                    i
                };
                lemma_stop_is_the_first(rest, events, next + 1, tick, j);
            } else {
                lemma_delivered_until_is_in_range(rest, events, next + 1, tick);
            }
            if i > next {
                laws::law_events_can_be_delivered_in_batches(
                    sources,
                    events.subrange(next, next + 1),
                    events.subrange(next + 1, i + 1),
                    tick,
                );
                assert(events.subrange(next, next + 1) + events.subrange(next + 1, i + 1)
                    =~= events.subrange(next, i + 1));
            }
        }
    }
}

/// A delivery stops within its events.
proof fn lemma_delivered_until_is_in_range(
    sources: Map<usize, SourceView>,
    events: Seq<Event>,
    next: int,
    tick: usize,
)
    requires
        0 <= next <= events.len(),
    ensures
        next <= reactor::delivered_until(sources, events, next, tick) <= events.len(),
        next < events.len() ==> next < reactor::delivered_until(sources, events, next, tick),
    decreases events.len() - next,
{
    if next < events.len() && !reactor::still_awaited(sources, events[next], tick) {
        lemma_delivered_until_is_in_range(
            reactor::deliver_event(sources, events[next], tick),
            events,
            next + 1,
            tick,
        );
    }
}

/// Interest is registered again exactly where somebody still waits: the delivery stops directly behind each
/// event after which somebody waits on its source, for either operation, and nowhere else, and asks the
/// poller for exactly what is awaited of that source. At the end there is no event left.
pub proof fn law_interest_is_registered_again<E>(
    delivery: DeliveryView,
    sources: Map<usize, SourceView>,
    after: Map<usize, SourceView>,
    step: Step<E>,
    i: int,
)
    requires
        0 <= delivery.next <= delivery.events.len(),
        delivery.continues(sources, after, step),
        delivery.next <= i < delivery.events.len(),
    ensures
        ({
            let stop = match step {
                Step::Modify { delivery: stopped, .. } => stopped@.next,
                _ => delivery.events.len() as int,
            };
            let now = reactor::deliver_events(
                sources,
                delivery.events.subrange(delivery.next, i + 1),
                delivery.tick,
            );
            &&& delivery.next < stop <= delivery.events.len()
            &&& i < stop ==> (source_waits(now, delivery.events[i].key) <==> step is Modify && i + 1
                == stop)
            &&& step matches Step::Modify { interest, .. } ==> (i + 1 == stop ==> now == after
                && asks_for_all(interest, after[delivery.events[i].key]))
        }),
{
    let events = delivery.events;
    let tick = delivery.tick;
    let stop = delivery.stop(sources);
    let batch = delivery.batch(sources);
    lemma_delivered_until_is_in_range(sources, events, delivery.next, tick);
    assert(batch.drop_last() =~= events.subrange(delivery.next, stop - 1));
    assert(batch.last() == events[stop - 1]);
    lemma_deliver_one_more(sources, events, delivery.next, stop - 1, tick);
    lemma_still_awaited(
        reactor::deliver_events(sources, batch.drop_last(), tick),
        batch.last(),
        tick,
    );
    if step is Done {
        lemma_done_is_the_end(sources, events, delivery.next, tick);
    }
    if i < stop {
        lemma_stop_is_the_first(sources, events, delivery.next, tick, i);
    }
    law_interest_is_what_is_awaited(after[batch.last().key]);
}

/// A delivery that does not stop for an event comes to the end.
proof fn lemma_done_is_the_end(
    sources: Map<usize, SourceView>,
    events: Seq<Event>,
    next: int,
    tick: usize,
)
    requires
        0 <= next < events.len(),
        ({
            let stop = reactor::delivered_until(sources, events, next, tick);
            !reactor::still_awaited(
                reactor::deliver_events(sources, events.subrange(next, stop - 1), tick),
                events[stop - 1],
                tick,
            )
        }),
    ensures
        reactor::delivered_until(sources, events, next, tick) == events.len(),
    decreases events.len() - next,
{
    reveal_with_fuel(reactor::delivered_until, 2);
    let stop = reactor::delivered_until(sources, events, next, tick);
    let rest = reactor::deliver_event(sources, events[next], tick);
    assert(events.subrange(next, next) =~= seq![]);
    assert(reactor::deliver_events(sources, events.subrange(next, next), tick) == sources);
    if !reactor::still_awaited(sources, events[next], tick) && next + 1 < events.len() {
        lemma_delivered_until_is_in_range(rest, events, next + 1, tick);
        lemma_deliver_one_more(sources, events, next, next, tick);
        laws::law_events_can_be_delivered_in_batches(
            sources,
            events.subrange(next, next + 1),
            events.subrange(next + 1, stop - 1),
            tick,
        );
        assert(events.subrange(next, next + 1) + events.subrange(next + 1, stop - 1) =~= events.subrange(
            next,
            stop - 1,
        ));
        lemma_done_is_the_end(rest, events, next + 1, tick);
    }
}

/// The poller watches, for each source, all that is awaited of it. `armed` holds what it watches, by key.
pub open spec fn all_watched(sources: Map<usize, SourceView>, armed: Map<usize, Event>) -> bool {
    forall|key: usize| #[trigger]
        sources.contains_key(key) ==> {
            &&& armed.contains_key(key)
            &&& waits(sources[key].state[READ as int]) ==> armed[key].readable
            &&& waits(sources[key].state[WRITE as int]) ==> armed[key].writable
        }
}

/// What the poller still watches when it has delivered some events: nothing for their sources.
pub open spec fn used_up(armed: Map<usize, Event>, events: Seq<Event>) -> Map<usize, Event>
    decreases events.len(),
{
    if events.len() == 0 {
        armed
    } else {
        let event = events.last();
        used_up(armed, events.drop_last()).insert(
            event.key,
            Event { key: event.key, readable: false, writable: false },
        )
    }
}

/// What the poller watches once it was told the change of interest that a step asks for.
pub open spec fn told<E>(armed: Map<usize, Event>, step: Step<E>) -> Map<usize, Event> {
    match step {
        Step::Modify { interest, .. } => armed.insert(interest.event.key, interest.event),
        _ => armed,
    }
}

/// Where nobody waits on the sources of events that were delivered, all others are watched as before.
proof fn lemma_watched_without_waiters(
    sources: Map<usize, SourceView>,
    armed: Map<usize, Event>,
    events: Seq<Event>,
    tick: usize,
)
    requires
        all_watched(sources, armed),
        forall|i: int|
            0 <= i < events.len() ==> !source_waits(
                reactor::deliver_events(sources, events.subrange(0, i + 1), tick),
                (#[trigger] events[i]).key,
            ),
    ensures
        all_watched(reactor::deliver_events(sources, events, tick), used_up(armed, events)),
    decreases events.len(),
{
    if events.len() > 0 {
        let earlier = events.drop_last();
        let last = events.len() - 1;
        assert forall|i: int| 0 <= i < earlier.len() implies !source_waits(
            reactor::deliver_events(sources, earlier.subrange(0, i + 1), tick),
            (#[trigger] earlier[i]).key,
        ) by {
            assert(earlier.subrange(0, i + 1) =~= events.subrange(0, i + 1));
            assert(earlier[i] == events[i]);
        }
        lemma_watched_without_waiters(sources, armed, earlier, tick);
        assert(events.subrange(0, last + 1) =~= events);
        assert(!source_waits(reactor::deliver_events(sources, events, tick), events[last].key));
    }
}

/// A round keeps every source watched for all that is awaited of it: if it was so before, and each event that
/// the poller delivers ends what it watches for the source, then it is so again when the poller was told the
/// changes of interest that the round asks for, at each stop and at the end.
pub proof fn law_rounds_keep_all_sources_watched<E>(
    delivery: DeliveryView,
    sources: Map<usize, SourceView>,
    after: Map<usize, SourceView>,
    step: Step<E>,
    armed: Map<usize, Event>,
)
    requires
        0 <= delivery.next <= delivery.events.len(),
        delivery.continues(sources, after, step),
        forall|key: usize| #[trigger] sources.contains_key(key) ==> sources[key].key == key,
        all_watched(sources, armed),
    ensures
        ({
            let stop = match step {
                Step::Modify { delivery: stopped, .. } => stopped@.next,
                _ => delivery.events.len() as int,
            };
            let events = delivery.events.subrange(delivery.next, stop);
            all_watched(after, told(used_up(armed, events), step))
        }),
{
    let events = delivery.events;
    let tick = delivery.tick;
    let stop = delivery.stop(sources);
    let batch = delivery.batch(sources);
    lemma_delivered_until_is_in_range(sources, events, delivery.next, tick);
    if delivery.next < events.len() {
        assert forall|i: int| 0 <= i < batch.len() && (step is Done || i + 1 < batch.len()) implies !source_waits(
            reactor::deliver_events(sources, batch.subrange(0, i + 1), tick),
            (#[trigger] batch[i]).key,
        ) by {
            law_interest_is_registered_again(delivery, sources, after, step, delivery.next + i);
            assert(batch.subrange(0, i + 1) =~= events.subrange(
                delivery.next,
                delivery.next + i + 1,
            ));
        }
        law_interest_is_registered_again(delivery, sources, after, step, stop - 1);
        if step is Done {
            assert(batch.drop_last() =~= events.subrange(delivery.next, stop - 1));
            lemma_done_is_the_end(sources, events, delivery.next, tick);
            lemma_watched_without_waiters(sources, armed, batch, tick);
        } else {
            let earlier = batch.drop_last();
            assert forall|i: int| 0 <= i < earlier.len() implies !source_waits(
                reactor::deliver_events(sources, earlier.subrange(0, i + 1), tick),
                (#[trigger] earlier[i]).key,
            ) by {
                assert(earlier.subrange(0, i + 1) =~= batch.subrange(0, i + 1));
                assert(batch[i] == earlier[i]);
            }
            lemma_watched_without_waiters(sources, armed, earlier, tick);
            laws::law_events_keep_sources_under_their_keys(sources, batch, tick);
            laws::law_events_keep_sources_under_their_keys(sources, earlier, tick);
            let last = batch.last().key;
            let middle = reactor::deliver_events(sources, earlier, tick);
            assert(batch.last() == events[stop - 1]);
            assert(source_waits(after, last));
            assert(after[last].key == last);
            let now = told(used_up(armed, batch), step);
            assert forall|key: usize| #[trigger] after.contains_key(key) implies {
                &&& now.contains_key(key)
                &&& waits(after[key].state[READ as int]) ==> now[key].readable
                &&& waits(after[key].state[WRITE as int]) ==> now[key].writable
            } by {
                if key != last {
                    assert(middle.contains_key(key));
                    assert(after[key] == middle[key]);
                }
            }
        }
    } else {
        assert(batch =~= seq![]);
    }
}

/// A round wakes nobody who did not wait for one of its events.
pub proof fn law_rounds_wake_only_those_who_wait(
    sources: Map<usize, SourceView>,
    events: Seq<Event>,
    tick: usize,
    waker: Waker,
)
    requires
        forall|key: usize| #[trigger] sources.contains_key(key) ==> sources[key].state.len() == 2,
        reactor::events_wakers(sources, events, tick).contains(waker),
    ensures
        exists|key: usize, dir: int|
            sources.contains_key(key) && 0 <= dir < 2 && #[trigger] laws::concerned(events, key, dir)
                && sources[key].state[dir].waiting().contains(waker),
    decreases events.len(),
{
    if events.len() > 0 {
        let earlier = events.drop_last();
        let event = events.last();
        let collected = reactor::events_wakers(sources, earlier, tick);
        let middle = reactor::deliver_events(sources, earlier, tick);
        let last = reactor::event_wakers(middle, event);
        if collected.contains(waker) {
            law_rounds_wake_only_those_who_wait(sources, earlier, tick, waker);
            let (key, dir) = choose|key: usize, dir: int|
                sources.contains_key(key) && 0 <= dir < 2 && #[trigger] laws::concerned(earlier, key, dir)
                    && sources[key].state[dir].waiting().contains(waker);
            let i = choose|i: int|
                0 <= i < earlier.len() && (#[trigger] earlier[i]).key == key && earlier[i].emits(dir);
            assert(events[i] == earlier[i]);
            assert(laws::concerned(events, key, dir));
        } else {
            let woken = reactor::events_wakers(sources, events, tick);
            let k = choose|k: int| 0 <= k < woken.len() && woken[k] == waker;
            assert(last[k - collected.len()] == waker);
            laws::law_events_keep_sources_under_their_keys(sources, earlier, tick);
            let key = event.key;
            let writers: nat = if event.writable {
                middle[key].state[WRITE as int].waiting().len()
            } else {
                0
            };
            let place = k - collected.len();
            let dir = if place < writers {
                WRITE as int
            } else {
                READ as int
            };
            laws::law_rounds_wake_all_who_wait(sources, earlier, tick, key, dir);
            let now = middle[key].state[dir];
            if place < writers {
                assert(now.waiting()[place] == waker);
            } else {
                assert(now.waiting()[place - writers] == waker);
            }
            laws::law_drained_direction_is_empty(sources[key].state[dir]);
            if laws::concerned(earlier, key, dir) {
                laws::law_empty_means_nobody_waits(now);
                law_draining_takes_only_wakers(sources[key].state[dir]);
                law_those_who_wait_are_listed(now);
                assert(!waits(now)) by {
                    assert(now.waker is None);
                    assert forall|slot: usize| #[trigger] now.wakers.contains_key(slot) implies now.wakers[slot] is None by {
                        assert(sources[key].state[dir].drained().wakers[slot] is None);
                    }
                }
            }
            assert(events[events.len() - 1] == event);
            assert(laws::concerned(events, key, dir));
        }
    }
}

/// Events are delivered one by one: each reaches the source under its key, once, and hands out those who wait
/// there for what it says, once; without such a source nothing happens. One event after others finds what
/// they have left, and those whom it hands out come behind theirs.
pub proof fn law_events_are_delivered_one_by_one(
    sources: Map<usize, SourceView>,
    earlier: Seq<Event>,
    event: Event,
    tick: usize,
)
    ensures
        ({
            let middle = reactor::deliver_events(sources, earlier, tick);
            let after = reactor::deliver_events(sources, earlier.push(event), tick);
            let first = reactor::events_wakers(sources, earlier, tick);
            let all = reactor::events_wakers(sources, earlier.push(event), tick);
            &&& after.remove(event.key) == middle.remove(event.key)
            &&& after.contains_key(event.key) == middle.contains_key(event.key)
            &&& all.len() >= first.len() && all.take(first.len() as int) == first
            &&& middle.contains_key(event.key) ==> all.skip(first.len() as int)
                == middle[event.key].emitted(event)
            &&& !middle.contains_key(event.key) ==> all.len() == first.len()
        }),
        reactor::deliver_events(sources, seq![], tick) == sources,
        reactor::events_wakers(sources, seq![], tick).len() == 0,
        event.emits(0) == event.readable && event.emits(1) == event.writable,
{
    let middle = reactor::deliver_events(sources, earlier, tick);
    let after = reactor::deliver_events(sources, earlier.push(event), tick);
    let first = reactor::events_wakers(sources, earlier, tick);
    let all = reactor::events_wakers(sources, earlier.push(event), tick);
    assert(earlier.push(event).drop_last() =~= earlier);
    assert(after.remove(event.key) =~= middle.remove(event.key));
    assert(all.take(first.len() as int) =~= first);
    if middle.contains_key(event.key) {
        assert(all.skip(first.len() as int) =~= middle[event.key].emitted(event));
    }
}

/// An event marks the directions that it concerns with its round, takes all who wait there, and leaves
/// everything else of the source as it is.
pub proof fn law_events_concern_their_directions(source: SourceView, event: Event, tick: usize, dir: int)
    requires
        0 <= dir < 2,
    ensures
        ({
            let after = source.delivered(event, tick);
            let before = source.state[dir];
            let now = after.state[dir];
            let concerned = (dir == 0 && event.readable) || (dir == 1 && event.writable);
            &&& after.id() == source.id() && after.registration == source.registration
            &&& after.state.len() == 2
            &&& concerned ==> now.tick == tick && now.ticks == before.ticks && !waits(now)
            &&& concerned ==> now.wakers.dom() == before.wakers.dom()
            &&& !concerned ==> now == before
        }),
{
    law_draining_takes_only_wakers(source.state[dir]);
    assert(source.state[dir].drained().wakers.dom() =~= source.state[dir].wakers.dom());
}

/// An event hands out first those who wait to write, then those who wait to read, each list in order, and of
/// each only if the event concerns the operation.
pub proof fn law_writers_come_before_readers(source: SourceView, event: Event) -> (writers: Seq<Waker>)
    ensures
        event.writable ==> lists(source.state[WRITE as int], writers),
        !event.writable ==> writers.len() == 0,
        writers.len() <= source.emitted(event).len(),
        source.emitted(event).take(writers.len() as int) == writers,
        event.readable ==> lists(
            source.state[READ as int],
            source.emitted(event).skip(writers.len() as int),
        ),
        !event.readable ==> source.emitted(event).len() == writers.len(),
{
    law_those_who_wait_are_listed(source.state[WRITE as int]);
    law_those_who_wait_are_listed(source.state[READ as int]);
    let writers = if event.writable {
        source.state[WRITE as int].waiting()
    } else {
        seq![]
    };
    let out = source.emitted(event);
    assert(out.take(writers.len() as int) =~= writers);
    if event.readable {
        assert(out.skip(writers.len() as int) =~= source.state[READ as int].waiting());
    }
    writers
}

} // verus!
