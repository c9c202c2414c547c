//! The reactor: the table of sources, the timers, and the rounds in which events are delivered.
use crate::slots;
use crate::source::{Event, Interest, PollOutcome, Ready, ReadyView, Registration, Source, SourceId, SourceView, READ, WRITE};
use crate::timers::{Timers, TimersView};
use slab::Slab;
use std::task::Waker;
use vstd::prelude::*;

verus! {

/// What a slab of sources holds: each source, by its key.
pub uninterp spec fn source_slots(slab: Slab<Source>) -> Map<usize, Source>;

/// The key that a slab of sources gives to the next source.
pub uninterp spec fn next_source_key(slab: Slab<Source>) -> usize;

/// `Slab::new`: a slab without sources, which starts with key zero.
#[verifier::external_body]
fn new_sources() -> (sources: Slab<Source>)
    ensures
        source_slots(sources).is_empty(),
        next_source_key(sources) == 0,
{
    Slab::new()
}

/// `Slab::vacant_entry`, of which the key is kept: the key that is next, which is free. The slab stays
/// as it is.
#[verifier::external_body]
fn vacant_key(sources: &mut Slab<Source>) -> (key: usize)
    ensures
        key == next_source_key(*old(sources)),
        !source_slots(*old(sources)).contains_key(key),
        source_slots(*final(sources)) == source_slots(*old(sources)),
        next_source_key(*final(sources)) == next_source_key(*old(sources)),
{
    sources.vacant_entry().key()
}

/// `Slab::insert`: stores the source under the key that is next, which was free, and returns that key.
/// Which free key is next after that depends on the history of the slab and is left unsaid. As with a
/// `Vec`, memory is taken for granted: it panics where the storage would exceed `isize::MAX` bytes.
#[verifier::external_body]
fn insert_source(sources: &mut Slab<Source>, source: Source) -> (key: usize)
    ensures
        key == next_source_key(*old(sources)),
        !source_slots(*old(sources)).contains_key(key),
        source_slots(*final(sources)) == source_slots(*old(sources)).insert(key, source),
{
    sources.insert(source)
}

/// `Slab::remove`: takes out the source under a key, which is then next. On a key without a source it
/// panics.
#[verifier::external_body]
fn take_source(sources: &mut Slab<Source>, key: usize) -> (source: Source)
    requires
        source_slots(*old(sources)).contains_key(key),
    ensures
        source == source_slots(*old(sources))[key],
        source_slots(*final(sources)) == source_slots(*old(sources)).remove(key),
        next_source_key(*final(sources)) == key,
{
    sources.remove(key)
}

/// `Slab::get`: the source under a key, where there is one.
#[verifier::external_body]
fn get_source(sources: &Slab<Source>, key: usize) -> (source: Option<&Source>)
    ensures
        match source {
            Some(found) => source_slots(*sources).contains_key(key) && *found == source_slots(
                *sources,
            )[key],
            None => !source_slots(*sources).contains_key(key),
        },
{
    sources.get(key)
}

/// `Slab::get_mut`: the source under a key, where there is one, for writing.
#[verifier::external_body]
fn get_source_mut(sources: &mut Slab<Source>, key: usize) -> (source: Option<&mut Source>)
    ensures
        match source {
            Some(found) => source_slots(*old(sources)).contains_key(key) && *found == source_slots(
                *old(sources),
            )[key] && source_slots(*final(sources)) == source_slots(*old(sources)).insert(
                key,
                *final(found),
            ),
            None => !source_slots(*old(sources)).contains_key(key) && source_slots(*final(sources))
                == source_slots(*old(sources)),
        },
        next_source_key(*final(sources)) == next_source_key(*old(sources)),
{
    sources.get_mut(key)
}

/// The reactor.
pub struct Reactor {
    /// Ticker bumped before polling.
    ///
    /// This is useful for checking what is the current "round" of `react` when synchronizing things
    /// in `Source::readable` and `Source::writable`. Both of those must make sure they don't receive
    /// stale I/O events - they only accept events from a fresh "round" of `react`.
    ticker: usize,
    /// Registered sources.
    sources: Slab<Source>,
    /// The serial number of the next source.
    next_serial: u64,
    /// Registered timers.
    timers: Timers,
}

/// What a reactor holds.
#[verifier::ext_equal]
pub struct ReactorView {
    pub ticker: usize,
    pub sources: Map<usize, SourceView>,
    pub next_serial: u64,
    pub timers: TimersView,
}

/// The serial number after another one. They start over at zero after all of them were given out.
pub open spec fn serial_after(serial: u64) -> u64 {
    if serial == u64::MAX {
        0
    } else {
        (serial + 1) as u64
    }
}

impl View for Reactor {
    type V = ReactorView;

    closed spec fn view(&self) -> ReactorView {
        ReactorView {
            ticker: self.ticker,
            sources: source_slots(self.sources).map_values(|source: Source| source@),
            next_serial: self.next_serial,
            timers: self.timers@,
        }
    }
}

impl ReactorView {
    /// Every source stands under its own key, and has two directions.
    pub open spec fn valid(self) -> bool {
        forall|key: usize| #[trigger]
            self.sources.contains_key(key) ==> self.sources[key].key == key
                && self.sources[key].state.len() == 2
    }

    /// The source that `id` names is registered.
    pub open spec fn holds(self, id: SourceId) -> bool {
        self.sources.contains_key(id.key) && self.sources[id.key].id() == id
    }

    /// The reactor with a new source under a free key.
    pub open spec fn inserted(self, registration: Registration, key: usize) -> ReactorView {
        let id = SourceId { key, serial: self.next_serial };
        ReactorView {
            sources: self.sources.insert(key, SourceView::idle(registration, id)),
            next_serial: serial_after(self.next_serial),
            ..self
        }
    }

    /// The reactor without the source under `key`.
    pub open spec fn removed(self, key: usize) -> ReactorView {
        ReactorView { sources: self.sources.remove(key), ..self }
    }
}

impl Reactor {
    /// Every source stands under its own key, and the timers are in order.
    pub closed spec fn wf(self) -> bool {
        self@.valid() && self.timers.wf()
    }

    /// What well-formedness says of the contents of a reactor.
    pub proof fn lemma_valid(&self)
        requires
            self.wf(),
        ensures
            self@.valid(),
            self@.timers.processed.dom().finite(),
    {
        self.timers.lemma_finite();
    }

    /// The queue of timer operations has room for some, and never holds more than that.
    pub proof fn lemma_bounded(&self)
        requires
            self.wf(),
        ensures
            0 < self@.timers.capacity,
            self@.timers.queued.len() <= self@.timers.capacity,
    {
        self.timers.lemma_bounded();
    }

    /// The key that the next source gets.
    pub closed spec fn next_key(self) -> usize {
        next_source_key(self.sources)
    }

    /// The slot that the next future to wait on direction `dir` of the source under `key` gets.
    pub closed spec fn next_slot(self, key: usize, dir: usize) -> usize {
        source_slots(self.sources)[key].next_slot(dir)
    }

    /// A reactor without sources and timers, whose timer queue holds `queue_size` operations.
    pub fn new(queue_size: usize) -> (reactor: Reactor)
        requires
            0 < queue_size <= crate::timers::TIMER_QUEUE_SIZE,
        ensures
            reactor.wf(),
            reactor@ == (ReactorView {
                ticker: 0,
                sources: Map::empty(),
                next_serial: 0,
                timers: TimersView::empty(queue_size),
            }),
            reactor.next_key() == 0,
    {
        let reactor = Reactor {
            ticker: 0,
            sources: new_sources(),
            next_serial: 0,
            timers: Timers::new(queue_size),
        };
        assert(reactor@.sources =~= Map::empty());
        reactor
    }

    /// Returns the current ticker.
    pub fn ticker(&self) -> (ticker: usize)
        ensures
            ticker == self@.ticker,
    {
        self.ticker
    }

    /// Creates an I/O source for a handle. The caller adds the handle to the poller under the key that
    /// is returned, and hands the answer to `finish_insert_io`.
    pub fn insert_io(&mut self, registration: Registration) -> (source: SourceId)
        requires
            old(self).wf(),
        ensures
            final(self).wf(),
            source == (SourceId { key: old(self).next_key(), serial: old(self)@.next_serial }),
            !old(self)@.sources.contains_key(source.key),
            final(self)@ == old(self)@.inserted(registration, source.key),
            final(self).next_slot(source.key, READ) == 0,
            final(self).next_slot(source.key, WRITE) == 0,
    {
        let key: usize = vacant_key(&mut self.sources);
        let id = SourceId { key, serial: self.next_serial };
        self.next_serial = self.next_serial.wrapping_add(1);
        let source = Source::new(registration, id);
        let _ = insert_source(&mut self.sources, source);
        assert(self@.sources =~= old(self)@.inserted(registration, key).sources);
        id
    }

    /// Takes the poller's answer to the registration of a source. A source that the poller refused is
    /// removed again.
    pub fn finish_insert_io<E>(&mut self, source: SourceId, added: Result<(), E>) -> (result: Result<
        SourceId,
        E,
    >)
        requires
            old(self).wf(),
            old(self)@.sources.contains_key(source.key),
        ensures
            final(self).wf(),
            match added {
                Ok(_) => result == Ok::<SourceId, E>(source) && *final(self) == *old(self),
                Err(error) => result == Err::<SourceId, E>(error) && final(self)@ == old(self)@.removed(
                    source.key,
                ) && final(self).next_key() == source.key,
            },
    {
        match added {
            Ok(_) => Ok(source),
            Err(error) => {
                let _ = self.remove_io(source);
                Err(error)
            },
        }
    }

    /// Deregisters an I/O source: takes out what stands under its key. The caller deletes the source's handle
    /// from the poller.
    pub fn remove_io(&mut self, source: SourceId) -> (removed: Source)
        requires
            old(self).wf(),
            old(self)@.sources.contains_key(source.key),
        ensures
            final(self).wf(),
            removed@ == old(self)@.sources[source.key],
            final(self)@ == old(self)@.removed(source.key),
            final(self).next_key() == source.key,
    {
        let removed = take_source(&mut self.sources, source.key);
        assert(self@.sources =~= old(self)@.sources.remove(source.key));
        removed
    }

    /// Whether the source is registered.
    pub fn has_source(&self, source: SourceId) -> (found: bool)
        ensures
            found == self@.holds(source),
    {
        match get_source(&self.sources, source.key) {
            Some(found) => found.id() == source,
            None => false,
        }
    }

    /// Registers a timer in the reactor. The caller then notifies the poller.
    ///
    /// Returns the inserted timer's ID. Wakers of timers that were removed meanwhile are moved into
    /// `discard`, to be dropped.
    pub fn insert_timer(&mut self, when: u128, waker: Waker, discard: &mut Vec<Waker>) -> (id: usize)
        requires
            old(self).wf(),
        ensures
            final(self).wf(),
            final(discard)@ == old(discard)@ + old(self)@.timers.displaced_when_full(),
            id == old(self)@.timers.next_id,
            final(self)@ == (ReactorView {
                timers: TimersView {
                    next_id: crate::timers::wrapping_next(id),
                    ..old(self)@.timers.enqueued(crate::timers::TimerOp::Insert(when, id, waker))
                },
                ..old(self)@
            }),
            final(self).next_key() == old(self).next_key(),
    {
        self.timers.insert_timer(when, waker, discard)
    }

    /// Deregisters a timer from the reactor.
    ///
    /// Wakers of timers that were removed meanwhile are moved into `discard`, to be dropped.
    pub fn remove_timer(&mut self, when: u128, id: usize, discard: &mut Vec<Waker>)
        requires
            old(self).wf(),
        ensures
            final(self).wf(),
            final(discard)@ == old(discard)@ + old(self)@.timers.displaced_when_full(),
            final(self)@ == (ReactorView {
                timers: old(self)@.timers.enqueued(crate::timers::TimerOp::Remove(when, id)),
                ..old(self)@
            }),
            final(self).next_key() == old(self).next_key(),
    {
        self.timers.remove_timer(when, id, discard);
        assert(self@.sources == old(self)@.sources);
    }
}

impl ReactorView {
    /// The same reactor with another source under `key`.
    pub open spec fn with_source(self, key: usize, source: SourceView) -> ReactorView {
        ReactorView { sources: self.sources.insert(key, source), ..self }
    }

    /// The source that a future waits on is registered, and so is its slot, if it has one.
    pub open spec fn attached(self, ready: ReadyView) -> bool {
        self.sources.contains_key(ready.source.key) && ready.attached(self.sources[ready.source.key])
    }

    /// What a task that polls direction `dir` of a source changes and gets.
    pub open spec fn poll_source(
        self,
        id: SourceId,
        dir: usize,
        waker: Waker,
        same_task: bool,
    ) -> (ReactorView, PollOutcome) {
        let (source, outcome) = self.sources[id.key].poll_ready(dir, waker, self.ticker, same_task);
        (self.with_source(id.key, source), outcome)
    }

    /// What a task that polls a future with `waker` changes and gets. A future without a slot gets
    /// `next_slot`.
    pub open spec fn poll_ready(
        self,
        ready: ReadyView,
        waker: Waker,
        next_slot: usize,
    ) -> (ReadyView, ReactorView, PollOutcome) {
        let (polled, source, outcome) = ready.poll(
            self.sources[ready.source.key],
            waker,
            self.ticker,
            next_slot,
        );
        (polled, self.with_source(ready.source.key, source), outcome)
    }

    /// The waker in the slot of a future.
    pub open spec fn stored_waker(self, ready: ReadyView) -> Option<Waker> {
        if self.holds(ready.source) {
            ready.stored_in(self.sources[ready.source.key])
        } else {
            None
        }
    }

    /// The reactor without the slot of a future. Where its source is gone, the slot is gone with it, and
    /// whatever stands under the same key now is left alone.
    pub open spec fn without(self, ready: ReadyView) -> ReactorView {
        if self.holds(ready.source) {
            self.with_source(ready.source.key, ready.removed_from(self.sources[ready.source.key]))
        } else {
            self
        }
    }
}

impl Reactor {
    /// The source under `key`, for writing.
    #[verifier::spinoff_prover]
    fn source_mut(&mut self, key: usize) -> (source: &mut Source)
        requires
            old(self).wf(),
            old(self)@.sources.contains_key(key),
        ensures
            source@ == old(self)@.sources[key],
            source.next_slot(READ) == old(self).next_slot(key, READ),
            source.next_slot(WRITE) == old(self).next_slot(key, WRITE),
            final(self)@ == old(self)@.with_source(key, final(source)@),
            final(self).timers == old(self).timers,
            final(self).next_key() == old(self).next_key(),
            final(self).next_slot(key, READ) == final(source).next_slot(READ),
            final(self).next_slot(key, WRITE) == final(source).next_slot(WRITE),
            forall|other: usize, dir: usize|
                other != key ==> #[trigger] final(self).next_slot(other, dir) == old(self).next_slot(
                    other,
                    dir,
                ),
    {
        get_source_mut(&mut self.sources, key).unwrap()
    }

    /// Polls the I/O source for readability.
    pub fn poll_readable(&mut self, source: SourceId, waker: Waker) -> (outcome: PollOutcome)
        requires
            old(self).wf(),
            old(self)@.holds(source),
        ensures
            final(self).wf(),
            exists|same_task: bool|
                (final(self)@, outcome) == #[trigger] old(self)@.poll_source(source, READ, waker, same_task)
                    && slots::compared(
                    old(self)@.sources[source.key].state[READ as int].waker,
                    waker,
                    same_task,
                ),
            final(self).next_key() == old(self).next_key(),
            forall|other: usize, dir: usize|
                dir < 2 ==> #[trigger] final(self).next_slot(other, dir) == old(self).next_slot(other, dir),
    {
        let ticker: usize = self.ticker;
        let outcome = self.source_mut(source.key).poll_readable(waker, ticker);
        proof {
            let same_task = choose|same_task: bool|
                (self@.sources[source.key], outcome) == #[trigger] old(self)@.sources[source.key].poll_ready(
                    READ,
                    waker,
                    ticker,
                    same_task,
                ) && slots::compared(
                    old(self)@.sources[source.key].state[READ as int].waker,
                    waker,
                    same_task,
                );
            assert((self@, outcome) == old(self)@.poll_source(source, READ, waker, same_task));
        }
        outcome
    }

    /// Polls the I/O source for writability.
    pub fn poll_writable(&mut self, source: SourceId, waker: Waker) -> (outcome: PollOutcome)
        requires
            old(self).wf(),
            old(self)@.holds(source),
        ensures
            final(self).wf(),
            exists|same_task: bool|
                (final(self)@, outcome) == #[trigger] old(self)@.poll_source(source, WRITE, waker, same_task)
                    && slots::compared(
                    old(self)@.sources[source.key].state[WRITE as int].waker,
                    waker,
                    same_task,
                ),
            final(self).next_key() == old(self).next_key(),
            forall|other: usize, dir: usize|
                dir < 2 ==> #[trigger] final(self).next_slot(other, dir) == old(self).next_slot(other, dir),
    {
        let ticker: usize = self.ticker;
        let outcome = self.source_mut(source.key).poll_writable(waker, ticker);
        proof {
            let same_task = choose|same_task: bool|
                (self@.sources[source.key], outcome) == #[trigger] old(self)@.sources[source.key].poll_ready(
                    WRITE,
                    waker,
                    ticker,
                    same_task,
                ) && slots::compared(
                    old(self)@.sources[source.key].state[WRITE as int].waker,
                    waker,
                    same_task,
                );
            assert((self@, outcome) == old(self)@.poll_source(source, WRITE, waker, same_task));
        }
        outcome
    }

    /// Whether the source that a future waits on is registered, and its slot, if it has one.
    pub fn is_attached<H, const DIR: usize>(&self, ready: &Ready<H, DIR>) -> (attached: bool)
        requires
            self.wf(),
        ensures
            attached == self@.attached(ready@),
    {
        match get_source(&self.sources, ready.source().key) {
            Some(source) => ready.is_attached(source),
            None => false,
        }
    }

    /// Polls a future that waits on one of the sources.
    pub fn poll_ready<H, const DIR: usize>(&mut self, ready: &mut Ready<H, DIR>, waker: Waker) -> (outcome: PollOutcome)
        requires
            old(self).wf(),
            old(self)@.attached(old(ready)@),
        ensures
            final(self).wf(),
            (final(ready)@, final(self)@, outcome) == old(self)@.poll_ready(
                old(ready)@,
                waker,
                old(self).next_slot(old(ready)@.source.key, old(ready)@.dir),
            ),
            old(ready)@.index is None && outcome is Pending
                ==> !old(self)@.sources[old(ready)@.source.key].state[old(
                ready,
            )@.dir as int].wakers.contains_key(old(self).next_slot(old(ready)@.source.key, old(ready)@.dir)),
            final(self)@.attached(final(ready)@),
            final(ready).handle() == old(ready).handle(),
            final(self).next_key() == old(self).next_key(),
    {
        let ticker: usize = self.ticker;
        let key: usize = ready.source().key;
        ready.poll(self.source_mut(key), waker, ticker)
    }

    /// Removes the slot of a future that is dropped, where its source is still registered. The waker that
    /// was there is returned, to be dropped too.
    pub fn drop_ready<H, const DIR: usize>(&mut self, ready: &mut Ready<H, DIR>) -> (discard: Option<Waker>)
        requires
            old(self).wf(),
        ensures
            final(self).wf(),
            final(self)@ == old(self)@.without(old(ready)@),
            discard == old(self)@.stored_waker(old(ready)@),
            final(ready)@ == (if old(self)@.holds(old(ready)@.source) {
                old(ready)@.dropped()
            } else {
                old(ready)@
            }),
            final(ready).handle() == old(ready).handle(),
            final(self).next_key() == old(self).next_key(),
    {
        let source: SourceId = ready.source();
        if self.has_source(source) {
            ready.drop(self.source_mut(source.key))
        } else {
            None
        }
    }
}

/// The shorter of two timeouts, of which each may be missing.
pub open spec fn shorter(a: Option<u128>, b: Option<u128>) -> Option<u128> {
    match (a, b) {
        (None, None) => None,
        (Some(t), None) => Some(t),
        (None, Some(t)) => Some(t),
        (Some(s), Some(t)) => Some(if s <= t {
            s
        } else {
            t
        }),
    }
}

/// The sources after one event of round `tick`. An event for a key without a source is ignored.
pub open spec fn deliver_event(
    sources: Map<usize, SourceView>,
    event: Event,
    tick: usize,
) -> Map<usize, SourceView> {
    if sources.contains_key(event.key) {
        sources.insert(event.key, sources[event.key].delivered(event, tick))
    } else {
        sources
    }
}

/// The wakers that one event takes out of the sources.
pub open spec fn event_wakers(sources: Map<usize, SourceView>, event: Event) -> Seq<Waker> {
    if sources.contains_key(event.key) {
        sources[event.key].emitted(event)
    } else {
        seq![]
    }
}

/// After this event there are still tasks that wait on its source, so that interest has to be
/// registered again.
pub open spec fn still_awaited(sources: Map<usize, SourceView>, event: Event, tick: usize) -> bool {
    sources.contains_key(event.key) && !sources[event.key].delivered(event, tick).is_empty()
}

/// The sources after events of round `tick`, one after the other.
pub open spec fn deliver_events(
    sources: Map<usize, SourceView>,
    events: Seq<Event>,
    tick: usize,
) -> Map<usize, SourceView>
    decreases events.len(),
{
    if events.len() == 0 {
        sources
    } else {
        deliver_event(deliver_events(sources, events.drop_last(), tick), events.last(), tick)
    }
}

/// The wakers that events of round `tick` take out of the sources, one after the other.
pub open spec fn events_wakers(
    sources: Map<usize, SourceView>,
    events: Seq<Event>,
    tick: usize,
) -> Seq<Waker>
    decreases events.len(),
{
    if events.len() == 0 {
        seq![]
    } else {
        let before = events.drop_last();
        events_wakers(sources, before, tick) + event_wakers(
            deliver_events(sources, before, tick),
            events.last(),
        )
    }
}

/// One round of the reactor, from its start to the answer of the poller.
#[derive(Debug)]
pub struct Round {
    wakers: Vec<Waker>,
    tick: usize,
    timeout: Option<u128>,
}

/// What a round remembers: the wakers collected so far, its tick, and how long the poller may block.
pub struct RoundView {
    pub wakers: Seq<Waker>,
    pub tick: usize,
    pub timeout: Option<u128>,
}

impl View for Round {
    type V = RoundView;

    closed spec fn view(&self) -> RoundView {
        RoundView { wakers: self.wakers@, tick: self.tick, timeout: self.timeout }
    }
}

/// What the poller answered.
#[derive(Debug)]
pub enum Waited<E> {
    /// It counted `count` events, of which `events` concern sources.
    Events { count: usize, events: Vec<Event> },
    /// It failed.
    Failed { error: E, kind: ErrorKind },
}

/// Kinds of failure that the reactor tells apart.
#[derive(Clone, Copy, Debug, PartialEq, Eq, Structural)]
pub enum ErrorKind {
    /// The system call was interrupted.
    Interrupted,
    /// Any other failure.
    Other,
}

/// A round whose events are being delivered.
#[derive(Debug)]
pub struct Delivery {
    wakers: Vec<Waker>,
    tick: usize,
    events: Vec<Event>,
    next: usize,
}

/// What a delivery remembers: the wakers collected so far, the tick of the round, its events, and how
/// many of them were delivered.
pub struct DeliveryView {
    pub wakers: Seq<Waker>,
    pub tick: usize,
    pub events: Seq<Event>,
    pub next: int,
}

impl View for Delivery {
    type V = DeliveryView;

    closed spec fn view(&self) -> DeliveryView {
        DeliveryView {
            wakers: self.wakers@,
            tick: self.tick,
            events: self.events@,
            next: self.next as int,
        }
    }
}

/// What a round needs next.
#[derive(Debug)]
pub enum Step<E> {
    /// The poller has to be told a change of interest; its answer goes to `Delivery::modified`.
    Modify { delivery: Delivery, interest: Interest },
    /// The round is over: the wakers have to be woken, and the result returned.
    Done { wakers: Vec<Waker>, result: Result<(), E> },
    /// The poller refused a change of interest: nobody is woken, the wakers are only dropped, and the error
    /// is returned.
    Failed { discard: Vec<Waker>, error: E },
}

/// Up to where events are delivered before a change of interest has to be registered: behind the
/// first event from `next` on whose source is still awaited, or to the end.
pub open spec fn delivered_until(
    sources: Map<usize, SourceView>,
    events: Seq<Event>,
    next: int,
    tick: usize,
) -> int
    decreases events.len() - next,
{
    if next >= events.len() {
        events.len() as int
    } else if still_awaited(sources, events[next], tick) {
        next + 1
    } else {
        delivered_until(deliver_event(sources, events[next], tick), events, next + 1, tick)
    }
}

impl DeliveryView {
    /// Where the delivery stops next.
    pub open spec fn stop(self, sources: Map<usize, SourceView>) -> int {
        delivered_until(sources, self.events, self.next, self.tick)
    }

    /// The events up to the next stop.
    pub open spec fn batch(self, sources: Map<usize, SourceView>) -> Seq<Event> {
        self.events.subrange(self.next, self.stop(sources))
    }

    /// The source of the last event before the next stop is still awaited.
    pub open spec fn interrupted(self, sources: Map<usize, SourceView>) -> bool {
        let batch = self.batch(sources);
        batch.len() > 0 && still_awaited(
            deliver_events(sources, batch.drop_last(), self.tick),
            batch.last(),
            self.tick,
        )
    }

    /// `step` continues this delivery over `sources` and leaves `after`.
    pub open spec fn continues<E>(
        self,
        sources: Map<usize, SourceView>,
        after: Map<usize, SourceView>,
        step: Step<E>,
    ) -> bool {
        let batch = self.batch(sources);
        let wakers = self.wakers + events_wakers(sources, batch, self.tick);
        &&& after == deliver_events(sources, batch, self.tick)
        &&& match step {
            Step::Modify { delivery, interest } => {
                &&& self.interrupted(sources)
                &&& delivery@ == (DeliveryView { wakers, next: self.stop(sources), ..self })
                &&& interest == after[batch.last().key].interest()
            },
            Step::Done { wakers: woken, result } => {
                &&& !self.interrupted(sources)
                &&& woken@ == wakers
                &&& result is Ok
            },
            Step::Failed { .. } => false,
        }
    }
}

impl Delivery {
    /// No more events were delivered than there are.
    pub open spec fn wf(self) -> bool {
        0 <= self@.next <= self@.events.len()
    }

    /// Delivers events up to the next change of interest, or to the end.
    fn run<E>(self, reactor: &mut Reactor) -> (step: Step<E>)
        requires
            self.wf(),
            old(reactor).wf(),
        ensures
            final(reactor).wf(),
            self@.continues(old(reactor)@.sources, final(reactor)@.sources, step),
            final(reactor)@ == (ReactorView { sources: final(reactor)@.sources, ..old(reactor)@ }),
            final(reactor).next_key() == old(reactor).next_key(),
            step matches Step::Modify { delivery, .. } ==> delivery.wf(),
    {
        let ghost sources = reactor@.sources;
        let Delivery { wakers, tick, events, next } = self;
        let mut wakers = wakers;
        let mut i: usize = next;
        assert(events@.subrange(next as int, i as int) =~= seq![]);
        assert(wakers@ =~= self@.wakers + events_wakers(sources, seq![], tick));
        while i < events.len()
            invariant
                sources == old(reactor)@.sources,
                self@.events == events@,
                self@.next == next,
                self@.tick == tick,
                next <= i <= events.len(),
                reactor.wf(),
                reactor@.ticker == old(reactor)@.ticker,
                reactor@.next_serial == old(reactor)@.next_serial,
                reactor@.timers == old(reactor)@.timers,
                reactor.next_key() == old(reactor).next_key(),
                reactor@.sources == deliver_events(
                    sources,
                    events@.subrange(next as int, i as int),
                    tick,
                ),
                wakers@ == self@.wakers + events_wakers(
                    sources,
                    events@.subrange(next as int, i as int),
                    tick,
                ),
                delivered_until(reactor@.sources, events@, i as int, tick) == self@.stop(sources),
                i > next ==> !still_awaited(
                    deliver_events(sources, events@.subrange(next as int, i - 1), tick),
                    events@[i - 1],
                    tick,
                ),
            decreases events.len() - i,
        {
            let ghost before = reactor@.sources;
            let ghost batch = events@.subrange(next as int, i + 1);
            let event: Event = events[i];
            proof {
                assert(batch.drop_last() =~= events@.subrange(next as int, i as int));
                assert(batch.last() == event);
            }
            i = i + 1;
            // Check if there is a source in the table with this key.
            if let Some(source) = get_source_mut(&mut reactor.sources, event.key) {
                let again = source.deliver(&event, tick, &mut wakers);
                assert(reactor@.sources =~= deliver_event(before, event, tick));
                assert(wakers@ =~= self@.wakers + events_wakers(sources, batch, tick));
                if let Some(interest) = again {
                    proof {
                        assert(self@.stop(sources) == i);
                        assert(self@.batch(sources) =~= batch);
                    }
                    let delivery = Delivery { wakers, tick, events, next: i };
                    return Step::Modify { delivery, interest };
                }
            } else {
                assert(reactor@.sources =~= deliver_event(before, event, tick));
                assert(wakers@ =~= self@.wakers + events_wakers(sources, batch, tick));
            }
        }
        proof {
            assert(self@.batch(sources) =~= events@.subrange(next as int, i as int));
            if self@.batch(sources).len() > 0 {
                assert(self@.batch(sources).drop_last() =~= events@.subrange(next as int, i - 1));
            }
        }
        Step::Done { wakers, result: Ok(()) }
    }

    /// Takes the poller's answer to a change of interest and goes on with the delivery. Where the
    /// poller failed, the round ends, and nobody is woken.
    pub fn modified<E>(self, reactor: &mut Reactor, modified: Result<(), E>) -> (step: Step<E>)
        requires
            self.wf(),
            old(reactor).wf(),
        ensures
            final(reactor).wf(),
            match modified {
                Ok(_) => {
                    &&& self@.continues(old(reactor)@.sources, final(reactor)@.sources, step)
                    &&& final(reactor)@ == (ReactorView {
                        sources: final(reactor)@.sources,
                        ..old(reactor)@
                    })
                },
                Err(error) => {
                    &&& *final(reactor) == *old(reactor)
                    &&& step matches Step::Failed { discard, error: returned }
                    &&& discard@ == self@.wakers
                    &&& returned == error
                },
            },
            final(reactor).next_key() == old(reactor).next_key(),
            step matches Step::Modify { delivery, .. } ==> delivery.wf(),
    {
        match modified {
            Ok(_) => self.run(reactor),
            Err(error) => Step::Failed { discard: self.wakers, error },
        }
    }
}

impl Round {
    /// How long the poller may block.
    pub fn timeout(&self) -> (timeout: Option<u128>)
        ensures
            timeout == self@.timeout,
    {
        self.timeout
    }

    /// Takes the poller's answer, which came at time `now`. Wakers of timers that were removed meanwhile
    /// are moved into `discard`, to be dropped.
    pub fn waited<E>(
        self,
        reactor: &mut Reactor,
        waited: Waited<E>,
        now: u128,
        discard: &mut Vec<Waker>,
    ) -> (step: Step<E>)
        requires
            old(reactor).wf(),
            now < u128::MAX,
        ensures
            final(reactor).wf(),
            match waited {
                Waited::Events { count: 0, .. } => {
                    let late = if self@.timeout == Some(0u128) {
                        seq![]
                    } else {
                        old(reactor)@.timers.due(now)
                    };
                    &&& final(reactor)@ == (ReactorView {
                        timers: if self@.timeout == Some(0u128) {
                            old(reactor)@.timers
                        } else {
                            old(reactor)@.timers.fired(now)
                        },
                        ..old(reactor)@
                    })
                    &&& step matches Step::Done { wakers, result }
                    &&& wakers@ == self@.wakers + late
                    &&& result is Ok
                    &&& final(discard)@ == old(discard)@ + (if self@.timeout == Some(0u128) {
                        seq![]
                    } else {
                        old(reactor)@.timers.displaced()
                    })
                },
                Waited::Events { events, .. } => {
                    &&& (DeliveryView {
                        wakers: self@.wakers,
                        tick: self@.tick,
                        events: events@,
                        next: 0,
                    }).continues(old(reactor)@.sources, final(reactor)@.sources, step)
                    &&& final(reactor)@ == (ReactorView {
                        sources: final(reactor)@.sources,
                        ..old(reactor)@
                    })
                    &&& final(discard)@ == old(discard)@
                },
                Waited::Failed { error, kind } => {
                    &&& *final(reactor) == *old(reactor)
                    &&& final(discard)@ == old(discard)@
                    &&& step matches Step::Done { wakers, result }
                    &&& wakers@ == self@.wakers
                    &&& result == (if kind == ErrorKind::Interrupted {
                        Ok::<(), E>(())
                    } else {
                        Err::<(), E>(error)
                    })
                },
            },
            final(reactor).next_key() == old(reactor).next_key(),
            step matches Step::Modify { delivery, .. } ==> delivery.wf(),
    {
        let Round { wakers, tick, timeout } = self;
        match waited {
            Waited::Events { count, events } => {
                if count == 0 {
                    // No I/O events occurred.
                    let mut wakers = wakers;
                    let zero: bool = match timeout {
                        Some(t) => t == 0,
                        None => false,
                    };
                    if !zero {
                        // The non-zero timeout was hit so fire ready timers.
                        let _ = reactor.timers.process_timers(now, &mut wakers, discard);
                    }
                    assert(reactor@.sources == old(reactor)@.sources);
                    Step::Done { wakers, result: Ok(()) }
                } else {
                    // At least one I/O event occurred.
                    let delivery = Delivery { wakers, tick, events, next: 0 };
                    delivery.run(reactor)
                }
            },
            Waited::Failed { error, kind } => match kind {
                // The syscall was interrupted.
                ErrorKind::Interrupted => Step::Done { wakers, result: Ok(()) },
                // An actual error occurred.
                ErrorKind::Other => Step::Done { wakers, result: Err(error) },
            },
        }
    }
}

impl Reactor {
    /// Starts a round: fires the timers that are ready at time `now`, computes how long the poller may
    /// block, and bumps the ticker. The caller then waits for the poller, and hands its answer to
    /// `Round::waited`.
    ///
    /// Wakers of timers that were removed meanwhile are moved into `discard`, to be dropped.
    pub fn react(&mut self, timeout: Option<u128>, now: u128, discard: &mut Vec<Waker>) -> (round: Round)
        requires
            old(self).wf(),
            now < u128::MAX,
        ensures
            final(self).wf(),
            final(self)@ == (ReactorView {
                ticker: crate::timers::wrapping_next(old(self)@.ticker),
                timers: old(self)@.timers.fired(now),
                ..old(self)@
            }),
            final(self).next_key() == old(self).next_key(),
            final(discard)@ == old(discard)@ + old(self)@.timers.displaced(),
            round@ == (RoundView {
                wakers: old(self)@.timers.due(now),
                tick: final(self)@.ticker,
                timeout: shorter(old(self)@.timers.until_next(now), timeout),
            }),
    {
        let mut wakers: Vec<Waker> = Vec::new();

        // Process ready timers.
        let next_timer: Option<u128> = self.timers.process_timers(now, &mut wakers, discard);

        // Compute the timeout for blocking on I/O events.
        let timeout: Option<u128> = match (next_timer, timeout) {
            (None, None) => None,
            (Some(t), None) | (None, Some(t)) => Some(t),
            (Some(a), Some(b)) => Some(
                if a <= b {
                    a
                } else {
                    b
                },
            ),
        };

        // Bump the ticker before polling I/O.
        self.ticker = self.ticker.wrapping_add(1);
        assert(self@.sources == old(self)@.sources);
        assert(wakers@ =~= old(self)@.timers.due(now));
        Round { wakers, tick: self.ticker, timeout }
    }
}

} // verus!
