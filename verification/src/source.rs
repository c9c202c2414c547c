//! I/O sources: what each direction of a source remembers, and how tasks wait on it.
use crate::slots;
use slab::Slab;
use std::task::Waker;
use vstd::prelude::*;

verus! {

/// Index of the read direction.
pub const READ: usize = 0;

/// Index of the write direction.
pub const WRITE: usize = 1;

/// A read or write direction.
#[derive(Debug)]
pub struct Direction {
    /// Last reactor tick that delivered an event.
    tick: usize,
    /// Ticks remembered by `Source::poll_readable` or `Source::poll_writable`.
    ticks: Option<(usize, usize)>,
    /// Waker stored by `Source::poll_readable` or `Source::poll_writable`.
    waker: Option<Waker>,
    /// Wakers of tasks waiting for the next event, one slot for each future.
    wakers: Slab<Option<Waker>>,
}

/// What a direction holds.
#[verifier::ext_equal]
pub struct DirectionView {
    pub tick: usize,
    pub ticks: Option<(usize, usize)>,
    pub waker: Option<Waker>,
    pub wakers: Map<usize, Option<Waker>>,
}

/// One waker or none, as a sequence.
pub open spec fn optional_waker(waker: Option<Waker>) -> Seq<Waker> {
    match waker {
        Some(w) => seq![w],
        None => seq![],
    }
}

/// An event was delivered in a round other than the two that `ticks` remembers.
pub open spec fn fresh_event(tick: usize, ticks: Option<(usize, usize)>) -> bool {
    ticks matches Some((a, b)) && tick != a && tick != b
}

impl DirectionView {
    /// No event yet, nobody waits.
    pub open spec fn idle() -> DirectionView {
        DirectionView { tick: 0, ticks: None, waker: None, wakers: Map::empty() }
    }

    /// No waker is interested in this direction.
    pub open spec fn is_empty(self) -> bool {
        self.waker is None && slots::slots_vacated(self.wakers)
    }

    /// The wakers interested in this direction: the polling task's, then those of the slots.
    pub open spec fn waiting(self) -> Seq<Waker> {
        optional_waker(self.waker) + slots::slot_wakers(self.wakers)
    }

    /// The same direction without its wakers. The slots stay occupied.
    pub open spec fn drained(self) -> DirectionView {
        DirectionView {
            waker: None,
            wakers: self.wakers.map_values(|waker: Option<Waker>| None),
            ..self
        }
    }
}

impl View for Direction {
    type V = DirectionView;

    closed spec fn view(&self) -> DirectionView {
        DirectionView {
            tick: self.tick,
            ticks: self.ticks,
            waker: self.waker,
            wakers: slots::waker_slots(self.wakers),
        }
    }
}

impl Default for Direction {
    fn default() -> (direction: Self)
        ensures
            direction@ == DirectionView::idle(),
            direction.next_slot() == 0,
    {
        let direction = Direction { tick: 0, ticks: None, waker: None, wakers: slots::new_waker_slots() };
        assert(direction@.wakers =~= Map::empty());
        direction
    }
}

impl Direction {
    /// The slot that the next future to wait on this direction gets.
    pub closed spec fn next_slot(self) -> usize {
        slots::next_waker_slot(self.wakers)
    }

    /// Returns `true` if there are no wakers interested in this direction.
    pub fn is_empty(&self) -> (empty: bool)
        ensures
            empty == self@.is_empty(),
    {
        if self.waker.is_some() {
            return false;
        }
        let keys = slots::waker_slot_keys(&self.wakers);
        let mut i: usize = 0;
        while i < keys.len()
            invariant
                i <= keys.len(),
                forall|key: usize|
                    keys@.contains(key) <==> slots::waker_slots(self.wakers).contains_key(key),
                forall|j: int|
                    0 <= j < i ==> slots::waker_slots(self.wakers)[#[trigger] keys@[j]] is None,
                self.waker is None,
            decreases keys.len() - i,
        {
            assert(keys@.contains(keys@[i as int]));
            if let Some(Some(_)) = slots::waker_slot(&self.wakers, keys[i]) {
                return false;
            }
            i = i + 1;
        }
        assert forall|key: usize| #[trigger] self@.wakers.contains_key(key) implies self@.wakers[key] is None by {
            assert(keys@.contains(key));
        }
        true
    }

    /// Moves all wakers into a `Vec`.
    pub fn drain_into(&mut self, dst: &mut Vec<Waker>)
        ensures
            final(self)@ == old(self)@.drained(),
            final(self).next_slot() == old(self).next_slot(),
            final(dst)@ == old(dst)@ + old(self)@.waiting(),
    {
        let ghost held = slots::waker_slots(self.wakers);
        if let Some(waker) = self.waker.take() {
            dst.push(waker);
        }
        let ghost start = dst@;
        let keys = slots::waker_slot_keys(&self.wakers);
        proof {
            slots::lemma_slot_keys_gap(held, keys@, 0);
        }
        let mut i: usize = 0;
        while i < keys.len()
            invariant
                i <= keys.len(),
                forall|a: int, b: int| 0 <= a < b < keys@.len() ==> keys@[a] < keys@[b],
                forall|key: usize| keys@.contains(key) <==> held.contains_key(key),
                slots::waker_slots(self.wakers).dom() == held.dom(),
                forall|key: usize|
                    #![trigger slots::waker_slots(self.wakers)[key]]
                    held.contains_key(key) ==> slots::waker_slots(self.wakers)[key] == (if key
                        < slots::slot_bound(keys@, i as int) {
                        None
                    } else {
                        held[key]
                    }),
                self.tick == old(self).tick,
                self.ticks == old(self).ticks,
                self.waker is None,
                slots::next_waker_slot(self.wakers) == slots::next_waker_slot(old(self).wakers),
                dst@ == start + slots::slot_wakers_below(held, slots::slot_bound(keys@, i as int)),
            decreases keys.len() - i,
        {
            let key: usize = keys[i];
            assert(keys@.contains(key));
            proof {
                slots::lemma_slot_keys_gap(held, keys@, i + 1);
            }
            if let Some(waker) = slots::waker_slot_mut(&mut self.wakers, key).take() {
                dst.push(waker);
            }
            i = i + 1;
        }
        assert(self@.wakers =~= old(self)@.drained().wakers);
    }
}

/// The handle under which the poller knows an I/O object: a raw file descriptor or socket.
#[derive(Clone, Copy, Debug, PartialEq, Eq, Structural)]
pub struct Registration {
    pub raw: u64,
}

/// What names a source: the key under which it stands in the table, and its serial number. A key is given
/// out again once its source is gone, a serial number only after all others were, so that no other source
/// is taken for it.
#[derive(Clone, Copy, Debug, PartialEq, Eq, Structural)]
pub struct SourceId {
    pub key: usize,
    pub serial: u64,
}

/// Interest in an I/O source, or the readiness of one: which of the two operations, under which key.
#[derive(Clone, Copy, Debug, PartialEq, Eq, Structural)]
pub struct Event {
    pub key: usize,
    pub readable: bool,
    pub writable: bool,
}

impl Event {
    /// No kind of event.
    pub fn none(key: usize) -> (event: Event)
        ensures
            event == (Event { key, readable: false, writable: false }),
    {
        Event { key, readable: false, writable: false }
    }
}

/// A change of interest that the poller has to be told.
#[derive(Clone, Copy, Debug, PartialEq, Eq, Structural)]
pub struct Interest {
    pub registration: Registration,
    pub event: Event,
}

/// Whether a value is available or not yet.
#[derive(Debug, PartialEq, Eq)]
pub enum Poll<T> {
    Ready(T),
    Pending,
}

/// What one poll of a source leads to.
#[derive(Debug)]
pub enum PollOutcome {
    /// An event was delivered.
    Ready,
    /// The task has to wait. The waker in `wake` was replaced and has to be woken; the one in `discard`
    /// was replaced by another waker of the same future and is only dropped; the change of interest has
    /// to reach the poller.
    Pending { wake: Option<Waker>, discard: Option<Waker>, interest: Option<Interest> },
}

impl PollOutcome {
    /// The change of interest that the poller has to be told, if there is one.
    pub fn interest(&self) -> (interest: Option<Interest>)
        ensures
            interest == self.change(),
    {
        match self {
            PollOutcome::Ready => None,
            PollOutcome::Pending { interest, .. } => *interest,
        }
    }

    /// The change of interest that the poller has to be told, if there is one.
    pub open spec fn change(self) -> Option<Interest> {
        match self {
            PollOutcome::Ready => None,
            PollOutcome::Pending { interest, .. } => interest,
        }
    }

    /// The result of the poll, once the poller has answered the change of interest, if there was one.
    pub fn resolve<E>(&self, modified: Result<(), E>) -> (poll: Poll<Result<(), E>>)
        ensures
            poll == (match *self {
                PollOutcome::Ready => Poll::Ready(Ok(())),
                PollOutcome::Pending { interest, .. } => match (interest, modified) {
                    (Some(_), Err(error)) => Poll::Ready(Err(error)),
                    _ => Poll::Pending,
                },
            }),
    {
        match self {
            PollOutcome::Ready => Poll::Ready(Ok(())),
            PollOutcome::Pending { interest, .. } => match (interest, modified) {
                (Some(_), Err(error)) => Poll::Ready(Err(error)),
                _ => Poll::Pending,
            },
        }
    }
}

/// A registered source of I/O events.
#[derive(Debug)]
pub struct Source {
    /// This source's registration into the reactor.
    registration: Registration,
    /// The key of this source obtained during registration.
    key: usize,
    /// The serial number of this source.
    serial: u64,
    /// Inner state with registered wakers.
    state: [Direction; 2],
}

/// What a source holds: its two directions are `state[READ]` and `state[WRITE]`.
#[verifier::ext_equal]
pub struct SourceView {
    pub registration: Registration,
    pub key: usize,
    pub serial: u64,
    pub state: Seq<DirectionView>,
}

impl View for Source {
    type V = SourceView;

    closed spec fn view(&self) -> SourceView {
        SourceView {
            registration: self.registration,
            key: self.key,
            serial: self.serial,
            state: Seq::new(2, |dir: int| self.state@[dir]@),
        }
    }
}

impl SourceView {
    /// A source on which nobody waits.
    pub open spec fn idle(registration: Registration, id: SourceId) -> SourceView {
        SourceView {
            registration,
            key: id.key,
            serial: id.serial,
            state: seq![DirectionView::idle(), DirectionView::idle()],
        }
    }

    /// What names the source.
    pub open spec fn id(self) -> SourceId {
        SourceId { key: self.key, serial: self.serial }
    }

    /// The same source with another direction `dir`.
    pub open spec fn with_direction(self, dir: usize, direction: DirectionView) -> SourceView {
        SourceView { state: self.state.update(dir as int, direction), ..self }
    }

    /// No task waits for either operation.
    pub open spec fn is_empty(self) -> bool {
        self.state[READ as int].is_empty() && self.state[WRITE as int].is_empty()
    }

    /// Interest in each operation for which some task waits.
    pub open spec fn interest(self) -> Interest {
        Interest {
            registration: self.registration,
            event: Event {
                key: self.key,
                readable: !self.state[READ as int].is_empty(),
                writable: !self.state[WRITE as int].is_empty(),
            },
        }
    }

    /// What a task that polls direction `dir` with `waker` changes and gets. `same_task` says whether
    /// the waker that is registered already, if any, wakes the same task.
    pub open spec fn poll_ready(
        self,
        dir: usize,
        waker: Waker,
        ticker: usize,
        same_task: bool,
    ) -> (SourceView, PollOutcome) {
        let direction = self.state[dir as int];
        let registered = self.with_direction(
            dir,
            DirectionView { waker: Some(waker), ticks: Some((ticker, direction.tick)), ..direction },
        );
        if fresh_event(direction.tick, direction.ticks) {
            (self.with_direction(dir, DirectionView { ticks: None, ..direction }), PollOutcome::Ready)
        } else if direction.waker is Some && same_task {
            (self, PollOutcome::Pending { wake: None, discard: None, interest: None })
        } else {
            (
                registered,
                PollOutcome::Pending {
                    wake: direction.waker,
                    discard: None,
                    interest: if direction.is_empty() {
                        Some(registered.interest())
                    } else {
                        None
                    },
                },
            )
        }
    }
}

impl Source {
    /// A source has two directions.
    pub proof fn lemma_two_directions(&self)
        ensures
            self@.state.len() == 2,
    {
    }

    /// The slot that the next future to wait on direction `dir` gets.
    pub closed spec fn next_slot(self, dir: usize) -> usize {
        self.state@[dir as int].next_slot()
    }

    /// A source on which nobody waits.
    pub(crate) fn new(registration: Registration, id: SourceId) -> (source: Source)
        ensures
            source@ == SourceView::idle(registration, id),
            source.next_slot(READ) == 0,
            source.next_slot(WRITE) == 0,
    {
        let source = Source {
            registration,
            key: id.key,
            serial: id.serial,
            state: [Direction::default(), Direction::default()],
        };
        assert(source@.state =~= seq![DirectionView::idle(), DirectionView::idle()]);
        source
    }

    /// The handle of this source.
    pub fn registration(&self) -> (registration: Registration)
        ensures
            registration == self@.registration,
    {
        self.registration
    }

    /// What names this source.
    pub fn id(&self) -> (id: SourceId)
        ensures
            id == self@.id(),
    {
        SourceId { key: self.key, serial: self.serial }
    }

    /// Interest in each operation for which some task waits.
    pub fn interest(&self) -> (interest: Interest)
        ensures
            interest == self@.interest(),
    {
        let mut event = Event::none(self.key);
        event.readable = !self.state[READ].is_empty();
        event.writable = !self.state[WRITE].is_empty();
        Interest { registration: self.registration, event }
    }

    /// Polls the I/O source for readability.
    pub fn poll_readable(&mut self, waker: Waker, ticker: usize) -> (outcome: PollOutcome)
        ensures
            exists|same_task: bool|
                (final(self)@, outcome) == #[trigger] old(self)@.poll_ready(READ, waker, ticker, same_task)
                    && slots::compared(old(self)@.state[READ as int].waker, waker, same_task),
            final(self).next_slot(READ) == old(self).next_slot(READ),
            final(self).next_slot(WRITE) == old(self).next_slot(WRITE),
    {
        self.poll_ready(READ, waker, ticker)
    }

    /// Polls the I/O source for writability.
    pub fn poll_writable(&mut self, waker: Waker, ticker: usize) -> (outcome: PollOutcome)
        ensures
            exists|same_task: bool|
                (final(self)@, outcome) == #[trigger] old(self)@.poll_ready(WRITE, waker, ticker, same_task)
                    && slots::compared(old(self)@.state[WRITE as int].waker, waker, same_task),
            final(self).next_slot(READ) == old(self).next_slot(READ),
            final(self).next_slot(WRITE) == old(self).next_slot(WRITE),
    {
        self.poll_ready(WRITE, waker, ticker)
    }

    /// Registers a waker from `poll_readable` or `poll_writable`.
    ///
    /// If a different waker is already registered, it gets replaced and woken.
    pub fn poll_ready(&mut self, dir: usize, waker: Waker, ticker: usize) -> (outcome: PollOutcome)
        requires
            dir < 2,
        ensures
            exists|same_task: bool|
                (final(self)@, outcome) == #[trigger] old(self)@.poll_ready(dir, waker, ticker, same_task)
                    && slots::compared(old(self)@.state[dir as int].waker, waker, same_task),
            final(self).next_slot(READ) == old(self).next_slot(READ),
            final(self).next_slot(WRITE) == old(self).next_slot(WRITE),
    {
        let will_wake = Waker::will_wake;
        let same_task: bool = match &self.state[dir].waker {
            Some(registered) => will_wake(registered, &waker),
            None => false,
        };
        self.register(dir, waker, ticker, same_task)
    }

    /// Registers a waker, given whether the one that is registered already wakes the same task.
    pub fn register(&mut self, dir: usize, waker: Waker, ticker: usize, same_task: bool) -> (outcome:
        PollOutcome)
        requires
            dir < 2,
        ensures
            (final(self)@, outcome) == old(self)@.poll_ready(dir, waker, ticker, same_task),
            final(self).next_slot(READ) == old(self).next_slot(READ),
            final(self).next_slot(WRITE) == old(self).next_slot(WRITE),
    {
        let ghost before = self@;
        // Check if the reactor has delivered an event.
        if let Some((a, b)) = self.state[dir].ticks {
            // If the tick has changed to a value other than the old reactor tick, that means a newer
            // reactor tick has delivered an event.
            if self.state[dir].tick != a && self.state[dir].tick != b {
                self.state[dir].ticks = None;
                assert(self@.state =~= before.poll_ready(dir, waker, ticker, same_task).0.state);
                return PollOutcome::Ready;
            }
        }
        let was_empty = self.state[dir].is_empty();

        if self.state[dir].waker.is_some() && same_task {
            return PollOutcome::Pending { wake: None, discard: None, interest: None };
        }
        // A previous waker gets replaced: the caller wakes it.
        let wake = self.state[dir].waker.take();
        self.state[dir].waker = Some(waker);
        let tick: usize = self.state[dir].tick;
        self.state[dir].ticks = Some((ticker, tick));
        assert(self@.state =~= before.poll_ready(dir, waker, ticker, same_task).0.state);

        // Update interest in this I/O handle.
        let interest = if was_empty {
            Some(self.interest())
        } else {
            None
        };
        PollOutcome::Pending { wake, discard: None, interest }
    }
}

impl SourceView {
    /// The source after an event of round `tick`: each emitted direction has the tick and no wakers.
    pub open spec fn delivered(self, event: Event, tick: usize) -> SourceView {
        SourceView {
            state: Seq::new(
                2,
                |dir: int|
                    if event.emits(dir) {
                        DirectionView { tick, ..self.state[dir].drained() }
                    } else {
                        self.state[dir]
                    },
            ),
            ..self
        }
    }

    /// The wakers that an event takes out: writers first, then readers.
    pub open spec fn emitted(self, event: Event) -> Seq<Waker> {
        let writers = if event.writable {
            self.state[WRITE as int].waiting()
        } else {
            seq![]
        };
        let readers = if event.readable {
            self.state[READ as int].waiting()
        } else {
            seq![]
        };
        writers + readers
    }
}

impl Event {
    /// The event concerns direction `dir`.
    pub open spec fn emits(self, dir: int) -> bool {
        (dir == READ && self.readable) || (dir == WRITE && self.writable)
    }
}

impl Source {
    /// Takes an event of round `tick`: collects the wakers of each emitted direction, and returns the
    /// interest to register again if there are still writers or readers.
    pub(crate) fn deliver(&mut self, event: &Event, tick: usize, wakers: &mut Vec<Waker>) -> (again:
        Option<Interest>)
        ensures
            final(self)@ == old(self)@.delivered(*event, tick),
            final(wakers)@ == old(wakers)@ + old(self)@.emitted(*event),
            again == (if final(self)@.is_empty() {
                None
            } else {
                Some(final(self)@.interest())
            }),
            final(self).next_slot(READ) == old(self).next_slot(READ),
            final(self).next_slot(WRITE) == old(self).next_slot(WRITE),
    {
        if event.writable {
            self.state[WRITE].tick = tick;
            self.state[WRITE].drain_into(wakers);
        }
        if event.readable {
            self.state[READ].tick = tick;
            self.state[READ].drain_into(wakers);
        }
        assert(self@.state =~= old(self)@.delivered(*event, tick).state);
        // This can happen if e.g. there was interest in both readability and writability, but only one
        // of them was emitted.
        if !self.state[READ].is_empty() || !self.state[WRITE].is_empty() {
            Some(self.interest())
        } else {
            None
        }
    }
}

/// Waits until an I/O source is readable or writable: until there is an event for direction `DIR`.
#[derive(Debug)]
pub struct Ready<H, const DIR: usize> {
    /// Keeps the I/O object alive.
    handle: H,
    /// The source.
    source: SourceId,
    /// Ticks remembered at the first poll.
    ticks: Option<(usize, usize)>,
    /// The slot of this future's waker.
    index: Option<usize>,
}

/// What a waiting future remembers.
pub struct ReadyView {
    pub source: SourceId,
    pub dir: usize,
    pub ticks: Option<(usize, usize)>,
    pub index: Option<usize>,
}

impl<H, const DIR: usize> View for Ready<H, DIR> {
    type V = ReadyView;

    closed spec fn view(&self) -> ReadyView {
        ReadyView { source: self.source, dir: DIR, ticks: self.ticks, index: self.index }
    }
}

impl ReadyView {
    /// A future that was not polled yet.
    pub open spec fn unpolled(source: SourceId, dir: usize) -> ReadyView {
        ReadyView { source, dir, ticks: None, index: None }
    }

    /// The future waits on this source, and its slot, if it has one, is still there.
    pub open spec fn attached(self, source: SourceView) -> bool {
        &&& self.dir < 2
        &&& self.source == source.id()
        &&& self.index matches Some(i) ==> source.state[self.dir as int].wakers.contains_key(i)
    }

    /// What a task that polls this future with `waker` changes and gets. A future without a slot
    /// gets `next_slot`.
    pub open spec fn poll(
        self,
        source: SourceView,
        waker: Waker,
        ticker: usize,
        next_slot: usize,
    ) -> (ReadyView, SourceView, PollOutcome) {
        let direction = source.state[self.dir as int];
        let (index, ticks) = match self.index {
            Some(i) => (i, self.ticks),
            None => (next_slot, Some((ticker, direction.tick))),
        };
        let registered = source.with_direction(
            self.dir,
            DirectionView { wakers: direction.wakers.insert(index, Some(waker)), ..direction },
        );
        if fresh_event(direction.tick, self.ticks) {
            (self, source, PollOutcome::Ready)
        } else {
            (
                ReadyView { ticks, index: Some(index), ..self },
                registered,
                PollOutcome::Pending {
                    wake: None,
                    discard: match self.index {
                        Some(i) => direction.wakers[i],
                        None => None,
                    },
                    interest: if direction.is_empty() {
                        Some(registered.interest())
                    } else {
                        None
                    },
                },
            )
        }
    }

    /// The waker in this future's slot.
    pub open spec fn stored_in(self, source: SourceView) -> Option<Waker> {
        let wakers = source.state[self.dir as int].wakers;
        match self.index {
            Some(i) => if wakers.contains_key(i) {
                wakers[i]
            } else {
                None
            },
            None => None,
        }
    }

    /// The future without its slot.
    pub open spec fn dropped(self) -> ReadyView {
        ReadyView { index: None, ..self }
    }

    /// The source without this future's slot.
    pub open spec fn removed_from(self, source: SourceView) -> SourceView {
        let direction = source.state[self.dir as int];
        match self.index {
            Some(i) => source.with_direction(
                self.dir,
                DirectionView { wakers: direction.wakers.remove(i), ..direction },
            ),
            None => source,
        }
    }
}

impl Source {
    /// Waits until the I/O source is readable or writable.
    pub fn ready<H, const DIR: usize>(handle: H, source: SourceId) -> (ready: Ready<H, DIR>)
        requires
            DIR < 2,
        ensures
            ready@ == ReadyView::unpolled(source, DIR),
            ready.handle() == handle,
    {
        Ready { handle, source, ticks: None, index: None }
    }
}

impl<H, const DIR: usize> Ready<H, DIR> {
    /// There are two directions.
    #[verifier::type_invariant]
    spec fn two_directions(self) -> bool {
        DIR < 2
    }

    /// The future waits on the direction that its type names.
    pub proof fn lemma_direction(&self)
        ensures
            self@.dir == DIR,
    {
    }

    /// The handle that the future keeps.
    pub closed spec fn handle(self) -> H {
        self.handle
    }

    /// The source that the future waits on.
    pub fn source(&self) -> (source: SourceId)
        ensures
            source == self@.source,
    {
        self.source
    }

    /// Whether the future waits on this source, and its slot, if it has one, is still there.
    pub fn is_attached(&self, source: &Source) -> (attached: bool)
        ensures
            attached == self@.attached(source@),
    {
        DIR < 2 && self.source == source.id() && match self.index {
            Some(i) => slots::has_waker_slot(&source.state[DIR].wakers, i),
            None => true,
        }
    }

    /// Polls the future: either an event was delivered since the first poll, or the waker is stored.
    pub fn poll(&mut self, source: &mut Source, waker: Waker, ticker: usize) -> (outcome: PollOutcome)
        requires
            old(self)@.attached(old(source)@),
        ensures
            (final(self)@, final(source)@, outcome) == old(self)@.poll(
                old(source)@,
                waker,
                ticker,
                old(source).next_slot(old(self)@.dir),
            ),
            old(self)@.index is None && outcome is Pending ==> !old(source)@.state[old(
                self,
            )@.dir as int].wakers.contains_key(old(source).next_slot(old(self)@.dir)),
            final(self)@.attached(final(source)@),
            final(self).handle() == old(self).handle(),
    {
        let dir: usize = DIR;
        // Check if the reactor has delivered an event.
        if let Some((a, b)) = self.ticks {
            // If the tick has changed to a value other than the old reactor tick, that means a newer
            // reactor tick has delivered an event.
            if source.state[dir].tick != a && source.state[dir].tick != b {
                return PollOutcome::Ready;
            }
        }
        let was_empty = source.state[dir].is_empty();

        // Register the current task's waker.
        let i: usize = match self.index {
            Some(i) => i,
            None => {
                let i: usize = slots::insert_waker_slot(&mut source.state[dir].wakers, None);
                self.index = Some(i);
                self.ticks = Some((ticker, source.state[dir].tick));
                i
            },
        };
        let slot = slots::waker_slot_mut(&mut source.state[dir].wakers, i);
        let discard = slot.take();
        *slot = Some(waker);
        proof {
            let after = old(self)@.poll(old(source)@, waker, ticker, old(source).next_slot(dir)).1;
            assert(source@.state[dir as int].wakers =~= after.state[dir as int].wakers);
            assert(source@.state =~= after.state);
        }

        // Update interest in this I/O handle.
        let interest = if was_empty {
            Some(source.interest())
        } else {
            None
        };
        PollOutcome::Pending { wake: None, discard, interest }
    }

    /// Removes the future's waker when the future is dropped, from the source that it waits on and from no
    /// other. The waker is returned, to be dropped too.
    pub fn drop(&mut self, source: &mut Source) -> (discard: Option<Waker>)
        ensures
            if old(self)@.source == old(source)@.id() {
                &&& final(self)@ == old(self)@.dropped()
                &&& final(source)@ == old(self)@.removed_from(old(source)@)
                &&& discard == old(self)@.stored_in(old(source)@)
            } else {
                &&& *final(self) == *old(self)
                &&& *final(source) == *old(source)
                &&& discard is None
            },
            final(self).handle() == old(self).handle(),
            final(self)@.dir < 2,
    {
        proof {
            use_type_invariant(&*self);
        }
        let mut discard: Option<Waker> = None;
        if self.source != source.id() {
            return None;
        }
        if let Some(i) = self.index {
            if slots::has_waker_slot(&source.state[DIR].wakers, i) {
                discard = slots::remove_waker_slot(&mut source.state[DIR].wakers, i);
            }
        }
        self.index = None;
        proof {
            let after = old(self)@.removed_from(old(source)@);
            if old(self).index is Some {
                assert(source@.state[DIR as int].wakers =~= after.state[DIR as int].wakers);
            }
            assert(source@.state =~= after.state);
        }
        discard
    }
}

} // verus!
