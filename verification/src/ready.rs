//! Futures that wait until an I/O object is readable or writable.
use crate::reactor::Reactor;
use crate::source::{PollOutcome, Ready, ReadyView, Source, SourceId, READ, WRITE};
use std::sync::Arc;
use std::task::Waker;
use vstd::prelude::*;

verus! {

/// An I/O object that is registered in the reactor.
#[derive(Debug)]
pub struct Async<T> {
    /// Its source.
    source: SourceId,
    /// The I/O object itself.
    io: T,
}

impl<T> Async<T> {
    /// Its source.
    pub closed spec fn source_id(self) -> SourceId {
        self.source
    }

    /// The I/O object itself.
    pub closed spec fn io(self) -> T {
        self.io
    }

    /// An I/O object with its source.
    pub fn new(source: SourceId, io: T) -> (object: Async<T>)
        ensures
            object.source_id() == source,
            object.io() == io,
    {
        Async { source, io }
    }

    /// Its source.
    pub fn source(&self) -> (source: SourceId)
        ensures
            source == self.source_id(),
    {
        self.source
    }

    /// The I/O object itself.
    pub fn get_ref(&self) -> (io: &T)
        ensures
            *io == self.io(),
    {
        &self.io
    }
}

/// Future for readability of a borrowed I/O object.
#[must_use]
pub struct Readable<'a, T>(Ready<&'a Async<T>, READ>);

/// Future for readability of a shared I/O object.
#[must_use]
pub struct ReadableOwned<T>(Ready<Arc<Async<T>>, READ>);

/// Future for writability of a borrowed I/O object.
#[must_use]
pub struct Writable<'a, T>(Ready<&'a Async<T>, WRITE>);

/// Future for writability of a shared I/O object.
#[must_use]
pub struct WritableOwned<T>(Ready<Arc<Async<T>>, WRITE>);

impl Source {
    /// Waits until the I/O source is readable.
    pub fn readable<T>(handle: &Async<T>) -> (future: Readable<'_, T>)
        ensures
            future@ == ReadyView::unpolled(handle.source_id(), READ),
            future.handle() == handle,
    {
        let source: SourceId = handle.source();
        Readable(Source::ready(handle, source))
    }

    /// Waits until the I/O source is readable.
    pub fn readable_owned<T>(handle: Arc<Async<T>>) -> (future: ReadableOwned<T>)
        ensures
            future@ == ReadyView::unpolled(handle.source_id(), READ),
            future.handle() == handle,
    {
        let source: SourceId = handle.source();
        ReadableOwned(Source::ready(handle, source))
    }

    /// Waits until the I/O source is writable.
    pub fn writable<T>(handle: &Async<T>) -> (future: Writable<'_, T>)
        ensures
            future@ == ReadyView::unpolled(handle.source_id(), WRITE),
            future.handle() == handle,
    {
        let source: SourceId = handle.source();
        Writable(Source::ready(handle, source))
    }

    /// Waits until the I/O source is writable.
    pub fn writable_owned<T>(handle: Arc<Async<T>>) -> (future: WritableOwned<T>)
        ensures
            future@ == ReadyView::unpolled(handle.source_id(), WRITE),
            future.handle() == handle,
    {
        let source: SourceId = handle.source();
        WritableOwned(Source::ready(handle, source))
    }
}

impl<'a, T> View for Readable<'a, T> {
    type V = ReadyView;

    closed spec fn view(&self) -> ReadyView {
        self.0@
    }
}

impl<'a, T> Readable<'a, T> {
    /// The future waits for readability.
    pub proof fn lemma_direction(&self)
        ensures
            self@.dir == READ,
    {
        self.0.lemma_direction();
    }

    /// The handle that the future keeps.
    pub closed spec fn handle(self) -> &'a Async<T> {
        self.0.handle()
    }

    /// Whether the source that the future waits on is registered, and its slot, if it has one.
    pub fn is_attached(&self, reactor: &Reactor) -> (attached: bool)
        requires
            reactor.wf(),
        ensures
            attached == reactor@.attached(self@),
    {
        reactor.is_attached(&self.0)
    }

    /// Polls the future.
    pub fn poll(&mut self, reactor: &mut Reactor, waker: Waker) -> (outcome: PollOutcome)
        requires
            old(reactor).wf(),
            old(reactor)@.attached(old(self)@),
        ensures
            final(reactor).wf(),
            (final(self)@, final(reactor)@, outcome) == old(reactor)@.poll_ready(
                old(self)@,
                waker,
                old(reactor).next_slot(old(self)@.source.key, old(self)@.dir),
            ),
            old(self)@.index is None && outcome is Pending
                ==> !old(reactor)@.sources[old(self)@.source.key].state[old(
                self,
            )@.dir as int].wakers.contains_key(old(reactor).next_slot(old(self)@.source.key, old(self)@.dir)),
            final(reactor)@.attached(final(self)@),
            final(self).handle() == old(self).handle(),
            final(reactor).next_key() == old(reactor).next_key(),
    {
        reactor.poll_ready(&mut self.0, waker)
    }

    /// Removes the future's waker when the future is dropped. The waker is returned, to be dropped too.
    pub fn drop(&mut self, reactor: &mut Reactor) -> (discard: Option<Waker>)
        requires
            old(reactor).wf(),
        ensures
            final(reactor).wf(),
            final(reactor)@ == old(reactor)@.without(old(self)@),
            discard == old(reactor)@.stored_waker(old(self)@),
            final(self)@ == (if old(reactor)@.holds(old(self)@.source) {
                old(self)@.dropped()
            } else {
                old(self)@
            }),
            final(self).handle() == old(self).handle(),
            final(reactor).next_key() == old(reactor).next_key(),
    {
        reactor.drop_ready(&mut self.0)
    }

    /// How the future shows itself in debug output.
    pub fn fmt(&self) -> (text: String)
        ensures
            text@ == "Readable"@,
    {
        "Readable".to_string()
    }
}

impl<T> View for ReadableOwned<T> {
    type V = ReadyView;

    closed spec fn view(&self) -> ReadyView {
        self.0@
    }
}

impl<T> ReadableOwned<T> {
    /// The future waits for readability.
    pub proof fn lemma_direction(&self)
        ensures
            self@.dir == READ,
    {
        self.0.lemma_direction();
    }

    /// The handle that the future keeps.
    pub closed spec fn handle(self) -> Arc<Async<T>> {
        self.0.handle()
    }

    /// Whether the source that the future waits on is registered, and its slot, if it has one.
    pub fn is_attached(&self, reactor: &Reactor) -> (attached: bool)
        requires
            reactor.wf(),
        ensures
            attached == reactor@.attached(self@),
    {
        reactor.is_attached(&self.0)
    }

    /// Polls the future.
    pub fn poll(&mut self, reactor: &mut Reactor, waker: Waker) -> (outcome: PollOutcome)
        requires
            old(reactor).wf(),
            old(reactor)@.attached(old(self)@),
        ensures
            final(reactor).wf(),
            (final(self)@, final(reactor)@, outcome) == old(reactor)@.poll_ready(
                old(self)@,
                waker,
                old(reactor).next_slot(old(self)@.source.key, old(self)@.dir),
            ),
            old(self)@.index is None && outcome is Pending
                ==> !old(reactor)@.sources[old(self)@.source.key].state[old(
                self,
            )@.dir as int].wakers.contains_key(old(reactor).next_slot(old(self)@.source.key, old(self)@.dir)),
            final(reactor)@.attached(final(self)@),
            final(self).handle() == old(self).handle(),
            final(reactor).next_key() == old(reactor).next_key(),
    {
        reactor.poll_ready(&mut self.0, waker)
    }

    /// Removes the future's waker when the future is dropped. The waker is returned, to be dropped too.
    pub fn drop(&mut self, reactor: &mut Reactor) -> (discard: Option<Waker>)
        requires
            old(reactor).wf(),
        ensures
            final(reactor).wf(),
            final(reactor)@ == old(reactor)@.without(old(self)@),
            discard == old(reactor)@.stored_waker(old(self)@),
            final(self)@ == (if old(reactor)@.holds(old(self)@.source) {
                old(self)@.dropped()
            } else {
                old(self)@
            }),
            final(self).handle() == old(self).handle(),
            final(reactor).next_key() == old(reactor).next_key(),
    {
        reactor.drop_ready(&mut self.0)
    }

    /// How the future shows itself in debug output.
    pub fn fmt(&self) -> (text: String)
        ensures
            text@ == "ReadableOwned"@,
    {
        "ReadableOwned".to_string()
    }
}

impl<'a, T> View for Writable<'a, T> {
    type V = ReadyView;

    closed spec fn view(&self) -> ReadyView {
        self.0@
    }
}

impl<'a, T> Writable<'a, T> {
    /// The future waits for writability.
    pub proof fn lemma_direction(&self)
        ensures
            self@.dir == WRITE,
    {
        self.0.lemma_direction();
    }

    /// The handle that the future keeps.
    pub closed spec fn handle(self) -> &'a Async<T> {
        self.0.handle()
    }

    /// Whether the source that the future waits on is registered, and its slot, if it has one.
    pub fn is_attached(&self, reactor: &Reactor) -> (attached: bool)
        requires
            reactor.wf(),
        ensures
            attached == reactor@.attached(self@),
    {
        reactor.is_attached(&self.0)
    }

    /// Polls the future.
    pub fn poll(&mut self, reactor: &mut Reactor, waker: Waker) -> (outcome: PollOutcome)
        requires
            old(reactor).wf(),
            old(reactor)@.attached(old(self)@),
        ensures
            final(reactor).wf(),
            (final(self)@, final(reactor)@, outcome) == old(reactor)@.poll_ready(
                old(self)@,
                waker,
                old(reactor).next_slot(old(self)@.source.key, old(self)@.dir),
            ),
            old(self)@.index is None && outcome is Pending
                ==> !old(reactor)@.sources[old(self)@.source.key].state[old(
                self,
            )@.dir as int].wakers.contains_key(old(reactor).next_slot(old(self)@.source.key, old(self)@.dir)),
            final(reactor)@.attached(final(self)@),
            final(self).handle() == old(self).handle(),
            final(reactor).next_key() == old(reactor).next_key(),
    {
        reactor.poll_ready(&mut self.0, waker)
    }

    /// Removes the future's waker when the future is dropped. The waker is returned, to be dropped too.
    pub fn drop(&mut self, reactor: &mut Reactor) -> (discard: Option<Waker>)
        requires
            old(reactor).wf(),
        ensures
            final(reactor).wf(),
            final(reactor)@ == old(reactor)@.without(old(self)@),
            discard == old(reactor)@.stored_waker(old(self)@),
            final(self)@ == (if old(reactor)@.holds(old(self)@.source) {
                old(self)@.dropped()
            } else {
                old(self)@
            }),
            final(self).handle() == old(self).handle(),
            final(reactor).next_key() == old(reactor).next_key(),
    {
        reactor.drop_ready(&mut self.0)
    }

    /// How the future shows itself in debug output.
    pub fn fmt(&self) -> (text: String)
        ensures
            text@ == "Writable"@,
    {
        "Writable".to_string()
    }
}

impl<T> View for WritableOwned<T> {
    type V = ReadyView;

    closed spec fn view(&self) -> ReadyView {
        self.0@
    }
}

impl<T> WritableOwned<T> {
    /// The future waits for writability.
    pub proof fn lemma_direction(&self)
        ensures
            self@.dir == WRITE,
    {
        self.0.lemma_direction();
    }

    /// The handle that the future keeps.
    pub closed spec fn handle(self) -> Arc<Async<T>> {
        self.0.handle()
    }

    /// Whether the source that the future waits on is registered, and its slot, if it has one.
    pub fn is_attached(&self, reactor: &Reactor) -> (attached: bool)
        requires
            reactor.wf(),
        ensures
            attached == reactor@.attached(self@),
    {
        reactor.is_attached(&self.0)
    }

    /// Polls the future.
    pub fn poll(&mut self, reactor: &mut Reactor, waker: Waker) -> (outcome: PollOutcome)
        requires
            old(reactor).wf(),
            old(reactor)@.attached(old(self)@),
        ensures
            final(reactor).wf(),
            (final(self)@, final(reactor)@, outcome) == old(reactor)@.poll_ready(
                old(self)@,
                waker,
                old(reactor).next_slot(old(self)@.source.key, old(self)@.dir),
            ),
            old(self)@.index is None && outcome is Pending
                ==> !old(reactor)@.sources[old(self)@.source.key].state[old(
                self,
            )@.dir as int].wakers.contains_key(old(reactor).next_slot(old(self)@.source.key, old(self)@.dir)),
            final(reactor)@.attached(final(self)@),
            final(self).handle() == old(self).handle(),
            final(reactor).next_key() == old(reactor).next_key(),
    {
        reactor.poll_ready(&mut self.0, waker)
    }

    /// Removes the future's waker when the future is dropped. The waker is returned, to be dropped too.
    pub fn drop(&mut self, reactor: &mut Reactor) -> (discard: Option<Waker>)
        requires
            old(reactor).wf(),
        ensures
            final(reactor).wf(),
            final(reactor)@ == old(reactor)@.without(old(self)@),
            discard == old(reactor)@.stored_waker(old(self)@),
            final(self)@ == (if old(reactor)@.holds(old(self)@.source) {
                old(self)@.dropped()
            } else {
                old(self)@
            }),
            final(self).handle() == old(self).handle(),
            final(reactor).next_key() == old(reactor).next_key(),
    {
        reactor.drop_ready(&mut self.0)
    }

    /// How the future shows itself in debug output.
    pub fn fmt(&self) -> (text: String)
        ensures
            text@ == "WritableOwned"@,
    {
        "WritableOwned".to_string()
    }
}

} // verus!
