//! Timers: an ordered map of timers, and the queue of operations on it.
//!
//! Points in time are nanoseconds on a monotonic clock, durations are nanoseconds.
use concurrent_queue::{ConcurrentQueue, PushError};
use std::collections::BTreeMap;
use std::task::Waker;
use vstd::prelude::*;
use vstd::std_specs::iter::IteratorSpec;

verus! {

/// How many timer operations wait in the queue at most.
pub const TIMER_QUEUE_SIZE: usize = 1000;

/// The same on ESP-IDF, which, being an embedded OS, does not need so many timers.
pub const ESPIDF_TIMER_QUEUE_SIZE: usize = 100;

/// When a timer fires, and the ID that distinguishes timers that fire at the same time.
pub type TimerKey = (u128, usize);

/// A single timer operation.
#[derive(Debug)]
pub enum TimerOp {
    Insert(u128, usize, Waker),
    Remove(u128, usize),
}

/// `concurrent_queue::ConcurrentQueue`: a queue of items.
#[verifier::external_type_specification]
#[verifier::external_body]
#[verifier::reject_recursive_types(T)]
pub struct ExConcurrentQueue<T>(ConcurrentQueue<T>);

/// The operations in a queue, the oldest first.
pub uninterp spec fn queued_ops(queue: ConcurrentQueue<TimerOp>) -> Seq<TimerOp>;

/// How many operations a queue can hold.
pub uninterp spec fn queue_capacity(queue: ConcurrentQueue<TimerOp>) -> Option<usize>;

/// A queue was not closed.
pub uninterp spec fn queue_open(queue: ConcurrentQueue<TimerOp>) -> bool;

/// `ConcurrentQueue::bounded`: an empty, open queue for `capacity` items. With no capacity it panics, and
/// so it does with one that memory cannot hold.
#[verifier::external_body]
fn bounded_queue(capacity: usize) -> (queue: ConcurrentQueue<TimerOp>)
    requires
        0 < capacity <= TIMER_QUEUE_SIZE,
    ensures
        queued_ops(queue).len() == 0,
        queue_capacity(queue) == Some(capacity),
        queue_open(queue),
{
    ConcurrentQueue::bounded(capacity)
}

/// `ConcurrentQueue::capacity`: the number of items for which a bounded queue has room.
#[verifier::external_body]
fn capacity_of(queue: &ConcurrentQueue<TimerOp>) -> (capacity: Option<usize>)
    ensures
        capacity == queue_capacity(*queue),
{
    queue.capacity()
}

/// `ConcurrentQueue::push`, by the only user of the queue: appends the item where the queue is open
/// and has room, and otherwise changes nothing.
#[verifier::external_body]
fn push_op(queue: &mut ConcurrentQueue<TimerOp>, op: TimerOp) -> (pushed: Result<(), TimerOp>)
    ensures
        queue_capacity(*final(queue)) == queue_capacity(*old(queue)),
        queue_open(*final(queue)) == queue_open(*old(queue)),
        pushed is Ok <==> queue_open(*old(queue)) && (queue_capacity(*old(queue)) matches Some(capacity)
            ==> queued_ops(*old(queue)).len() < capacity),
        match pushed {
            Ok(_) => queued_ops(*final(queue)) == queued_ops(*old(queue)).push(op),
            Err(back) => back == op && queued_ops(*final(queue)) == queued_ops(*old(queue)),
        },
{
    match queue.push(op) {
        Ok(()) => Ok(()),
        Err(PushError::Full(op)) => Err(op),
        Err(PushError::Closed(op)) => Err(op),
    }
}

/// `ConcurrentQueue::pop`, by the only user of the queue: takes out the oldest item, if there is one.
#[verifier::external_body]
fn pop_op(queue: &mut ConcurrentQueue<TimerOp>) -> (popped: Option<TimerOp>)
    ensures
        queue_capacity(*final(queue)) == queue_capacity(*old(queue)),
        queue_open(*final(queue)) == queue_open(*old(queue)),
        popped is Some <==> queued_ops(*old(queue)).len() > 0,
        match popped {
            Some(op) => op == queued_ops(*old(queue)).first() && queued_ops(*final(queue))
                == queued_ops(*old(queue)).drop_first(),
            None => queued_ops(*final(queue)) == queued_ops(*old(queue)),
        },
{
    queue.pop().ok()
}

/// The order of timers: by the time, then by the ID.
pub open spec fn fires_before(a: TimerKey, b: TimerKey) -> bool {
    a.0 < b.0 || (a.0 == b.0 && a.1 < b.1)
}

/// `BTreeMap::split_off`: leaves what comes before `key`, and returns the rest.
#[verifier::external_body]
fn split_off(timers: &mut BTreeMap<TimerKey, Waker>, key: &TimerKey) -> (rest: BTreeMap<TimerKey, Waker>)
    ensures
        final(timers)@ == old(timers)@.restrict(Set::new(|k: TimerKey| fires_before(k, *key))),
        rest@ == old(timers)@.restrict(Set::new(|k: TimerKey| !fires_before(k, *key))),
{
    timers.split_off(key)
}

/// `key` is in the set and comes before all others.
pub open spec fn is_least(keys: Set<TimerKey>, key: TimerKey) -> bool {
    keys.contains(key) && forall|other: TimerKey|
        #[trigger] keys.contains(other) && other != key ==> fires_before(key, other)
}

/// The least key of a map of timers, if there are timers.
fn first_key(timers: &BTreeMap<TimerKey, Waker>) -> (first: Option<TimerKey>)
    ensures
        match first {
            Some(key) => is_least(timers@.dom(), key),
            None => timers@.is_empty(),
        },
{
    broadcast use vstd::laws_cmp::group_laws_cmp;
    for key in keys: timers.keys()
        invariant
            keys.index() == 0,
            keys.seq() == timers.keys().remaining(),
    {
        proof {
            let all = keys.seq();
            assert(key == all[0]);
            assert(vstd::laws_cmp::obeys_cmp::<TimerKey>());
            assert(vstd::laws_cmp::obeys_cmp::<&TimerKey>());
            assert(vstd::std_specs::btree::increasing_seq(all));
            assert(all.unref().to_set() == timers@.dom());
            assert(all.unref()[0] == *key);
            assert(timers@.dom().contains(*key));
            assert forall|other: TimerKey| #[trigger] timers@.dom().contains(other) && other != *key implies fires_before(*key, other) by {
                assert(all.unref().contains(other));
                let j = choose|j: int| 0 <= j < all.len() && all.unref()[j] == other;
                assert(*all[j] == other);
                assert(vstd::std_specs::cmp::OrdSpec::cmp_spec(&all[0], &all[j]) is Less);
            }
        }
        return Some(*key);
    }
    None
}

/// Takes out the timer with the least key, if there are timers.
fn pop_first(timers: &mut BTreeMap<TimerKey, Waker>) -> (first: Option<(TimerKey, Waker)>)
    ensures
        match first {
            Some((key, waker)) => is_least(old(timers)@.dom(), key) && waker == old(timers)@[key]
                && final(timers)@ == old(timers)@.remove(key),
            None => old(timers)@.is_empty() && final(timers)@ == old(timers)@,
        },
{
    match first_key(timers) {
        Some(key) => {
            let waker = timers.remove(&key).unwrap();
            Some((key, waker))
        },
        None => None,
    }
}

/// The least of a set of timers.
pub open spec fn least(keys: Set<TimerKey>) -> TimerKey {
    choose|key: TimerKey| is_least(keys, key)
}

/// A set of timers in the order in which they fire.
pub open spec fn in_order(keys: Set<TimerKey>) -> Seq<TimerKey>
    decreases keys.len(),
{
    if keys.finite() && (exists|key: TimerKey| is_least(keys, key)) {
        seq![least(keys)] + in_order(keys.remove(least(keys)))
    } else {
        seq![]
    }
}

/// The timers of a set that are set for `now` or before.
pub open spec fn due_keys(keys: Set<TimerKey>, now: u128) -> Set<TimerKey> {
    keys.filter(|key: TimerKey| key.0 <= now)
}

/// What one operation makes of a map of timers.
pub open spec fn apply_op(timers: Map<TimerKey, Waker>, op: TimerOp) -> Map<TimerKey, Waker> {
    match op {
        TimerOp::Insert(when, id, waker) => timers.insert((when, id), waker),
        TimerOp::Remove(when, id) => timers.remove((when, id)),
    }
}

/// What operations make of a map of timers, one after the other.
pub open spec fn apply_ops(timers: Map<TimerKey, Waker>, ops: Seq<TimerOp>) -> Map<TimerKey, Waker>
    decreases ops.len(),
{
    if ops.len() == 0 {
        timers
    } else {
        apply_op(apply_ops(timers, ops.drop_last()), ops.last())
    }
}

/// The waker that one operation takes out of a map of timers: that of the timer that it replaces or
/// removes.
pub open spec fn op_displaces(timers: Map<TimerKey, Waker>, op: TimerOp) -> Seq<Waker> {
    let key = match op {
        TimerOp::Insert(when, id, _) => (when, id),
        TimerOp::Remove(when, id) => (when, id),
    };
    if timers.contains_key(key) {
        seq![timers[key]]
    } else {
        seq![]
    }
}

/// The wakers that operations take out of a map of timers, one after the other.
pub open spec fn ops_displace(timers: Map<TimerKey, Waker>, ops: Seq<TimerOp>) -> Seq<Waker>
    decreases ops.len(),
{
    if ops.len() == 0 {
        seq![]
    } else {
        ops_displace(timers, ops.drop_last()) + op_displaces(
            apply_ops(timers, ops.drop_last()),
            ops.last(),
        )
    }
}

/// The registered timers and the queued operations on them.
pub struct Timers {
    /// An ordered map of registered timers.
    ///
    /// Timers are in the order in which they fire. The ID distinguishes timers that fire at the same
    /// time. The waker represents the task awaiting the timer.
    timers: BTreeMap<TimerKey, Waker>,
    /// A queue of timer operations (insert and remove).
    ///
    /// When inserting or removing a timer, it is not processed immediately, but pushed into this
    /// queue. Timers actually get processed when the queue fills up or the reactor is polled.
    ops: ConcurrentQueue<TimerOp>,
    /// The ID of the next timer.
    next_id: usize,
}

/// The timers that were processed, and what still waits in the queue.
#[verifier::ext_equal]
pub struct TimersView {
    pub processed: Map<TimerKey, Waker>,
    pub queued: Seq<TimerOp>,
    pub capacity: usize,
    pub next_id: usize,
}

impl TimersView {
    /// No timers; IDs start at one.
    pub open spec fn empty(capacity: usize) -> TimersView {
        TimersView { processed: Map::empty(), queued: seq![], capacity, next_id: 1 }
    }

    /// The timers that are registered, whether or not the queue was processed.
    pub open spec fn registered(self) -> Map<TimerKey, Waker> {
        apply_ops(self.processed, self.queued)
    }

    /// The same timers with nothing left in the queue.
    pub open spec fn settled(self) -> TimersView {
        TimersView { processed: self.registered(), queued: seq![], ..self }
    }

    /// The timers after one more operation. A full queue is processed first.
    pub open spec fn enqueued(self, op: TimerOp) -> TimersView {
        if self.queued.len() < self.capacity {
            TimersView { queued: self.queued.push(op), ..self }
        } else {
            TimersView { queued: seq![op], ..self.settled() }
        }
    }

    /// The wakers that processing the queue takes out.
    pub open spec fn displaced(self) -> Seq<Waker> {
        ops_displace(self.processed, self.queued)
    }

    /// The wakers that are taken out when one more operation is made: none, unless the queue is full and
    /// has to be processed first.
    pub open spec fn displaced_when_full(self) -> Seq<Waker> {
        if self.queued.len() < self.capacity {
            seq![]
        } else {
            self.displaced()
        }
    }

    /// Some timer is set for `now` or before.
    pub open spec fn any_due(self, now: u128) -> bool {
        exists|key: TimerKey| #[trigger] self.registered().contains_key(key) && key.0 <= now
    }

    /// The wakers of the timers that are due, in the order in which the timers fire.
    pub open spec fn due(self, now: u128) -> Seq<Waker> {
        in_order(due_keys(self.registered().dom(), now)).map_values(
            |key: TimerKey| self.registered()[key],
        )
    }

    /// The timers that are left when those that are due have fired.
    pub open spec fn fired(self, now: u128) -> TimersView {
        TimersView {
            processed: self.registered().restrict(Set::new(|key: TimerKey| key.0 > now)),
            ..self.settled()
        }
    }

    /// How long it is until the next timer fires: no time at all if one is due, and none if there are
    /// no timers.
    pub open spec fn until_next(self, now: u128) -> Option<u128> {
        if self.any_due(now) {
            Some(0)
        } else if self.registered().is_empty() {
            None
        } else {
            Some((least(self.registered().dom()).0 - now) as u128)
        }
    }
}

impl View for Timers {
    type V = TimersView;

    closed spec fn view(&self) -> TimersView {
        TimersView {
            processed: self.timers@,
            queued: queued_ops(self.ops),
            capacity: queue_capacity(self.ops)->0,
            next_id: self.next_id,
        }
    }
}

/// Two least keys are one.
pub proof fn lemma_least_is_unique(keys: Set<TimerKey>, key: TimerKey)
    requires
        is_least(keys, key),
    ensures
        least(keys) == key,
{
}

/// The operations on a queue can be applied from its front.
pub proof fn lemma_apply_ops_from_front(timers: Map<TimerKey, Waker>, ops: Seq<TimerOp>)
    requires
        ops.len() > 0,
    ensures
        apply_ops(timers, ops) == apply_ops(apply_op(timers, ops.first()), ops.drop_first()),
        ops_displace(timers, ops) == op_displaces(timers, ops.first()) + ops_displace(
            apply_op(timers, ops.first()),
            ops.drop_first(),
        ),
    decreases ops.len(),
{
    let after = apply_op(timers, ops.first());
    if ops.len() > 1 {
        lemma_apply_ops_from_front(timers, ops.drop_last());
        assert(ops.drop_last().drop_first() =~= ops.drop_first().drop_last());
        assert(ops_displace(timers, ops) =~= op_displaces(timers, ops.first()) + ops_displace(
            after,
            ops.drop_first(),
        ));
    } else {
        assert(ops_displace(timers, ops.drop_last()) =~= seq![]);
        assert(ops_displace(after, ops.drop_first()) =~= seq![]);
        assert(apply_ops(timers, ops.drop_last()) == timers);
        assert(apply_ops(after, ops.drop_first()) == after);
        assert(ops_displace(timers, ops) =~= op_displaces(timers, ops.first()) + ops_displace(
            after,
            ops.drop_first(),
        ));
    }
}

impl Timers {
    /// The queue is open, has room for some operations, and holds no more than that.
    pub closed spec fn wf(self) -> bool {
        &&& queue_open(self.ops)
        &&& queue_capacity(self.ops) is Some
        &&& 0 < self@.capacity
        &&& self@.queued.len() <= self@.capacity
    }

    /// The queue has room for some operations, and never holds more than that.
    pub proof fn lemma_bounded(&self)
        requires
            self.wf(),
        ensures
            0 < self@.capacity,
            self@.queued.len() <= self@.capacity,
    {
    }

    /// There are finitely many timers.
    pub proof fn lemma_finite(&self)
        ensures
            self@.processed.dom().finite(),
    {
    }

    /// No timers.
    pub fn new(queue_size: usize) -> (timers: Timers)
        requires
            0 < queue_size <= TIMER_QUEUE_SIZE,
        ensures
            timers.wf(),
            timers@ == TimersView::empty(queue_size),
    {
        Timers { timers: BTreeMap::new(), ops: bounded_queue(queue_size), next_id: 1 }
    }

    /// Registers a timer. Returns the inserted timer's ID.
    ///
    /// Wakers of timers that were removed meanwhile are moved into `discard`, to be dropped.
    pub fn insert_timer(&mut self, when: u128, waker: Waker, discard: &mut Vec<Waker>) -> (id: usize)
        requires
            old(self).wf(),
        ensures
            final(self).wf(),
            final(discard)@ == old(discard)@ + old(self)@.displaced_when_full(),
            id == old(self)@.next_id,
            final(self)@ == (TimersView {
                next_id: wrapping_next(old(self)@.next_id),
                ..old(self)@.enqueued(TimerOp::Insert(when, id, waker))
            }),
    {
        // Generate a new timer ID.
        let id: usize = self.next_id;
        self.next_id = self.next_id.wrapping_add(1);
        self.push(TimerOp::Insert(when, id, waker), discard);
        id
    }

    /// Deregisters a timer.
    ///
    /// Wakers of timers that were removed meanwhile are moved into `discard`, to be dropped.
    pub fn remove_timer(&mut self, when: u128, id: usize, discard: &mut Vec<Waker>)
        requires
            old(self).wf(),
        ensures
            final(self).wf(),
            final(discard)@ == old(discard)@ + old(self)@.displaced_when_full(),
            final(self)@ == old(self)@.enqueued(TimerOp::Remove(when, id)),
    {
        self.push(TimerOp::Remove(when, id), discard);
    }

    /// Pushes an operation into the queue.
    fn push(&mut self, op: TimerOp, discard: &mut Vec<Waker>)
        requires
            old(self).wf(),
        ensures
            final(self).wf(),
            final(self)@ == old(self)@.enqueued(op),
            final(discard)@ == old(discard)@ + old(self)@.displaced_when_full(),
    {
        let mut op = op;
        let ghost pushed = op;
        loop
            invariant_except_break
                self.wf(),
                op == pushed,
                (self@ == old(self)@ && discard@ == old(discard)@) || (old(self)@.queued.len()
                    == old(self)@.capacity && self@ == old(self)@.settled() && discard@ == old(
                    discard,
                )@ + old(self)@.displaced()),
            ensures
                self.wf(),
                self@ == old(self)@.enqueued(pushed),
                discard@ == old(discard)@ + old(self)@.displaced_when_full(),
            decreases self@.queued.len(),
        {
            match push_op(&mut self.ops, op) {
                Ok(_) => {
                    break ;
                },
                // If the queue is full, drain it and try again.
                Err(back) => {
                    op = back;
                    self.process_timer_ops(discard);
                },
            }
        }
    }

    /// Processes queued timer operations.
    ///
    /// Wakers of timers that are removed are moved into `discard`, to be dropped.
    pub fn process_timer_ops(&mut self, discard: &mut Vec<Waker>)
        requires
            old(self).wf(),
        ensures
            final(self).wf(),
            final(discard)@ == old(discard)@ + old(self)@.displaced(),
            final(self)@ == old(self)@.settled(),
    {
        // Process only as much as fits into the queue, or else this loop could in theory run forever.
        let capacity: usize = capacity_of(&self.ops).unwrap();
        let mut processed: usize = 0;
        while processed < capacity
            invariant
                self.wf(),
                self@.registered() == old(self)@.registered(),
                discard@ + self@.displaced() == old(discard)@ + old(self)@.displaced(),
                self@.queued.len() <= capacity - processed,
                processed <= capacity,
                self@.capacity == old(self)@.capacity,
                self@.next_id == old(self)@.next_id,
            decreases self@.queued.len(),
        {
            proof {
                if self@.queued.len() > 0 {
                    lemma_apply_ops_from_front(self@.processed, self@.queued);
                }
            }
            let ghost before = self@;
            let displaced = match pop_op(&mut self.ops) {
                Some(TimerOp::Insert(when, id, waker)) => self.timers.insert((when, id), waker),
                Some(TimerOp::Remove(when, id)) => self.timers.remove(&(when, id)),
                None => {
                    assert(self@.queued =~= seq![]);
                    assert(discard@ + self@.displaced() =~= discard@);
                    return ;
                },
            };
            let ghost discarded = discard@;
            if let Some(waker) = displaced {
                discard.push(waker);
            }
            proof {
                assert(discard@ =~= discarded + op_displaces(before.processed, before.queued.first()));
                assert(discard@ + self@.displaced() =~= discarded + before.displaced());
            }
            processed = processed + 1;
        }
        assert(self@.queued =~= seq![]);
        assert(discard@ + self@.displaced() =~= discard@);
    }
}

/// The keys of a map of timers, one after the other in the order in which the timers fire, are those
/// that taking the first one out again and again gives.
proof fn lemma_in_order_step(keys: Set<TimerKey>, first: TimerKey)
    requires
        keys.finite(),
        is_least(keys, first),
    ensures
        in_order(keys) == seq![first] + in_order(keys.remove(first)),
{
    lemma_least_is_unique(keys, first);
}

impl Timers {
    /// Processes ready timers and extends the list of wakers to wake.
    ///
    /// Returns the duration until the next timer before this method was called. Wakers of timers that are
    /// removed are moved into `discard`, to be dropped.
    pub fn process_timers(&mut self, now: u128, wakers: &mut Vec<Waker>, discard: &mut Vec<Waker>) -> (until_next:
        Option<u128>)
        requires
            old(self).wf(),
            now < u128::MAX,
        ensures
            final(self).wf(),
            final(self)@ == old(self)@.fired(now),
            final(wakers)@ == old(wakers)@ + old(self)@.due(now),
            final(discard)@ == old(discard)@ + old(self)@.displaced(),
            until_next == old(self)@.until_next(now),
    {
        self.process_timer_ops(discard);
        let ghost registered = self.timers@;

        // Split timers into ready and pending timers.
        //
        // Careful to split just *after* `now`, so that a timer set for exactly `now` is considered ready.
        let mut ready = split_off(&mut self.timers, &(now + 1, 0));
        std::mem::swap(&mut ready, &mut self.timers);
        proof {
            assert(self.timers@ =~= old(self)@.fired(now).processed);
            assert(ready@.dom() =~= due_keys(registered.dom(), now));
        }

        // Calculate the duration until the next event.
        let until_next: Option<u128> = if ready.is_empty() {
            // Duration until the next timer.
            proof {
                assert forall|key: TimerKey| #[trigger] registered.contains_key(key) implies key.0 > now by {
                    if key.0 <= now {
                        assert(ready@.dom().contains(key));
                    }
                }
                assert(self.timers@ =~= registered);
            }
            match first_key(&self.timers) {
                Some((when, id)) => {
                    proof {
                        lemma_least_is_unique(registered.dom(), (when, id));
                    }
                    Some(when - now)
                },
                None => None,
            }
        } else {
            // Timers are about to fire right now.
            proof {
                let key = ready@.dom().choose();
                assert(ready@.dom().contains(key));
                assert(registered.contains_key(key));
            }
            Some(0)
        };

        // Add wakers to the list.
        let ghost fired = ready@.dom();
        let ghost start = wakers@;
        let ghost wakers_of = |key: TimerKey| registered[key];
        loop
            invariant_except_break
                forall|key: TimerKey| #[trigger]
                    ready@.contains_key(key) ==> ready@[key] == registered[key],
                wakers@ + in_order(ready@.dom()).map_values(wakers_of) == start + in_order(
                    fired,
                ).map_values(wakers_of),
                wakers_of == (|key: TimerKey| registered[key]),
            ensures
                wakers@ == start + in_order(fired).map_values(wakers_of),
            decreases ready@.dom().len(),
        {
            let ghost rest = ready@.dom();
            match pop_first(&mut ready) {
                Some((key, waker)) => {
                    proof {
                        lemma_in_order_step(rest, key);
                        assert(ready@.dom() =~= rest.remove(key));
                        assert(in_order(rest).map_values(wakers_of) =~= seq![waker] + in_order(
                            ready@.dom(),
                        ).map_values(wakers_of));
                    }
                    let ghost before = wakers@;
                    wakers.push(waker);
                    assert(wakers@ + in_order(ready@.dom()).map_values(wakers_of) =~= before
                        + in_order(rest).map_values(wakers_of));
                },
                None => {
                    assert(in_order(rest) =~= seq![]);
                    assert(wakers@ + in_order(rest).map_values(wakers_of) =~= wakers@);
                    break ;
                },
            }
        }
        until_next
    }
}

/// The next value of a counter that starts over at zero.
pub open spec fn wrapping_next(counter: usize) -> usize {
    if counter == usize::MAX {
        0
    } else {
        (counter + 1) as usize
    }
}

} // verus!
