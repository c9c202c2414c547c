//! Wakers, and the slab of waker slots that one direction of a source keeps.
use slab::Slab;
use std::task::Waker;
use vstd::prelude::*;

verus! {

/// `std::task::Waker`: a handle that wakes one task. The reactor carries wakers from the tasks that
/// register them to the caller that wakes them, and never looks inside.
#[verifier::external_type_specification]
#[verifier::external_body]
pub struct ExWaker(Waker);

/// `Waker::will_wake`: compares two wakers. The answer depends on addresses and is best effort, so
/// nothing is claimed of it.
pub assume_specification[ Waker::will_wake ](waker: &Waker, other: &Waker) -> (same: bool);

/// `same_task` is what comparing the registered waker, if there is one, with `waker` can give.
pub open spec fn compared(registered: Option<Waker>, waker: Waker, same_task: bool) -> bool {
    registered matches Some(held) ==> call_ensures(Waker::will_wake, (&held, &waker), same_task)
}

/// `slab::Slab`: storage with one stable key per stored item.
#[verifier::external_type_specification]
#[verifier::external_body]
#[verifier::reject_recursive_types(T)]
pub struct ExSlab<T>(Slab<T>);

/// What a slab of waker slots holds: each occupied slot, by its key.
pub uninterp spec fn waker_slots(slab: Slab<Option<Waker>>) -> Map<usize, Option<Waker>>;

/// The key that a slab of waker slots gives to the next item.
pub uninterp spec fn next_waker_slot(slab: Slab<Option<Waker>>) -> usize;

/// `Slab::new`: a slab with no occupied slot, which starts with key zero.
#[verifier::external_body]
pub(crate) fn new_waker_slots() -> (slots: Slab<Option<Waker>>)
    ensures
        waker_slots(slots).is_empty(),
        next_waker_slot(slots) == 0,
{
    Slab::new()
}

/// `Slab::insert`: stores the item under the key that is next, which was free, and returns that key.
/// Which free key is next after that depends on the history of the slab and is left unsaid. As with a
/// `Vec`, memory is taken for granted: it panics where the storage would exceed `isize::MAX` bytes.
#[verifier::external_body]
pub(crate) fn insert_waker_slot(slots: &mut Slab<Option<Waker>>, waker: Option<Waker>) -> (key: usize)
    ensures
        key == next_waker_slot(*old(slots)),
        !waker_slots(*old(slots)).contains_key(key),
        waker_slots(*final(slots)) == waker_slots(*old(slots)).insert(key, waker),
{
    slots.insert(waker)
}

/// `Slab::remove`: takes the item out of an occupied slot, whose key is then next. On a key that is
/// not occupied it panics.
#[verifier::external_body]
pub(crate) fn remove_waker_slot(slots: &mut Slab<Option<Waker>>, key: usize) -> (waker: Option<Waker>)
    requires
        waker_slots(*old(slots)).contains_key(key),
    ensures
        waker == waker_slots(*old(slots))[key],
        waker_slots(*final(slots)) == waker_slots(*old(slots)).remove(key),
        next_waker_slot(*final(slots)) == key,
{
    slots.remove(key)
}

/// `Slab::contains`: whether a slot is occupied.
#[verifier::external_body]
pub(crate) fn has_waker_slot(slots: &Slab<Option<Waker>>, key: usize) -> (occupied: bool)
    ensures
        occupied == waker_slots(*slots).contains_key(key),
{
    slots.contains(key)
}

/// `Slab::get`: the item in a slot, where the slot is occupied.
#[verifier::external_body]
pub(crate) fn waker_slot(slots: &Slab<Option<Waker>>, key: usize) -> (slot: Option<&Option<Waker>>)
    ensures
        match slot {
            Some(item) => waker_slots(*slots).contains_key(key) && *item == waker_slots(*slots)[key],
            None => !waker_slots(*slots).contains_key(key),
        },
{
    slots.get(key)
}

/// `Slab`'s `IndexMut::index_mut`: the item in an occupied slot, for writing. On a key that is not
/// occupied it panics.
#[verifier::external_body]
pub(crate) fn waker_slot_mut(slots: &mut Slab<Option<Waker>>, key: usize) -> (slot: &mut Option<Waker>)
    requires
        waker_slots(*old(slots)).contains_key(key),
    ensures
        *slot == waker_slots(*old(slots))[key],
        waker_slots(*final(slots)) == waker_slots(*old(slots)).insert(key, *final(slot)),
        next_waker_slot(*final(slots)) == next_waker_slot(*old(slots)),
{
    &mut slots[key]
}

/// `Slab::iter`, of which the keys are kept: the keys of the occupied slots, in increasing order.
#[verifier::external_body]
pub(crate) fn waker_slot_keys(slots: &Slab<Option<Waker>>) -> (keys: Vec<usize>)
    ensures
        forall|i: int, j: int| 0 <= i < j < keys@.len() ==> keys@[i] < keys@[j],
        forall|key: usize| keys@.contains(key) <==> waker_slots(*slots).contains_key(key),
{
    slots.iter().map(|(key, _)| key).collect()
}

/// The wakers in the slots with a key below `bound`, in the order of the keys.
pub open spec fn slot_wakers_below(slots: Map<usize, Option<Waker>>, bound: nat) -> Seq<Waker>
    decreases bound,
{
    if bound == 0 {
        Seq::empty()
    } else {
        let key = (bound - 1) as usize;
        let below = slot_wakers_below(slots, (bound - 1) as nat);
        match slots.get(key) {
            Some(Some(waker)) => below.push(waker),
            _ => below,
        }
    }
}

/// The wakers in all slots, in the order of the keys.
pub open spec fn slot_wakers(slots: Map<usize, Option<Waker>>) -> Seq<Waker> {
    slot_wakers_below(slots, usize::MAX as nat + 1)
}

/// No slot holds a waker.
pub open spec fn slots_vacated(slots: Map<usize, Option<Waker>>) -> bool {
    forall|key: usize| #[trigger] slots.contains_key(key) ==> slots[key] is None
}

/// Slots that are not occupied add nothing.
pub proof fn lemma_slot_wakers_gap(slots: Map<usize, Option<Waker>>, low: nat, high: nat)
    requires
        low <= high <= usize::MAX + 1,
        forall|key: usize| low <= key < high ==> !slots.contains_key(key),
    ensures
        slot_wakers_below(slots, high) == slot_wakers_below(slots, low),
    decreases high,
{
    if low < high {
        lemma_slot_wakers_gap(slots, low, (high - 1) as nat);
        assert(!slots.contains_key((high - 1) as usize));
    }
}

/// Slots without wakers add nothing.
pub proof fn lemma_vacated_slots_hold_no_wakers(slots: Map<usize, Option<Waker>>, bound: nat)
    requires
        bound <= usize::MAX + 1,
        slots_vacated(slots),
    ensures
        slot_wakers_below(slots, bound) == Seq::<Waker>::empty(),
    decreases bound,
{
    if bound > 0 {
        lemma_vacated_slots_hold_no_wakers(slots, (bound - 1) as nat);
        let key = (bound - 1) as usize;
        if slots.contains_key(key) {
            assert(slots[key] is None);
        }
    }
}

/// Where the slots below the `i`th key end.
pub open spec fn slot_bound(keys: Seq<usize>, i: int) -> nat {
    if i < keys.len() {
        keys[i] as nat
    } else {
        usize::MAX as nat + 1
    }
}

/// No slot is occupied between two neighbouring keys of an increasing list of all keys.
pub proof fn lemma_slot_keys_gap(slots: Map<usize, Option<Waker>>, keys: Seq<usize>, i: int)
    requires
        0 <= i <= keys.len(),
        forall|a: int, b: int| 0 <= a < b < keys.len() ==> keys[a] < keys[b],
        forall|key: usize| keys.contains(key) <==> slots.contains_key(key),
    ensures
        i == 0 ==> slot_wakers_below(slots, slot_bound(keys, 0)) == Seq::<Waker>::empty(),
        i > 0 ==> slot_wakers_below(slots, slot_bound(keys, i)) == slot_wakers_below(
            slots,
            keys[i - 1] as nat + 1,
        ),
        forall|key: usize|
            #![trigger slots.contains_key(key)]
            slots.contains_key(key) ==> (key < slot_bound(keys, i) <==> (i > 0 && key <= keys[i - 1])),
{
    let low: nat = if i == 0 { 0 } else { keys[i - 1] as nat + 1 };
    assert forall|key: usize| #![trigger slots.contains_key(key)] slots.contains_key(key) implies (key < slot_bound(keys, i) <==> key < low) by {
        assert(keys.contains(key));
        let j = choose|j: int| 0 <= j < keys.len() && keys[j] == key;
        if j < i - 1 {
            assert(keys[j] < keys[i - 1]);
        }
        if i < j {
            assert(keys[i] < keys[j]);
        }
    }
    if 0 < i < keys.len() {
        assert(keys[i - 1] < keys[i]);
    }
    lemma_slot_wakers_gap(slots, low, slot_bound(keys, i));
}

} // verus!
