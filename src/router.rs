//! The broadcast router: a bounded first-in first-out queue of inbound
//! messages, and the plan for handing one message to every live connection.
use std::collections::VecDeque;
use vstd::prelude::*;

use crate::codec::{encode, frame};
use crate::message::Epistle;
use crate::registry::{failed_ids, Registry};

verus! {

/// A queue with room for at most `capacity` messages.
pub struct InboundQueue<T> {
    items: VecDeque<T>,
    capacity: usize,
}

/// A queue that holds `len` items has room for one more.
pub open spec fn has_room(len: nat, capacity: nat) -> bool {
    len < capacity
}

impl<T> View for InboundQueue<T> {
    type V = Seq<T>;

    closed spec fn view(&self) -> Seq<T> {
        self.items@
    }
}

impl<T> InboundQueue<T> {
    pub closed spec fn capacity(&self) -> nat {
        self.capacity as nat
    }

    pub fn new(capacity: usize) -> (r: InboundQueue<T>)
        ensures
            r@ == Seq::<T>::empty(),
            r.capacity() == capacity,
    {
        InboundQueue { items: VecDeque::new(), capacity }
    }

    /// Enqueues `item` if there is room; otherwise hands it back untouched,
    /// so that the reader waits and tries again instead of losing it.
    pub fn try_push(&mut self, item: T) -> (r: Result<(), T>)
        ensures
            final(self).capacity() == old(self).capacity(),
            r is Ok <==> has_room(old(self)@.len(), old(self).capacity()),
            match r {
                Ok(()) => final(self)@ == old(self)@.push(item),
                Err(back) => back == item && final(self)@ == old(self)@,
            },
    {
        if self.items.len() < self.capacity {
            self.items.push_back(item);
            Ok(())
        } else {
            Err(item)
        }
    }

    /// Takes out the message that has waited longest.
    pub fn pop(&mut self) -> (r: Option<T>)
        ensures
            final(self).capacity() == old(self).capacity(),
            match r {
                Some(x) => old(self)@.len() > 0 && x == old(self)@[0] && final(self)@ == old(
                    self,
                )@.drop_first(),
                None => old(self)@.len() == 0 && final(self)@ == old(self)@,
            },
    {
        self.items.pop_front()
    }

    pub fn len(&self) -> (r: usize)
        ensures
            r == self@.len(),
    {
        self.items.len()
    }

    pub fn is_full(&self) -> (r: bool)
        ensures
            r == !has_room(self@.len(), self.capacity()),
    {
        self.items.len() >= self.capacity
    }
}

/// A full queue takes no message, and has room again as soon as one has
/// been taken out.
pub proof fn lemma_backpressure<T>(items: Seq<T>, capacity: nat)
    requires
        items.len() == capacity,
        capacity > 0,
    ensures
        !has_room(items.len(), capacity),
        has_room(items.drop_first().len(), capacity),
{
}

/// One message, framed once, and the connections it goes to.
#[derive(Clone, Debug, PartialEq, Eq)]
pub struct Broadcast {
    pub frame: Vec<u8>,
    pub targets: Vec<u64>,
}

/// The broadcast of `m`: its frame, for every live connection, the sender's
/// own included, each named once.
pub fn fan_out<H>(registry: &Registry<H>, m: &Epistle) -> (b: Broadcast)
    requires
        registry.wf(),
    ensures
        b.frame@ == frame(m@),
        b.targets@.no_duplicates(),
        forall|id: u64| b.targets@.contains(id) <==> registry@.contains_key(id),
{
    Broadcast { frame: encode(m), targets: registry.ids() }
}

/// A target list that names each connection once names every live
/// connection, the sender among them, at exactly one position.
pub proof fn lemma_exactly_once(targets: Seq<u64>, id: u64)
    requires
        targets.no_duplicates(),
        targets.contains(id),
    ensures
        exists|i: int|
            0 <= i < targets.len() && targets[i] == id && forall|j: int|
                0 <= j < targets.len() && #[trigger] targets[j] == id ==> j == i,
{
    let i = choose|i: int| 0 <= i < targets.len() && targets[i] == id;
    assert forall|j: int| 0 <= j < targets.len() && #[trigger] targets[j] == id implies j == i by {
        if j != i {
            assert(targets[j] != targets[i]);
        }
    }
}

/// After a broadcast, a connection whose send failed is gone and no other
/// is touched: every target whose delivery succeeded is still registered
/// with the same outbound half, and nothing new appears.
pub proof fn lemma_isolation<H>(before: Map<u64, H>, targets: Seq<u64>, delivered: Seq<bool>)
    requires
        targets.len() == delivered.len(),
        targets.no_duplicates(),
    ensures
        forall|i: int|
            0 <= i < targets.len() && delivered[i] && before.contains_key(#[trigger] targets[i])
                ==> before.remove_keys(failed_ids(targets, delivered)).contains_key(targets[i])
                && before.remove_keys(failed_ids(targets, delivered))[targets[i]]
                == before[targets[i]],
        forall|i: int|
            0 <= i < targets.len() && !delivered[i] ==> !before.remove_keys(
                failed_ids(targets, delivered),
            ).contains_key(#[trigger] targets[i]),
        forall|id: u64|
            before.remove_keys(failed_ids(targets, delivered)).contains_key(id)
                ==> #[trigger] before.contains_key(id),
{
    let failed = failed_ids(targets, delivered);
    assert forall|i: int| 0 <= i < targets.len() && delivered[i] implies !failed.contains(
        #[trigger] targets[i],
    ) by {
        if failed.contains(targets[i]) {
            let j = choose|j: int| crate::registry::failed_at(targets, delivered, j, targets[i]);
            assert(j != i);
            assert(targets[j] != targets[i]);
        }
    }
    assert forall|i: int| 0 <= i < targets.len() && !delivered[i] implies failed.contains(
        #[trigger] targets[i],
    ) by {
        assert(crate::registry::failed_at(targets, delivered, i, targets[i]));
    }
}

} // verus!
