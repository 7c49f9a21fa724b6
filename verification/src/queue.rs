//! The event-loop decoupler's queue: a bounded FIFO buffer between the
//! network-polling side and the single handler. A full queue refuses the
//! message and hands it back — nothing is dropped; the polling side waits
//! and offers it again, so slow handling throttles polling.
use vstd::prelude::*;

verus! {

/// A bounded first-in-first-out queue. The view is the sequence of queued
/// elements, oldest first; its length never exceeds the capacity fixed at
/// construction.
pub struct BoundedQueue<T> {
    items: Vec<T>,
    capacity: usize,
}

impl<T> BoundedQueue<T> {
    pub closed spec fn view(&self) -> Seq<T> {
        self.items@
    }

    pub closed spec fn spec_capacity(&self) -> nat {
        self.capacity as nat
    }

    /// The queue never holds more than its capacity.
    pub open spec fn wf(&self) -> bool {
        &&& self@.len() <= self.spec_capacity()
        &&& self.spec_capacity() > 0
    }

    /// An empty queue with room for `capacity` elements.
    pub fn new(capacity: usize) -> (q: Self)
        requires
            capacity > 0,
        ensures
            q.wf(),
            q@ == Seq::<T>::empty(),
            q.spec_capacity() == capacity,
    {
        BoundedQueue { items: Vec::new(), capacity }
    }

    pub fn len(&self) -> (r: usize)
        ensures
            r == self@.len(),
    {
        self.items.len()
    }

    pub fn capacity(&self) -> (r: usize)
        requires
            self.wf(),
        ensures
            r == self.spec_capacity(),
    {
        self.capacity
    }

    /// Appends a message when there is room; a full queue refuses and
    /// returns the message unchanged, so no message is ever lost.
    pub fn push(&mut self, value: T) -> (r: Result<(), T>)
        requires
            old(self).wf(),
        ensures
            final(self).wf(),
            final(self).spec_capacity() == old(self).spec_capacity(),
            match r {
                Ok(()) => {
                    &&& old(self)@.len() < old(self).spec_capacity()
                    &&& final(self)@ == old(self)@.push(value)
                },
                Err(v) => {
                    &&& old(self)@.len() == old(self).spec_capacity()
                    &&& final(self)@ == old(self)@
                    &&& v == value
                },
            },
    {
        if self.items.len() < self.capacity {
            self.items.push(value);
            Ok(())
        } else {
            Err(value)
        }
    }

    /// Removes and returns the oldest message; the rest keep their order.
    pub fn pop(&mut self) -> (r: Option<T>)
        requires
            old(self).wf(),
        ensures
            final(self).wf(),
            final(self).spec_capacity() == old(self).spec_capacity(),
            match r {
                Some(v) => {
                    &&& old(self)@.len() > 0
                    &&& v == old(self)@[0]
                    &&& final(self)@ == old(self)@.drop_first()
                },
                Option::None => {
                    &&& old(self)@.len() == 0
                    &&& final(self)@ == old(self)@
                },
            },
    {
        if self.items.len() == 0 {
            Option::None
        } else {
            let v = self.items.remove(0);
            proof {
                assert(self.items@ =~= old(self).items@.drop_first());
            }
            Some(v)
        }
    }
}

/// Backpressure keeps order and loses nothing: offering a message to a
/// full queue leaves the queue as it was and hands the message back, and
/// as soon as one message is taken off, the refused message fits and
/// queues behind the rest.
pub proof fn lemma_backpressure_no_loss<T>(contents: Seq<T>, cap: nat, refused: T)
    requires
        contents.len() == cap,
        cap > 0,
    ensures
        contents.drop_first().len() < cap,
        contents.drop_first().push(refused) == contents.subrange(1, contents.len() as int).push(
            refused,
        ),
        contents.drop_first().push(refused).len() == cap,
        contents.drop_first().push(refused)[cap - 1] == refused,
        forall|j: int|
            0 <= j < cap - 1 ==> contents.drop_first().push(refused)[j] == contents[j + 1],
{
}

} // verus!
