//! The event relay: a bounded first-in first-out queue of payloads from the
//! poller to the presentation layer. A full relay refuses a payload and hands
//! it back, and the producer waits and offers it again.
use vstd::prelude::*;

verus! {

/// How many payloads the relay holds before it pushes back.
pub const RELAY_CAPACITY: usize = 100;

pub struct EventRelay {
    items: Vec<Vec<u8>>,
    capacity: usize,
}

/// The relay's contents, oldest first, and its bound.
pub struct RelayView {
    pub items: Seq<Seq<u8>>,
    pub capacity: nat,
}

impl View for EventRelay {
    type V = RelayView;

    closed spec fn view(&self) -> RelayView {
        RelayView { items: self.items@.map_values(|b: Vec<u8>| b@), capacity: self.capacity as nat }
    }
}

impl EventRelay {
    /// The relay never holds more than its capacity.
    pub closed spec fn wf(&self) -> bool {
        self.items@.len() <= self.capacity
    }

    /// An empty relay that holds at most `capacity` payloads.
    pub fn new(capacity: usize) -> (r: EventRelay)
        ensures
            r.wf(),
            r@.items == Seq::<Seq<u8>>::empty(),
            r@.capacity == capacity,
    {
        let r = EventRelay { items: Vec::new(), capacity };
        assert(r@.items =~= Seq::<Seq<u8>>::empty());
        r
    }

    /// An empty relay with the default bound.
    pub fn with_default_capacity() -> (r: EventRelay)
        ensures
            r.wf(),
            r@.items == Seq::<Seq<u8>>::empty(),
            r@.capacity == RELAY_CAPACITY,
    {
        EventRelay::new(RELAY_CAPACITY)
    }

    pub fn len(&self) -> (r: usize)
        ensures
            r == self@.items.len(),
    {
        self.items.len()
    }

    pub fn capacity(&self) -> (r: usize)
        ensures
            r == self@.capacity,
    {
        self.capacity
    }

    pub fn is_full(&self) -> (r: bool)
        ensures
            r == (self@.items.len() >= self@.capacity),
    {
        self.items.len() >= self.capacity
    }

    /// Appends `item` when there is room; otherwise hands it back unchanged
    /// and leaves the relay as it was.
    pub fn try_push(&mut self, item: Vec<u8>) -> (r: Result<(), Vec<u8>>)
        requires
            old(self).wf(),
        ensures
            final(self).wf(),
            final(self)@.capacity == old(self)@.capacity,
            old(self)@.items.len() < old(self)@.capacity ==> r is Ok && final(self)@.items == old(
                self,
            )@.items.push(item@),
            old(self)@.items.len() >= old(self)@.capacity ==> r == Err::<(), Vec<u8>>(item)
                && final(self)@ == old(self)@,
    {
        if self.items.len() < self.capacity {
            self.items.push(item);
            assert(self@.items =~= old(self)@.items.push(item@));
            Ok(())
        } else {
            Err(item)
        }
    }

    /// Takes the oldest payload, if any.
    pub fn pop(&mut self) -> (r: Option<Vec<u8>>)
        requires
            old(self).wf(),
        ensures
            final(self).wf(),
            final(self)@.capacity == old(self)@.capacity,
            old(self)@.items.len() == 0 ==> r is None && final(self)@ == old(self)@,
            old(self)@.items.len() > 0 ==> (r matches Some(b) && b@ == old(self)@.items[0])
                && final(self)@.items == old(self)@.items.drop_first(),
    {
        if self.items.len() == 0 {
            None
        } else {
            let b = self.items.remove(0);
            assert(self@.items =~= old(self)@.items.drop_first());
            Some(b)
        }
    }
}

} // verus!
