//! The one-deep payload cell that each receiver owns.
use vstd::prelude::*;

verus! {

/// A cell that is empty or holds one payload. The producer fills it when it
/// arms the receiver; the receiver empties it when it claims.
pub struct Slot<T> {
    cell: Option<Box<T>>,
}

impl<T> View for Slot<T> {
    type V = Option<Box<T>>;

    closed spec fn view(&self) -> Option<Box<T>> {
        self.cell
    }
}

impl<T> Slot<T> {
    /// An empty slot.
    pub fn new() -> (slot: Slot<T>)
        ensures
            slot@ is None,
    {
        Slot { cell: None }
    }

    /// Whether the slot holds nothing.
    pub fn is_empty(&self) -> (empty: bool)
        ensures
            empty <==> self@ is None,
    {
        self.cell.is_none()
    }

    /// Store a payload. The slot must be empty: the producer publishes only
    /// to a receiver that it has just armed.
    pub fn publish(&mut self, payload: Box<T>)
        requires
            old(self)@ is None,
        ensures
            final(self)@ == Some(payload),
    {
        self.cell = Some(payload);
    }

    /// Take the payload out and leave the slot empty. The slot must be
    /// full: a receiver claims only after it found itself armed.
    pub fn claim(&mut self) -> (payload: Box<T>)
        requires
            old(self)@ is Some,
        ensures
            old(self)@ == Some(payload),
            final(self)@ is None,
    {
        self.cell.take().unwrap()
    }
}

} // verus!
