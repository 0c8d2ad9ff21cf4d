//! The channel's endpoints under their short names.
use crate::channel::Receiver;
use crate::channel::RecvError;
use crate::channel::Sender;
use crate::wake::is_native_image;
use vstd::prelude::*;

verus! {

/// Why a receive ends without a payload.
pub type RecError = RecvError;

impl<T> Sender<T> {
    /// Create a new receiver handle: `mk_receiver` by its short name.
    pub fn receiver(&mut self) -> (receiver: Receiver<T>)
        requires
            old(self).wf(),
            old(self)@.len() < isize::MAX,
        ensures
            final(self).wf(),
            final(self)@ == old(self)@.mk_receiver(),
            receiver@ == old(self)@.len(),
    {
        self.mk_receiver()
    }

    /// Attempt to send a payload to a waiting receiver: `enqueue` by its
    /// short name.
    pub fn send(&mut self, x: Box<T>) -> (back: Option<Box<T>>)
        requires
            old(self).wf(),
        ensures
            final(self).wf(),
            final(self)@ == old(self)@.enqueue(x),
            back == if old(self)@.target() is Some {
                None
            } else {
                Some(x)
            },
    {
        self.enqueue(x)
    }

    /// Wake the receivers: `wake_all` by its short name.
    pub fn unblock(&mut self) -> (image: [u8; 8])
        requires
            old(self).wf(),
        ensures
            final(self).wf(),
            final(self)@ == old(self)@.wake_all(),
            is_native_image(image@, old(self)@.pending as i64),
    {
        self.wake_all()
    }
}

} // verus!
