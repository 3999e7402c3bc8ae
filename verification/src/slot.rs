//! The slot channel: a single-cell, overwriting, latest-value-wins channel.
//!
//! At most one value is buffered; a new `swap` replaces an unread value.
//! The receiver never blocks the sender.  This is the state of one channel,
//! seen from both ends; the waking of a blocked reader is the runtime's
//! business, not part of the state.

use vstd::prelude::*;

use crate::fuse::Poll;

verus! {

/// Returned by [`Slot::swap`] when the receiving end is gone; it gives the
/// rejected value back.
#[derive(Debug)]
pub struct SendError<T>(T);

impl<T> SendError<T> {
    /// The value the channel did not take.
    pub closed spec fn value_spec(&self) -> T {
        self.0
    }

    /// Recover the value the channel did not take.
    pub fn into_inner(self) -> (r: T)
        ensures
            r == self.value_spec(),
    {
        self.0
    }
}

/// The state of one slot channel.
#[derive(Debug)]
pub struct Slot<T> {
    value: Option<T>,
    sender_open: bool,
    receiver_open: bool,
}

impl<T> Slot<T> {
    /// The buffered value, if any.
    pub closed spec fn value_spec(&self) -> Option<T> {
        self.value
    }

    /// Whether the sending end is still held.
    pub closed spec fn sender_open_spec(&self) -> bool {
        self.sender_open
    }

    /// Whether the receiving end is still held.
    pub closed spec fn receiver_open_spec(&self) -> bool {
        self.receiver_open
    }
}

/// A fresh channel: empty, both ends held.
pub fn channel<T>() -> (s: Slot<T>)
    ensures
        s.value_spec() is None,
        s.sender_open_spec(),
        s.receiver_open_spec(),
{
    Slot { value: None, sender_open: true, receiver_open: true }
}

impl<T> Slot<T> {
    /// Replace the buffered value, returning the one it displaces.  Fails
    /// exactly when the receiver is gone, handing the value back.
    pub fn swap(&mut self, value: T) -> (r: Result<Option<T>, SendError<T>>)
        requires
            old(self).sender_open_spec(),
        ensures
            final(self).sender_open_spec() == old(self).sender_open_spec(),
            final(self).receiver_open_spec() == old(self).receiver_open_spec(),
            old(self).receiver_open_spec() ==> (r matches Ok(prev) && prev == old(
                self,
            ).value_spec() && final(self).value_spec() == Some(value)),
            !old(self).receiver_open_spec() ==> (r matches Err(e) && e.value_spec() == value
                && final(self).value_spec() == old(self).value_spec()),
    {
        if self.receiver_open {
            let prev = self.value.take();
            self.value = Some(value);
            Ok(prev)
        } else {
            Err(SendError(value))
        }
    }

    /// Whether the receiver is gone; a sender polls this to stop early.
    pub fn poll_cancel(&self) -> (r: bool)
        ensures
            r == !self.receiver_open_spec(),
    {
        !self.receiver_open
    }

    /// Drop the sending end.
    pub fn close(&mut self)
        ensures
            !final(self).sender_open_spec(),
            final(self).receiver_open_spec() == old(self).receiver_open_spec(),
            final(self).value_spec() == old(self).value_spec(),
    {
        self.sender_open = false;
    }

    /// Take the buffered value.  An empty slot whose senders are gone has
    /// ended; an empty slot with a live sender is not ready.
    pub fn poll(&mut self) -> (r: Poll<T>)
        requires
            old(self).receiver_open_spec(),
        ensures
            final(self).sender_open_spec() == old(self).sender_open_spec(),
            final(self).receiver_open_spec() == old(self).receiver_open_spec(),
            final(self).value_spec() is None,
            old(self).value_spec() matches Some(v) ==> r == Poll::<T>::Ready(v),
            old(self).value_spec() is None && !old(self).sender_open_spec() ==> r is End,
            old(self).value_spec() is None && old(self).sender_open_spec() ==> r is NotReady,
    {
        match self.value.take() {
            Some(v) => Poll::Ready(v),
            None => {
                if self.sender_open {
                    Poll::NotReady
                } else {
                    Poll::End
                }
            },
        }
    }

    /// Drop the receiving end; the sender will observe the cancellation.
    pub fn close_receiver(&mut self)
        ensures
            !final(self).receiver_open_spec(),
            final(self).sender_open_spec() == old(self).sender_open_spec(),
            final(self).value_spec() == old(self).value_spec(),
    {
        self.receiver_open = false;
    }
}

} // verus!
