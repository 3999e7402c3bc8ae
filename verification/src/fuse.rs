//! A stream adapter that stays ended once its upstream ends or fails.

use vstd::prelude::*;

verus! {

/// One observation of a stream.
#[derive(Debug)]
pub enum Poll<T> {
    /// The stream yielded a value.
    Ready(T),
    /// The stream ended.
    End,
    /// The stream failed.
    Failed,
    /// Nothing yet.
    NotReady,
}

/// Wraps a stream; once the upstream has ended or failed, every later poll
/// returns `End`.
///
/// A subscription task reads its back-end stream through this, so it knows
/// unambiguously when its source is exhausted.
#[derive(Debug)]
pub struct Fuse<S> {
    stream: S,
    done: bool,
}

impl<S> Fuse<S> {
    /// The wrapped stream.
    pub closed spec fn stream_spec(&self) -> S {
        self.stream
    }

    /// Whether the upstream has ended or failed.
    pub closed spec fn done_spec(&self) -> bool {
        self.done
    }

    /// Wrap a stream; nothing has ended yet.
    pub fn new(stream: S) -> (f: Fuse<S>)
        ensures
            f.stream_spec() == stream,
            !f.done_spec(),
    {
        Fuse { stream, done: false }
    }

    /// The wrapped stream, for whoever must actually drive it.
    pub fn stream(&self) -> (r: &S)
        ensures
            *r == self.stream_spec(),
    {
        &self.stream
    }

    /// Whether the underlying stream has finished.  Once this returns true,
    /// every later poll returns `End`.
    pub fn is_done(&self) -> (r: bool)
        ensures
            r == self.done_spec(),
    {
        self.done
    }

    /// Pass one upstream observation through the latch: the first `End` or
    /// `Failed` is handed on and latches; after that everything is `End`.
    pub fn poll<T>(&mut self, upstream: Poll<T>) -> (r: Poll<T>)
        ensures
            final(self).stream_spec() == old(self).stream_spec(),
            old(self).done_spec() ==> r is End && final(self).done_spec(),
            !old(self).done_spec() ==> match upstream {
                Poll::Ready(v) => r == Poll::<T>::Ready(v) && !final(self).done_spec(),
                Poll::End => r is End && final(self).done_spec(),
                Poll::Failed => r is Failed && final(self).done_spec(),
                Poll::NotReady => r is NotReady && !final(self).done_spec(),
            },
    {
        if self.done {
            return Poll::End;
        }
        match upstream {
            Poll::Ready(v) => Poll::Ready(v),
            Poll::End => {
                self.done = true;
                Poll::End
            },
            Poll::Failed => {
                self.done = true;
                Poll::Failed
            },
            Poll::NotReady => Poll::NotReady,
        }
    }
}

} // verus!
