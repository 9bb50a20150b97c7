//! A channel wrapper that shows each message sent to an observer before passing it on.
use crate::channel::{ChannelReader, ChannelWriter, Error};
use crate::message::Message;
use vstd::prelude::*;

verus! {

/// A channel that calls `spy` on every message sent, then sends it on `channel`.
/// Receiving goes straight to `channel`.
pub struct SpyChannel<T: ChannelReader + ChannelWriter, F: Fn(&Message)> {
    channel: T,
    spy: F,
}

impl<T: ChannelReader + ChannelWriter, F: Fn(&Message)> SpyChannel<T, F> {
    /// The channel messages go to.
    pub closed spec fn inner(&self) -> T {
        self.channel
    }

    /// The observer.
    pub closed spec fn spy(&self) -> F {
        self.spy
    }

    /// Wraps `channel`, with `spy` as the observer.
    pub fn new(channel: T, spy: F) -> (wrapped: Self)
        ensures
            wrapped.inner() == channel,
            wrapped.spy() == spy,
    {
        SpyChannel { channel, spy }
    }
}

impl<T: ChannelReader + ChannelWriter, F: Fn(&Message)> ChannelWriter for SpyChannel<T, F> {
    open spec fn accepts(&self, message: Message) -> bool {
        &&& self.spy().requires((&message,))
        &&& self.inner().accepts(message)
    }

    open spec fn sends(before: Self, after: Self, message: Message, result: Result<(), Error>) -> bool {
        &&& T::sends(before.inner(), after.inner(), message, result)
        &&& after.spy() == before.spy()
    }

    fn send(&mut self, message: Message) -> (result: Result<(), Error>)
        ensures
            old(self).spy().ensures((&message,), ()),
    {
        (self.spy)(&message);
        self.channel.send(message)
    }
}

impl<T: ChannelReader + ChannelWriter, F: Fn(&Message)> ChannelReader for SpyChannel<T, F> {
    open spec fn receives(before: Self, after: Self, result: Result<Option<Message>, Error>) -> bool {
        &&& T::receives(before.inner(), after.inner(), result)
        &&& after.spy() == before.spy()
    }

    fn recv(&mut self) -> (result: Result<Option<Message>, Error>) {
        self.channel.recv()
    }
}

/// Sending on a spy channel moves its wrapped channel exactly as sending the same
/// message on the wrapped channel would, whatever the message, and keeps the observer.
pub proof fn spy_sends_as_its_channel<T: ChannelReader + ChannelWriter, F: Fn(&Message)>(
    before: SpyChannel<T, F>,
    after: SpyChannel<T, F>,
    message: Message,
    result: Result<(), Error>,
)
    requires
        SpyChannel::<T, F>::sends(before, after, message, result),
    ensures
        T::sends(before.inner(), after.inner(), message, result),
        after.spy() == before.spy(),
{
}

/// Receiving on a spy channel is receiving on its wrapped channel.
pub proof fn spy_receives_as_its_channel<T: ChannelReader + ChannelWriter, F: Fn(&Message)>(
    before: SpyChannel<T, F>,
    after: SpyChannel<T, F>,
    result: Result<Option<Message>, Error>,
)
    requires
        SpyChannel::<T, F>::receives(before, after, result),
    ensures
        T::receives(before.inner(), after.inner(), result),
        after.spy() == before.spy(),
{
}

} // verus!
