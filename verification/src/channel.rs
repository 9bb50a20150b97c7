//! Channels: places to send messages to and to receive them from.
pub mod local_storage;
pub mod spy;
pub mod topic;

use crate::message::Message;
use vstd::prelude::*;

verus! {

/// Why a channel refused to send or to receive. The in-memory channels of this library
/// never refuse; a channel served by another thread refuses once that thread is gone.
#[derive(Debug, PartialEq, Eq)]
pub enum Error {
    /// The other end of the channel is gone.
    Disconnected,
}

/// A channel that takes messages.
pub trait ChannelWriter: Sized {
    /// Whether the channel can be handed `message` now. A channel that says nothing more
    /// takes every message.
    open spec fn accepts(&self, message: Message) -> bool {
        true
    }

    /// Whether the channel may go from `before` to `after`, answering `result`,
    /// when `message` is sent on it. A channel that says nothing more may do anything.
    open spec fn sends(before: Self, after: Self, message: Message, result: Result<(), Error>) -> bool {
        true
    }

    fn send(&mut self, message: Message) -> (result: Result<(), Error>)
        requires
            old(self).accepts(message),
        ensures
            Self::sends(*old(self), *final(self), message, result),
    ;
}

/// A channel that hands messages out.
pub trait ChannelReader: Sized {
    /// Whether the channel may go from `before` to `after`, answering `result`,
    /// when a message is asked of it. A channel that says nothing more may do anything.
    open spec fn receives(before: Self, after: Self, result: Result<Option<Message>, Error>) -> bool {
        true
    }

    fn recv(&mut self) -> (result: Result<Option<Message>, Error>)
        ensures
            Self::receives(*old(self), *final(self), result),
    ;
}

} // verus!
