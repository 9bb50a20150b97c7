//! A channel that keeps its messages in memory, first in, first out.
use std::collections::VecDeque;

use crate::channel::{ChannelReader, ChannelWriter, Error};
use crate::message::Message;
use vstd::prelude::*;

verus! {

/// What a first-in, first-out channel holding `pending` answers when a message is
/// asked of it: the oldest message, or nothing when it is empty.
pub open spec fn front(pending: Seq<Message>) -> Option<Message> {
    if pending.len() == 0 {
        None
    } else {
        Some(pending[0])
    }
}

/// What such a channel still holds once it has answered.
pub open spec fn after_front(pending: Seq<Message>) -> Seq<Message> {
    if pending.len() == 0 {
        pending
    } else {
        pending.drop_first()
    }
}

/// An in-memory first-in, first-out channel.
pub struct LocalStorageChannel {
    messages: VecDeque<Message>,
}

impl View for LocalStorageChannel {
    type V = Seq<Message>;

    /// The messages waiting, oldest first.
    closed spec fn view(&self) -> Seq<Message> {
        self.messages@
    }
}

impl Default for LocalStorageChannel {
    fn default() -> (channel: Self)
        ensures
            channel@ == Seq::<Message>::empty(),
    {
        LocalStorageChannel { messages: VecDeque::new() }
    }
}

impl ChannelWriter for LocalStorageChannel {
    open spec fn accepts(&self, message: Message) -> bool {
        true
    }

    open spec fn sends(before: Self, after: Self, message: Message, result: Result<(), Error>) -> bool {
        &&& result is Ok
        &&& after@ == before@.push(message)
    }

    fn send(&mut self, message: Message) -> (result: Result<(), Error>) {
        self.messages.push_back(message);
        Ok(())
    }
}

impl ChannelReader for LocalStorageChannel {
    open spec fn receives(before: Self, after: Self, result: Result<Option<Message>, Error>) -> bool {
        &&& result == Ok::<Option<Message>, Error>(front(before@))
        &&& after@ == after_front(before@)
    }

    fn recv(&mut self) -> (result: Result<Option<Message>, Error>) {
        Ok(self.messages.pop_front())
    }
}

/// The messages sent by the first `i` operations of `ops`, in order. An operation is a
/// send of a message (`Some`) or a receive (`None`).
pub open spec fn sent_before(ops: Seq<Option<Message>>, i: nat) -> Seq<Message>
    decreases i,
{
    if i == 0 {
        Seq::empty()
    } else {
        let earlier = sent_before(ops, (i - 1) as nat);
        match ops[i - 1] {
            Some(m) => earlier.push(m),
            None => earlier,
        }
    }
}

/// How many of the first `i` operations of `ops` were receives that got a message, by
/// the answers `got`.
pub open spec fn received_before(
    ops: Seq<Option<Message>>,
    got: Seq<Result<Option<Message>, Error>>,
    i: nat,
) -> nat
    decreases i,
{
    if i == 0 {
        0
    } else {
        received_before(ops, got, (i - 1) as nat) + if ops[i - 1] is None && got[i - 1] matches Ok(
            Some(_),
        ) {
            1nat
        } else {
            0nat
        }
    }
}

proof fn fifo_up_to(
    ops: Seq<Option<Message>>,
    answers: Seq<Result<(), Error>>,
    got: Seq<Result<Option<Message>, Error>>,
    states: Seq<LocalStorageChannel>,
    i: nat,
)
    requires
        answers.len() == ops.len(),
        got.len() == ops.len(),
        states.len() == ops.len() + 1,
        states[0]@ == Seq::<Message>::empty(),
        forall|k: int|
            0 <= k < ops.len() && ops[k] is Some ==> #[trigger] LocalStorageChannel::sends(
                states[k],
                states[k + 1],
                ops[k]->0,
                answers[k],
            ),
        forall|k: int|
            0 <= k < ops.len() && ops[k] is None ==> #[trigger] LocalStorageChannel::receives(
                states[k],
                states[k + 1],
                got[k],
            ),
        i <= ops.len(),
    ensures
        received_before(ops, got, i) <= sent_before(ops, i).len(),
        states[i as int]@ == sent_before(ops, i).subrange(
            received_before(ops, got, i) as int,
            sent_before(ops, i).len() as int,
        ),
    decreases i,
{
    if i == 0 {
        assert(Seq::<Message>::empty().subrange(0, 0) =~= Seq::<Message>::empty());
    } else {
        let k = (i - 1) as int;
        fifo_up_to(ops, answers, got, states, (i - 1) as nat);
        let sent = sent_before(ops, (i - 1) as nat);
        let taken = received_before(ops, got, (i - 1) as nat);
        match ops[k] {
            Some(m) => {
                assert(LocalStorageChannel::sends(states[k], states[k + 1], ops[k]->0, answers[k]));
                assert(sent.push(m).subrange(taken as int, sent.len() as int + 1) =~= sent.subrange(
                    taken as int,
                    sent.len() as int,
                ).push(m));
            },
            None => {
                assert(LocalStorageChannel::receives(states[k], states[k + 1], got[k]));
                if taken < sent.len() {
                    assert(sent.subrange(taken as int, sent.len() as int).drop_first()
                        =~= sent.subrange(taken as int + 1, sent.len() as int));
                }
            },
        }
    }
}

/// First in, first out, whatever the order of sends and receives: on a channel that
/// starts empty, the n-th receive that gets a message gets the n-th message sent, and a
/// receive gets nothing only when every message sent before it has been received.
pub proof fn first_in_first_out(
    ops: Seq<Option<Message>>,
    answers: Seq<Result<(), Error>>,
    got: Seq<Result<Option<Message>, Error>>,
    states: Seq<LocalStorageChannel>,
)
    requires
        answers.len() == ops.len(),
        got.len() == ops.len(),
        states.len() == ops.len() + 1,
        states[0]@ == Seq::<Message>::empty(),
        forall|k: int|
            0 <= k < ops.len() && ops[k] is Some ==> #[trigger] LocalStorageChannel::sends(
                states[k],
                states[k + 1],
                ops[k]->0,
                answers[k],
            ),
        forall|k: int|
            0 <= k < ops.len() && ops[k] is None ==> #[trigger] LocalStorageChannel::receives(
                states[k],
                states[k + 1],
                got[k],
            ),
    ensures
        forall|k: int|
            0 <= k < ops.len() && ops[k] is None ==> #[trigger] got[k] == Ok::<
                Option<Message>,
                Error,
            >(
                if received_before(ops, got, k as nat) < sent_before(ops, k as nat).len() {
                    Some(sent_before(ops, k as nat)[received_before(ops, got, k as nat) as int])
                } else {
                    None
                },
            ),
{
    assert forall|k: int| 0 <= k < ops.len() && ops[k] is None implies #[trigger] got[k] == Ok::<
        Option<Message>,
        Error,
    >(
        if received_before(ops, got, k as nat) < sent_before(ops, k as nat).len() {
            Some(sent_before(ops, k as nat)[received_before(ops, got, k as nat) as int])
        } else {
            None
        },
    ) by {
        fifo_up_to(ops, answers, got, states, k as nat);
        assert(LocalStorageChannel::receives(states[k], states[k + 1], got[k]));
    }
}

} // verus!
