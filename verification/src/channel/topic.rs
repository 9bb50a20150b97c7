//! A channel that sorts messages by their name, one queue per name.
use std::collections::VecDeque;

use crate::channel::local_storage::{after_front, front};
use crate::channel::{ChannelWriter, Error};
use crate::message::Message;
use crate::names::NameTable;
use vstd::prelude::*;

verus! {

/// A channel that keeps, for each message name (its topic), the messages of that name
/// in the order they were sent. Readers take the messages of one topic.
pub struct TopicChannel {
    topics: NameTable<VecDeque<Message>>,
}

/// A reader of the messages of one topic of a [`TopicChannel`].
pub struct TopicChannelReader {
    topic: String,
}

impl TopicChannel {
    /// Whether the channel keeps a queue for `topic`.
    pub closed spec fn has_topic(&self, topic: Seq<char>) -> bool {
        self.topics.names().contains(topic)
    }

    /// The messages of `topic` waiting, oldest first.
    pub closed spec fn queue(&self, topic: Seq<char>) -> Seq<Message> {
        match self.topics.lookup(topic) {
            Some(q) => q@,
            None => Seq::empty(),
        }
    }

    /// The place of the queue of `topic`, made empty where the channel had none.
    fn place_of(&mut self, topic: String) -> (i: usize)
        ensures
            i < final(self).topics.entries().len(),
            final(self).topics.names()[i as int] == topic@,
            forall|t: Seq<char>| #[trigger]
                final(self).has_topic(t) == (old(self).has_topic(t) || t == topic@),
            forall|t: Seq<char>| #[trigger] final(self).queue(t) == old(self).queue(t),
    {
        proof {
            use_type_invariant(&self.topics);
        }
        match self.topics.position(&topic) {
            Some(i) => i,
            None => {
                let ghost before = self.topics.names();
                let ghost key = topic@;
                self.topics.insert(topic, VecDeque::new());
                proof {
                    use_type_invariant(&self.topics);
                    let after = self.topics.names();
                    assert(after =~= before.push(key));
                    assert(after[before.len() as int] == key);
                    assert forall|t: Seq<char>|
                        #[trigger] self.has_topic(t) == (old(self).has_topic(t) || t == key) by {
                        if before.contains(t) {
                            let j = before.index_of(t);
                            assert(after[j] == t);
                        }
                        if after.contains(t) && t != key {
                            let j = after.index_of(t);
                            assert(j != before.len());
                            assert(before[j] == t);
                        }
                    }
                    assert forall|t: Seq<char>| #[trigger] self.queue(t) == old(self).queue(t) by {
                        if t != key && before.contains(t) {
                            let j = before.index_of(t);
                            assert(after[j] == t);
                            assert(after.index_of(t) == j);
                        }
                        if t == key {
                            assert(after.index_of(t) == before.len());
                            assert(self.topics.values()[before.len() as int]@ =~= Seq::<
                                Message,
                            >::empty());
                        }
                    }
                }
                self.topics.len() - 1
            },
        }
    }

    /// A reader of the messages of `topic`. The channel keeps a queue for the topic
    /// from then on.
    pub fn get_reader(&mut self, topic: String) -> (reader: TopicChannelReader)
        ensures
            reader.topic() == topic@,
            opens(topic@, *old(self), *final(self)),
    {
        let name = topic.clone();
        self.place_of(name);
        TopicChannelReader { topic }
    }
}

impl Default for TopicChannel {
    fn default() -> (channel: Self)
        ensures
            forall|t: Seq<char>| !channel.has_topic(t),
            forall|t: Seq<char>| #[trigger] channel.queue(t) == Seq::<Message>::empty(),
    {
        TopicChannel { topics: NameTable::new() }
    }
}

impl ChannelWriter for TopicChannel {
    open spec fn accepts(&self, message: Message) -> bool {
        true
    }

    open spec fn sends(before: Self, after: Self, message: Message, result: Result<(), Error>) -> bool {
        &&& result is Ok
        &&& forall|t: Seq<char>| #[trigger]
            after.has_topic(t) == (before.has_topic(t) || t == message.name@)
        &&& forall|t: Seq<char>| #[trigger]
            after.queue(t) == if t == message.name@ {
                before.queue(t).push(message)
            } else {
                before.queue(t)
            }
    }

    fn send(&mut self, message: Message) -> (result: Result<(), Error>) {
        let i = self.place_of(message.name.clone());
        proof {
            use_type_invariant(&self.topics);
        }
        let ghost mid = *self;
        let ghost key = message.name@;
        let mut queue = self.topics.replace_at(i, VecDeque::new());
        queue.push_back(message);
        self.topics.replace_at(i, queue);
        proof {
            let names = mid.topics.names();
            assert(self.topics.names() =~= names);
            assert(names.index_of(key) == i) by {
                assert(names[i as int] == key);
            }
            assert forall|t: Seq<char>| #[trigger] self.has_topic(t) == mid.has_topic(t) by {}
            assert forall|t: Seq<char>| #[trigger]
                self.queue(t) == if t == key {
                    mid.queue(t).push(message)
                } else {
                    mid.queue(t)
                } by {
                if t != key && names.contains(t) {
                    assert(names.index_of(t) != i);
                }
            }
        }
        Ok(())
    }
}

impl TopicChannelReader {
    /// The topic this reader takes messages of.
    pub closed spec fn topic(&self) -> Seq<char> {
        self.topic@
    }

    /// Takes the oldest waiting message of this reader's topic from `channel`, if there
    /// is one.
    pub fn recv(&self, channel: &mut TopicChannel) -> (result: Result<Option<Message>, Error>)
        ensures
            takes(self.topic(), *old(channel), *final(channel), result),
    {
        proof {
            use_type_invariant(&channel.topics);
        }
        match channel.topics.position(&self.topic) {
            None => Ok(None),
            Some(i) => {
                let ghost names = channel.topics.names();
                let ghost key = self.topic@;
                let mut queue = channel.topics.replace_at(i, VecDeque::new());
                let message = queue.pop_front();
                channel.topics.replace_at(i, queue);
                proof {
                    assert(channel.topics.names() =~= names);
                    assert(names.index_of(key) == i);
                    assert forall|t: Seq<char>| #[trigger]
                        channel.queue(t) == if t == key {
                            after_front(old(channel).queue(t))
                        } else {
                            old(channel).queue(t)
                        } by {
                        if t != key && names.contains(t) {
                            assert(names.index_of(t) != i);
                        }
                    }
                }
                Ok(message)
            },
        }
    }
}

/// Whether opening a reader of `topic` on the channel `before` may leave it `after`: the
/// channel keeps a queue for the topic from then on, and no message moves.
pub open spec fn opens(topic: Seq<char>, before: TopicChannel, after: TopicChannel) -> bool {
    &&& forall|t: Seq<char>| #[trigger] after.has_topic(t) == (before.has_topic(t) || t == topic)
    &&& forall|t: Seq<char>| #[trigger] after.queue(t) == before.queue(t)
}

/// Whether a reader of `topic` may answer `result` and leave the channel `after`, when it
/// reads from the channel `before`: it takes the oldest waiting message of its topic, if
/// there is one, and changes nothing else.
pub open spec fn takes(
    topic: Seq<char>,
    before: TopicChannel,
    after: TopicChannel,
    result: Result<Option<Message>, Error>,
) -> bool {
    &&& result == Ok::<Option<Message>, Error>(front(before.queue(topic)))
    &&& forall|t: Seq<char>| #[trigger] after.has_topic(t) == before.has_topic(t)
    &&& forall|t: Seq<char>| #[trigger]
        after.queue(t) == if t == topic {
            after_front(before.queue(t))
        } else {
            before.queue(t)
        }
}

/// The messages of `sent` named `topic`, in the order of `sent`.
pub open spec fn of_topic(sent: Seq<Message>, topic: Seq<char>) -> Seq<Message>
    decreases sent.len(),
{
    if sent.len() == 0 {
        Seq::empty()
    } else if sent.last().name@ == topic {
        of_topic(sent.drop_last(), topic).push(sent.last())
    } else {
        of_topic(sent.drop_last(), topic)
    }
}

proof fn sorted_up_to(
    sent: Seq<Message>,
    answers: Seq<Result<(), Error>>,
    filling: Seq<TopicChannel>,
    i: int,
)
    requires
        answers.len() == sent.len(),
        filling.len() == sent.len() + 1,
        forall|t: Seq<char>| #[trigger] filling[0].queue(t) == Seq::<Message>::empty(),
        forall|k: int|
            0 <= k < sent.len() ==> #[trigger] TopicChannel::sends(
                filling[k],
                filling[k + 1],
                sent[k],
                answers[k],
            ),
        0 <= i <= sent.len(),
    ensures
        forall|t: Seq<char>| #[trigger] filling[i].queue(t) == of_topic(sent.subrange(0, i), t),
    decreases i,
{
    if i == 0 {
        assert(sent.subrange(0, 0) =~= Seq::<Message>::empty());
    } else {
        sorted_up_to(sent, answers, filling, i - 1);
        let k = i - 1;
        assert(TopicChannel::sends(filling[k], filling[k + 1], sent[k], answers[k]));
        assert(sent.subrange(0, i).drop_last() =~= sent.subrange(0, k));
        assert forall|t: Seq<char>| #[trigger]
            filling[i].queue(t) == of_topic(sent.subrange(0, i), t) by {
            assert(filling[k].queue(t) == of_topic(sent.subrange(0, k), t));
        }
    }
}

/// Messages are sorted by name: once messages have been sent on a channel with no
/// waiting message, the queue of each topic holds the messages of that name, in the
/// order they were sent, and no other.
pub proof fn messages_sorted_by_topic(
    sent: Seq<Message>,
    answers: Seq<Result<(), Error>>,
    filling: Seq<TopicChannel>,
)
    requires
        answers.len() == sent.len(),
        filling.len() == sent.len() + 1,
        forall|t: Seq<char>| #[trigger] filling[0].queue(t) == Seq::<Message>::empty(),
        forall|k: int|
            0 <= k < sent.len() ==> #[trigger] TopicChannel::sends(
                filling[k],
                filling[k + 1],
                sent[k],
                answers[k],
            ),
    ensures
        forall|t: Seq<char>| #[trigger]
            filling[sent.len() as int].queue(t) == of_topic(sent, t),
{
    sorted_up_to(sent, answers, filling, sent.len() as int);
    assert(sent.subrange(0, sent.len() as int) =~= sent);
}

/// One operation on a topic channel: a send, the opening of a reader of a topic, or a
/// take by a reader of a topic.
pub enum TopicOp {
    Send(Message),
    Open(Seq<char>),
    Take(Seq<char>),
}

/// The messages sent by the first `i` operations of `ops`, in order.
pub open spec fn sent_before(ops: Seq<TopicOp>, i: nat) -> Seq<Message>
    decreases i,
{
    if i == 0 {
        Seq::empty()
    } else {
        let earlier = sent_before(ops, (i - 1) as nat);
        match ops[i - 1] {
            TopicOp::Send(m) => earlier.push(m),
            _ => earlier,
        }
    }
}

/// How many of the first `i` operations of `ops` were takes on `topic` that got a
/// message, by the answers `got`.
pub open spec fn taken_before(
    ops: Seq<TopicOp>,
    got: Seq<Result<Option<Message>, Error>>,
    i: nat,
    topic: Seq<char>,
) -> nat
    decreases i,
{
    if i == 0 {
        0
    } else {
        taken_before(ops, got, (i - 1) as nat, topic) + if ops[i - 1] == TopicOp::Take(topic)
            && got[i - 1] matches Ok(Some(_)) {
            1nat
        } else {
            0nat
        }
    }
}

/// Whether `states` is a run of the operations `ops` from a channel with no waiting
/// message, with the answers `answers` to sends and `got` to takes.
pub open spec fn is_topic_run(
    ops: Seq<TopicOp>,
    answers: Seq<Result<(), Error>>,
    got: Seq<Result<Option<Message>, Error>>,
    states: Seq<TopicChannel>,
) -> bool {
    &&& answers.len() == ops.len()
    &&& got.len() == ops.len()
    &&& states.len() == ops.len() + 1
    &&& forall|t: Seq<char>| #[trigger] states[0].queue(t) == Seq::<Message>::empty()
    &&& forall|k: int|
        0 <= k < ops.len() ==> match #[trigger] ops[k] {
            TopicOp::Send(m) => TopicChannel::sends(states[k], states[k + 1], m, answers[k]),
            TopicOp::Open(t) => opens(t, states[k], states[k + 1]),
            TopicOp::Take(t) => takes(t, states[k], states[k + 1], got[k]),
        }
}

proof fn topic_queues_up_to(
    ops: Seq<TopicOp>,
    answers: Seq<Result<(), Error>>,
    got: Seq<Result<Option<Message>, Error>>,
    states: Seq<TopicChannel>,
    i: nat,
)
    requires
        is_topic_run(ops, answers, got, states),
        i <= ops.len(),
    ensures
        forall|t: Seq<char>|
            taken_before(ops, got, i, t) <= #[trigger] of_topic(sent_before(ops, i), t).len() && states[i as int].queue(t)
                == of_topic(sent_before(ops, i), t).subrange(
                taken_before(ops, got, i, t) as int,
                of_topic(sent_before(ops, i), t).len() as int,
            ),
    decreases i,
{
    if i == 0 {
        assert forall|t: Seq<char>|
            taken_before(ops, got, i, t) <= #[trigger] of_topic(sent_before(ops, i), t).len() && states[i as int].queue(t)
                == of_topic(sent_before(ops, i), t).subrange(
                taken_before(ops, got, i, t) as int,
                of_topic(sent_before(ops, i), t).len() as int,
            ) by {
            assert(states[0].queue(t) == Seq::<Message>::empty());
            assert(sent_before(ops, 0) == Seq::<Message>::empty());
            assert(of_topic(Seq::<Message>::empty(), t) == Seq::<Message>::empty());
            assert(Seq::<Message>::empty().subrange(0, 0) =~= Seq::<Message>::empty());
        }
    } else {
        let k = (i - 1) as int;
        topic_queues_up_to(ops, answers, got, states, (i - 1) as nat);
        let sent = sent_before(ops, (i - 1) as nat);
        let op = ops[k];
        assert forall|t: Seq<char>|
            taken_before(ops, got, i, t) <= #[trigger] of_topic(sent_before(ops, i), t).len() && states[i as int].queue(t)
                == of_topic(sent_before(ops, i), t).subrange(
                taken_before(ops, got, i, t) as int,
                of_topic(sent_before(ops, i), t).len() as int,
            ) by {
            let mine = of_topic(sent, t);
            let taken = taken_before(ops, got, (i - 1) as nat, t);
            assert(states[k].queue(t) == mine.subrange(taken as int, mine.len() as int));
            match op {
                TopicOp::Send(m) => {
                    assert(TopicChannel::sends(states[k], states[k + 1], m, answers[k]));
                    assert(sent.push(m).drop_last() =~= sent);
                    if m.name@ == t {
                        assert(of_topic(sent.push(m), t) == mine.push(m));
                        assert(mine.push(m).subrange(taken as int, mine.len() as int + 1)
                            =~= mine.subrange(taken as int, mine.len() as int).push(m));
                    } else {
                        assert(of_topic(sent.push(m), t) == mine);
                    }
                },
                TopicOp::Open(u) => {
                    assert(opens(u, states[k], states[k + 1]));
                },
                TopicOp::Take(u) => {
                    assert(takes(u, states[k], states[k + 1], got[k]));
                    if u == t && taken < mine.len() {
                        assert(mine.subrange(taken as int, mine.len() as int).drop_first()
                            =~= mine.subrange(taken as int + 1, mine.len() as int));
                    }
                },
            }
        }
    }
}

/// What is sent comes back to the readers of its name, whatever the order of sends,
/// readers opened and takes, on a channel with no waiting message: the n-th take on a
/// topic that gets a message, by whichever reader of the topic, gets the n-th message
/// of that name sent; a take gets nothing only when every message of its topic sent
/// before it has been taken. So readers of one topic share its messages, each going to
/// one take only.
pub proof fn readers_take_their_topic_in_order(
    ops: Seq<TopicOp>,
    answers: Seq<Result<(), Error>>,
    got: Seq<Result<Option<Message>, Error>>,
    states: Seq<TopicChannel>,
)
    requires
        is_topic_run(ops, answers, got, states),
    ensures
        forall|k: int|
            0 <= k < ops.len() && #[trigger] ops[k] is Take ==> got[k] == Ok::<Option<Message>, Error>(
                nth_or_none(
                    of_topic(sent_before(ops, k as nat), ops[k]->Take_0),
                    taken_before(ops, got, k as nat, ops[k]->Take_0),
                ),
            ),
{
    assert forall|k: int| 0 <= k < ops.len() && #[trigger] ops[k] is Take implies got[k] == Ok::<
        Option<Message>,
        Error,
    >(
        nth_or_none(
            of_topic(sent_before(ops, k as nat), ops[k]->Take_0),
            taken_before(ops, got, k as nat, ops[k]->Take_0),
        ),
    ) by {
        let t = ops[k]->Take_0;
        topic_queues_up_to(ops, answers, got, states, k as nat);
        assert(takes(t, states[k], states[k + 1], got[k]));
        assert(states[k].queue(t) == of_topic(sent_before(ops, k as nat), t).subrange(
            taken_before(ops, got, k as nat, t) as int,
            of_topic(sent_before(ops, k as nat), t).len() as int,
        ));
    }
}

/// The `n`-th of `messages`, if there are more than `n`.
pub open spec fn nth_or_none(messages: Seq<Message>, n: nat) -> Option<Message> {
    if n < messages.len() {
        Some(messages[n as int])
    } else {
        None
    }
}

} // verus!
