//! Where the bus sends a message: the decisions of its dispatching loop.
use crate::message::{names_view, Message, MessageView};
use crate::names::NameTable;
use vstd::prelude::*;

verus! {

/// The places of the listeners, named `names` in the order they registered, that a
/// message addressed `to` goes to: every listener once, in order, when `to` is `None`;
/// otherwise, for each name of `to` in order, the listener of that name, where there
/// is one.
pub open spec fn addressed(names: Seq<Seq<char>>, to: Option<Seq<Seq<char>>>) -> Seq<int> {
    match to {
        None => Seq::new(names.len(), |i: int| i),
        Some(list) => named(names, list),
    }
}

/// For each name of `list` in order, the place of that name in `names`, where it is
/// there.
pub open spec fn named(names: Seq<Seq<char>>, list: Seq<Seq<char>>) -> Seq<int>
    decreases list.len(),
{
    if list.len() == 0 {
        Seq::empty()
    } else {
        let rest = named(names, list.drop_last());
        if names.contains(list.last()) {
            rest.push(names.index_of(list.last()))
        } else {
            rest
        }
    }
}

/// The deliveries, as (listener place, message) pairs, of the messages `messages`, in
/// order: for each message, one delivery to each place it is addressed to.
pub open spec fn planned(names: Seq<Seq<char>>, messages: Seq<MessageView>) -> Seq<(int, MessageView)>
    decreases messages.len(),
{
    if messages.len() == 0 {
        Seq::empty()
    } else {
        let last = messages.last();
        planned(names, messages.drop_last()) + addressed(names, last.to).map_values(
            |p: int| (p, last),
        )
    }
}

/// The addressees of a message, as characters.
pub open spec fn to_view(to: Option<Vec<String>>) -> Option<Seq<Seq<char>>> {
    match to {
        Some(list) => Some(names_view(list@)),
        None => None,
    }
}

/// The places, in `listeners`, of the listeners a message addressed `to` goes to.
pub fn route<Q>(listeners: &NameTable<Q>, to: &Option<Vec<String>>) -> (places: Vec<usize>)
    ensures
        places@.len() == addressed(listeners.names(), to_view(*to)).len(),
        forall|k: int|
            0 <= k < places@.len() ==> places@[k] as int == #[trigger] addressed(
                listeners.names(),
                to_view(*to),
            )[k],
        forall|k: int| 0 <= k < places@.len() ==> #[trigger] places@[k] < listeners.entries().len(),
{
    let ghost names = listeners.names();
    let mut places: Vec<usize> = Vec::new();
    match to {
        None => {
            let n = listeners.len();
            for i in 0..n
                invariant
                    n == names.len(),
                    n == listeners.entries().len(),
                    places@.len() == i,
                    forall|k: int| 0 <= k < i ==> places@[k] as int == k,
            {
                places.push(i);
            }
            assert forall|k: int| 0 <= k < names.len() implies #[trigger] addressed(
                names,
                to_view(*to),
            )[k] == k by {}
        },
        Some(list) => {
            let ghost wanted = names_view(list@);
            proof {
                use_type_invariant(listeners);
                assert(wanted.subrange(0, 0) =~= Seq::<Seq<char>>::empty());
            }
            let mut i: usize = 0;
            while i < list.len()
                invariant
                    i <= list@.len(),
                    names == listeners.names(),
                    names.no_duplicates(),
                    forall|k: int|
                        0 <= k < places@.len() ==> #[trigger] places@[k] < listeners.entries().len(),
                    wanted == names_view(list@),
                    places@.len() == named(names, wanted.subrange(0, i as int)).len(),
                    forall|k: int|
                        0 <= k < places@.len() ==> places@[k] as int == #[trigger] named(
                            names,
                            wanted.subrange(0, i as int),
                        )[k],
                decreases list@.len() - i,
            {
                let found = listeners.position(&list[i]);
                let ghost before = named(names, wanted.subrange(0, i as int));
                let ghost now = wanted.subrange(0, i + 1);
                assert(now.drop_last() =~= wanted.subrange(0, i as int));
                assert(now.last() == list@[i as int]@);
                match found {
                    Some(p) => {
                        assert(names.contains(list@[i as int]@));
                        assert(names.index_of(list@[i as int]@) == p as int);
                        assert(named(names, now) == before.push(p as int));
                        places.push(p);
                        assert forall|k: int| 0 <= k < places@.len() implies places@[k] as int
                            == #[trigger] named(names, now)[k] by {
                            if k < before.len() {
                                assert(named(names, now)[k] == before[k]);
                            }
                        }
                    },
                    None => {
                        assert(named(names, now) == before);
                    },
                }
                i = i + 1;
            }
            assert(wanted.subrange(0, list@.len() as int) =~= wanted);
        },
    }
    places
}

/// Whether `deliveries` carry out `plan`, delivery by delivery.
pub open spec fn carries_out(deliveries: Seq<(usize, Message)>, plan: Seq<(int, MessageView)>) -> bool {
    &&& deliveries.len() == plan.len()
    &&& forall|k: int|
        0 <= k < deliveries.len() ==> (deliveries[k].0 as int, deliveries[k].1@) == #[trigger] plan[k]
}

/// What a list of messages says.
pub open spec fn views(messages: Seq<Message>) -> Seq<MessageView> {
    messages.map_values(|m: Message| m@)
}

/// The deliveries of `messages`, in order: for each message, a copy of it for each place,
/// in `listeners`, that it is addressed to.
pub fn plan<Q>(listeners: &NameTable<Q>, messages: &Vec<Message>) -> (deliveries: Vec<(usize, Message)>)
    ensures
        carries_out(deliveries@, planned(listeners.names(), views(messages@))),
        forall|k: int|
            0 <= k < deliveries@.len() ==> #[trigger] deliveries@[k].0 < listeners.entries().len(),
{
    let ghost names = listeners.names();
    let ghost all = views(messages@);
    let mut deliveries: Vec<(usize, Message)> = Vec::new();
    let mut i: usize = 0;
    assert(all.subrange(0, 0) =~= Seq::<MessageView>::empty());
    while i < messages.len()
        invariant
            i <= messages@.len(),
            names == listeners.names(),
            all == views(messages@),
            forall|k: int|
                0 <= k < deliveries@.len() ==> #[trigger] deliveries@[k].0 < listeners.entries().len(),
            deliveries@.len() == planned(names, all.subrange(0, i as int)).len(),
            forall|k: int|
                0 <= k < deliveries@.len() ==> (deliveries@[k].0 as int, deliveries@[k].1@)
                    == #[trigger] planned(names, all.subrange(0, i as int))[k],
        decreases messages@.len() - i,
    {
        let message = &messages[i];
        let places = route(listeners, &message.to);

        let ghost before = planned(names, all.subrange(0, i as int));
        let ghost now = all.subrange(0, i + 1);
        let ghost targets = addressed(names, message@.to);
        proof {
            assert(now.drop_last() =~= all.subrange(0, i as int));
            assert(now.last() == message@);
            assert(to_view(message.to) == message@.to);
            assert(planned(names, now) == before + targets.map_values(
                |p: int| (p, message@),
            ));
        }
        let mut j: usize = 0;
        while j < places.len()
            invariant
                j <= places@.len(),
                places@.len() == targets.len(),
                forall|k: int| 0 <= k < places@.len() ==> places@[k] as int == #[trigger] targets[k],
                forall|k: int|
                    0 <= k < places@.len() ==> #[trigger] places@[k] < listeners.entries().len(),
                forall|k: int|
                    0 <= k < deliveries@.len() ==> #[trigger] deliveries@[k].0 < listeners.entries().len(),
                deliveries@.len() == before.len() + j,
                forall|k: int|
                    0 <= k < before.len() ==> (deliveries@[k].0 as int, deliveries@[k].1@)
                        == #[trigger] before[k],
                forall|k: int|
                    before.len() <= k < deliveries@.len() ==> (deliveries@[k].0 as int, deliveries@[k].1@)
                        == (#[trigger] targets[k - before.len()], message@),
            decreases places@.len() - j,
        {
            deliveries.push((places[j], message.clone()));
            j = j + 1;
        }
        proof {
            let whole = planned(names, now);
            assert forall|k: int| 0 <= k < deliveries@.len() implies (
            deliveries@[k].0 as int,
            deliveries@[k].1@,
            ) == #[trigger] whole[k] by {
                if k >= before.len() {
                    assert(whole[k] == targets.map_values(|p: int| (p, message@))[k
                        - before.len()]);
                }
            }
        }
        i = i + 1;
    }
    assert(all.subrange(0, messages@.len() as int) =~= all);
    deliveries
}

/// Deliveries keep the order of the messages: planning two batches one after the other
/// gives the deliveries of the first batch, then those of the second.
pub proof fn plans_follow_message_order(
    names: Seq<Seq<char>>,
    first: Seq<MessageView>,
    second: Seq<MessageView>,
)
    ensures
        planned(names, first + second) == planned(names, first) + planned(names, second),
    decreases second.len(),
{
    if second.len() == 0 {
        assert(first + second =~= first);
        assert(planned(names, first) + planned(names, second) =~= planned(names, first));
    } else {
        let both = first + second;
        assert(both.drop_last() =~= first + second.drop_last());
        assert(both.last() == second.last());
        plans_follow_message_order(names, first, second.drop_last());
        let tail = addressed(names, second.last().to).map_values(|p: int| (p, second.last()));
        assert(planned(names, first) + planned(names, second.drop_last()) + tail =~= planned(
            names,
            first,
        ) + (planned(names, second.drop_last()) + tail));
    }
}

/// The places that deliveries go to, in order.
pub open spec fn places_of(deliveries: Seq<(int, MessageView)>) -> Seq<int> {
    deliveries.map_values(|d: (int, MessageView)| d.0)
}

/// Every message goes to each of its addressees, whoever sent it: the deliveries planned
/// for one message all carry that message, go to registered places, and reach each
/// listener once when the message names no one, or as many times as its name stands in
/// the message's list of addressees otherwise.
pub proof fn every_addressee_gets_the_message(names: Seq<Seq<char>>, message: MessageView)
    requires
        names.no_duplicates(),
    ensures
        forall|k: int|
            0 <= k < planned(names, seq![message]).len() ==> {
                &&& #[trigger] planned(names, seq![message])[k].1 == message
                &&& 0 <= planned(names, seq![message])[k].0 < names.len()
            },
        forall|p: int|
            0 <= p < names.len() ==> #[trigger] occurrences(
                places_of(planned(names, seq![message])),
                p,
            ) == match message.to {
                None => 1,
                Some(list) => occurrences(list, names[p]),
            },
{
    let one = seq![message];
    assert(one.drop_last() =~= Seq::<MessageView>::empty());
    let targets = addressed(names, message.to);
    let plan = planned(names, one);
    assert(one.last() == message);
    assert(planned(names, one.drop_last()) == Seq::<(int, MessageView)>::empty());
    assert(plan == planned(names, one.drop_last()) + targets.map_values(|p: int| (p, message)));
    assert(plan =~= targets.map_values(|p: int| (p, message)));
    assert(places_of(plan) =~= targets);
    match message.to {
        None => broadcast_reaches_every_listener_once(names),
        Some(list) => addressed_message_reaches_exactly_the_named(names, list),
    }
}

/// The number of times `x` stands in `s`.
pub open spec fn occurrences<A>(s: Seq<A>, x: A) -> nat
    decreases s.len(),
{
    if s.len() == 0 {
        0
    } else {
        occurrences(s.drop_last(), x) + if s.last() == x {
            1nat
        } else {
            0nat
        }
    }
}

proof fn occurrences_in_first_places(n: nat, p: int)
    ensures
        occurrences(Seq::new(n, |i: int| i), p) == (if 0 <= p < n {
            1nat
        } else {
            0nat
        }),
    decreases n,
{
    if n > 0 {
        let s = Seq::new(n, |i: int| i);
        assert(s.drop_last() =~= Seq::new((n - 1) as nat, |i: int| i));
        occurrences_in_first_places((n - 1) as nat, p);
    }
}

/// A message addressed to no one in particular goes to every listener, once each, and to
/// nothing else.
pub proof fn broadcast_reaches_every_listener_once(names: Seq<Seq<char>>)
    ensures
        forall|k: int|
            0 <= k < addressed(names, None).len() ==> 0 <= #[trigger] addressed(names, None)[k]
                < names.len(),
        forall|p: int| 0 <= p < names.len() ==> #[trigger] occurrences(addressed(names, None), p) == 1,
{
    assert forall|p: int| 0 <= p < names.len() implies #[trigger] occurrences(
        addressed(names, None),
        p,
    ) == 1 by {
        occurrences_in_first_places(names.len(), p);
    }
}

/// A message addressed to a list of names goes to the listener of each name as many times
/// as the name stands in the list, and to no other place.
pub proof fn addressed_message_reaches_exactly_the_named(names: Seq<Seq<char>>, list: Seq<Seq<char>>)
    requires
        names.no_duplicates(),
    ensures
        forall|k: int|
            0 <= k < addressed(names, Some(list)).len() ==> 0 <= #[trigger] addressed(
                names,
                Some(list),
            )[k] < names.len(),
        forall|p: int|
            0 <= p < names.len() ==> #[trigger] occurrences(addressed(names, Some(list)), p)
                == occurrences(list, names[p]),
    decreases list.len(),
{
    if list.len() > 0 {
        let rest = list.drop_last();
        let last = list.last();
        addressed_message_reaches_exactly_the_named(names, rest);
        let before = named(names, rest);
        assert(addressed(names, Some(rest)) == before);
        assert(list.drop_last() == rest);
        if names.contains(last) {
            let q = names.index_of(last);
            assert(named(names, list).drop_last() =~= before);
            assert forall|p: int| 0 <= p < names.len() implies #[trigger] occurrences(
                named(names, list),
                p,
            ) == occurrences(list, names[p]) by {
                assert(occurrences(addressed(names, Some(rest)), p) == occurrences(rest, names[p]));
                if last == names[p] {
                    assert(q == p);
                }
            }
        } else {
            assert forall|p: int| 0 <= p < names.len() implies #[trigger] occurrences(
                named(names, list),
                p,
            ) == occurrences(list, names[p]) by {
                assert(occurrences(addressed(names, Some(rest)), p) == occurrences(rest, names[p]));
                assert(last != names[p]);
            }
        }
    }
}

/// A message addressed only to names that no listener has goes nowhere.
pub proof fn unknown_addressees_are_dropped(names: Seq<Seq<char>>, list: Seq<Seq<char>>)
    requires
        forall|k: int| 0 <= k < list.len() ==> !names.contains(#[trigger] list[k]),
    ensures
        addressed(names, Some(list)) == Seq::<int>::empty(),
    decreases list.len(),
{
    if list.len() > 0 {
        let rest = list.drop_last();
        assert forall|k: int| 0 <= k < rest.len() implies !names.contains(#[trigger] rest[k]) by {
            assert(rest[k] == list[k]);
        }
        unknown_addressees_are_dropped(names, rest);
        assert(!names.contains(list[list.len() - 1]));
    }
}

} // verus!
