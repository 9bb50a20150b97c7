//! The message that travels through the bus, and its chunk marker.
use vstd::prelude::*;

verus! {

/// Whether a message travels whole or as one part of a split message.
#[derive(Debug, PartialEq, Eq, Structural, Clone, Copy)]
pub enum Chunk {
    /// The message is complete in itself.
    Full,
    /// The message is part `has` of `total` parts of the message `id`.
    Partial { total: usize, has: usize, id: u128 },
}

impl Chunk {
    /// A chunk is complete when it is whole, or when all its parts are there.
    pub open spec fn complete(self) -> bool {
        match self {
            Chunk::Full => true,
            Chunk::Partial { total, has, .. } => total == has,
        }
    }

    pub fn is_complete(&self) -> (r: bool)
        ensures
            r == self.complete(),
    {
        match self {
            Chunk::Full => true,
            Chunk::Partial { total, has, .. } => *total == *has,
        }
    }
}

/// A chunk is complete exactly when no part is missing: a whole message always is, and a
/// part of a split message is when it has as many parts as the total, never with fewer
/// or more.
pub proof fn complete_when_no_part_is_missing(total: usize, has: usize, id: u128)
    ensures
        (Chunk::Full).complete(),
        has == total ==> (Chunk::Partial { total, has, id }).complete(),
        has < total ==> !(Chunk::Partial { total, has, id }).complete(),
        has > total ==> !(Chunk::Partial { total, has, id }).complete(),
{
}

/// Whether `id`, read as a big-endian 128-bit number, carries the marks of a random
/// (version 4, RFC 4122 variant) UUID: version nibble 4 and variant bits `10`.
pub open spec fn is_random_uuid(id: u128) -> bool {
    &&& (id >> 76u128) & 0xfu128 == 4u128
    &&& (id >> 62u128) & 0x3u128 == 2u128
}

/// Draws a fresh identifier with `uuid::Uuid::new_v4` and reads it as a `u128` with
/// `Uuid::as_u128`. The crate sets the version nibble to 4 and the variant bits to `10`
/// on a value from the operating system's random source; that is all that is claimed.
/// The value itself rests on chance. `new_v4` panics where the operating system gives
/// no random bytes.
#[verifier::external_body]
fn random_uuid() -> (id: u128)
    ensures
        is_random_uuid(id),
{
    uuid::Uuid::new_v4().as_u128()
}


/// What a message says, with its strings read as sequences of characters.
#[verifier::ext_equal]
pub struct MessageView {
    pub id: u128,
    pub from: Seq<char>,
    pub to: Option<Seq<Seq<char>>>,
    pub name: Seq<char>,
    pub json_payload: Seq<char>,
    pub chunk: Chunk,
}

/// The characters of each name in a list of names.
pub open spec fn names_view(names: Seq<String>) -> Seq<Seq<char>> {
    names.map_values(|n: String| n@)
}

/// A message of the bus. `to` lists the listeners it is addressed to; `None` addresses
/// every listener.
#[derive(Debug, PartialEq, Eq)]
pub struct Message {
    pub id: u128,
    pub from: String,
    pub to: Option<Vec<String>>,
    pub name: String,
    pub json_payload: String,
    pub chunk: Chunk,
}

impl View for Message {
    type V = MessageView;

    open spec fn view(&self) -> MessageView {
        MessageView {
            id: self.id,
            from: self.from@,
            to: match self.to {
                Some(list) => Some(names_view(list@)),
                None => None,
            },
            name: self.name@,
            json_payload: self.json_payload@,
            chunk: self.chunk,
        }
    }
}

/// A copy of a list of names, name by name.
fn copy_names(names: &Vec<String>) -> (copy: Vec<String>)
    ensures
        copy@ == names@,
{
    let mut copy: Vec<String> = Vec::new();
    for i in 0..names.len()
        invariant
            copy@ == names@.subrange(0, i as int),
    {
        copy.push(names[i].clone());
        assert(copy@ =~= names@.subrange(0, i + 1));
    }
    assert(copy@ =~= names@);
    copy
}

impl Clone for Message {
    fn clone(&self) -> (copy: Self)
        ensures
            copy@ == self@,
    {
        let to = match &self.to {
            Some(list) => Some(copy_names(list)),
            None => None,
        };
        Message {
            id: self.id,
            from: self.from.clone(),
            to,
            name: self.name.clone(),
            json_payload: self.json_payload.clone(),
            chunk: self.chunk,
        }
    }
}

impl Message {
    /// A whole message with a fresh random identifier.
    pub fn new(from: String, to: Option<Vec<String>>, name: String, json_payload: String) -> (message: Self)
        ensures
            message.from == from,
            message.to == to,
            message.name == name,
            message.json_payload == json_payload,
            message.chunk == Chunk::Full,
            is_random_uuid(message.id),
    {
        Message { id: random_uuid(), from, to, name, json_payload, chunk: Chunk::Full }
    }

    /// The same message, marked with `chunk`.
    pub fn with_chunk(self, chunk: Chunk) -> (message: Self)
        ensures
            message == (Message { chunk, ..self }),
    {
        let mut message = self;
        message.chunk = chunk;
        message
    }
}

} // verus!
