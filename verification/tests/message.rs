use bus::message::{Chunk, Message};

fn sample() -> Message {
    Message::new(
        String::from("x"),
        Some(vec![String::from("a"), String::from("b")]),
        String::from("name"),
        String::from("{\"k\": 1}"),
    )
}

#[test]
fn new_message_keeps_its_fields_and_is_whole() {
    let m = sample();
    assert_eq!(m.from, "x");
    assert_eq!(m.to, Some(vec![String::from("a"), String::from("b")]));
    assert_eq!(m.name, "name");
    assert_eq!(m.json_payload, "{\"k\": 1}");
    assert_eq!(m.chunk, Chunk::Full);
}

#[test]
fn new_message_gets_a_random_version_four_id() {
    let m = sample();
    let id = uuid::Uuid::from_u128(m.id);
    assert_eq!(id.get_version_num(), 4);
    assert_eq!(id.get_variant(), uuid::Variant::RFC4122);
    assert_eq!((m.id >> 76) & 0xf, 4);
    assert_eq!((m.id >> 62) & 0x3, 2);
    let other = sample();
    assert_ne!(m.id, other.id);
}

#[test]
fn with_chunk_changes_only_the_chunk() {
    let m = sample();
    let copy = m.clone();
    let chunk = Chunk::Partial { total: 2, has: 1, id: 77 };
    let marked = m.with_chunk(chunk);
    assert_eq!(marked.chunk, chunk);
    assert_eq!(marked.id, copy.id);
    assert_eq!(marked.from, copy.from);
    assert_eq!(marked.to, copy.to);
    assert_eq!(marked.name, copy.name);
    assert_eq!(marked.json_payload, copy.json_payload);
}

#[test]
fn clone_is_equal() {
    let m = sample();
    assert_eq!(m.clone(), m);
    let n = Message::new(String::from("y"), None, String::from("n"), String::new());
    assert_eq!(n.clone(), n);
}

#[test]
fn chunk_completeness() {
    assert!(Chunk::Full.is_complete());
    assert!(Chunk::Partial { total: 2, has: 2, id: 5 }.is_complete());
    assert!(!Chunk::Partial { total: 2, has: 1, id: 5 }.is_complete());
    assert!(Chunk::Partial { total: 0, has: 0, id: 0 }.is_complete());
}
