use std::{cell::RefCell, rc::Rc};

use bus::channel::local_storage::LocalStorageChannel;
use bus::channel::spy::SpyChannel;
use bus::channel::topic::TopicChannel;
use bus::channel::{ChannelReader, ChannelWriter};
use bus::message::Message;

fn named(name: &str, payload: &str) -> Message {
    Message::new(String::new(), None, String::from(name), String::from(payload))
}

#[test]
fn test_local_storage_channel() {
    let mut ch = LocalStorageChannel::default();
    let msg_in = named("default", "1");
    ch.send(msg_in).unwrap();

    let msg_out = ch.recv().unwrap().unwrap();
    assert_eq!("1".to_string(), msg_out.json_payload);
    assert_eq!("default".to_string(), msg_out.name);
}

#[test]
fn local_storage_is_first_in_first_out() {
    let mut ch = LocalStorageChannel::default();
    assert_eq!(ch.recv().unwrap(), None);
    let a = named("a", "1");
    let b = named("b", "2");
    let c = named("c", "3");
    ch.send(a.clone()).unwrap();
    ch.send(b.clone()).unwrap();
    assert_eq!(ch.recv().unwrap(), Some(a));
    ch.send(c.clone()).unwrap();
    assert_eq!(ch.recv().unwrap(), Some(b));
    assert_eq!(ch.recv().unwrap(), Some(c));
    assert_eq!(ch.recv().unwrap(), None);
}

#[test]
fn spy_test_basics() {
    let memory = Rc::new(RefCell::new(Vec::new()));
    let memory_spy = memory.clone();

    let sub_ch = LocalStorageChannel::default();
    let mut ch = SpyChannel::new(sub_ch, move |msg: &Message| {
        memory_spy.borrow_mut().push(msg.name.clone());
    });

    ch.send(named("a", "1")).unwrap();
    ch.send(named("b", "1")).unwrap();

    assert_eq!(String::from("a"), memory.borrow()[0]);
    assert_eq!(String::from("b"), memory.borrow()[1]);
}

#[test]
fn spy_passes_messages_on_in_order() {
    let seen = Rc::new(RefCell::new(0usize));
    let counter = seen.clone();
    let mut ch = SpyChannel::new(LocalStorageChannel::default(), move |_msg: &Message| {
        *counter.borrow_mut() += 1;
    });
    let a = named("a", "1");
    let b = named("b", "2");
    ch.send(a.clone()).unwrap();
    ch.send(b.clone()).unwrap();
    assert_eq!(ch.recv().unwrap(), Some(a));
    assert_eq!(ch.recv().unwrap(), Some(b));
    assert_eq!(ch.recv().unwrap(), None);
    assert_eq!(*seen.borrow(), 2);
}

#[test]
fn topic_test_basics() {
    let mut wr = TopicChannel::default();
    wr.send(named("rabbit", "1")).unwrap();
    wr.send(named("horse", "2")).unwrap();

    let rabbit_rd = wr.get_reader(String::from("rabbit"));
    let horse_rd = wr.get_reader(String::from("horse"));
    let other_rd = wr.get_reader(String::from("other"));

    assert_eq!(None, other_rd.recv(&mut wr).unwrap());
    assert_eq!(
        String::from("2"),
        horse_rd.recv(&mut wr).unwrap().unwrap().json_payload
    );
    assert_eq!(
        String::from("1"),
        rabbit_rd.recv(&mut wr).unwrap().unwrap().json_payload
    );
}

#[test]
fn topic_reader_sees_later_messages_in_order() {
    let mut wr = TopicChannel::default();
    let reader = wr.get_reader(String::from("t"));
    assert_eq!(reader.recv(&mut wr).unwrap(), None);
    let first = named("t", "1");
    let second = named("t", "2");
    wr.send(first.clone()).unwrap();
    wr.send(named("u", "x")).unwrap();
    wr.send(second.clone()).unwrap();
    assert_eq!(reader.recv(&mut wr).unwrap(), Some(first));
    assert_eq!(reader.recv(&mut wr).unwrap(), Some(second));
    assert_eq!(reader.recv(&mut wr).unwrap(), None);
    let other = wr.get_reader(String::from("u"));
    assert_eq!(other.recv(&mut wr).unwrap().unwrap().json_payload, "x");
}

#[test]
fn readers_of_one_topic_share_its_messages() {
    let mut wr = TopicChannel::default();
    let first_reader = wr.get_reader(String::from("t"));
    wr.send(named("t", "1")).unwrap();
    let second_reader = wr.get_reader(String::from("t"));
    wr.send(named("t", "2")).unwrap();
    wr.send(named("t", "3")).unwrap();
    assert_eq!(second_reader.recv(&mut wr).unwrap().unwrap().json_payload, "1");
    assert_eq!(first_reader.recv(&mut wr).unwrap().unwrap().json_payload, "2");
    assert_eq!(second_reader.recv(&mut wr).unwrap().unwrap().json_payload, "3");
    assert_eq!(first_reader.recv(&mut wr).unwrap(), None);
    assert_eq!(second_reader.recv(&mut wr).unwrap(), None);
}
