use bus::channel::local_storage::LocalStorageChannel;
use bus::channel::{ChannelReader, ChannelWriter};
use bus::engine::{plan, route};
use bus::message::{Chunk, Message};
use bus::names::NameTable;
use bus::preprocessor::{Processor, ProcessorPipeline};

fn make_message() -> Message {
    Message::new(String::from("x"), None, String::from("name"), String::from("1"))
}

fn make_message_to(to: Vec<String>) -> Message {
    Message::new(String::from("x"), Some(to), String::from("name"), String::from("1"))
}

fn listeners(names: &[&str]) -> NameTable<LocalStorageChannel> {
    let mut table = NameTable::new();
    for n in names {
        table.insert(String::from(*n), LocalStorageChannel::default());
    }
    table
}

/// One turn of the bus: the pipeline's result, planned for the listeners of `table`.
fn turn(
    pipeline: &mut ProcessorPipeline,
    table: &NameTable<LocalStorageChannel>,
    message: Message,
) -> Vec<(usize, Message)> {
    let made = pipeline.process(message);
    plan(table, &made)
}

/// Carries out deliveries on the channels of `table`.
fn deliver(table: &mut NameTable<LocalStorageChannel>, deliveries: Vec<(usize, Message)>) {
    for (place, message) in deliveries {
        let mut ch = table.replace_at(place, LocalStorageChannel::default());
        ch.send(message).unwrap();
        table.replace_at(place, ch);
    }
}

fn take(table: &mut NameTable<LocalStorageChannel>, place: usize) -> Option<Message> {
    let mut ch = table.replace_at(place, LocalStorageChannel::default());
    let got = ch.recv().unwrap();
    table.replace_at(place, ch);
    got
}

#[test]
fn broadcast_reaches_every_listener() {
    let mut table = listeners(&["a", "b"]);
    let mut pipeline = ProcessorPipeline::new();
    for _ in 0..3 {
        let d = turn(&mut pipeline, &table, make_message());
        deliver(&mut table, d);
    }
    for place in 0..2 {
        for _ in 0..3 {
            assert_eq!(take(&mut table, place).unwrap().name, String::from("name"));
        }
        assert_eq!(take(&mut table, place), None);
    }
}

#[test]
fn addressed_message_reaches_only_its_listener() {
    let mut table = listeners(&["a", "b", "c"]);
    let mut pipeline = ProcessorPipeline::new();
    let d = turn(&mut pipeline, &table, make_message_to(vec![String::from("b")]));
    deliver(&mut table, d);
    assert!(take(&mut table, 0).is_none());
    assert!(take(&mut table, 1).is_some());
    assert!(take(&mut table, 2).is_none());
}

#[test]
fn route_lists_places_in_order() {
    let table = listeners(&["a", "b", "c"]);
    assert_eq!(route(&table, &None), vec![0, 1, 2]);
    let to = Some(vec![
        String::from("c"),
        String::from("nobody"),
        String::from("a"),
        String::from("c"),
    ]);
    assert_eq!(route(&table, &to), vec![2, 0, 2]);
    assert_eq!(route(&table, &Some(vec![String::from("zz")])), Vec::<usize>::new());
    assert_eq!(route(&table, &Some(Vec::new())), Vec::<usize>::new());
    let empty: NameTable<LocalStorageChannel> = NameTable::new();
    assert_eq!(route(&empty, &None), Vec::<usize>::new());
}

#[test]
fn plan_copies_each_message_for_each_place() {
    let table = listeners(&["a", "b"]);
    let first = make_message();
    let second = make_message_to(vec![String::from("b"), String::from("b")]);
    let d = plan(&table, &vec![first.clone(), second.clone()]);
    assert_eq!(
        d,
        vec![(0, first.clone()), (1, first), (1, second.clone()), (1, second)]
    );
}

#[test]
fn listener_registered_again_keeps_its_place() {
    let mut table = listeners(&["a", "b"]);
    let previous = table.insert(String::from("a"), LocalStorageChannel::default());
    assert!(previous.is_some());
    assert_eq!(table.len(), 2);
    assert_eq!(table.position(&String::from("a")), Some(0));
    assert_eq!(table.position(&String::from("b")), Some(1));
    assert_eq!(table.position(&String::from("c")), None);
    assert!(table.insert(String::from("c"), LocalStorageChannel::default()).is_none());
    assert_eq!(table.position(&String::from("c")), Some(2));
}

struct Partitioner;

impl Processor for Partitioner {
    fn process(&mut self, message: Message) -> Vec<Message> {
        if &message.name == "order" {
            vec![
                Message::new(
                    message.from.clone(),
                    Some(vec![String::from("fraud")]),
                    String::from("name"),
                    String::from("1"),
                )
                .with_chunk(Chunk::Partial { total: 2, has: 1, id: message.id }),
                Message::new(
                    message.from.clone(),
                    Some(vec![String::from("inventory")]),
                    String::from("name"),
                    String::from("1"),
                )
                .with_chunk(Chunk::Partial { total: 2, has: 1, id: message.id }),
            ]
        } else {
            vec![message]
        }
    }
}

#[test]
fn partitioned_order_reaches_fraud_and_inventory() {
    let mut table = listeners(&["fraud", "inventory", "logging"]);
    let mut pipeline = ProcessorPipeline::new();
    pipeline.add_processor(Partitioner);
    let order = Message::new(String::from("order"), None, String::from("order"), String::from("1"));
    let order_id = order.id;
    let d = turn(&mut pipeline, &table, order);
    deliver(&mut table, d);
    let fraud = take(&mut table, 0).unwrap();
    let inventory = take(&mut table, 1).unwrap();
    assert_eq!(fraud.from, String::from("order"));
    assert_eq!(inventory.from, String::from("order"));
    assert_eq!(fraud.chunk, Chunk::Partial { total: 2, has: 1, id: order_id });
    assert!(take(&mut table, 2).is_none());

    // Fraud and inventory answer to logging, carrying the chunk they got.
    for got in [fraud, inventory] {
        let result = Message::new(
            String::from("worker"),
            Some(vec![String::from("logging")]),
            String::from("order_result"),
            String::from("1"),
        )
        .with_chunk(got.chunk);
        let d = turn(&mut pipeline, &table, result);
        deliver(&mut table, d);
    }
    for _ in 0..2 {
        let logged = take(&mut table, 2).unwrap();
        assert_eq!(logged.name, String::from("order_result"));
        assert_eq!(logged.chunk, Chunk::Partial { total: 2, has: 1, id: order_id });
    }
    assert!(take(&mut table, 2).is_none());
    assert!(take(&mut table, 0).is_none());
    assert!(take(&mut table, 1).is_none());

    let other = make_message();
    let d = turn(&mut pipeline, &table, other.clone());
    assert_eq!(d, vec![(0, other.clone()), (1, other.clone()), (2, other)]);
}
