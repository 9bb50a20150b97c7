use bus::message::Message;
use bus::preprocessor::{concat_outputs, Processor, ProcessorPipeline};

struct Duplicate;

impl Processor for Duplicate {
    fn process(&mut self, message: Message) -> Vec<Message> {
        vec![message.clone(), message]
    }
}

struct Tag(&'static str);

impl Processor for Tag {
    fn process(&mut self, mut message: Message) -> Vec<Message> {
        message.json_payload.push_str(self.0);
        vec![message]
    }
}

struct Discard;

impl Processor for Discard {
    fn process(&mut self, _message: Message) -> Vec<Message> {
        Vec::new()
    }
}

fn msg(payload: &str) -> Message {
    Message::new(String::from("x"), None, String::from("n"), String::from(payload))
}

#[test]
fn empty_pipeline_lets_the_message_through() {
    let mut pipeline = ProcessorPipeline::new();
    let m = msg("p");
    assert_eq!(pipeline.process(m.clone()), vec![m]);
}

#[test]
fn steps_run_in_order_on_every_message() {
    let mut pipeline = ProcessorPipeline::new();
    pipeline.add_processor(Tag("a"));
    pipeline.add_processor(Duplicate);
    pipeline.add_processor(Tag("b"));
    let out = pipeline.process(msg("p"));
    assert_eq!(out.len(), 2);
    assert_eq!(out[0].json_payload, "pab");
    assert_eq!(out[1].json_payload, "pab");
}

#[test]
fn a_step_that_drops_leaves_nothing() {
    let mut pipeline = ProcessorPipeline::new();
    pipeline.add_processor(Duplicate);
    pipeline.add_processor(Discard);
    pipeline.add_processor(Duplicate);
    assert!(pipeline.process(msg("p")).is_empty());
}

#[test]
fn two_duplicating_steps_give_four_copies() {
    let mut pipeline = ProcessorPipeline::new();
    pipeline.add_processor(Duplicate);
    pipeline.add_processor(Duplicate);
    let m = msg("p");
    assert_eq!(
        pipeline.process(m.clone()),
        vec![m.clone(), m.clone(), m.clone(), m]
    );
}

#[test]
fn added_step_runs_last() {
    let mut pipeline = ProcessorPipeline::new();
    pipeline.add_processor(Tag("a"));
    pipeline.add_processor(Tag("b"));
    pipeline.add_processor(Tag("c"));
    assert_eq!(pipeline.process(msg("")).pop().unwrap().json_payload, "abc");
}

#[test]
fn nested_pipeline_runs_as_one_step() {
    let mut inner = ProcessorPipeline::new();
    inner.add_processor(Duplicate);
    inner.add_processor(Tag("i"));
    let mut outer = ProcessorPipeline::new();
    outer.add_processor(Tag("o"));
    outer.add_processor(inner);
    let out = outer.process(msg("p"));
    assert_eq!(out.len(), 2);
    assert!(out.iter().all(|m| m.json_payload == "poi"));
}

#[test]
fn concat_outputs_keeps_order() {
    let a = msg("a");
    let b = msg("b");
    let c = msg("c");
    assert_eq!(
        concat_outputs(vec![vec![a.clone()], Vec::new(), vec![b.clone(), c.clone()]]),
        vec![a, b, c]
    );
    assert!(concat_outputs(Vec::new()).is_empty());
}
