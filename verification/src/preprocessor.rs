//! Processors that turn one message into any number of messages, and pipelines of them.
use crate::message::Message;
use vstd::prelude::*;

verus! {

/// A step that turns a message into the messages that take its place.
pub trait Processor: Send {
    /// Whether `out` is a list of messages that this processor may make of `message`.
    /// A processor that says nothing more may make any list.
    open spec fn may_make(&self, message: Message, out: Seq<Message>) -> bool {
        true
    }

    /// Whether this processor keeps a record of the messages it is called with. A
    /// processor that says nothing more keeps none.
    open spec fn records_calls(&self) -> bool {
        false
    }

    /// The messages this processor has been called with, oldest first, where it keeps a
    /// record of them.
    open spec fn calls(&self) -> Seq<Message> {
        Seq::empty()
    }

    /// The messages that take the place of `message`. What the processor may make, and
    /// whether it keeps a record of its calls, do not change when it runs; a processor
    /// that keeps one adds `message` to it.
    fn process(&mut self, message: Message) -> (out: Vec<Message>)
        ensures
            old(self).may_make(message, out@),
            forall|m: Message, o: Seq<Message>| #[trigger]
                final(self).may_make(m, o) == old(self).may_make(m, o),
            final(self).records_calls() == old(self).records_calls(),
            old(self).records_calls() ==> final(self).calls() == old(self).calls().push(message),
    ;
}

/// What one step may make of one message.
pub type StepRelation = spec_fn(Message, Seq<Message>) -> bool;

/// The lists of `outs`, one after the other.
pub open spec fn flatten_outputs(outs: Seq<Seq<Message>>) -> Seq<Message>
    decreases outs.len(),
{
    if outs.len() == 0 {
        Seq::empty()
    } else {
        flatten_outputs(outs.drop_last()) + outs.last()
    }
}

/// Whether `next` is what a step with relation `step` may make of the messages `stage`:
/// for each message of `stage`, in order, a list that the step may make of it, one list
/// after the other.
pub open spec fn stage_made(step: StepRelation, stage: Seq<Message>, next: Seq<Message>) -> bool {
    exists|outs: Seq<Seq<Message>>|
        {
            &&& outs.len() == stage.len()
            &&& forall|k: int| 0 <= k < stage.len() ==> step(stage[k], #[trigger] outs[k])
            &&& next == flatten_outputs(outs)
        }
}

/// Whether `stages` is a run of the steps `steps`: one stage more than there are steps,
/// each stage after the first being what the step before it may make of the stage
/// before.
pub open spec fn is_run(steps: Seq<StepRelation>, stages: Seq<Seq<Message>>) -> bool {
    &&& stages.len() == steps.len() + 1
    &&& forall|k: int|
        0 <= k < steps.len() ==> #[trigger] stage_made(steps[k], stages[k], stages[k + 1])
}

/// Whether `out` is what the steps `steps`, run one after the other, may make of the
/// messages `first`: each step gets every message that the step before it made.
pub open spec fn runs(steps: Seq<StepRelation>, first: Seq<Message>, out: Seq<Message>) -> bool {
    exists|stages: Seq<Seq<Message>>|
        #[trigger] is_run(steps, stages) && stages[0] == first && stages.last() == out
}

/// The lists of `outputs`, one after the other, in one list.
pub fn concat_outputs(outputs: Vec<Vec<Message>>) -> (out: Vec<Message>)
    ensures
        out@ == flatten_outputs(outputs@.map_values(|v: Vec<Message>| v@)),
{
    let ghost all = outputs@.map_values(|v: Vec<Message>| v@);
    let n = outputs.len();
    let mut rest = outputs;
    let mut out: Vec<Message> = Vec::new();
    let mut k: usize = 0;
    assert(all.subrange(0, 0) =~= Seq::<Seq<Message>>::empty());
    while rest.len() > 0
        invariant
            k <= n,
            all.len() == n,
            rest@.len() == n - k,
            forall|j: int| 0 <= j < rest@.len() ==> #[trigger] rest@[j]@ == all[k + j],
            out@ == flatten_outputs(all.subrange(0, k as int)),
        decreases rest@.len(),
    {
        let mut first = rest.remove(0);
        assert(first@ == all[k as int]);
        assert(all.subrange(0, k + 1).drop_last() =~= all.subrange(0, k as int));
        out.append(&mut first);
        k = k + 1;
        assert forall|j: int| 0 <= j < rest@.len() implies #[trigger] rest@[j]@ == all[k + j] by {
            assert(rest@[j]@ == all[(k - 1) + (j + 1)]);
        }
    }
    assert(all.subrange(0, n as int) =~= all);
    out
}

/// What `processor` may make of one message once it stands as a step of a pipeline,
/// behind a `Box<dyn Processor>`. For a processor of a known type, this is what that
/// type's `may_make` says.
pub open spec fn as_step<P: Processor + 'static>(processor: P) -> StepRelation {
    |m: Message, o: Seq<Message>|
        {
            let step: Box<dyn Processor> = Box::new(processor);
            step.may_make(m, o)
        }
}

/// Whether `processor` keeps a record of its calls once it stands as a step of a
/// pipeline, behind a `Box<dyn Processor>`.
pub open spec fn step_records<P: Processor + 'static>(processor: P) -> bool {
    let step: Box<dyn Processor> = Box::new(processor);
    step.records_calls()
}

/// The record of calls of `processor` once it stands as a step of a pipeline, behind a
/// `Box<dyn Processor>`.
pub open spec fn step_calls<P: Processor + 'static>(processor: P) -> Seq<Message> {
    let step: Box<dyn Processor> = Box::new(processor);
    step.calls()
}

/// Processors run one after the other: each step gets, in order, every message that the
/// step before it made.
pub struct ProcessorPipeline {
    pipeline: Vec<Step>,
}

/// One step of a pipeline.
struct Step {
    processor: Box<dyn Processor>,
}

impl ProcessorPipeline {
    /// What each step may make of one message, first step first.
    pub closed spec fn steps(&self) -> Seq<StepRelation> {
        self.pipeline@.map_values(|s: Step| Step::relation(s))
    }

    /// For each step, first step first, whether it keeps a record of its calls.
    pub closed spec fn recording(&self) -> Seq<bool> {
        self.pipeline@.map_values(|s: Step| s.processor.records_calls())
    }

    /// For each step, first step first, the record of its calls.
    pub closed spec fn histories(&self) -> Seq<Seq<Message>> {
        self.pipeline@.map_values(|s: Step| s.processor.calls())
    }

    /// A pipeline with no step, which lets every message through as it is.
    pub fn new() -> (pipeline: Self)
        ensures
            pipeline.steps() == Seq::<StepRelation>::empty(),
            pipeline.recording() == Seq::<bool>::empty(),
            pipeline.histories() == Seq::<Seq<Message>>::empty(),
    {
        let pipeline = ProcessorPipeline { pipeline: Vec::new() };
        assert(pipeline.steps() =~= Seq::<StepRelation>::empty());
        assert(pipeline.recording() =~= Seq::<bool>::empty());
        assert(pipeline.histories() =~= Seq::<Seq<Message>>::empty());
        pipeline
    }

    /// Appends `step`.
    fn push_step(&mut self, step: Step)
        ensures
            final(self).steps() == old(self).steps().push(Step::relation(step)),
            final(self).recording() == old(self).recording().push(step.processor.records_calls()),
            final(self).histories() == old(self).histories().push(step.processor.calls()),
    {
        self.pipeline.push(step);
        assert(self.steps() =~= old(self).steps().push(Step::relation(step)));
        assert(self.recording() =~= old(self).recording().push(step.processor.records_calls()));
        assert(self.histories() =~= old(self).histories().push(step.processor.calls()));
    }

    /// Adds `processor` as the last step; the steps before it keep their order.
    pub fn add_processor<P: Processor + 'static>(&mut self, processor: P)
        ensures
            final(self).steps() == old(self).steps().push(as_step(processor)),
            final(self).recording() == old(self).recording().push(step_records(processor)),
            final(self).histories() == old(self).histories().push(step_calls(processor)),
    {
        let step = Step::holding(processor);
        self.push_step(step);
    }
}

impl Processor for ProcessorPipeline {
    /// The pipeline may make what its steps, run one after the other, may make.
    open spec fn may_make(&self, message: Message, out: Seq<Message>) -> bool {
        runs(self.steps(), seq![message], out)
    }

    /// Runs `message` through every step, in order: each step is called on every message
    /// that the step before it made, in the order they were made.
    fn process(&mut self, message: Message) -> (out: Vec<Message>)
        ensures
            final(self).steps() == old(self).steps(),
            final(self).recording() == old(self).recording(),
            exists|stages: Seq<Seq<Message>>|
                {
                    &&& #[trigger] is_run(old(self).steps(), stages)
                    &&& stages[0] == seq![message]
                    &&& stages.last() == out@
                    &&& forall|k: int|
                        0 <= k < old(self).recording().len() && old(self).recording()[k]
                            ==> #[trigger] final(self).histories()[k] == old(self).histories()[k]
                            + stages[k]
                },
    {
        let ghost steps = self.steps();
        let ghost recording = self.recording();
        let ghost first = self.histories();
        let n = self.pipeline.len();
        let mut current: Vec<Message> = Vec::new();
        current.push(message);
        assert(current@ =~= seq![message]);
        let ghost mut stages: Seq<Seq<Message>> = seq![current@];
        let mut i: usize = 0;
        while i < n
            invariant
                i <= n,
                n == self.pipeline@.len(),
                steps.len() == n,
                self.steps() == steps,
                stages.len() == i + 1,
                stages[0] == seq![message],
                stages.last() == current@,
                forall|k: int|
                    0 <= k < i ==> #[trigger] stage_made(steps[k], stages[k], stages[k + 1]),
                self.recording() == recording,
                recording.len() == n,
                first.len() == n,
                self.histories().len() == n,
                forall|k: int|
                    0 <= k < i && recording[k] ==> #[trigger] self.histories()[k] == first[k]
                        + stages[k],
                forall|k: int|
                    i <= k < n && recording[k] ==> #[trigger] self.histories()[k] == first[k],
            decreases n - i,
        {
            let ghost stage = current@;
            let mut outputs: Vec<Vec<Message>> = Vec::new();
            let mut rest = current;
            while rest.len() > 0
                invariant
                    i < n,
                    n == self.pipeline@.len(),
                    steps.len() == n,
                    self.steps() == steps,
                    outputs@.len() + rest@.len() == stage.len(),
                    rest@ == stage.subrange(outputs@.len() as int, stage.len() as int),
                    forall|k: int|
                        0 <= k < outputs@.len() ==> (steps[i as int])(
                            stage[k],
                            #[trigger] outputs@[k]@,
                        ),
                    self.recording() == recording,
                    recording.len() == n,
                    first.len() == n,
                    self.histories().len() == n,
                    stages.len() == i + 1,
                    stages.last() == stage,
                    forall|k: int|
                        0 <= k < i && recording[k] ==> #[trigger] self.histories()[k] == first[k]
                            + stages[k],
                    forall|k: int|
                        i < k < n && recording[k] ==> #[trigger] self.histories()[k] == first[k],
                    recording[i as int] ==> self.histories()[i as int] == first[i as int]
                        + stage.subrange(0, outputs@.len() as int),
                decreases rest@.len(),
            {
                let msg = rest.remove(0);
                let ghost k = outputs@.len();
                assert(msg == stage[k as int]);
                let ghost before = self.pipeline@;
                let made = self.pipeline[i].processor.process(msg);
                proof {
                    let old_step = before[i as int];
                    let new_step = self.pipeline@[i as int];
                    assert(Step::relation(new_step) =~= Step::relation(old_step));
                    assert(self.pipeline@ == before.update(i as int, new_step));
                    assert(self.steps() =~= steps);
                    assert(steps[i as int] == Step::relation(old_step));
                    assert(self.recording() =~= recording);
                    if recording[i as int] {
                        assert(stage.subrange(0, k as int + 1) =~= stage.subrange(0, k as int).push(
                            msg,
                        ));
                        assert(self.histories()[i as int] =~= first[i as int] + stage.subrange(
                            0,
                            k as int + 1,
                        ));
                    }
                    assert forall|j: int|
                        0 <= j < n && j != i implies #[trigger] self.histories()[j] == before.map_values(
                            |s: Step| s.processor.calls(),
                        )[j] by {}
                }
                outputs.push(made);
                assert(rest@ =~= stage.subrange(outputs@.len() as int, stage.len() as int));
            }
            let next = concat_outputs(outputs);
            proof {
                let outs = outputs@.map_values(|v: Vec<Message>| v@);
                assert(forall|k: int|
                    0 <= k < stage.len() ==> (steps[i as int])(stage[k], #[trigger] outs[k]));
                assert(stage_made(steps[i as int], stage, next@));
                let grown = stages.push(next@);
                assert forall|k: int| 0 <= k < i + 1 implies #[trigger] stage_made(
                    steps[k],
                    grown[k],
                    grown[k + 1],
                ) by {
                    if k < i {
                        assert(stage_made(steps[k], stages[k], stages[k + 1]));
                    }
                }
                assert(stage.subrange(0, stage.len() as int) =~= stage);
                assert forall|k: int|
                    0 <= k < i + 1 && recording[k] implies #[trigger] self.histories()[k]
                        == first[k] + grown[k] by {
                    if k < i {
                        assert(grown[k] == stages[k]);
                    } else {
                        assert(grown[k] == stage);
                    }
                }
                stages = grown;
            }
            current = next;
            i = i + 1;
        }
        assert(is_run(steps, stages));
        current
    }
}

/// A pipeline with no step makes of a message that message alone.
pub proof fn no_step_lets_the_message_through(message: Message, out: Seq<Message>)
    requires
        runs(Seq::<StepRelation>::empty(), seq![message], out),
    ensures
        out == seq![message],
{
    let stages = choose|stages: Seq<Seq<Message>>|
        #[trigger] is_run(Seq::<StepRelation>::empty(), stages) && stages[0] == seq![message]
            && stages.last() == out;
    assert(stages.len() == 1);
}

/// A step given no message makes none.
pub proof fn nothing_in_nothing_out(step: StepRelation, next: Seq<Message>)
    requires
        stage_made(step, Seq::empty(), next),
    ensures
        next == Seq::<Message>::empty(),
{
    let outs = choose|outs: Seq<Seq<Message>>|
        {
            &&& outs.len() == 0
            &&& forall|k: int| 0 <= k < 0 ==> step(Seq::<Message>::empty()[k], #[trigger] outs[k])
            &&& next == flatten_outputs(outs)
        };
}

/// Once a stage of a run is empty, every later stage is empty, and so is what the
/// pipeline makes.
pub proof fn empty_stage_empties_the_rest(steps: Seq<StepRelation>, stages: Seq<Seq<Message>>, k: int)
    requires
        is_run(steps, stages),
        0 <= k < stages.len(),
        stages[k] == Seq::<Message>::empty(),
    ensures
        forall|j: int| k <= j < stages.len() ==> #[trigger] stages[j] == Seq::<Message>::empty(),
    decreases stages.len() - k,
{
    if k + 1 < stages.len() {
        assert(stage_made(steps[k], stages[k], stages[k + 1]));
        nothing_in_nothing_out(steps[k], stages[k + 1]);
        empty_stage_empties_the_rest(steps, stages, k + 1);
    }
}

/// Whether `step` makes at most one list of each message.
pub open spec fn single_valued(step: StepRelation) -> bool {
    forall|m: Message, a: Seq<Message>, b: Seq<Message>|
        #[trigger] step(m, a) && #[trigger] step(m, b) ==> a == b
}

proof fn stage_single_valued(step: StepRelation, stage: Seq<Message>, a: Seq<Message>, b: Seq<Message>)
    requires
        single_valued(step),
        stage_made(step, stage, a),
        stage_made(step, stage, b),
    ensures
        a == b,
{
    let oa = choose|outs: Seq<Seq<Message>>|
        {
            &&& outs.len() == stage.len()
            &&& forall|k: int| 0 <= k < stage.len() ==> step(stage[k], #[trigger] outs[k])
            &&& a == flatten_outputs(outs)
        };
    let ob = choose|outs: Seq<Seq<Message>>|
        {
            &&& outs.len() == stage.len()
            &&& forall|k: int| 0 <= k < stage.len() ==> step(stage[k], #[trigger] outs[k])
            &&& b == flatten_outputs(outs)
        };
    assert forall|k: int| 0 <= k < stage.len() implies oa[k] == ob[k] by {
        assert(step(stage[k], oa[k]));
        assert(step(stage[k], ob[k]));
    }
    assert(oa =~= ob);
}

/// Steps that each make at most one list of a message make, as a pipeline, at most one
/// list of a message.
pub proof fn single_valued_steps_make_one_result(
    steps: Seq<StepRelation>,
    first: Seq<Message>,
    a: Seq<Message>,
    b: Seq<Message>,
)
    requires
        forall|k: int| 0 <= k < steps.len() ==> single_valued(#[trigger] steps[k]),
        runs(steps, first, a),
        runs(steps, first, b),
    ensures
        a == b,
{
    let sa = choose|stages: Seq<Seq<Message>>|
        #[trigger] is_run(steps, stages) && stages[0] == first && stages.last() == a;
    let sb = choose|stages: Seq<Seq<Message>>|
        #[trigger] is_run(steps, stages) && stages[0] == first && stages.last() == b;
    runs_agree_up_to(steps, sa, sb, steps.len() as int);
}

proof fn runs_agree_up_to(steps: Seq<StepRelation>, sa: Seq<Seq<Message>>, sb: Seq<Seq<Message>>, j: int)
    requires
        forall|k: int| 0 <= k < steps.len() ==> single_valued(#[trigger] steps[k]),
        is_run(steps, sa),
        is_run(steps, sb),
        sa[0] == sb[0],
        0 <= j <= steps.len(),
    ensures
        sa[j] == sb[j],
    decreases j,
{
    if j > 0 {
        let k = j - 1;
        runs_agree_up_to(steps, sa, sb, k);
        assert(stage_made(steps[k], sa[k], sa[k + 1]));
        assert(stage_made(steps[k], sb[k], sb[k + 1]));
        assert(single_valued(steps[k]));
        stage_single_valued(steps[k], sa[k], sa[k + 1], sb[k + 1]);
    }
}

/// A step added at the end runs last: what the longer pipeline may make is what the new
/// step may make of something the earlier steps may make.
pub proof fn added_step_runs_last(
    steps: Seq<StepRelation>,
    step: StepRelation,
    first: Seq<Message>,
    out: Seq<Message>,
)
    ensures
        runs(steps.push(step), first, out) <==> exists|mid: Seq<Message>|
            #[trigger] runs(steps, first, mid) && stage_made(step, mid, out),
{
    let longer = steps.push(step);
    if runs(longer, first, out) {
        let stages = choose|stages: Seq<Seq<Message>>|
            #[trigger] is_run(longer, stages) && stages[0] == first && stages.last() == out;
        let shorter = stages.drop_last();
        assert forall|k: int| 0 <= k < steps.len() implies #[trigger] stage_made(
            steps[k],
            shorter[k],
            shorter[k + 1],
        ) by {
            assert(stage_made(longer[k], stages[k], stages[k + 1]));
        }
        assert(is_run(steps, shorter));
        let mid = shorter.last();
        assert(runs(steps, first, mid));
        let n = steps.len() as int;
        assert(stage_made(longer[n], stages[n], stages[n + 1]));
    }
    if exists|mid: Seq<Message>| #[trigger] runs(steps, first, mid) && stage_made(step, mid, out) {
        let mid = choose|mid: Seq<Message>| #[trigger] runs(steps, first, mid) && stage_made(step, mid, out);
        let stages = choose|stages: Seq<Seq<Message>>|
            #[trigger] is_run(steps, stages) && stages[0] == first && stages.last() == mid;
        let grown = stages.push(out);
        assert forall|k: int| 0 <= k < longer.len() implies #[trigger] stage_made(
            longer[k],
            grown[k],
            grown[k + 1],
        ) by {
            if k < steps.len() {
                assert(stage_made(steps[k], stages[k], stages[k + 1]));
            }
        }
        assert(is_run(longer, grown));
    }
}

/// A processor added to a pipeline runs last: what the pipeline may make of a message
/// afterwards is what the added step may make of something the pipeline may make of it
/// before.
pub proof fn added_processor_runs_last(
    before: ProcessorPipeline,
    after: ProcessorPipeline,
    step: StepRelation,
    message: Message,
    out: Seq<Message>,
)
    requires
        after.steps() == before.steps().push(step),
    ensures
        after.may_make(message, out) <==> exists|mid: Seq<Message>|
            #[trigger] before.may_make(message, mid) && stage_made(step, mid, out),
{
    added_step_runs_last(before.steps(), step, seq![message], out);
    if after.may_make(message, out) {
        let mid = choose|mid: Seq<Message>|
            #[trigger] runs(before.steps(), seq![message], mid) && stage_made(step, mid, out);
        assert(before.may_make(message, mid));
    }
    if exists|mid: Seq<Message>| #[trigger] before.may_make(message, mid) && stage_made(step, mid, out) {
        let mid = choose|mid: Seq<Message>|
            #[trigger] before.may_make(message, mid) && stage_made(step, mid, out);
        assert(runs(before.steps(), seq![message], mid));
    }
}

/// What a pipeline may make of a message is what its steps, run one after the other, may
/// make of that message alone, whatever the message.
pub proof fn pipeline_makes_what_its_steps_make(pipeline: ProcessorPipeline, message: Message, out: Seq<Message>)
    ensures
        pipeline.may_make(message, out) == runs(pipeline.steps(), seq![message], out),
{
}

/// A pipeline with no step makes of every message that message alone, and may make it.
pub proof fn empty_pipeline_lets_every_message_through(
    pipeline: ProcessorPipeline,
    message: Message,
    out: Seq<Message>,
)
    requires
        pipeline.steps().len() == 0,
    ensures
        pipeline.may_make(message, out) <==> out == seq![message],
{
    assert(pipeline.steps() =~= Seq::<StepRelation>::empty());
    if pipeline.may_make(message, out) {
        no_step_lets_the_message_through(message, out);
    }
    if out == seq![message] {
        let stages = seq![seq![message]];
        assert(is_run(pipeline.steps(), stages));
    }
}

/// A pipeline added as a step of another runs as its own steps do.
pub proof fn pipeline_as_step(pipeline: ProcessorPipeline)
    ensures
        as_step(pipeline) == (|m: Message, o: Seq<Message>| pipeline.may_make(m, o)),
{
    assert(as_step(pipeline) =~= (|m: Message, o: Seq<Message>| pipeline.may_make(m, o)));
}

impl Step {
    /// A step that runs `processor`. The boxed processor is swapped into a step made with
    /// an empty pipeline, which lets the proof follow the box into the step.
    fn holding<P: Processor + 'static>(processor: P) -> (step: Step)
        ensures
            Step::relation(step) == as_step(processor),
            step.processor.records_calls() == step_records(processor),
            step.processor.calls() == step_calls(processor),
    {
        let ghost given = processor;
        let mut boxed: Box<dyn Processor> = Box::new(processor);
        let ghost b = boxed;
        assert forall|m: Message, o: Seq<Message>|
            #[trigger] b.may_make(m, o) == (as_step(given))(m, o) by {}
        let mut step = Step { processor: Box::new(ProcessorPipeline::new()) };
        std::mem::swap(&mut step.processor, &mut boxed);
        assert(step.processor == b);
        assert(b.records_calls() == step_records(given));
        assert(b.calls() == step_calls(given));
        assert(Step::relation(step) =~= as_step(given));
        step
    }

    /// What this step may make of one message.
    spec fn relation(self) -> StepRelation {
        |m: Message, o: Seq<Message>| self.processor.may_make(m, o)
    }
}

} // verus!
