//! The course of one run, as a machine that is told what happened and says what to do next.
//!
//! A run probes for the day's artifact, asks the directory service for sources, hands them
//! to the worker pool, collects what the workers observe, and writes the report once every
//! worker has finished. The machine owns the aggregator; everything that waits, reads or
//! writes happens outside and comes back as an event.

use vstd::prelude::*;
use crossbeam_channel::Receiver;
use crate::aggregate::Aggregator;
use crate::record::{Observation, ObservationView};
use crate::report::{render_text, rows_of};
use crate::select::{
    SnapshotSource, SourceQuery, is_selection, query_for, select_sources, window_query,
};
use crate::startup::StartupError;
use crate::summary::summarize;

verus! {

/// The number of sources that are read at the same time.
pub const POOL_WIDTH: usize = 20;

/// How far a run has come.
#[derive(Clone, Copy, Debug, PartialEq, Eq, Structural)]
pub enum Stage {
    /// Nothing is known yet about the day's artifact.
    Probing,
    /// The directory service has been asked for sources.
    Selecting,
    /// The workers are reading the sources.
    Collecting,
    /// There is nothing left to do.
    Finished,
}

/// What happened outside.
#[derive(Debug)]
pub enum Event {
    /// The day's artifact was looked for.
    Artifact { exists: bool },
    /// The directory service answered.
    Listing { candidates: Vec<SnapshotSource> },
    /// A worker observed a qualifying route element.
    Observed { obs: Observation },
    /// A worker could not read the source at `url`.
    SourceFailed { url: String },
    /// Every worker has finished.
    Drained,
}

/// What to do next.
#[derive(Debug)]
pub enum Action {
    /// The artifact is there already: report success and stop.
    Skip,
    /// Ask the directory service.
    Query { query: SourceQuery },
    /// Submit one task per source to the pool, in this order.
    Dispatch { sources: Vec<SnapshotSource> },
    /// Wait for the next event.
    Continue,
    /// Write `text` to the artifact; the sources at `failed` could not be read and are
    /// missing from it.
    Write { text: String, failed: Vec<String> },
    /// The event does not belong to this stage; nothing has changed.
    Ignore,
}

/// The mathematical content of a [`Run`].
pub struct RunView {
    pub stage: Stage,
    pub target: i64,
    pub received: Seq<ObservationView>,
    pub failed: Seq<Seq<char>>,
}

/// The texts of a list of strings, in order.
pub open spec fn texts(list: Seq<String>) -> Seq<Seq<char>> {
    list.map_values(|t: String| t@)
}

/// Whether a run in state `pre` that is told `event` may move to `post` and answer `action`.
pub open spec fn steps(pre: RunView, event: Event, post: RunView, action: Action) -> bool {
    match (pre.stage, event) {
        (Stage::Probing, Event::Artifact { exists }) => if exists {
            &&& post == RunView { stage: Stage::Finished, ..pre }
            &&& action is Skip
        } else {
            &&& post == RunView { stage: Stage::Selecting, ..pre }
            &&& action matches Action::Query { query }
            &&& query == query_for(pre.target)
        },
        (Stage::Selecting, Event::Listing { candidates }) => {
            &&& post == RunView { stage: Stage::Collecting, ..pre }
            &&& action matches Action::Dispatch { sources }
            &&& is_selection(pre.target, candidates@, sources@)
        },
        (Stage::Collecting, Event::Observed { obs }) => {
            &&& post == RunView { received: pre.received.push(obs@), ..pre }
            &&& action is Continue
        },
        (Stage::Collecting, Event::SourceFailed { url }) => {
            &&& post == RunView { failed: pre.failed.push(url@), ..pre }
            &&& action is Continue
        },
        (Stage::Collecting, Event::Drained) => {
            &&& post == RunView { stage: Stage::Finished, ..pre }
            &&& action matches Action::Write { text, failed }
            &&& text@ == render_text(rows_of(summarize(pre.received)))
            &&& texts(failed@) == pre.failed
        },
        _ => post == pre && action is Ignore,
    }
}

/// Whether `states`, `events` and `actions` are the course of a run: each event takes the
/// run from one state to the next and is answered by one action.
pub open spec fn is_course(states: Seq<RunView>, events: Seq<Event>, actions: Seq<Action>) -> bool {
    &&& states.len() == events.len() + 1
    &&& actions.len() == events.len()
    &&& forall|i: int|
        0 <= i < events.len() ==> steps(
            states[i],
            #[trigger] events[i],
            states[i + 1],
            actions[i],
        )
}

/// The sources that `events` report as failed, in order.
pub open spec fn failed_in(events: Seq<Event>) -> Seq<Seq<char>>
    decreases events.len(),
{
    if events.len() == 0 {
        Seq::empty()
    } else {
        let earlier = failed_in(events.drop_last());
        match events.last() {
            Event::SourceFailed { url } => earlier.push(url@),
            _ => earlier,
        }
    }
}

/// The observations among `events`, in order.
pub open spec fn observed_in(events: Seq<Event>) -> Seq<ObservationView>
    decreases events.len(),
{
    if events.len() == 0 {
        Seq::empty()
    } else {
        let earlier = observed_in(events.drop_last());
        match events.last() {
            Event::Observed { obs } => earlier.push(obs@),
            _ => earlier,
        }
    }
}

/// Whether a course is what one call of [`run_consumer`] did: it leads from `pre` to `post`;
/// if the channel was found disconnected, the course ends with the event that says so, after
/// at most `limit` events from the channel, and `last` is the answer to it; otherwise `limit`
/// events were taken and there is no last answer.
pub open spec fn consumed(
    pre: RunView,
    post: RunView,
    last: Option<Action>,
    limit: nat,
    states: Seq<RunView>,
    events: Seq<Event>,
    actions: Seq<Action>,
) -> bool {
    &&& is_course(states, events, actions)
    &&& states.first() == pre
    &&& states.last() == post
    &&& match last {
        Some(action) => {
            &&& 1 <= events.len() <= limit + 1
            &&& events.last() is Drained
            &&& actions.last() == action
        },
        None => events.len() == limit,
    }
}

/// The channel's receiving end, as `crossbeam_channel` defines it.
#[verifier::external_type_specification]
#[verifier::external_body]
#[verifier::reject_recursive_types(T)]
pub struct ExReceiver<T>(Receiver<T>);

/// Takes the next event from the channel with `crossbeam_channel::Receiver::recv`, which
/// blocks until a message arrives or the channel is empty and every sender is gone. `None`
/// stands for the disconnected channel. Trusted, though nothing is claimed: what arrives is
/// up to the senders.
#[verifier::external_body]
fn receive(ch_in: &Receiver<Event>) -> (event: Option<Event>) {
    ch_in.recv().ok()
}

/// A copy of a list of strings.
fn copy_of(list: &Vec<String>) -> (copy: Vec<String>)
    ensures
        texts(copy@) == texts(list@),
{
    let mut copy: Vec<String> = Vec::new();
    let mut i: usize = 0;
    while i < list.len()
        invariant
            i <= list.len(),
            copy@.len() == i,
            forall|j: int| 0 <= j < i ==> (#[trigger] copy@[j])@ == list@[j]@,
        decreases list.len() - i,
    {
        copy.push(list[i].clone());
        i += 1;
    }
    assert(texts(copy@) =~= texts(list@));
    copy
}

/// One run of the pipeline.
pub struct Run {
    stage: Stage,
    target: i64,
    agg: Aggregator,
    failed: Vec<String>,
}

impl View for Run {
    type V = RunView;

    closed spec fn view(&self) -> RunView {
        RunView {
            stage: self.stage,
            target: self.target,
            received: self.agg.received(),
            failed: texts(self.failed@),
        }
    }
}

impl Run {
    /// The aggregator of the run stands for what the run has received.
    pub closed spec fn wf(&self) -> bool {
        self.agg.wf()
    }

    /// A run for the day that starts at `target`, before anything has happened.
    pub fn new(target: i64) -> (run: Run)
        ensures
            run.wf(),
            run@ == (RunView {
                stage: Stage::Probing,
                target,
                received: Seq::empty(),
                failed: Seq::empty(),
            }),
    {
        let run = Run { stage: Stage::Probing, target, agg: Aggregator::new(), failed: Vec::new() };
        assert(texts(run.failed@) =~= Seq::<Seq<char>>::empty());
        run
    }

    /// How far the run has come.
    pub fn stage(&self) -> (stage: Stage)
        ensures
            stage == self@.stage,
    {
        self.stage
    }

    /// Takes note of `event` and says what to do next.
    pub fn step(&mut self, event: Event) -> (action: Action)
        requires
            old(self).wf(),
        ensures
            final(self).wf(),
            steps(old(self)@, event, final(self)@, action),
    {
        match self.stage {
            Stage::Probing => match event {
                Event::Artifact { exists } => {
                    if exists {
                        self.stage = Stage::Finished;
                        Action::Skip
                    } else {
                        self.stage = Stage::Selecting;
                        Action::Query { query: window_query(self.target) }
                    }
                },
                _ => Action::Ignore,
            },
            Stage::Selecting => match event {
                Event::Listing { candidates } => {
                    self.stage = Stage::Collecting;
                    Action::Dispatch { sources: select_sources(self.target, candidates) }
                },
                _ => Action::Ignore,
            },
            Stage::Collecting => match event {
                Event::Observed { obs } => {
                    self.agg.record(obs);
                    Action::Continue
                },
                Event::SourceFailed { url } => {
                    let ghost before = texts(self.failed@);
                    self.failed.push(url);
                    assert(texts(self.failed@) =~= before.push(url@));
                    Action::Continue
                },
                Event::Drained => {
                    self.stage = Stage::Finished;
                    Action::Write { text: self.agg.report(), failed: copy_of(&self.failed) }
                },
                _ => Action::Ignore,
            },
            Stage::Finished => Action::Ignore,
        }
    }
}

/// Drains the channel into the run: every event that arrives is taken note of, in order of
/// arrival, and when every sender is gone the run is told so and its answer is returned.
///
/// One call takes at most `limit` events; if the channel is still connected after that many,
/// the result is `None` and the next call goes on.
pub fn run_consumer(run: &mut Run, ch_in: &Receiver<Event>, limit: usize) -> (last: Option<Action>)
    requires
        old(run).wf(),
    ensures
        final(run).wf(),
        exists|states: Seq<RunView>, events: Seq<Event>, actions: Seq<Action>| #[trigger]
            consumed(old(run)@, final(run)@, last, limit as nat, states, events, actions),
        final(run)@.target == old(run)@.target,
        old(run)@.stage is Collecting ==> old(run)@.received.is_prefix_of(final(run)@.received),
        last matches Some(Action::Write { text, failed }) ==> {
            &&& final(run)@.stage is Finished
            &&& text@ == render_text(rows_of(summarize(final(run)@.received)))
            &&& texts(failed@) == final(run)@.failed
        },
{
    let ghost mut states: Seq<RunView> = seq![run@];
    let ghost mut events: Seq<Event> = Seq::empty();
    let ghost mut actions: Seq<Action> = Seq::empty();
    let mut taken: usize = 0;
    while taken < limit
        invariant
            run.wf(),
            taken <= limit,
            events.len() == taken,
            is_course(states, events, actions),
            states.first() == old(run)@,
            states.last() == run@,
            run@.target == old(run)@.target,
            old(run)@.stage is Collecting ==> old(run)@.received.is_prefix_of(run@.received),
        decreases limit - taken,
    {
        let ghost pre = run@;
        let ghost before = (states, events, actions);
        match receive(ch_in) {
            Some(event) => {
                let ghost told = event;
                let action = run.step(event);
                proof {
                    states = states.push(run@);
                    events = events.push(told);
                    actions = actions.push(action);
                    lemma_course_extends(before.0, before.1, before.2, run@, told, action);
                }
                taken += 1;
            },
            None => {
                let action = run.step(Event::Drained);
                proof {
                    states = states.push(run@);
                    events = events.push(Event::Drained);
                    actions = actions.push(action);
                    lemma_course_extends(before.0, before.1, before.2, run@, Event::Drained, action);
                    assert(consumed(
                        old(run)@,
                        run@,
                        Some(action),
                        limit as nat,
                        states,
                        events,
                        actions,
                    ));
                }
                return Some(action);
            },
        }
    }
    proof {
        assert(consumed(old(run)@, run@, None, limit as nat, states, events, actions));
    }
    None
}

/// A course goes on by one step.
proof fn lemma_course_extends(
    states: Seq<RunView>,
    events: Seq<Event>,
    actions: Seq<Action>,
    post: RunView,
    event: Event,
    action: Action,
)
    requires
        is_course(states, events, actions),
        steps(states.last(), event, post, action),
    ensures
        is_course(states.push(post), events.push(event), actions.push(action)),
        states.push(post).first() == states.first(),
        states.push(post).last() == post,
        events.push(event).last() == event,
        actions.push(action).last() == action,
{
    let s = states.push(post);
    let e = events.push(event);
    let a = actions.push(action);
    assert forall|i: int| 0 <= i < e.len() implies steps(s[i], #[trigger] e[i], s[i + 1], a[i]) by {
        if i < events.len() {
            assert(steps(states[i], events[i], states[i + 1], actions[i]));
        }
    }
}

/// How a run ended.
#[derive(Clone, Copy, Debug, PartialEq, Eq, Structural)]
pub enum Outcome {
    /// The artifact was there already.
    Skipped,
    /// The artifact was written; `failed` sources could not be read and are missing from it.
    Written { failed: usize },
    /// The run could not start.
    NotStarted { reason: StartupError },
    /// The artifact could not be written.
    NotWritten,
}

/// The exit status that stands for `outcome`: zero for success, and a status of its own for
/// each way to fail.
pub open spec fn status_of(outcome: Outcome) -> u8 {
    match outcome {
        Outcome::Skipped => 0,
        Outcome::Written { failed } => if failed == 0 {
            0
        } else {
            3
        },
        Outcome::NotStarted { reason } => 2,
        Outcome::NotWritten => 4,
    }
}

/// The exit status of a run that ended with `outcome`.
pub fn exit_code(outcome: &Outcome) -> (code: u8)
    ensures
        code == status_of(*outcome),
        code == 0 <==> (*outcome is Skipped || *outcome == (Outcome::Written { failed: 0 })),
{
    match outcome {
        Outcome::Skipped => 0,
        Outcome::Written { failed } => if *failed == 0 {
            0
        } else {
            3
        },
        Outcome::NotStarted { reason: _ } => 2,
        Outcome::NotWritten => 4,
    }
}

} // verus!
