//! The decisions of the task loop: what each event means for the task's state
//! and what the surroundings are to do about it.
//!
//! The loop itself waits on channels and timers and belongs to the caller. It
//! hands each thing that happened to [`OperatorLoop::step`] and carries out the
//! actions that come back, in their order.

use crate::checkpoint_counter::CheckpointCounter;
use crate::message::{
    progress, Action, ArrowMessage, CheckpointBarrier, ControlMessage, ControlOutcome,
    ProtocolViolation, SignalMessage, SourceFinishType, TaskCheckpointEventType, Watermark,
};
use crate::partition_set::PartitionSet;
use crate::watermark_holder::{is_merged, lemma_merge_is, merge, WatermarkHolder};
use vstd::prelude::*;

verus! {

/// Where the loop stands: running, draining once a partition has sent a
/// terminal signal, closed for good.
#[derive(Clone, Copy, Debug, PartialEq, Eq, Structural)]
pub enum Phase {
    Running,
    Draining,
    Closed,
}

/// One thing that the loop was waiting for.
#[derive(Clone, Copy, Debug, PartialEq, Eq, Structural)]
pub enum Event {
    /// A command on the control channel.
    Control(ControlMessage),
    /// The next message of the multiplexer, with the partition it came from.
    Message { partition: usize, message: ArrowMessage },
    /// The multiplexer has no source left.
    InputsExhausted,
    /// The operator's background work has finished.
    FutureReady,
    /// The timer fired.
    Tick,
}

/// Why an event was refused. The state is then as before.
#[derive(Clone, Copy, Debug, PartialEq, Eq, Structural)]
pub enum StepError {
    /// The loop has ended.
    Closed,
    /// The message names a partition that the task does not have.
    UnknownPartition,
    /// The message comes from a partition that is withheld until the running
    /// alignment completes.
    PartitionWithheld,
    /// The barrier carries another epoch than the alignment in progress.
    EpochMismatch,
}

/// The state of the loop as contracts see it.
pub struct LoopView {
    /// The partitions withheld by the alignment in progress.
    pub aligned: Set<int>,
    /// The epoch of that alignment.
    pub epoch: Option<u32>,
    /// The partitions that have sent `Stop`.
    pub stopped: Set<int>,
    /// The partitions that have sent `EndOfData`.
    pub finished: Set<int>,
    /// The last watermark of each partition.
    pub slots: Seq<Option<Watermark>>,
    /// The number of the next tick.
    pub ticks: u64,
    pub phase: Phase,
}

/// What commits a snapshot: persist it with the merged watermark, report the
/// sync, hand the barrier downstream.
pub open spec fn checkpoint_actions(barrier: CheckpointBarrier, watermark: Option<Watermark>) -> Seq<
    Action,
> {
    seq![
        Action::Checkpoint { barrier, watermark },
        Action::SendCheckpointEvent { barrier, event_type: TaskCheckpointEventType::FinishedSync },
        Action::Broadcast(SignalMessage::Barrier(barrier)),
    ]
}

/// What a source does with a barrier: it has no partitions to align, so it
/// checkpoints at once.
pub open spec fn source_checkpoint_actions(
    barrier: CheckpointBarrier,
    watermark: Option<Watermark>,
) -> Seq<Action> {
    seq![
        Action::SendCheckpointEvent {
            barrier,
            event_type: TaskCheckpointEventType::StartedCheckpointing,
        },
    ] + checkpoint_actions(barrier, watermark)
}

/// What a barrier asks for: the start of the alignment is reported with the
/// first barrier, and the checkpoint is taken with the last.
pub open spec fn barrier_actions(
    first: bool,
    last: bool,
    barrier: CheckpointBarrier,
    watermark: Option<Watermark>,
) -> Seq<Action> {
    let started = if first {
        seq![
            Action::SendCheckpointEvent {
                barrier,
                event_type: TaskCheckpointEventType::StartedAlignment,
            },
        ]
    } else {
        Seq::<Action>::empty()
    };
    let taken = if last {
        seq![
            Action::SendCheckpointEvent {
                barrier,
                event_type: TaskCheckpointEventType::StartedCheckpointing,
            },
            Action::HandleCheckpoint(barrier),
            Action::SendCheckpointEvent {
                barrier,
                event_type: TaskCheckpointEventType::FinishedOperatorSetup,
            },
        ] + checkpoint_actions(barrier, watermark)
    } else {
        Seq::<Action>::empty()
    };
    started + taken
}

/// What a command on the control channel asks for. Checkpoint and stop must
/// come in band: here they are recorded as violations and not acted on.
pub open spec fn controller_actions(message: ControlMessage) -> Seq<Action> {
    match message {
        ControlMessage::Checkpoint(_) => seq![
            Action::LogViolation(ProtocolViolation::CheckpointOnControlChannel),
        ],
        ControlMessage::Stop => seq![Action::LogViolation(ProtocolViolation::StopOnControlChannel)],
        ControlMessage::Commit { epoch } => seq![Action::HandleCommit { epoch }],
        ControlMessage::LoadCompacted => seq![Action::LoadCompacted],
        ControlMessage::NoOp => Seq::<Action>::empty(),
    }
}

/// What becomes of the source that delivered a message: it is kept aside
/// while its partition is withheld; else it goes back to the multiplexer,
/// after those that were kept aside if the alignment has just completed.
pub open spec fn requeue_actions(withheld: bool, release: bool, partition: usize) -> Seq<Action> {
    if withheld {
        seq![Action::Hold { partition }]
    } else if release {
        seq![Action::ReleaseHeld, Action::Register { partition }]
    } else {
        seq![Action::Register { partition }]
    }
}

/// What ends the task: the close hook sees the terminal signal, downstream
/// gets it if there is one, and the control plane learns that the task is done.
pub open spec fn close_actions(terminal: Option<SignalMessage>) -> Seq<Action> {
    let told = match terminal {
        Some(s) => seq![Action::Broadcast(s)],
        None => Seq::<Action>::empty(),
    };
    seq![Action::OnClose(terminal)] + told + seq![Action::TaskFinished]
}

/// The terminal signal that goes with an outcome that ends the loop.
pub open spec fn terminal_signal(outcome: ControlOutcome) -> Option<SignalMessage> {
    match outcome {
        ControlOutcome::Finish => Some(SignalMessage::EndOfData),
        ControlOutcome::StopAndSendStop => Some(SignalMessage::Stop),
        _ => None,
    }
}

impl LoopView {
    /// The number of input partitions.
    pub open spec fn partitions(self) -> nat {
        self.slots.len()
    }

    /// The merged watermark.
    pub open spec fn merged(self) -> Option<Watermark> {
        merge(self.slots)
    }

    /// Whether a barrier from `idx` is the last one that the alignment waits
    /// for.
    pub open spec fn completes(self, idx: int) -> bool {
        !self.aligned.contains(idx) && self.aligned.len() + 1 == self.partitions()
    }

    /// The state after a signal from partition `idx`.
    pub open spec fn after_signal(self, idx: int, signal: SignalMessage) -> LoopView {
        match signal {
            SignalMessage::Barrier(b) => if self.aligned.contains(idx) {
                self
            } else if self.completes(idx) {
                LoopView { aligned: Set::<int>::empty(), epoch: None, ..self }
            } else {
                LoopView {
                    aligned: self.aligned.insert(idx),
                    epoch: if self.aligned.len() == 0 {
                        Some(b.epoch)
                    } else {
                        self.epoch
                    },
                    ..self
                }
            },
            SignalMessage::Watermark(w) => LoopView {
                slots: self.slots.update(idx, Some(w)),
                ..self
            },
            SignalMessage::Stop => LoopView { stopped: self.stopped.insert(idx), ..self },
            SignalMessage::EndOfData => LoopView { finished: self.finished.insert(idx), ..self },
        }
    }

    /// What a signal from partition `idx` asks for.
    pub open spec fn signal_actions(self, idx: int, signal: SignalMessage) -> Seq<Action> {
        match signal {
            SignalMessage::Barrier(b) => barrier_actions(
                self.aligned.len() == 0,
                self.completes(idx),
                b,
                self.merged(),
            ),
            SignalMessage::Watermark(_) => {
                let next = self.after_signal(idx, signal).merged();
                if progress(next) > progress(self.merged()) && next.is_some() {
                    seq![Action::HandleWatermark(next.unwrap())]
                } else {
                    Seq::<Action>::empty()
                }
            },
            _ => Seq::<Action>::empty(),
        }
    }

    /// What a signal from partition `idx` means for the loop. A barrier that
    /// completes the alignment and says so stops it. `Stop` ends it, and goes
    /// downstream, exactly when every partition has sent `Stop` by now;
    /// `EndOfData` does so exactly when every partition has sent `EndOfData`.
    /// Where the partitions end on different signals neither happens: the
    /// loop goes on until its inputs are exhausted, and ends without a signal.
    pub open spec fn signal_outcome(self, idx: int, signal: SignalMessage) -> ControlOutcome {
        match signal {
            SignalMessage::Barrier(b) => if self.completes(idx) && b.then_stop {
                ControlOutcome::Stop
            } else {
                ControlOutcome::Continue
            },
            SignalMessage::Watermark(_) => ControlOutcome::Continue,
            SignalMessage::Stop => if self.stopped.insert(idx).len() == self.partitions() {
                ControlOutcome::StopAndSendStop
            } else {
                ControlOutcome::Continue
            },
            SignalMessage::EndOfData => if self.finished.insert(idx).len() == self.partitions() {
                ControlOutcome::Finish
            } else {
                ControlOutcome::Continue
            },
        }
    }

    /// Whether the signal fits the alignment in progress: a barrier must carry
    /// the epoch of the barrier that began it. Other signals always fit.
    pub open spec fn admits(self, signal: SignalMessage) -> bool {
        match signal {
            SignalMessage::Barrier(b) => self.epoch.is_none() || self.epoch == Some(b.epoch),
            _ => true,
        }
    }

    /// Why the loop refuses `event`, if it does.
    pub open spec fn refusal(self, event: Event) -> Option<StepError> {
        if self.phase == Phase::Closed {
            Some(StepError::Closed)
        } else {
            match event {
                Event::Message { partition, message } => if partition >= self.partitions() {
                    Some(StepError::UnknownPartition)
                } else if self.aligned.contains(partition as int) {
                    Some(StepError::PartitionWithheld)
                } else {
                    match message {
                        ArrowMessage::Signal(signal) => if self.admits(signal) {
                            None
                        } else {
                            Some(StepError::EpochMismatch)
                        },
                        ArrowMessage::Data => None,
                    }
                },
                _ => None,
            }
        }
    }

    /// The state after an event that the loop accepts.
    pub open spec fn after_step(self, event: Event) -> LoopView {
        match event {
            Event::Control(_) | Event::FutureReady => self,
            Event::InputsExhausted => LoopView { phase: Phase::Closed, ..self },
            Event::Tick => LoopView {
                ticks: if self.ticks < u64::MAX {
                    (self.ticks + 1) as u64
                } else {
                    self.ticks
                },
                ..self
            },
            Event::Message { partition, message } => match message {
                ArrowMessage::Data => self,
                ArrowMessage::Signal(signal) => {
                    let next = self.after_signal(partition as int, signal);
                    let phase = if self.signal_outcome(partition as int, signal)
                        != ControlOutcome::Continue {
                        Phase::Closed
                    } else if signal == SignalMessage::Stop || signal == SignalMessage::EndOfData {
                        Phase::Draining
                    } else {
                        self.phase
                    };
                    LoopView { phase, ..next }
                },
            },
        }
    }

    /// What an event that the loop accepts asks for.
    pub open spec fn step_actions(self, event: Event) -> Seq<Action> {
        match event {
            Event::Control(message) => controller_actions(message),
            Event::FutureReady => seq![Action::HandleFutureResult],
            Event::InputsExhausted => close_actions(None),
            Event::Tick => seq![Action::HandleTick(self.ticks)],
            Event::Message { partition, message } => {
                let next = self.after_step(event);
                let requeue = requeue_actions(
                    next.aligned.contains(partition as int),
                    next.aligned.len() == 0 && self.aligned.len() > 0,
                    partition,
                );
                match message {
                    ArrowMessage::Data => seq![
                        Action::CountMessageReceived,
                        Action::ProcessBatch {
                            partition,
                            partitions: self.partitions() as usize,
                        },
                    ] + requeue,
                    ArrowMessage::Signal(signal) => {
                        let outcome = self.signal_outcome(partition as int, signal);
                        self.signal_actions(partition as int, signal) + (if outcome
                            == ControlOutcome::Continue {
                            requeue
                        } else {
                            close_actions(terminal_signal(outcome))
                        })
                    },
                }
            },
        }
    }
}

/// The actions of a snapshot commit, and whether the barrier asks the task to
/// stop after it.
pub fn run_checkpoint(checkpoint_barrier: CheckpointBarrier, watermark: Option<Watermark>) -> (r: (
    Vec<Action>,
    bool,
))
    ensures
        r.0@ == checkpoint_actions(checkpoint_barrier, watermark),
        r.1 == checkpoint_barrier.then_stop,
{
    let mut out: Vec<Action> = Vec::new();
    out.push(Action::Checkpoint { barrier: checkpoint_barrier, watermark });
    out.push(
        Action::SendCheckpointEvent {
            barrier: checkpoint_barrier,
            event_type: TaskCheckpointEventType::FinishedSync,
        },
    );
    out.push(Action::Broadcast(SignalMessage::Barrier(checkpoint_barrier)));
    assert(out@ =~= checkpoint_actions(checkpoint_barrier, watermark));
    (out, checkpoint_barrier.then_stop)
}

/// The actions by which a source checkpoints, and whether its run must end
/// after them.
pub fn start_checkpoint(
    checkpoint_barrier: CheckpointBarrier,
    watermark: Option<Watermark>,
) -> (r: (Vec<Action>, bool))
    ensures
        r.0@ == source_checkpoint_actions(checkpoint_barrier, watermark),
        r.1 == checkpoint_barrier.then_stop,
{
    let mut out: Vec<Action> = Vec::new();
    out.push(
        Action::SendCheckpointEvent {
            barrier: checkpoint_barrier,
            event_type: TaskCheckpointEventType::StartedCheckpointing,
        },
    );
    let (mut commit, stop) = run_checkpoint(checkpoint_barrier, watermark);
    out.append(&mut commit);
    assert(out@ =~= source_checkpoint_actions(checkpoint_barrier, watermark));
    (out, stop)
}

/// What a command on the control channel asks for.
pub fn handle_controller_message(control_message: ControlMessage) -> (out: Vec<Action>)
    ensures
        out@ == controller_actions(control_message),
{
    let mut out: Vec<Action> = Vec::new();
    match control_message {
        ControlMessage::Checkpoint(_) => {
            out.push(Action::LogViolation(ProtocolViolation::CheckpointOnControlChannel));
        },
        ControlMessage::Stop => {
            out.push(Action::LogViolation(ProtocolViolation::StopOnControlChannel));
        },
        ControlMessage::Commit { epoch } => {
            out.push(Action::HandleCommit { epoch });
        },
        ControlMessage::LoadCompacted => {
            out.push(Action::LoadCompacted);
        },
        ControlMessage::NoOp => {},
    }
    assert(out@ =~= controller_actions(control_message));
    out
}

/// What the watermark hook's answer means: the watermark that it hands back
/// goes downstream, and none does where it hands back nothing.
pub fn handle_watermark_int(forwarded: Option<Watermark>) -> (out: Vec<Action>)
    ensures
        out@ == (match forwarded {
            Some(w) => seq![Action::Broadcast(SignalMessage::Watermark(w))],
            None => Seq::<Action>::empty(),
        }),
{
    let mut out: Vec<Action> = Vec::new();
    if let Some(w) = forwarded {
        out.push(Action::Broadcast(SignalMessage::Watermark(w)));
        assert(out@ =~= seq![Action::Broadcast(SignalMessage::Watermark(w))]);
    }
    out
}

/// What ends a task, whichever kind of node ran.
pub fn finish(terminal: Option<SignalMessage>) -> (out: Vec<Action>)
    ensures
        out@ == close_actions(terminal),
{
    let mut out: Vec<Action> = Vec::new();
    out.push(Action::OnClose(terminal));
    if let Some(s) = terminal {
        out.push(Action::Broadcast(s));
    }
    out.push(Action::TaskFinished);
    assert(out@ =~= close_actions(terminal));
    out
}

/// What ends a source task whose run ended as `finish_type` says.
pub fn run_behavior(finish_type: SourceFinishType) -> (out: Vec<Action>)
    ensures
        out@ == close_actions(finish_type.signal()),
{
    finish(finish_type.into_signal())
}

/// The state of the loop of one operator task.
pub struct OperatorLoop {
    counter: CheckpointCounter,
    stopped: PartitionSet,
    finished: PartitionSet,
    watermarks: WatermarkHolder,
    ticks: u64,
    phase: Phase,
}

impl OperatorLoop {
    /// The state as contracts see it.
    pub closed spec fn view(&self) -> LoopView {
        LoopView {
            aligned: self.counter@,
            epoch: self.counter.epoch(),
            stopped: self.stopped@,
            finished: self.finished@,
            slots: self.watermarks@,
            ticks: self.ticks,
            phase: self.phase,
        }
    }

    /// The three tables range over the same partitions and each is sound.
    pub closed spec fn wf(&self) -> bool {
        &&& self.counter.wf()
        &&& self.stopped.wf()
        &&& self.finished.wf()
        &&& self.watermarks.wf()
        &&& self.counter.partitions() == self.watermarks@.len()
        &&& self.stopped.capacity() == self.watermarks@.len()
        &&& self.finished.capacity() == self.watermarks@.len()
    }

    /// What `wf` means for the state as contracts see it.
    pub proof fn lemma_wf(&self)
        requires
            self.wf(),
        ensures
            self@.aligned.finite(),
            self@.stopped.finite(),
            self@.finished.finite(),
            forall|i: int| self@.aligned.contains(i) ==> 0 <= i < self@.partitions(),
            forall|i: int| self@.stopped.contains(i) ==> 0 <= i < self@.partitions(),
            forall|i: int| self@.finished.contains(i) ==> 0 <= i < self@.partitions(),
            self@.partitions() > 0 ==> self@.aligned.len() < self@.partitions(),
            self@.epoch.is_none() <==> self@.aligned =~= Set::<int>::empty(),
            self@.partitions() <= usize::MAX,
    {
        self.counter.lemma_wf();
        self.stopped.lemma_bounded();
        self.finished.lemma_bounded();
        self.watermarks.lemma_wf();
    }

    /// The loop of a task with `in_partitions` input partitions, before its
    /// first event: nothing withheld, nothing closed, no watermark known.
    pub fn new(in_partitions: usize) -> (l: Self)
        ensures
            l.wf(),
            l@.partitions() == in_partitions,
            l@.aligned =~= Set::<int>::empty(),
            l@.epoch.is_none(),
            l@.stopped =~= Set::<int>::empty(),
            l@.finished =~= Set::<int>::empty(),
            forall|i: int| 0 <= i < in_partitions ==> (#[trigger] l@.slots[i]).is_none(),
            l@.ticks == 0,
            l@.phase == Phase::Running,
    {
        OperatorLoop {
            counter: CheckpointCounter::new(in_partitions),
            stopped: PartitionSet::new(in_partitions),
            finished: PartitionSet::new(in_partitions),
            watermarks: WatermarkHolder::with_partitions(in_partitions),
            ticks: 0,
            phase: Phase::Running,
        }
    }

    /// The number of input partitions.
    pub fn in_partitions(&self) -> (n: usize)
        ensures
            n == self@.partitions(),
    {
        self.watermarks.partitions()
    }

    /// Where the loop stands.
    pub fn phase(&self) -> (p: Phase)
        ensures
            p == self@.phase,
    {
        self.phase
    }

    /// The merged watermark.
    pub fn watermark(&self) -> (w: Option<Watermark>)
        requires
            self.wf(),
        ensures
            w == self@.merged(),
    {
        proof {
            self.watermarks.lemma_wf();
            lemma_merge_is(self.watermarks@, self.watermarks.merged());
        }
        self.watermarks.watermark()
    }

    /// Whether partition `idx` is withheld by the alignment in progress.
    pub fn is_blocked(&self, idx: usize) -> (b: bool)
        ensures
            b == self@.aligned.contains(idx as int),
    {
        self.counter.is_blocked(idx)
    }

    /// Handles a signal from partition `idx` that fits the alignment in
    /// progress: the state changes as `after_signal` says, and the actions and
    /// the outcome are those of `signal_actions` and `signal_outcome`. The
    /// phase is left alone. A barrier of another epoch than the alignment in
    /// progress is left out; `step` refuses it.
    pub fn handle_control_message(&mut self, idx: usize, message: &SignalMessage) -> (r: (
        ControlOutcome,
        Vec<Action>,
    ))
        requires
            old(self).wf(),
            idx < old(self)@.partitions(),
            old(self)@.admits(*message),
        ensures
            final(self).wf(),
            final(self)@ == old(self)@.after_signal(idx as int, *message),
            r.0 == old(self)@.signal_outcome(idx as int, *message),
            r.1@ == old(self)@.signal_actions(idx as int, *message),
    {
        let mut out: Vec<Action> = Vec::new();
        let ghost pre = self@;
        proof {
            self.lemma_wf();
            self.watermarks.lemma_wf();
            lemma_merge_is(self.watermarks@, self.watermarks.merged());
        }
        match *message {
            SignalMessage::Barrier(t) => {
                let first: bool = self.counter.all_clear();
                if first {
                    out.push(
                        Action::SendCheckpointEvent {
                            barrier: t,
                            event_type: TaskCheckpointEventType::StartedAlignment,
                        },
                    );
                }
                let done: bool = self.counter.mark(idx, &t);
                if done {
                    out.push(
                        Action::SendCheckpointEvent {
                            barrier: t,
                            event_type: TaskCheckpointEventType::StartedCheckpointing,
                        },
                    );
                    out.push(Action::HandleCheckpoint(t));
                    out.push(
                        Action::SendCheckpointEvent {
                            barrier: t,
                            event_type: TaskCheckpointEventType::FinishedOperatorSetup,
                        },
                    );
                    let (mut commit, stop) = run_checkpoint(t, self.watermarks.watermark());
                    out.append(&mut commit);
                    assert(out@ =~= barrier_actions(first, true, t, pre.merged()));
                    assert(self@ == pre.after_signal(idx as int, *message));
                    if stop {
                        return (ControlOutcome::Stop, out);
                    }
                } else {
                    assert(out@ =~= barrier_actions(first, false, t, pre.merged()));
                    assert(pre.aligned.contains(idx as int) ==> pre.aligned.insert(idx as int)
                        =~= pre.aligned);
                    assert(self@ == pre.after_signal(idx as int, *message));
                }
            },
            SignalMessage::Watermark(watermark) => {
                let advanced = self.watermarks.set(idx, watermark);
                proof {
                    lemma_merge_is(self.watermarks@, self.watermarks.merged());
                }
                if let Some(w) = advanced {
                    out.push(Action::HandleWatermark(w));
                }
                assert(self@ == pre.after_signal(idx as int, *message));
                assert(out@ =~= pre.signal_actions(idx as int, *message));
            },
            SignalMessage::Stop => {
                self.stopped.insert(idx);
                assert(self@ == pre.after_signal(idx as int, *message));
                if self.stopped.len() == self.stopped.partitions() {
                    return (ControlOutcome::StopAndSendStop, out);
                }
            },
            SignalMessage::EndOfData => {
                self.finished.insert(idx);
                assert(self@ == pre.after_signal(idx as int, *message));
                if self.finished.len() == self.finished.partitions() {
                    return (ControlOutcome::Finish, out);
                }
            },
        }
        (ControlOutcome::Continue, out)
    }

    /// What becomes of the source of partition `idx` after its message was
    /// handled; `held` says whether sources were kept aside before it.
    fn requeue(&self, idx: usize, held: bool, out: &mut Vec<Action>)
        requires
            self.wf(),
        ensures
            final(out)@ == old(out)@ + requeue_actions(
                self@.aligned.contains(idx as int),
                self@.aligned.len() == 0 && held,
                idx,
            ),
    {
        if self.counter.is_blocked(idx) {
            out.push(Action::Hold { partition: idx });
        } else {
            if self.counter.all_clear() && held {
                out.push(Action::ReleaseHeld);
            }
            out.push(Action::Register { partition: idx });
        }
        assert(out@ =~= old(out)@ + requeue_actions(
            self@.aligned.contains(idx as int),
            self@.aligned.len() == 0 && held,
            idx,
        ));
    }

    /// Why the loop would refuse `event`, if it would.
    pub fn refusal(&self, event: Event) -> (r: Option<StepError>)
        ensures
            r == self@.refusal(event),
    {
        if self.phase == Phase::Closed {
            return Some(StepError::Closed);
        }
        match event {
            Event::Message { partition, message } => {
                if partition >= self.watermarks.partitions() {
                    Some(StepError::UnknownPartition)
                } else if self.counter.is_blocked(partition) {
                    Some(StepError::PartitionWithheld)
                } else {
                    match message {
                        ArrowMessage::Signal(SignalMessage::Barrier(b)) => {
                            match self.counter.current_epoch() {
                                Some(e) => if e == b.epoch {
                                    None
                                } else {
                                    Some(StepError::EpochMismatch)
                                },
                                None => None,
                            }
                        },
                        _ => None,
                    }
                }
            },
            _ => None,
        }
    }

    /// Whether an alignment is in progress: some partition is withheld.
    pub fn is_aligning(&self) -> (b: bool)
        requires
            self.wf(),
        ensures
            b == (self@.aligned.len() > 0),
    {
        !self.counter.all_clear()
    }

    /// Takes one event. A closed loop refuses every event, and a running one
    /// refuses a message of a partition that it does not have or that is
    /// withheld, and a barrier of another epoch than the alignment in
    /// progress: the state is then as before. Every other event is accepted:
    /// the state changes as `after_step` says and the actions of
    /// `step_actions` come back, in the order in which they are to be carried
    /// out.
    pub fn step(&mut self, event: Event) -> (r: Result<Vec<Action>, StepError>)
        requires
            old(self).wf(),
        ensures
            final(self).wf(),
            match old(self)@.refusal(event) {
                Some(e) => r == Err::<Vec<Action>, StepError>(e) && final(self)@ == old(self)@,
                None => r.is_ok() && r.unwrap()@ == old(self)@.step_actions(event) && final(self)@
                    == old(self)@.after_step(event),
            },
    {
        let ghost pre = self@;
        proof {
            self.lemma_wf();
        }
        if let Some(e) = self.refusal(event) {
            return Err(e);
        }
        match event {
            Event::Control(message) => Ok(handle_controller_message(message)),
            Event::FutureReady => {
                let mut out: Vec<Action> = Vec::new();
                out.push(Action::HandleFutureResult);
                assert(out@ =~= pre.step_actions(event));
                Ok(out)
            },
            Event::InputsExhausted => {
                self.phase = Phase::Closed;
                assert(self@ == pre.after_step(event));
                Ok(finish(None))
            },
            Event::Tick => {
                let mut out: Vec<Action> = Vec::new();
                out.push(Action::HandleTick(self.ticks));
                if self.ticks < u64::MAX {
                    self.ticks = self.ticks + 1;
                }
                assert(out@ =~= pre.step_actions(event));
                assert(self@ == pre.after_step(event));
                Ok(out)
            },
            Event::Message { partition, message } => {
                let held: bool = !self.counter.all_clear();
                match message {
                    ArrowMessage::Data => {
                        let mut out: Vec<Action> = Vec::new();
                        out.push(Action::CountMessageReceived);
                        out.push(
                            Action::ProcessBatch {
                                partition,
                                partitions: self.watermarks.partitions(),
                            },
                        );
                        self.requeue(partition, held, &mut out);
                        assert(out@ =~= pre.step_actions(event));
                        Ok(out)
                    },
                    ArrowMessage::Signal(signal) => {
                        let (outcome, mut out) = self.handle_control_message(partition, &signal);
                        match outcome {
                            ControlOutcome::Continue => {
                                match signal {
                                    SignalMessage::Stop | SignalMessage::EndOfData => {
                                        self.phase = Phase::Draining;
                                    },
                                    _ => {},
                                }
                                assert(self@ == pre.after_step(event));
                                self.requeue(partition, held, &mut out);
                            },
                            ControlOutcome::Stop => {
                                self.phase = Phase::Closed;
                                assert(self@ == pre.after_step(event));
                                let mut end = finish(None);
                                out.append(&mut end);
                            },
                            ControlOutcome::Finish => {
                                self.phase = Phase::Closed;
                                assert(self@ == pre.after_step(event));
                                let mut end = finish(Some(SignalMessage::EndOfData));
                                out.append(&mut end);
                            },
                            ControlOutcome::StopAndSendStop => {
                                self.phase = Phase::Closed;
                                assert(self@ == pre.after_step(event));
                                let mut end = finish(Some(SignalMessage::Stop));
                                out.append(&mut end);
                            },
                        }
                        assert(out@ =~= pre.step_actions(event));
                        Ok(out)
                    },
                }
            },
        }
    }
}

} // verus!
