//! The values that travel on a task's channels and the requests that the task
//! loop hands to its surroundings.

use vstd::prelude::*;

verus! {

/// A snapshot marker, injected into every input partition to delimit one
/// consistent cut of the dataflow.
#[derive(Clone, Copy, Debug, PartialEq, Eq, Structural)]
pub struct CheckpointBarrier {
    pub epoch: u32,
    pub min_epoch: u32,
    /// When the checkpoint was requested, in nanoseconds since the Unix epoch.
    pub timestamp: u64,
    pub then_stop: bool,
}

/// A progress marker: either a bound on the event time that has fully arrived,
/// in nanoseconds since the Unix epoch, or the statement that the partition
/// is idle and holds nobody back.
#[derive(Clone, Copy, Debug, PartialEq, Eq, Structural)]
pub enum Watermark {
    EventTime(u64),
    Idle,
}

/// Control flow carried in band, ordered relative to the data of its partition.
#[derive(Clone, Copy, Debug, PartialEq, Eq, Structural)]
pub enum SignalMessage {
    Barrier(CheckpointBarrier),
    Watermark(Watermark),
    Stop,
    EndOfData,
}

/// One unit on an input channel. The batch of a data message stays with the
/// caller, which owns the channel; the loop decides by the kind alone.
#[derive(Clone, Copy, Debug, PartialEq, Eq, Structural)]
pub enum ArrowMessage {
    Data,
    Signal(SignalMessage),
}

/// A command of the control plane. The payload of a commit or of a compaction
/// stays with the caller.
#[derive(Clone, Copy, Debug, PartialEq, Eq, Structural)]
pub enum ControlMessage {
    Checkpoint(CheckpointBarrier),
    Stop,
    Commit { epoch: u32 },
    LoadCompacted,
    NoOp,
}

/// The stages of one checkpoint on one task, in the order in which they are
/// reported.
#[derive(Clone, Copy, Debug, PartialEq, Eq, Structural)]
pub enum TaskCheckpointEventType {
    StartedAlignment,
    StartedCheckpointing,
    FinishedOperatorSetup,
    FinishedSync,
}

/// What handling one signal means for the loop.
#[derive(Clone, Copy, Debug, PartialEq, Eq, Structural)]
pub enum ControlOutcome {
    Continue,
    Stop,
    StopAndSendStop,
    Finish,
}

/// How a source ended its run.
#[derive(Clone, Copy, Debug, PartialEq, Eq, Structural)]
pub enum SourceFinishType {
    /// The source ran out of data: downstream finishes gracefully.
    Graceful,
    /// The source was told to stop at once.
    Immediate,
    /// The source stopped with a final checkpoint, which told downstream.
    Final,
}

/// A command that must not arrive on the control channel.
#[derive(Clone, Copy, Debug, PartialEq, Eq, Structural)]
pub enum ProtocolViolation {
    CheckpointOnControlChannel,
    StopOnControlChannel,
}

/// One request of the loop to its surroundings. A step returns them in the
/// order in which they are to be carried out.
#[derive(Clone, Copy, Debug, PartialEq, Eq, Structural)]
pub enum Action {
    /// Record a protocol violation; nothing else follows from it.
    LogViolation(ProtocolViolation),
    /// Call the operator's commit hook for the epoch.
    HandleCommit { epoch: u32 },
    /// Load the compacted tables named by the command at hand.
    LoadCompacted,
    /// Count one received data message.
    CountMessageReceived,
    /// Call the operator's batch hook with the batch at hand.
    ProcessBatch { partition: usize, partitions: usize },
    /// Report a checkpoint stage to the control plane.
    SendCheckpointEvent { barrier: CheckpointBarrier, event_type: TaskCheckpointEventType },
    /// Call the operator's checkpoint hook.
    HandleCheckpoint(CheckpointBarrier),
    /// Persist the snapshot, together with the merged watermark.
    Checkpoint { barrier: CheckpointBarrier, watermark: Option<Watermark> },
    /// Send the signal to every downstream partition.
    Broadcast(SignalMessage),
    /// Call the operator's watermark hook, and broadcast what it returns.
    HandleWatermark(Watermark),
    /// Call the operator's hook for its finished background work.
    HandleFutureResult,
    /// Call the operator's tick hook with the tick's number.
    HandleTick(u64),
    /// Keep the partition's source aside: it is not to be polled.
    Hold { partition: usize },
    /// Hand every source that is kept aside back to the multiplexer.
    ReleaseHeld,
    /// Hand the partition's source back to the multiplexer.
    Register { partition: usize },
    /// Call the operator's close hook with the terminal signal.
    OnClose(Option<SignalMessage>),
    /// Tell the control plane that the task is done.
    TaskFinished,
}

impl Watermark {
    /// The place of a watermark in the order of progress: event times by their
    /// value, and idle above them all.
    pub open spec fn rank(self) -> int {
        match self {
            Watermark::EventTime(t) => t as int,
            Watermark::Idle => u64::MAX as int + 1,
        }
    }

    /// Whether `self` is at most `other` in the order of progress.
    pub fn at_most(self, other: Watermark) -> (b: bool)
        ensures
            b == (self.rank() <= other.rank()),
    {
        match (self, other) {
            (Watermark::EventTime(a), Watermark::EventTime(b)) => a <= b,
            (Watermark::EventTime(_), Watermark::Idle) => true,
            (Watermark::Idle, Watermark::EventTime(_)) => false,
            (Watermark::Idle, Watermark::Idle) => true,
        }
    }
}

/// The place of a merged watermark in the order of progress: unknown lies
/// below every watermark.
pub open spec fn progress(w: Option<Watermark>) -> int {
    match w {
        None => -1,
        Some(w) => w.rank(),
    }
}

/// Whether `next` lies strictly past `prev` in the order of progress.
pub fn advances(prev: Option<Watermark>, next: Option<Watermark>) -> (b: bool)
    ensures
        b == (progress(next) > progress(prev)),
{
    match (prev, next) {
        (_, None) => false,
        (None, Some(_)) => true,
        (Some(p), Some(n)) => !n.at_most(p),
    }
}

impl SourceFinishType {
    /// The terminal signal that a source's end means for downstream.
    pub open spec fn signal(self) -> Option<SignalMessage> {
        match self {
            SourceFinishType::Graceful => Some(SignalMessage::EndOfData),
            SourceFinishType::Immediate => Some(SignalMessage::Stop),
            SourceFinishType::Final => None,
        }
    }

    /// The terminal signal to broadcast after the source has ended, if any.
    pub fn into_signal(self) -> (s: Option<SignalMessage>)
        ensures
            s == self.signal(),
    {
        match self {
            SourceFinishType::Graceful => Some(SignalMessage::EndOfData),
            SourceFinishType::Immediate => Some(SignalMessage::Stop),
            SourceFinishType::Final => None,
        }
    }
}

} // verus!
