use task_core::inq_reader::{InQReader, PartitionStream};
use task_core::message::{
    Action, ArrowMessage, CheckpointBarrier, SignalMessage, TaskCheckpointEventType, Watermark,
};
use task_core::operator::{OperatorLoop, Phase, StepError};
use task_core::task_run::{operator_run_behavior, poll_inputs};

fn wm(t: u64) -> ArrowMessage {
    ArrowMessage::Signal(SignalMessage::Watermark(Watermark::EventTime(t)))
}

#[test]
fn stream_yields_in_order() {
    let mut s = PartitionStream::new(3, vec![wm(1), ArrowMessage::Data, wm(2)]);
    assert_eq!(s.index(), 3);
    assert!(!s.is_exhausted());
    assert_eq!(s.pull(), Some(wm(1)));
    assert_eq!(s.pull(), Some(ArrowMessage::Data));
    assert_eq!(s.pull(), Some(wm(2)));
    assert!(s.is_exhausted());
    assert_eq!(s.pull(), None);
    assert_eq!(s.pull(), None);
}

#[test]
fn source_is_not_registered_again_by_itself() {
    let mut sel = InQReader::new();
    sel.push(PartitionStream::new(0, vec![wm(1), wm(2)]));
    sel.push(PartitionStream::new(1, vec![wm(10)]));
    assert_eq!(sel.len(), 2);

    let ((p, m), first) = sel.next().unwrap();
    assert_eq!((p, m), (0, wm(1)));
    assert_eq!(sel.len(), 1);
    let ((p, m), second) = sel.next().unwrap();
    assert_eq!((p, m), (1, wm(10)));
    assert_eq!(sel.len(), 0);
    assert!(sel.next().is_none());

    sel.push(second);
    sel.push(first);
    let ((p, m), rest) = sel.next().unwrap();
    assert_eq!((p, m), (0, wm(2)));
    assert!(rest.is_exhausted());
    assert_eq!(sel.len(), 0);
    assert!(sel.next().is_none());
}

#[test]
fn exhausted_only_when_every_source_is() {
    let mut sel = InQReader::new();
    assert!(sel.next().is_none());
    sel.push(PartitionStream::new(0, vec![]));
    sel.push(PartitionStream::new(1, vec![]));
    sel.push(PartitionStream::new(2, vec![ArrowMessage::Data]));
    let ((p, m), s) = sel.next().unwrap();
    assert_eq!((p, m), (2, ArrowMessage::Data));
    assert!(s.is_exhausted());
    sel.push(s);
    assert!(sel.next().is_none());
    assert_eq!(sel.len(), 0);
}

#[test]
fn each_partition_keeps_its_order() {
    let mut sel = InQReader::new();
    sel.push(PartitionStream::new(0, vec![wm(1), wm(2), wm(3)]));
    sel.push(PartitionStream::new(1, vec![wm(11), wm(12)]));
    let mut seen: Vec<Vec<ArrowMessage>> = vec![vec![], vec![]];
    while let Some(((p, m), s)) = sel.next() {
        seen[p].push(m);
        sel.push(s);
    }
    assert_eq!(seen[0], vec![wm(1), wm(2), wm(3)]);
    assert_eq!(seen[1], vec![wm(11), wm(12)]);
}

#[test]
fn nothing_behind_a_barrier_is_handled_before_alignment() {
    let b = CheckpointBarrier { epoch: 1, min_epoch: 0, timestamp: 0, then_stop: false };
    let barrier = ArrowMessage::Signal(SignalMessage::Barrier(b));
    let mut sel = InQReader::new();
    sel.push(PartitionStream::new(0, vec![barrier, ArrowMessage::Data]));
    sel.push(PartitionStream::new(1, vec![ArrowMessage::Data, ArrowMessage::Data, barrier]));
    let mut state = OperatorLoop::new(2);
    let mut held: Vec<PartitionStream> = vec![];
    let log = operator_run_behavior(&mut state, &mut sel, &mut held, 100);
    assert_eq!(state.phase(), Phase::Closed);
    assert!(held.is_empty());
    let batches: Vec<usize> = log
        .iter()
        .enumerate()
        .filter(|(_, a)| matches!(a, Action::ProcessBatch { .. }))
        .map(|(i, _)| i)
        .collect();
    let commit = log.iter().position(|a| matches!(a, Action::Checkpoint { .. })).unwrap();
    assert_eq!(batches.len(), 3);
    assert!(batches[0] < commit && batches[1] < commit);
    assert!(commit < batches[2]);
    assert_eq!(log[batches[0]], Action::ProcessBatch { partition: 1, partitions: 2 });
    assert_eq!(log[batches[1]], Action::ProcessBatch { partition: 1, partitions: 2 });
    assert_eq!(log[batches[2]], Action::ProcessBatch { partition: 0, partitions: 2 });
    assert_eq!(log.iter().filter(|a| matches!(a, Action::Checkpoint { .. })).count(), 1);
    assert_eq!(log[log.len() - 2], Action::OnClose(None));
    assert_eq!(log[log.len() - 1], Action::TaskFinished);
}

#[test]
fn run_of_two_partitions_in_full() {
    let b = CheckpointBarrier { epoch: 1, min_epoch: 0, timestamp: 0, then_stop: false };
    let barrier = ArrowMessage::Signal(SignalMessage::Barrier(b));
    let stop = ArrowMessage::Signal(SignalMessage::Stop);
    let mut sel = InQReader::new();
    sel.push(PartitionStream::new(0, vec![barrier, stop]));
    sel.push(PartitionStream::new(1, vec![barrier, stop]));
    let mut state = OperatorLoop::new(2);
    let mut held: Vec<PartitionStream> = vec![];
    let log = operator_run_behavior(&mut state, &mut sel, &mut held, 10);
    let event = |event_type| Action::SendCheckpointEvent { barrier: b, event_type };
    assert_eq!(
        log,
        vec![
            event(TaskCheckpointEventType::StartedAlignment),
            Action::Hold { partition: 0 },
            event(TaskCheckpointEventType::StartedCheckpointing),
            Action::HandleCheckpoint(b),
            event(TaskCheckpointEventType::FinishedOperatorSetup),
            Action::Checkpoint { barrier: b, watermark: None },
            event(TaskCheckpointEventType::FinishedSync),
            Action::Broadcast(SignalMessage::Barrier(b)),
            Action::ReleaseHeld,
            Action::Register { partition: 1 },
            Action::Register { partition: 0 },
            Action::OnClose(Some(SignalMessage::Stop)),
            Action::Broadcast(SignalMessage::Stop),
            Action::TaskFinished,
        ]
    );
    assert_eq!(state.phase(), Phase::Closed);
}

#[test]
fn run_stops_after_the_given_turns() {
    let mut sel = InQReader::new();
    sel.push(PartitionStream::new(0, vec![ArrowMessage::Data, ArrowMessage::Data, wm(4)]));
    let mut state = OperatorLoop::new(1);
    let mut held: Vec<PartitionStream> = vec![];
    let log = operator_run_behavior(&mut state, &mut sel, &mut held, 2);
    assert_eq!(
        log,
        vec![
            Action::CountMessageReceived,
            Action::ProcessBatch { partition: 0, partitions: 1 },
            Action::Register { partition: 0 },
            Action::CountMessageReceived,
            Action::ProcessBatch { partition: 0, partitions: 1 },
            Action::Register { partition: 0 },
        ]
    );
    assert_eq!(state.phase(), Phase::Running);
    assert_eq!(sel.len(), 1);
    assert!(operator_run_behavior(&mut state, &mut sel, &mut held, 0).is_empty());
    let rest = operator_run_behavior(&mut state, &mut sel, &mut held, 7);
    assert_eq!(
        rest,
        vec![
            Action::HandleWatermark(Watermark::EventTime(4)),
            Action::Register { partition: 0 },
            Action::OnClose(None),
            Action::TaskFinished,
        ]
    );
    assert_eq!(state.phase(), Phase::Closed);
}

#[test]
fn turn_leaves_a_refused_message_where_it_is() {
    let mut sel = InQReader::new();
    sel.push(PartitionStream::new(5, vec![ArrowMessage::Data]));
    let mut state = OperatorLoop::new(2);
    let mut held: Vec<PartitionStream> = vec![];
    assert_eq!(poll_inputs(&mut state, &mut sel, &mut held), Err(StepError::UnknownPartition));
    assert_eq!(sel.len(), 1);
    assert_eq!(sel.peek(), Some((5, ArrowMessage::Data)));
    assert!(operator_run_behavior(&mut state, &mut sel, &mut held, 3).is_empty());
    assert_eq!(state.phase(), Phase::Running);
}

#[test]
fn held_sources_end_the_run_when_the_others_are_exhausted() {
    let b = CheckpointBarrier { epoch: 1, min_epoch: 0, timestamp: 0, then_stop: false };
    let barrier = ArrowMessage::Signal(SignalMessage::Barrier(b));
    let mut sel = InQReader::new();
    sel.push(PartitionStream::new(0, vec![barrier, ArrowMessage::Data]));
    sel.push(PartitionStream::new(1, vec![]));
    let mut state = OperatorLoop::new(2);
    let mut held: Vec<PartitionStream> = vec![];
    let log = operator_run_behavior(&mut state, &mut sel, &mut held, 10);
    assert_eq!(
        log,
        vec![
            Action::SendCheckpointEvent {
                barrier: b,
                event_type: TaskCheckpointEventType::StartedAlignment
            },
            Action::Hold { partition: 0 },
            Action::OnClose(None),
            Action::TaskFinished,
        ]
    );
    assert_eq!(held.len(), 1);
    assert!(!held[0].is_exhausted());
}

#[test]
fn run_with_different_terminal_signals_ends_without_one() {
    let mut sel = InQReader::new();
    sel.push(PartitionStream::new(0, vec![ArrowMessage::Signal(SignalMessage::Stop)]));
    sel.push(PartitionStream::new(1, vec![ArrowMessage::Signal(SignalMessage::EndOfData)]));
    let mut state = OperatorLoop::new(2);
    let mut held: Vec<PartitionStream> = vec![];
    let log = operator_run_behavior(&mut state, &mut sel, &mut held, 10);
    assert_eq!(
        log,
        vec![
            Action::Register { partition: 0 },
            Action::Register { partition: 1 },
            Action::OnClose(None),
            Action::TaskFinished,
        ]
    );
    assert_eq!(state.phase(), Phase::Closed);
}

#[test]
fn run_of_stops_takes_no_checkpoint() {
    let mut sel = InQReader::new();
    for p in 0..3 {
        sel.push(PartitionStream::new(p, vec![ArrowMessage::Signal(SignalMessage::Stop)]));
    }
    let mut state = OperatorLoop::new(3);
    let mut held: Vec<PartitionStream> = vec![];
    let log = operator_run_behavior(&mut state, &mut sel, &mut held, 10);
    assert_eq!(
        log,
        vec![
            Action::Register { partition: 0 },
            Action::Register { partition: 1 },
            Action::OnClose(Some(SignalMessage::Stop)),
            Action::Broadcast(SignalMessage::Stop),
            Action::TaskFinished,
        ]
    );
    assert_eq!(state.watermark(), None);
}
