use task_core::checkpoint_counter::CheckpointCounter;
use task_core::message::{
    Action, ArrowMessage, CheckpointBarrier, ControlMessage, ControlOutcome, ProtocolViolation,
    SignalMessage, SourceFinishType, TaskCheckpointEventType, Watermark,
};
use task_core::operator::{
    finish, handle_controller_message, handle_watermark_int, run_behavior, run_checkpoint,
    start_checkpoint, Event, OperatorLoop, Phase, StepError,
};
use task_core::partition_set::PartitionSet;

fn barrier(epoch: u32, then_stop: bool) -> CheckpointBarrier {
    CheckpointBarrier { epoch, min_epoch: 0, timestamp: 1_700_000_000_000_000, then_stop }
}

fn event(barrier: CheckpointBarrier, event_type: TaskCheckpointEventType) -> Action {
    Action::SendCheckpointEvent { barrier, event_type }
}

fn signal(partition: usize, signal: SignalMessage) -> Event {
    Event::Message { partition, message: ArrowMessage::Signal(signal) }
}

#[test]
fn partition_set_counts_distinct_members() {
    let mut s = PartitionSet::new(3);
    assert!(s.is_empty());
    assert_eq!(s.partitions(), 3);
    assert!(s.insert(2));
    assert!(!s.insert(2));
    assert!(s.insert(0));
    assert_eq!(s.len(), 2);
    assert!(s.contains(0));
    assert!(!s.contains(1));
    assert!(s.contains(2));
    assert!(!s.contains(7));
    s.clear();
    assert!(s.is_empty());
    assert_eq!(s.len(), 0);
    assert!(!s.contains(2));
}

#[test]
fn counter_completes_on_the_second_of_two_partitions() {
    let b = barrier(1, false);
    let mut c = CheckpointCounter::new(2);
    assert!(c.all_clear());
    assert!(!c.mark(0, &b));
    assert!(c.is_blocked(0));
    assert!(!c.is_blocked(1));
    assert!(!c.all_clear());
    assert!(c.mark(1, &b));
    assert!(c.all_clear());
    assert!(!c.is_blocked(0));
    assert!(!c.is_blocked(1));
}

#[test]
fn counter_completes_once_in_any_order() {
    let orders: [[usize; 3]; 6] =
        [[0, 1, 2], [0, 2, 1], [1, 0, 2], [1, 2, 0], [2, 0, 1], [2, 1, 0]];
    for order in orders {
        let b = barrier(7, false);
        let mut c = CheckpointCounter::new(3);
        let mut completions = 0;
        for (k, idx) in order.iter().enumerate() {
            let done = c.mark(*idx, &b);
            assert_eq!(done, k == 2);
            if done {
                completions += 1;
            }
        }
        assert_eq!(completions, 1);
        assert!(c.all_clear());
    }
}

#[test]
fn counter_does_not_count_a_partition_twice() {
    let b = barrier(4, false);
    let mut c = CheckpointCounter::new(2);
    assert!(!c.mark(0, &b));
    assert!(!c.mark(0, &b));
    assert!(!c.mark(0, &b));
    assert!(c.is_blocked(0));
    assert!(!c.is_blocked(1));
    assert!(c.mark(1, &b));
}

#[test]
fn counter_of_one_partition_completes_at_once() {
    let mut c = CheckpointCounter::new(1);
    assert_eq!(c.size(), 1);
    assert!(c.mark(0, &barrier(1, false)));
    assert!(c.all_clear());
    assert!(c.mark(0, &barrier(2, false)));
}

#[test]
fn two_partitions_align_on_the_second_barrier() {
    let b = barrier(1, false);
    let mut l = OperatorLoop::new(2);

    let first = l.step(signal(0, SignalMessage::Barrier(b))).unwrap();
    assert_eq!(
        first,
        vec![event(b, TaskCheckpointEventType::StartedAlignment), Action::Hold { partition: 0 }]
    );
    assert!(l.is_blocked(0));

    let second = l.step(signal(1, SignalMessage::Barrier(b))).unwrap();
    assert_eq!(
        second,
        vec![
            event(b, TaskCheckpointEventType::StartedCheckpointing),
            Action::HandleCheckpoint(b),
            event(b, TaskCheckpointEventType::FinishedOperatorSetup),
            Action::Checkpoint { barrier: b, watermark: None },
            event(b, TaskCheckpointEventType::FinishedSync),
            Action::Broadcast(SignalMessage::Barrier(b)),
            Action::ReleaseHeld,
            Action::Register { partition: 1 },
        ]
    );
    assert!(!l.is_blocked(0));
    assert!(!l.is_blocked(1));
    assert_eq!(l.phase(), Phase::Running);
}

#[test]
fn withheld_partition_is_refused_until_alignment() {
    let b = barrier(3, false);
    let mut l = OperatorLoop::new(2);
    l.step(signal(0, SignalMessage::Barrier(b))).unwrap();
    assert_eq!(
        l.step(Event::Message { partition: 0, message: ArrowMessage::Data }),
        Err(StepError::PartitionWithheld)
    );
    assert_eq!(l.step(signal(0, SignalMessage::Barrier(b))), Err(StepError::PartitionWithheld));
    assert!(l.is_blocked(0));
    let data = l.step(Event::Message { partition: 1, message: ArrowMessage::Data }).unwrap();
    assert_eq!(
        data,
        vec![
            Action::CountMessageReceived,
            Action::ProcessBatch { partition: 1, partitions: 2 },
            Action::Register { partition: 1 },
        ]
    );
    l.step(signal(1, SignalMessage::Barrier(b))).unwrap();
    assert!(l.step(Event::Message { partition: 0, message: ArrowMessage::Data }).is_ok());
}

#[test]
fn barrier_with_then_stop_ends_the_task_after_the_commit() {
    let b = barrier(9, true);
    let mut l = OperatorLoop::new(2);
    l.step(signal(1, SignalMessage::Barrier(b))).unwrap();
    let last = l.step(signal(0, SignalMessage::Barrier(b))).unwrap();
    assert_eq!(
        last,
        vec![
            event(b, TaskCheckpointEventType::StartedCheckpointing),
            Action::HandleCheckpoint(b),
            event(b, TaskCheckpointEventType::FinishedOperatorSetup),
            Action::Checkpoint { barrier: b, watermark: None },
            event(b, TaskCheckpointEventType::FinishedSync),
            Action::Broadcast(SignalMessage::Barrier(b)),
            Action::OnClose(None),
            Action::TaskFinished,
        ]
    );
    assert_eq!(l.phase(), Phase::Closed);
    assert_eq!(l.step(Event::Tick), Err(StepError::Closed));
    assert_eq!(
        l.step(Event::Message { partition: 0, message: ArrowMessage::Data }),
        Err(StepError::Closed)
    );
}

#[test]
fn checkpoint_captures_the_merged_watermark() {
    let b = barrier(2, false);
    let mut l = OperatorLoop::new(1);
    l.step(signal(0, SignalMessage::Watermark(Watermark::EventTime(42)))).unwrap();
    let acts = l.step(signal(0, SignalMessage::Barrier(b))).unwrap();
    assert_eq!(acts[0], event(b, TaskCheckpointEventType::StartedAlignment));
    assert_eq!(
        acts[4],
        Action::Checkpoint { barrier: b, watermark: Some(Watermark::EventTime(42)) }
    );
    assert_eq!(acts[7], Action::Register { partition: 0 });
    assert_eq!(acts.len(), 8);
}

#[test]
fn all_partitions_stop() {
    let mut l = OperatorLoop::new(2);
    let first = l.step(signal(1, SignalMessage::Stop)).unwrap();
    assert_eq!(first, vec![Action::Register { partition: 1 }]);
    assert_eq!(l.phase(), Phase::Draining);
    let last = l.step(signal(0, SignalMessage::Stop)).unwrap();
    assert_eq!(
        last,
        vec![
            Action::OnClose(Some(SignalMessage::Stop)),
            Action::Broadcast(SignalMessage::Stop),
            Action::TaskFinished,
        ]
    );
    assert_eq!(l.phase(), Phase::Closed);
}

#[test]
fn all_partitions_end_of_data() {
    let mut l = OperatorLoop::new(3);
    for p in [2, 0] {
        let acts = l.step(signal(p, SignalMessage::EndOfData)).unwrap();
        assert_eq!(acts, vec![Action::Register { partition: p }]);
    }
    let again = l.step(signal(2, SignalMessage::EndOfData)).unwrap();
    assert_eq!(again, vec![Action::Register { partition: 2 }]);
    let last = l.step(signal(1, SignalMessage::EndOfData)).unwrap();
    assert_eq!(
        last,
        vec![
            Action::OnClose(Some(SignalMessage::EndOfData)),
            Action::Broadcast(SignalMessage::EndOfData),
            Action::TaskFinished,
        ]
    );
}

#[test]
fn exhausted_inputs_end_the_task_without_a_signal() {
    let mut l = OperatorLoop::new(2);
    let acts = l.step(Event::InputsExhausted).unwrap();
    assert_eq!(acts, vec![Action::OnClose(None), Action::TaskFinished]);
    assert_eq!(l.phase(), Phase::Closed);
    assert_eq!(l.step(Event::InputsExhausted), Err(StepError::Closed));
}

#[test]
fn unknown_partition_is_refused() {
    let mut l = OperatorLoop::new(2);
    assert_eq!(l.in_partitions(), 2);
    assert_eq!(
        l.step(Event::Message { partition: 2, message: ArrowMessage::Data }),
        Err(StepError::UnknownPartition)
    );
    assert_eq!(l.phase(), Phase::Running);
}

#[test]
fn ticks_count_up_from_zero() {
    let mut l = OperatorLoop::new(1);
    for n in 0..5u64 {
        assert_eq!(l.step(Event::Tick).unwrap(), vec![Action::HandleTick(n)]);
    }
    assert_eq!(l.step(Event::FutureReady).unwrap(), vec![Action::HandleFutureResult]);
    assert_eq!(l.step(Event::Tick).unwrap(), vec![Action::HandleTick(5)]);
}

#[test]
fn control_channel_commands() {
    let b = barrier(1, false);
    assert_eq!(
        handle_controller_message(ControlMessage::Checkpoint(b)),
        vec![Action::LogViolation(ProtocolViolation::CheckpointOnControlChannel)]
    );
    assert_eq!(
        handle_controller_message(ControlMessage::Stop),
        vec![Action::LogViolation(ProtocolViolation::StopOnControlChannel)]
    );
    assert_eq!(
        handle_controller_message(ControlMessage::Commit { epoch: 12 }),
        vec![Action::HandleCommit { epoch: 12 }]
    );
    assert_eq!(handle_controller_message(ControlMessage::LoadCompacted), vec![Action::LoadCompacted]);
    assert_eq!(handle_controller_message(ControlMessage::NoOp), vec![]);
    let mut l = OperatorLoop::new(1);
    assert_eq!(
        l.step(Event::Control(ControlMessage::Commit { epoch: 3 })).unwrap(),
        vec![Action::HandleCommit { epoch: 3 }]
    );
    assert_eq!(l.phase(), Phase::Running);
}

#[test]
fn source_checkpoint_actions_in_order() {
    let b = barrier(5, true);
    let (acts, stop) = start_checkpoint(b, Some(Watermark::EventTime(77)));
    assert!(stop);
    assert_eq!(
        acts,
        vec![
            event(b, TaskCheckpointEventType::StartedCheckpointing),
            Action::Checkpoint { barrier: b, watermark: Some(Watermark::EventTime(77)) },
            event(b, TaskCheckpointEventType::FinishedSync),
            Action::Broadcast(SignalMessage::Barrier(b)),
        ]
    );
    let (commit, stop) = run_checkpoint(barrier(6, false), None);
    assert!(!stop);
    assert_eq!(commit.len(), 3);
    assert_eq!(commit[0], Action::Checkpoint { barrier: barrier(6, false), watermark: None });
}

#[test]
fn source_finish_types() {
    assert_eq!(SourceFinishType::Graceful.into_signal(), Some(SignalMessage::EndOfData));
    assert_eq!(SourceFinishType::Immediate.into_signal(), Some(SignalMessage::Stop));
    assert_eq!(SourceFinishType::Final.into_signal(), None);
    assert_eq!(
        run_behavior(SourceFinishType::Graceful),
        vec![
            Action::OnClose(Some(SignalMessage::EndOfData)),
            Action::Broadcast(SignalMessage::EndOfData),
            Action::TaskFinished,
        ]
    );
    assert_eq!(run_behavior(SourceFinishType::Final), vec![Action::OnClose(None), Action::TaskFinished]);
    assert_eq!(finish(None), vec![Action::OnClose(None), Action::TaskFinished]);
}

#[test]
fn watermark_hook_answer_is_forwarded() {
    assert_eq!(
        handle_watermark_int(Some(Watermark::EventTime(3))),
        vec![Action::Broadcast(SignalMessage::Watermark(Watermark::EventTime(3)))]
    );
    assert_eq!(handle_watermark_int(None), vec![]);
}

#[test]
fn signal_outcomes() {
    let mut l = OperatorLoop::new(2);
    let (o, acts) = l.handle_control_message(0, &SignalMessage::Stop);
    assert_eq!(o, ControlOutcome::Continue);
    assert!(acts.is_empty());
    let (o, _) = l.handle_control_message(1, &SignalMessage::EndOfData);
    assert_eq!(o, ControlOutcome::Continue);
    let (o, _) = l.handle_control_message(0, &SignalMessage::EndOfData);
    assert_eq!(o, ControlOutcome::Finish);
    let (o, _) = l.handle_control_message(1, &SignalMessage::Stop);
    assert_eq!(o, ControlOutcome::StopAndSendStop);
    let mut l = OperatorLoop::new(1);
    let (o, _) = l.handle_control_message(0, &SignalMessage::Stop);
    assert_eq!(o, ControlOutcome::StopAndSendStop);
    let mut l = OperatorLoop::new(1);
    let (o, acts) = l.handle_control_message(0, &SignalMessage::Barrier(barrier(1, true)));
    assert_eq!(o, ControlOutcome::Stop);
    assert_eq!(acts.len(), 7);
    let mut l = OperatorLoop::new(1);
    let (o, _) = l.handle_control_message(0, &SignalMessage::Barrier(barrier(1, false)));
    assert_eq!(o, ControlOutcome::Continue);
}

#[test]
fn partitions_that_end_on_different_signals_send_none() {
    let mut l = OperatorLoop::new(2);
    assert_eq!(l.step(signal(0, SignalMessage::Stop)).unwrap(), vec![Action::Register { partition: 0 }]);
    assert_eq!(
        l.step(signal(1, SignalMessage::EndOfData)).unwrap(),
        vec![Action::Register { partition: 1 }]
    );
    assert_eq!(l.phase(), Phase::Draining);
    assert_eq!(
        l.step(Event::InputsExhausted).unwrap(),
        vec![Action::OnClose(None), Action::TaskFinished]
    );
    assert_eq!(l.phase(), Phase::Closed);
}

#[test]
fn barrier_of_another_epoch_is_refused_during_alignment() {
    let mut l = OperatorLoop::new(3);
    l.step(signal(0, SignalMessage::Barrier(barrier(1, false)))).unwrap();
    assert_eq!(
        l.step(signal(1, SignalMessage::Barrier(barrier(2, false)))),
        Err(StepError::EpochMismatch)
    );
    assert!(!l.is_blocked(1));
    assert_eq!(
        l.refusal(signal(1, SignalMessage::Barrier(barrier(2, false)))),
        Some(StepError::EpochMismatch)
    );
    assert_eq!(l.refusal(signal(1, SignalMessage::Barrier(barrier(1, false)))), None);
    assert_eq!(
        l.step(signal(1, SignalMessage::Barrier(barrier(1, false)))).unwrap(),
        vec![Action::Hold { partition: 1 }]
    );
    let done = l.step(signal(2, SignalMessage::Barrier(barrier(1, true)))).unwrap();
    assert_eq!(done.len(), 8);
    assert_eq!(l.phase(), Phase::Closed);
    let mut next = OperatorLoop::new(2);
    next.step(signal(0, SignalMessage::Barrier(barrier(1, false)))).unwrap();
    next.step(signal(1, SignalMessage::Barrier(barrier(1, false)))).unwrap();
    assert!(next.step(signal(1, SignalMessage::Barrier(barrier(2, false)))).is_ok());
}

#[test]
fn counter_records_the_epoch_of_the_alignment() {
    let mut c = CheckpointCounter::new(2);
    assert_eq!(c.current_epoch(), None);
    assert!(!c.mark(1, &barrier(6, false)));
    assert_eq!(c.current_epoch(), Some(6));
    assert!(c.mark(0, &barrier(6, false)));
    assert_eq!(c.current_epoch(), None);
}
