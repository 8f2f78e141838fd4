//! What a task tells the control plane.

use crate::message::{Action, CheckpointBarrier, TaskCheckpointEventType};
use vstd::prelude::*;

verus! {

/// The identity of one parallel subtask. It does not change while the task
/// lives.
#[derive(Clone, Debug, PartialEq, Eq)]
pub struct TaskInfo {
    pub operator_id: String,
    pub operator_name: String,
    pub task_index: usize,
    pub parallelism: usize,
}

/// One stage of one checkpoint on one subtask.
#[derive(Clone, Debug, PartialEq, Eq)]
pub struct CheckpointEvent {
    pub checkpoint_epoch: u32,
    pub operator_id: String,
    pub subtask_index: u32,
    /// When the stage was reached, in nanoseconds since the Unix epoch.
    pub time: u64,
    pub event_type: TaskCheckpointEventType,
}

/// A message of a task to the control plane.
#[derive(Clone, Debug, PartialEq, Eq)]
pub enum ControlResp {
    CheckpointEvent(CheckpointEvent),
    TaskFinished { operator_id: String, task_index: usize },
}

/// The report of a checkpoint stage by the task `task_info` at `time`.
pub open spec fn checkpoint_event_of(
    task_info: TaskInfo,
    barrier: CheckpointBarrier,
    event_type: TaskCheckpointEventType,
    time: u64,
) -> ControlResp {
    ControlResp::CheckpointEvent(
        CheckpointEvent {
            checkpoint_epoch: barrier.epoch,
            operator_id: task_info.operator_id,
            subtask_index: task_info.task_index as u32,
            time,
            event_type,
        },
    )
}

/// What an action of the loop tells the control plane, if anything: a
/// checkpoint stage is reported with the task's identity and the time, and
/// the end of the task with its identity.
pub open spec fn response_of(task_info: TaskInfo, action: Action, time: u64) -> Option<ControlResp> {
    match action {
        Action::SendCheckpointEvent { barrier, event_type } => Some(
            checkpoint_event_of(task_info, barrier, event_type, time),
        ),
        Action::TaskFinished => Some(
            ControlResp::TaskFinished {
                operator_id: task_info.operator_id,
                task_index: task_info.task_index,
            },
        ),
        _ => None,
    }
}

/// The report of a checkpoint stage by the task `task_info` at `time`.
pub fn checkpoint_event(
    task_info: &TaskInfo,
    barrier: CheckpointBarrier,
    event_type: TaskCheckpointEventType,
    time: u64,
) -> (r: ControlResp)
    ensures
        r == checkpoint_event_of(*task_info, barrier, event_type, time),
{
    ControlResp::CheckpointEvent(
        CheckpointEvent {
            checkpoint_epoch: barrier.epoch,
            operator_id: task_info.operator_id.clone(),
            subtask_index: task_info.task_index as u32,
            time,
            event_type,
        },
    )
}

/// What `action` tells the control plane, if anything.
pub fn response(task_info: &TaskInfo, action: Action, time: u64) -> (r: Option<ControlResp>)
    ensures
        r == response_of(*task_info, action, time),
{
    match action {
        Action::SendCheckpointEvent { barrier, event_type } => Some(
            checkpoint_event(task_info, barrier, event_type, time),
        ),
        Action::TaskFinished => Some(
            ControlResp::TaskFinished {
                operator_id: task_info.operator_id.clone(),
                task_index: task_info.task_index,
            },
        ),
        _ => None,
    }
}

} // verus!
