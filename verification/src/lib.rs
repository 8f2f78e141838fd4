//! The execution core of one parallel subtask of a streaming dataflow: barrier
//! alignment, watermark merging and the decisions of the task loop.

pub mod checkpoint_counter;
pub mod control;
pub mod inq_reader;
pub mod message;
pub mod operator;
pub mod partition_set;
pub mod task_run;
pub mod theorems;
pub mod watermark_holder;
