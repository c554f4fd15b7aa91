//! A verified core for a personal task tracker.
//!
//! Tasks carry a title, free-form details, a color tag, a due date and
//! time, and a completion flag.  The library orders tasks relative to a
//! given moment (overdue tasks first, in descending order of their due
//! moment; then upcoming tasks, soonest first), partitions them into
//! overdue and upcoming sets, and encodes and decodes the task list in
//! its JSON storage form.

pub mod app_state;
pub mod color;
pub mod datetime;
pub mod json;
pub mod task;
pub mod task_list;
pub mod text;
