//! A verified single-user task list: tasks with ids, optional due dates and
//! completion timestamps, kept in insertion order, together with the JSON
//! text format in which the list is persisted between runs.

pub mod codec;
pub mod date;
pub mod errors;
pub mod store;
pub mod task;
