//! A minimal cooperative task scheduler paired with a timer subsystem.
//!
//! The library holds the two verified state machines at the heart of the
//! system: the executor's task table with its ready set (`task_exc`), and
//! the timer worker's active set of deadlines (`event_loop`). The thread,
//! lock and channel plumbing that drives these state machines lives with
//! the embedding program, which calls the verified operations and performs
//! the actions they hand back.

pub mod event_loop;
pub mod task_exc;
