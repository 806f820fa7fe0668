//! A resource-aware parallel task scheduler core.
//!
//! Systems declare, up front, which resources they read and which they
//! write.  The scheduler receives a pipeline of stages (groups of systems
//! that may run together) and decides, one step at a time, which task may
//! acquire its resources and run, so that no two in-flight tasks ever
//! conflict (write/write or read/write) on a resource.  Oneshot systems may
//! be scheduled from inside a running system and are executed within the
//! same dispatch.
//!
//! This crate holds the scheduler's state machine: the conflict ledger, the
//! task queue, the system tables and the completion handling.  A driver owns
//! the worker pool and the completion channel; it asks [`scheduler::Scheduler`]
//! for the next action, performs it, and feeds completion messages back.

pub mod counting;
pub mod interner;
pub mod laws;
pub mod ledger;
pub mod scheduler;
pub mod task;
