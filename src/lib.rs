//! Fast recursive removal of files and directory trees.
//!
//! A removal is a state machine (`removal::Removal`): it asks its caller for
//! one filesystem action at a time (inspect, list, remove, or run a batch of
//! entry removals concurrently), takes back what happened, and decides what
//! comes next under the policy (`force`, `verbose`, the concurrency
//! threshold). Its counters are merged, never shared. `model` relates runs of
//! the machine to directory trees, and `laws` states what every removal
//! achieves.

pub mod args;
pub mod dispatch;
pub mod engine;
pub mod laws;
pub mod model;
pub mod prompt;
pub mod release;
pub mod removal;
pub mod stats;
