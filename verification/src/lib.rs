//! Deterministic machine scheduling: exact and heuristic algorithms over
//! integer processing, release and due times, with machine-checked contracts.
//!
//! The heart of the crate is [`single_machine::carlier`], a branch-and-bound
//! solver for single-machine scheduling with release times under the
//! maximum-lateness objective. It is built on Schrage's heuristic
//! ([`single_machine::schrage`]) and on the schedule model of [`schedule`];
//! the earliest-due-date rule with preemption
//! ([`single_machine::edd_preemptive`]) gives the matching lower bound.
//! Around it stand Hodgson's algorithm for the number of late jobs
//! ([`single_machine::num_tardy`]), Johnson's and Dannenbring's orders for
//! flow shops ([`flow_shop`]) and the serial schedule heuristic for
//! unrelated machines with precedence constraints ([`unrelated_machines`]).
//!
//! Every function states what it returns as a mathematical function of its
//! arguments. What the algorithms guarantee beyond that is proved in
//! [`single_machine::laws`], [`single_machine::optimality`],
//! [`single_machine::lower_bound`], [`single_machine::shift`],
//! [`single_machine::tardy_bound`], [`flow_shop_bound`] and
//! [`serial_validity`].

use vstd::prelude::*;

pub mod flow_shop;
pub mod flow_shop_bound;
pub mod jobs;
pub mod schedule;
pub mod selection;
pub mod serial_progress;
pub mod serial_validity;
pub mod single_machine;
pub mod unrelated_machines;

pub use schedule::JobRun;
pub use schedule::MachineSchedule;
pub use schedule::MultiMachineSchedule;

verus! {

/// A point in time or a duration, in integer time units. Negative values are
/// meaningful: a due time may lie before time zero.
pub type Time = isize;

/// A job, identified by its index into the per-job arrays.
pub type Job = usize;

/// A machine, identified by its index.
pub type Machine = usize;

} // verus!
