//! Single-machine scheduling with release times under the maximum-lateness
//! objective, where jobs may be interrupted.

pub mod preemptive;
