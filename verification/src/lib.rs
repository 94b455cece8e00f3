//! A state that can be changed at any point of a timeline and read as of any
//! other.
//!
//! A [`TimeMachine`] owns a state and records changes to it as reversible
//! deltas, each with a timestamp. Asked for the state as of some timestamp, it
//! applies or undoes just the changes that lie between where it stands and
//! where it is asked to go. What a machine stands for is a [`history::History`];
//! every operation is specified as a function of it, and [`laws`] holds what
//! follows for all histories.

pub mod history;
pub mod laws;
pub mod machine;
pub mod order;
pub mod sequences;
pub mod state;

pub use machine::{Error, Result, TimeMachine};
pub use state::TimeMachineState;
