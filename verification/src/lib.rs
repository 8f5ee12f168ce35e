//! A discrete-time simulation engine.
//!
//! A model has an initial state, an ordered pipeline of partial state update
//! blocks and a set of swept parameters. A run evolves the state through
//! timesteps; within a timestep every block is one substep: its policies
//! produce signals, the signals are merged, and the update functions of its
//! variables turn them into new values. The engine records every substate
//! and returns them as the trajectory of the run.
//!
//! - [`value`]: the values that states, parameters and signals are made of,
//!   and the insertion-ordered mappings that hold them. Numbers are integers.
//! - [`callable`]: policies and state updates, supplied by the user.
//! - [`model`]: blocks, models and simulations.
//! - [`sweep`]: expansion of swept parameters into parameter sets.
//! - [`signals`]: the signal reducer.
//! - [`substep`]: the substep executor.
//! - [`run`]: the run executor and the orchestrator of a batch.
//! - [`error`]: the ways in which a run can fail.
//! - [`isolation`], [`independence`], [`invariants`]: what is proved of every run.
//!
//! Contracts speak of the mathematical content of the data: a [`value::Value`]
//! is viewed as a [`value::Datum`], a [`value::Mapping`] as the sequence of its
//! entries. What a run produces is stated exactly for user functions that are
//! functions of the contents handed to them (see [`callable::PolicyFn`]).

pub mod callable;
pub mod error;
pub mod independence;
pub mod invariants;
pub mod isolation;
pub mod model;
pub mod run;
pub mod signals;
pub mod substep;
pub mod sweep;
pub mod value;
