//! What a caller configures before a run: blocks, models and simulations.

use vstd::prelude::*;
use crate::value::{Mapping, Value};

verus! {

/// One stage of a timestep: the policies that produce signals and the
/// variables that it may change, each with its update function.
/// Both are applied in the order in which they stand.
#[derive(Debug, Clone)]
pub struct PartialUpdateBlock<P, U> {
    pub policies: Vec<(String, P)>,
    pub variables: Vec<(String, U)>,
}

/// A model: its initial state, its ordered blocks and its swept parameters.
#[derive(Debug, Clone)]
pub struct Model<P, U> {
    pub initial_state: Mapping,
    pub blocks: Vec<PartialUpdateBlock<P, U>>,
    pub params: Vec<(String, Vec<Value>)>,
}

impl<P, U> Model<P, U> {
    pub fn new(
        initial_state: Mapping,
        blocks: Vec<PartialUpdateBlock<P, U>>,
        params: Vec<(String, Vec<Value>)>,
    ) -> (out: Self)
        ensures
            out.initial_state == initial_state,
            out.blocks == blocks,
            out.params == params,
    {
        Model { initial_state, blocks, params }
    }
}

/// A model together with how long and how often to run it.
#[derive(Debug, Clone)]
pub struct Simulation<P, U> {
    pub model: Model<P, U>,
    pub timesteps: usize,
    pub runs: usize,
}

impl<P, U> Simulation<P, U> {
    pub fn new(timesteps: usize, runs: usize, model: Model<P, U>) -> (out: Self)
        ensures
            out.timesteps == timesteps,
            out.runs == runs,
            out.model == model,
    {
        Simulation { timesteps, runs, model }
    }
}

} // verus!
