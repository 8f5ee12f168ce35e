//! Isolation: processing one variable leaves the others alone, and history
//! that was appended is never changed by what follows.

use vstd::prelude::*;
use crate::callable::{History, PolicyFn, UpdateFn};
use crate::error::FailureModel;
use crate::model::PartialUpdateBlock;
use crate::run::{initial_entry, stamped, steps_from, substeps_from, trajectory, Setting};
use crate::substep::{substep_state, variable_step};
use crate::value::{has_key, lemma_set_keeps_others, lookup, position, record_set, Record};

verus! {

/// Processing one variable of a block leaves every other name of the substate
/// as it was: whether it is held, where, and with which value. So what one
/// update function sees of its siblings' variables is what stood there before
/// it, and nothing that a sibling did to the copy it was handed.
pub proof fn lemma_variable_step_spares_the_rest<P: PolicyFn, U: UpdateFn>(
    block: PartialUpdateBlock<P, U>,
    j: int,
    substep: int,
    schema: Record,
    params: Record,
    history: History,
    acc: Record,
    other: Seq<char>,
)
    requires
        variable_step(block, j, substep, schema, params, history, acc) is Ok,
        other != block.variables@[j].0@,
    ensures
        ({
            let next = variable_step(block, j, substep, schema, params, history, acc)->Ok_0;
            &&& has_key(next, other) == has_key(acc, other)
            &&& has_key(acc, other) ==> position(next, other) == position(acc, other)
            &&& has_key(acc, other) ==> lookup(next, other) == lookup(acc, other)
        }),
{
    let next = variable_step(block, j, substep, schema, params, history, acc)->Ok_0;
    let name = block.variables@[j].0@;
    let value = choose|value| next == record_set(acc, name, value);
    lemma_set_keeps_others(acc, name, value, other);
}

/// A timestep adds one substate per block, or fails.
pub proof fn lemma_substeps_len<P: PolicyFn, U: UpdateFn>(
    s: Setting<P, U>,
    timestep: int,
    history: History,
    seed: Record,
    j: int,
    done: Seq<Record>,
)
    requires
        0 <= j <= s.blocks.len(),
        done.len() == j,
        substeps_from(s, timestep, history, seed, j, done) is Ok,
    ensures
        substeps_from(s, timestep, history, seed, j, done)->Ok_0.len() == s.blocks.len(),
    decreases s.blocks.len() - j,
{
    if j < s.blocks.len() {
        let previous = if j == 0 {
            seed
        } else {
            done[j - 1]
        };
        let state = substep_state(
            s.blocks[j],
            j,
            s.schema,
            s.params,
            history,
            previous,
        )->Ok_0;
        lemma_substeps_len(s, timestep, history, seed, j + 1, done.push(state));
    }
}

/// History only grows: running further timesteps appends entries and leaves
/// every entry that is there as it is.
pub proof fn lemma_history_is_kept<P: PolicyFn, U: UpdateFn>(
    s: Setting<P, U>,
    timesteps: int,
    t: int,
    history: History,
)
    requires
        steps_from(s, timesteps, t, history) is Ok,
    ensures
        ({
            let out = steps_from(s, timesteps, t, history)->Ok_0;
            &&& out.len() == history.len() + if t < timesteps {
                timesteps - t
            } else {
                0
            }
            &&& forall|i: int| 0 <= i < history.len() ==> out[i] == history[i]
            &&& forall|i: int| history.len() <= i < out.len() ==> (#[trigger] out[i]).len() == s.blocks.len()
        }),
    decreases timesteps - t,
{
    if t < timesteps {
        let seed = stamped(
            history.last().last(),
            s.simulation,
            s.subset,
            s.run,
            t + 1,
        );
        let entry = substeps_from(s, t + 1, history, seed, 0, Seq::empty())->Ok_0;
        lemma_substeps_len(s, t + 1, history, seed, 0, Seq::empty());
        lemma_history_is_kept(s, timesteps, t + 1, history.push(entry));
        let out = steps_from(s, timesteps, t, history)->Ok_0;
        assert forall|i: int| 0 <= i < history.len() implies out[i] == history[i] by {
            assert(history.push(entry)[i] == history[i]);
        }
        assert forall|i: int| history.len() <= i < out.len() implies (#[trigger] out[i]).len()
            == s.blocks.len() by {
            if i == history.len() {
                assert(history.push(entry)[i] == entry);
            }
        }
    }
}

/// The shape of a trajectory: one entry per timestep after the initial one,
/// which holds the marked initial state alone; every later entry holds one
/// substate per block.
pub proof fn lemma_trajectory_shape<P: PolicyFn, U: UpdateFn>(
    simulation: int,
    timesteps: int,
    run: int,
    subset: int,
    initial_state: Record,
    blocks: Seq<PartialUpdateBlock<P, U>>,
    params: Record,
)
    requires
        timesteps >= 0,
        trajectory(simulation, timesteps, run, subset, initial_state, blocks, params) is Ok,
    ensures
        ({
            let h = trajectory(
                simulation,
                timesteps,
                run,
                subset,
                initial_state,
                blocks,
                params,
            )->Ok_0;
            &&& h.len() == timesteps + 1
            &&& h[0] == seq![initial_entry(initial_state, simulation, subset, run)]
            &&& forall|t: int| 1 <= t <= timesteps ==> (#[trigger] h[t]).len() == blocks.len()
        }),
{
    let s = Setting { simulation, subset, run, schema: initial_state, blocks, params };
    let start = seq![seq![initial_entry(initial_state, simulation, subset, run)]];
    lemma_history_is_kept(s, timesteps, 0, start);
}

/// A longer run begins as the shorter one does: the trajectory of the first
/// `shorter` timesteps is the beginning of the trajectory of `longer`
/// timesteps. What was appended is never changed by what follows.
pub proof fn lemma_trajectory_prefix<P: PolicyFn, U: UpdateFn>(
    simulation: int,
    shorter: int,
    longer: int,
    run: int,
    subset: int,
    initial_state: Record,
    blocks: Seq<PartialUpdateBlock<P, U>>,
    params: Record,
)
    requires
        0 <= shorter <= longer,
        trajectory(simulation, longer, run, subset, initial_state, blocks, params) is Ok,
    ensures
        trajectory(simulation, shorter, run, subset, initial_state, blocks, params) == Ok::<
            History,
            FailureModel,
        >(
            trajectory(
                simulation,
                longer,
                run,
                subset,
                initial_state,
                blocks,
                params,
            )->Ok_0.take(shorter + 1),
        ),
{
    let s = Setting { simulation, subset, run, schema: initial_state, blocks, params };
    let start = seq![seq![initial_entry(initial_state, simulation, subset, run)]];
    lemma_steps_prefix(s, shorter, longer, 0, start);
}

proof fn lemma_steps_prefix<P: PolicyFn, U: UpdateFn>(
    s: Setting<P, U>,
    shorter: int,
    longer: int,
    t: int,
    history: History,
)
    requires
        0 <= t <= shorter <= longer,
        steps_from(s, longer, t, history) is Ok,
    ensures
        steps_from(s, shorter, t, history) == Ok::<History, FailureModel>(
            steps_from(s, longer, t, history)->Ok_0.take(history.len() + shorter - t),
        ),
    decreases shorter - t,
{
    let out = steps_from(s, longer, t, history)->Ok_0;
    lemma_history_is_kept(s, longer, t, history);
    if t < shorter {
        let seed = stamped(
            history.last().last(),
            s.simulation,
            s.subset,
            s.run,
            t + 1,
        );
        let entry = substeps_from(s, t + 1, history, seed, 0, Seq::empty())->Ok_0;
        lemma_steps_prefix(s, shorter, longer, t + 1, history.push(entry));
    } else {
        assert(out.take(history.len() as int) =~= history);
    }
}

} // verus!
