//! What holds of every substate of a run: it carries the marks of its place,
//! and it is a proper mapping.

use vstd::prelude::*;
use crate::callable::{History, PolicyFn, UpdateFn};
use crate::error::FailureModel;
use crate::model::PartialUpdateBlock;
use crate::run::{
    initial_entry, lemma_marks_differ, run_key, unswept, simulation_key, stamped, steps_from,
    subset_key, substeps_from, timestep_key, trajectory, Setting,
};
use crate::substep::{substep_key, substep_state, variable_step, variables_from};
use crate::sweep::{candidate, parameter_set, ParamSpace};
use crate::value::{
    distinct_keys, has_key, lemma_set_keeps_distinct, lemma_set_keeps_others,
    lemma_set_then_lookup, lookup, record_set, Datum, Record,
};
use crate::isolation::{lemma_substeps_len, lemma_variable_step_spares_the_rest};

verus! {

/// Whether `state` holds the integer `value` under `key`.
pub open spec fn holds(state: Record, key: Seq<char>, value: int) -> bool {
    has_key(state, key) && lookup(state, key) == Datum::Int(value)
}

/// Whether `state` carries the marks of this place in this run.
pub open spec fn carries(
    state: Record,
    simulation: int,
    subset: int,
    run: int,
    timestep: int,
    substep: int,
) -> bool {
    &&& holds(state, simulation_key(), simulation)
    &&& holds(state, subset_key(), subset)
    &&& holds(state, run_key(), run + 1)
    &&& holds(state, timestep_key(), timestep)
    &&& holds(state, substep_key(), substep)
}

/// Whether `key` is one of the five names that the engine marks substates with.
pub open spec fn is_mark(key: Seq<char>) -> bool {
    ||| key == simulation_key()
    ||| key == subset_key()
    ||| key == run_key()
    ||| key == timestep_key()
    ||| key == substep_key()
}

/// Whether no variable of any block is one of the marks.
pub open spec fn marks_are_kept<P, U>(blocks: Seq<PartialUpdateBlock<P, U>>) -> bool {
    forall|b: int, j: int|
        0 <= b < blocks.len() && 0 <= j < blocks[b].variables@.len() ==> !is_mark(
            (#[trigger] blocks[b].variables@[j]).0@,
        )
}

proof fn lemma_set_holds(r: Record, key: Seq<char>, value: int)
    ensures
        holds(record_set(r, key, Datum::Int(value)), key, value),
{
    lemma_set_then_lookup(r, key, Datum::Int(value));
}

proof fn lemma_set_keeps_holding(
    r: Record,
    key: Seq<char>,
    value: Datum,
    other: Seq<char>,
    held: int,
)
    requires
        other != key,
        holds(r, other, held),
    ensures
        holds(record_set(r, key, value), other, held),
{
    lemma_set_keeps_others(r, key, value, other);
}

proof fn lemma_initial_carries(initial_state: Record, simulation: int, subset: int, run: int)
    ensures
        carries(
            initial_entry(initial_state, simulation, subset, run),
            simulation,
            subset,
            run,
            0,
            0,
        ),
{
    lemma_marks_differ();
    let a = record_set(initial_state, simulation_key(), Datum::Int(simulation));
    let b = record_set(a, subset_key(), Datum::Int(subset));
    let c = record_set(b, run_key(), Datum::Int(run + 1));
    let d = record_set(c, substep_key(), Datum::Int(0));
    lemma_set_holds(initial_state, simulation_key(), simulation);
    lemma_set_holds(a, subset_key(), subset);
    lemma_set_keeps_holding(a, subset_key(), Datum::Int(subset), simulation_key(), simulation);
    lemma_set_holds(b, run_key(), run + 1);
    lemma_set_keeps_holding(b, run_key(), Datum::Int(run + 1), simulation_key(), simulation);
    lemma_set_keeps_holding(b, run_key(), Datum::Int(run + 1), subset_key(), subset);
    lemma_set_holds(c, substep_key(), 0);
    lemma_set_keeps_holding(c, substep_key(), Datum::Int(0), simulation_key(), simulation);
    lemma_set_keeps_holding(c, substep_key(), Datum::Int(0), subset_key(), subset);
    lemma_set_keeps_holding(c, substep_key(), Datum::Int(0), run_key(), run + 1);
    lemma_set_holds(d, timestep_key(), 0);
    lemma_set_keeps_holding(d, timestep_key(), Datum::Int(0), simulation_key(), simulation);
    lemma_set_keeps_holding(d, timestep_key(), Datum::Int(0), subset_key(), subset);
    lemma_set_keeps_holding(d, timestep_key(), Datum::Int(0), run_key(), run + 1);
    lemma_set_keeps_holding(d, timestep_key(), Datum::Int(0), substep_key(), 0);
}

proof fn lemma_stamped_carries(
    state: Record,
    simulation: int,
    subset: int,
    run: int,
    timestep: int,
    substep: int,
)
    requires
        holds(state, substep_key(), substep),
    ensures
        carries(
            stamped(state, simulation, subset, run, timestep),
            simulation,
            subset,
            run,
            timestep,
            substep,
        ),
{
    lemma_marks_differ();
    let a = record_set(state, simulation_key(), Datum::Int(simulation));
    let b = record_set(a, subset_key(), Datum::Int(subset));
    let c = record_set(b, run_key(), Datum::Int(run + 1));
    lemma_set_holds(state, simulation_key(), simulation);
    lemma_set_keeps_holding(state, simulation_key(), Datum::Int(simulation), substep_key(), substep);
    lemma_set_holds(a, subset_key(), subset);
    lemma_set_keeps_holding(a, subset_key(), Datum::Int(subset), simulation_key(), simulation);
    lemma_set_keeps_holding(a, subset_key(), Datum::Int(subset), substep_key(), substep);
    lemma_set_holds(b, run_key(), run + 1);
    lemma_set_keeps_holding(b, run_key(), Datum::Int(run + 1), simulation_key(), simulation);
    lemma_set_keeps_holding(b, run_key(), Datum::Int(run + 1), subset_key(), subset);
    lemma_set_keeps_holding(b, run_key(), Datum::Int(run + 1), substep_key(), substep);
    lemma_set_holds(c, timestep_key(), timestep);
    lemma_set_keeps_holding(c, timestep_key(), Datum::Int(timestep), simulation_key(), simulation);
    lemma_set_keeps_holding(c, timestep_key(), Datum::Int(timestep), subset_key(), subset);
    lemma_set_keeps_holding(c, timestep_key(), Datum::Int(timestep), run_key(), run + 1);
    lemma_set_keeps_holding(c, timestep_key(), Datum::Int(timestep), substep_key(), substep);
}

proof fn lemma_variables_carry<P: PolicyFn, U: UpdateFn>(
    block: PartialUpdateBlock<P, U>,
    j: int,
    substep: int,
    schema: Record,
    params: Record,
    history: History,
    acc: Record,
    simulation: int,
    subset: int,
    run: int,
    timestep: int,
    mark: int,
)
    requires
        0 <= j,
        forall|i: int| 0 <= i < block.variables@.len() ==> !is_mark((#[trigger] block.variables@[i]).0@),
        carries(acc, simulation, subset, run, timestep, mark),
        variables_from(block, j, substep, schema, params, history, acc) is Ok,
    ensures
        carries(
            variables_from(block, j, substep, schema, params, history, acc)->Ok_0,
            simulation,
            subset,
            run,
            timestep,
            mark,
        ),
    decreases block.variables@.len() - j,
{
    if j < block.variables@.len() {
        let next = variable_step(block, j, substep, schema, params, history, acc)->Ok_0;
        assert(!is_mark(block.variables@[j].0@));
        lemma_variable_step_spares_the_rest(
            block,
            j,
            substep,
            schema,
            params,
            history,
            acc,
            simulation_key(),
        );
        lemma_variable_step_spares_the_rest(
            block,
            j,
            substep,
            schema,
            params,
            history,
            acc,
            subset_key(),
        );
        lemma_variable_step_spares_the_rest(
            block,
            j,
            substep,
            schema,
            params,
            history,
            acc,
            run_key(),
        );
        lemma_variable_step_spares_the_rest(
            block,
            j,
            substep,
            schema,
            params,
            history,
            acc,
            timestep_key(),
        );
        lemma_variable_step_spares_the_rest(
            block,
            j,
            substep,
            schema,
            params,
            history,
            acc,
            substep_key(),
        );
        lemma_variables_carry(
            block,
            j + 1,
            substep,
            schema,
            params,
            history,
            next,
            simulation,
            subset,
            run,
            timestep,
            mark,
        );
    }
}

proof fn lemma_substeps_carry<P: PolicyFn, U: UpdateFn>(
    s: Setting<P, U>,
    timestep: int,
    history: History,
    seed: Record,
    j: int,
    done: Seq<Record>,
    seeded: int,
)
    requires
        marks_are_kept(s.blocks),
        0 <= j,
        done.len() == j,
        carries(seed, s.simulation, s.subset, s.run, timestep, seeded),
        forall|i: int|
            0 <= i < done.len() ==> carries(
                #[trigger] done[i],
                s.simulation,
                s.subset,
                s.run,
                timestep,
                i + 1,
            ),
        substeps_from(s, timestep, history, seed, j, done) is Ok,
    ensures
        forall|i: int|
            0 <= i < substeps_from(s, timestep, history, seed, j, done)->Ok_0.len() ==> carries(
                #[trigger] substeps_from(s, timestep, history, seed, j, done)->Ok_0[i],
                s.simulation,
                s.subset,
                s.run,
                timestep,
                i + 1,
            ),
    decreases s.blocks.len() - j,
{
    if j < s.blocks.len() {
        lemma_marks_differ();
        let previous = if j == 0 {
            seed
        } else {
            done[j - 1]
        };
        let before = if j == 0 {
            seeded
        } else {
            j
        };
        assert(carries(previous, s.simulation, s.subset, s.run, timestep, before));
        let opened = record_set(previous, substep_key(), Datum::Int(j + 1));
        lemma_set_holds(previous, substep_key(), j + 1);
        lemma_set_keeps_holding(
            previous,
            substep_key(),
            Datum::Int(j + 1),
            simulation_key(),
            s.simulation,
        );
        lemma_set_keeps_holding(previous, substep_key(), Datum::Int(j + 1), subset_key(), s.subset);
        lemma_set_keeps_holding(previous, substep_key(), Datum::Int(j + 1), run_key(), s.run + 1);
        lemma_set_keeps_holding(
            previous,
            substep_key(),
            Datum::Int(j + 1),
            timestep_key(),
            timestep,
        );
        assert forall|i: int| 0 <= i < s.blocks[j].variables@.len() implies !is_mark(
            (#[trigger] s.blocks[j].variables@[i]).0@,
        ) by {}
        lemma_variables_carry(
            s.blocks[j],
            0,
            j,
            s.schema,
            s.params,
            history,
            opened,
            s.simulation,
            s.subset,
            s.run,
            timestep,
            j + 1,
        );
        let state = substep_state(s.blocks[j], j, s.schema, s.params, history, previous)->Ok_0;
        lemma_substeps_carry(s, timestep, history, seed, j + 1, done.push(state), seeded);
    }
}

/// Whether every substate of `history`, which holds the entries of the
/// timesteps 0 to `history.len() - 1`, carries the marks of its place.
pub open spec fn rightly_marked(history: History, simulation: int, subset: int, run: int) -> bool {
    &&& history.len() > 0 ==> history[0].len() == 1 && carries(
        history[0][0],
        simulation,
        subset,
        run,
        0,
        0,
    )
    &&& forall|t: int, j: int|
        1 <= t < history.len() && 0 <= j < history[t].len() ==> carries(
            #[trigger] history[t][j],
            simulation,
            subset,
            run,
            t,
            j + 1,
        )
}

proof fn lemma_steps_carry<P: PolicyFn, U: UpdateFn>(
    s: Setting<P, U>,
    timesteps: int,
    t: int,
    history: History,
)
    requires
        marks_are_kept(s.blocks),
        0 <= t,
        history.len() == t + 1,
        history.last().len() > 0,
        rightly_marked(history, s.simulation, s.subset, s.run),
        timesteps - t <= 1 || s.blocks.len() >= 1,
        steps_from(s, timesteps, t, history) is Ok,
    ensures
        rightly_marked(steps_from(s, timesteps, t, history)->Ok_0, s.simulation, s.subset, s.run),
    decreases timesteps - t,
{
    if t < timesteps {
        let last = history.last().last();
        let seeded = if t == 0 {
            0
        } else {
            history.last().len() as int
        };
        assert(carries(
            history[t][history[t].len() - 1],
            s.simulation,
            s.subset,
            s.run,
            t,
            seeded,
        ));
        lemma_stamped_carries(last, s.simulation, s.subset, s.run, t + 1, seeded);
        let seed = stamped(last, s.simulation, s.subset, s.run, t + 1);
        lemma_substeps_carry(s, t + 1, history, seed, 0, Seq::empty(), seeded);
        lemma_substeps_len(s, t + 1, history, seed, 0, Seq::empty());
        let entry = substeps_from(s, t + 1, history, seed, 0, Seq::empty())->Ok_0;
        let longer = history.push(entry);
        assert forall|u: int, j: int| 1 <= u < longer.len() && 0 <= j < longer[u].len() implies carries(
            #[trigger] longer[u][j],
            s.simulation,
            s.subset,
            s.run,
            u,
            j + 1,
        ) by {
            if u < history.len() {
                assert(longer[u] == history[u]);
            }
        }
        assert(longer[0] == history[0]);
        assert(rightly_marked(longer, s.simulation, s.subset, s.run));
        assert(steps_from(s, timesteps, t, history) == steps_from(s, timesteps, t + 1, longer));
        if t + 1 < timesteps {
            lemma_steps_carry(s, timesteps, t + 1, longer);
        } else {
            assert(steps_from(s, timesteps, t + 1, longer) == Ok::<History, FailureModel>(longer));
        }
    }
}

/// Every substate of a trajectory carries the marks of its place, so long as
/// no variable of the model is itself a mark: the initial state is at
/// timestep 0 and substep 0, and the substate that block `j` produces in
/// timestep `t` is at timestep `t` and substep `j + 1`; all carry the
/// indices of their simulation and subset, and their run counted from one.
pub proof fn lemma_substates_carry_their_marks<P: PolicyFn, U: UpdateFn>(
    simulation: int,
    timesteps: int,
    run: int,
    subset: int,
    initial_state: Record,
    blocks: Seq<PartialUpdateBlock<P, U>>,
    params: Record,
)
    requires
        marks_are_kept(blocks),
        timesteps <= 1 || blocks.len() >= 1,
        trajectory(simulation, timesteps, run, subset, initial_state, blocks, params) is Ok,
    ensures
        rightly_marked(
            trajectory(simulation, timesteps, run, subset, initial_state, blocks, params)->Ok_0,
            simulation,
            subset,
            run,
        ),
{
    let s = Setting { simulation, subset, run, schema: initial_state, blocks, params };
    let start = seq![seq![initial_entry(initial_state, simulation, subset, run)]];
    lemma_initial_carries(initial_state, simulation, subset, run);
    lemma_steps_carry(s, timesteps, 0, start);
}

/// Whether every substate of `history` is a proper mapping: none holds a name twice.
pub open spec fn all_distinct(history: History) -> bool {
    forall|t: int, j: int|
        0 <= t < history.len() && 0 <= j < history[t].len() ==> distinct_keys(
            #[trigger] history[t][j],
        )
}

/// A parameter set of a sweep holds no name twice, whatever the parameters.
pub proof fn lemma_parameter_set_is_distinct(p: ParamSpace, i: int)
    ensures
        distinct_keys(parameter_set(p, i)),
    decreases p.len(),
{
    if p.len() > 0 {
        lemma_parameter_set_is_distinct(p.drop_last(), i);
        lemma_set_keeps_distinct(
            parameter_set(p.drop_last(), i),
            p.last().0,
            candidate(p.last().1, i),
        );
    }
}

/// The parameters as one set hold no name twice.
pub proof fn lemma_unswept_is_distinct(p: ParamSpace)
    ensures
        distinct_keys(unswept(p)),
    decreases p.len(),
{
    if p.len() > 0 {
        lemma_unswept_is_distinct(p.drop_last());
        lemma_set_keeps_distinct(unswept(p.drop_last()), p.last().0, Datum::List(p.last().1));
    }
}

proof fn lemma_stamped_is_distinct(
    state: Record,
    simulation: int,
    subset: int,
    run: int,
    timestep: int,
)
    requires
        distinct_keys(state),
    ensures
        distinct_keys(stamped(state, simulation, subset, run, timestep)),
{
    let a = record_set(state, simulation_key(), Datum::Int(simulation));
    let b = record_set(a, subset_key(), Datum::Int(subset));
    let c = record_set(b, run_key(), Datum::Int(run + 1));
    lemma_set_keeps_distinct(state, simulation_key(), Datum::Int(simulation));
    lemma_set_keeps_distinct(a, subset_key(), Datum::Int(subset));
    lemma_set_keeps_distinct(b, run_key(), Datum::Int(run + 1));
    lemma_set_keeps_distinct(c, timestep_key(), Datum::Int(timestep));
}

proof fn lemma_initial_is_distinct(initial_state: Record, simulation: int, subset: int, run: int)
    requires
        distinct_keys(initial_state),
    ensures
        distinct_keys(initial_entry(initial_state, simulation, subset, run)),
{
    let a = record_set(initial_state, simulation_key(), Datum::Int(simulation));
    let b = record_set(a, subset_key(), Datum::Int(subset));
    let c = record_set(b, run_key(), Datum::Int(run + 1));
    let d = record_set(c, substep_key(), Datum::Int(0));
    lemma_set_keeps_distinct(initial_state, simulation_key(), Datum::Int(simulation));
    lemma_set_keeps_distinct(a, subset_key(), Datum::Int(subset));
    lemma_set_keeps_distinct(b, run_key(), Datum::Int(run + 1));
    lemma_set_keeps_distinct(c, substep_key(), Datum::Int(0));
    lemma_set_keeps_distinct(d, timestep_key(), Datum::Int(0));
}

proof fn lemma_variables_keep_distinct<P: PolicyFn, U: UpdateFn>(
    block: PartialUpdateBlock<P, U>,
    j: int,
    substep: int,
    schema: Record,
    params: Record,
    history: History,
    acc: Record,
)
    requires
        0 <= j,
        distinct_keys(acc),
        variables_from(block, j, substep, schema, params, history, acc) is Ok,
    ensures
        distinct_keys(variables_from(block, j, substep, schema, params, history, acc)->Ok_0),
    decreases block.variables@.len() - j,
{
    if j < block.variables@.len() {
        let next = variable_step(block, j, substep, schema, params, history, acc)->Ok_0;
        let value = choose|value| next == record_set(acc, block.variables@[j].0@, value);
        lemma_set_keeps_distinct(acc, block.variables@[j].0@, value);
        lemma_variables_keep_distinct(block, j + 1, substep, schema, params, history, next);
    }
}

proof fn lemma_substeps_keep_distinct<P: PolicyFn, U: UpdateFn>(
    s: Setting<P, U>,
    timestep: int,
    history: History,
    seed: Record,
    j: int,
    done: Seq<Record>,
)
    requires
        0 <= j,
        done.len() == j,
        distinct_keys(seed),
        forall|i: int| 0 <= i < done.len() ==> distinct_keys(#[trigger] done[i]),
        substeps_from(s, timestep, history, seed, j, done) is Ok,
    ensures
        forall|i: int|
            0 <= i < substeps_from(s, timestep, history, seed, j, done)->Ok_0.len()
                ==> distinct_keys(
                #[trigger] substeps_from(s, timestep, history, seed, j, done)->Ok_0[i],
            ),
    decreases s.blocks.len() - j,
{
    if j < s.blocks.len() {
        let previous = if j == 0 {
            seed
        } else {
            done[j - 1]
        };
        lemma_set_keeps_distinct(previous, substep_key(), Datum::Int(j + 1));
        lemma_variables_keep_distinct(
            s.blocks[j],
            0,
            j,
            s.schema,
            s.params,
            history,
            record_set(previous, substep_key(), Datum::Int(j + 1)),
        );
        let state = substep_state(s.blocks[j], j, s.schema, s.params, history, previous)->Ok_0;
        lemma_substeps_keep_distinct(s, timestep, history, seed, j + 1, done.push(state));
    }
}

proof fn lemma_steps_keep_distinct<P: PolicyFn, U: UpdateFn>(
    s: Setting<P, U>,
    timesteps: int,
    t: int,
    history: History,
)
    requires
        history.len() > 0,
        history.last().len() > 0,
        all_distinct(history),
        timesteps - t <= 1 || s.blocks.len() >= 1,
        steps_from(s, timesteps, t, history) is Ok,
    ensures
        all_distinct(steps_from(s, timesteps, t, history)->Ok_0),
    decreases timesteps - t,
{
    if t < timesteps {
        let last = history.last().last();
        assert(distinct_keys(history[history.len() - 1][history.last().len() - 1]));
        lemma_stamped_is_distinct(last, s.simulation, s.subset, s.run, t + 1);
        let seed = stamped(last, s.simulation, s.subset, s.run, t + 1);
        lemma_substeps_keep_distinct(s, t + 1, history, seed, 0, Seq::empty());
        lemma_substeps_len(s, t + 1, history, seed, 0, Seq::empty());
        let entry = substeps_from(s, t + 1, history, seed, 0, Seq::empty())->Ok_0;
        let longer = history.push(entry);
        assert forall|u: int, j: int|
            0 <= u < longer.len() && 0 <= j < longer[u].len() implies distinct_keys(
            #[trigger] longer[u][j],
        ) by {
            if u < history.len() {
                assert(longer[u] == history[u]);
            }
        }
        assert(steps_from(s, timesteps, t, history) == steps_from(s, timesteps, t + 1, longer));
        if t + 1 < timesteps {
            lemma_steps_keep_distinct(s, timesteps, t + 1, longer);
        } else {
            assert(steps_from(s, timesteps, t + 1, longer) == Ok::<History, FailureModel>(longer));
        }
    }
}

/// Every substate of a trajectory is a proper mapping, where the initial
/// state is one: a run never makes a substate hold a name twice.
pub proof fn lemma_substates_are_mappings<P: PolicyFn, U: UpdateFn>(
    simulation: int,
    timesteps: int,
    run: int,
    subset: int,
    initial_state: Record,
    blocks: Seq<PartialUpdateBlock<P, U>>,
    params: Record,
)
    requires
        distinct_keys(initial_state),
        timesteps <= 1 || blocks.len() >= 1,
        trajectory(simulation, timesteps, run, subset, initial_state, blocks, params) is Ok,
    ensures
        all_distinct(
            trajectory(simulation, timesteps, run, subset, initial_state, blocks, params)->Ok_0,
        ),
{
    let s = Setting { simulation, subset, run, schema: initial_state, blocks, params };
    let start = seq![seq![initial_entry(initial_state, simulation, subset, run)]];
    lemma_initial_is_distinct(initial_state, simulation, subset, run);
    lemma_steps_keep_distinct(s, timesteps, 0, start);
}

} // verus!
