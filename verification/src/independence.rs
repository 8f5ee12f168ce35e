//! Independence: what a run produces does not depend on the runs around it,
//! and two runs of a model that ignores the run mark differ in that mark alone.

use vstd::prelude::*;
use crate::callable::{History, PolicyFn, UpdateFn};
use crate::error::FailureModel;
use crate::model::{PartialUpdateBlock, Simulation};
use crate::run::{
    initial_entry, lemma_marks_differ, parameter_sets, run_key, runs_from, simulation_key,
    simulations_from, stamped, steps_from, subset_key, subsets_from, substeps_from, timestep_key,
    trajectory, Setting,
};
use crate::signals::{policy_outcomes, reduced};
use crate::substep::{substep_key, substep_state, update_of, variable_step, variables_from};
use crate::value::{
    has_key, lemma_set_keeps_others, lemma_set_then_lookup, lemma_set_twice, lemma_sets_commute,
    record_set, Datum, Record,
};
use crate::isolation::lemma_substeps_len;

verus! {

/// What a run adds to a batch does not depend on what the batch holds already:
/// the substates gathered so far are a prefix that the run appends to.
pub proof fn lemma_subsets_append<P: PolicyFn, U: UpdateFn>(
    sim: Simulation<P, U>,
    s: int,
    r: int,
    sets: Seq<Record>,
    k: int,
    acc: Seq<Record>,
)
    ensures
        subsets_from(sim, s, r, sets, k, acc) == match subsets_from(
            sim,
            s,
            r,
            sets,
            k,
            Seq::empty(),
        ) {
            Ok(own) => Ok(acc + own),
            Err(f) => Err(f),
        },
    decreases sets.len() - k,
{
    if 0 <= k < sets.len() {
        match trajectory(
            s,
            sim.timesteps as int,
            r,
            k,
            sim.model.initial_state@,
            sim.model.blocks@,
            sets[k],
        ) {
            Err(f) => {},
            Ok(h) => {
                let flat = h.flatten();
                lemma_subsets_append(sim, s, r, sets, k + 1, acc + flat);
                lemma_subsets_append(sim, s, r, sets, k + 1, Seq::empty() + flat);
                match subsets_from(sim, s, r, sets, k + 1, Seq::empty()) {
                    Ok(rest) => {
                        assert((acc + flat) + rest =~= acc + ((Seq::empty() + flat) + rest));
                    },
                    Err(f) => {},
                }
            },
        }
    } else {
        assert(acc + Seq::<Record>::empty() =~= acc);
    }
}

/// The runs of a simulation do not depend on one another: the batch holds,
/// after what it held before, what each run from `r` on produces by itself,
/// in order. A run produces the same whether it comes first or last.
pub proof fn lemma_runs_append<P: PolicyFn, U: UpdateFn>(
    sim: Simulation<P, U>,
    s: int,
    sets: Seq<Record>,
    r: int,
    acc: Seq<Record>,
)
    ensures
        runs_from(sim, s, sets, r, acc) == (if 0 <= r < sim.runs {
            match (
                subsets_from(sim, s, r, sets, 0, Seq::empty()),
                runs_from(sim, s, sets, r + 1, Seq::empty()),
            ) {
                (Ok(own), Ok(rest)) => Ok(acc + own + rest),
                (Ok(own), Err(f)) => Err(f),
                (Err(f), _) => Err(f),
            }
        } else {
            Ok(acc)
        }),
    decreases sim.runs - r,
{
    if 0 <= r < sim.runs {
        lemma_subsets_append(sim, s, r, sets, 0, acc);
        match subsets_from(sim, s, r, sets, 0, Seq::empty()) {
            Err(f) => {},
            Ok(own) => {
                lemma_runs_append(sim, s, sets, r + 1, acc + own);
                lemma_runs_append(sim, s, sets, r + 1, Seq::empty());
                if 0 <= r + 1 < sim.runs {
                    match (
                        subsets_from(sim, s, r + 1, sets, 0, Seq::empty()),
                        runs_from(sim, s, sets, r + 2, Seq::empty()),
                    ) {
                        (Ok(a), Ok(b)) => {
                            assert(acc + own + a + b =~= acc + own + (Seq::empty() + a + b));
                        },
                        _ => {},
                    }
                } else {
                    assert(acc + own + Seq::<Record>::empty() =~= acc + own);
                }
            },
        }
    }
}

/// The simulations of a batch do not depend on one another either.
pub proof fn lemma_simulations_append<P: PolicyFn, U: UpdateFn>(
    sims: Seq<Simulation<P, U>>,
    s: int,
    acc: Seq<Record>,
)
    ensures
        simulations_from(sims, s, acc) == match simulations_from(sims, s, Seq::empty()) {
            Ok(own) => Ok(acc + own),
            Err(f) => Err(f),
        },
    decreases sims.len() - s,
{
    if 0 <= s < sims.len() {
        let sets = parameter_sets(sims[s].model.params.deep_view());
        lemma_runs_whole(sims[s], s, sets, 0, acc);
        lemma_runs_whole(sims[s], s, sets, 0, Seq::empty());
        match runs_from(sims[s], s, sets, 0, Seq::empty()) {
            Err(f) => {},
            Ok(own) => {
                lemma_simulations_append(sims, s + 1, acc + own);
                lemma_simulations_append(sims, s + 1, Seq::empty() + own);
                match simulations_from(sims, s + 1, Seq::empty()) {
                    Ok(rest) => {
                        assert((acc + own) + rest =~= acc + ((Seq::empty() + own) + rest));
                    },
                    Err(f) => {},
                }
            },
        }
    } else {
        assert(acc + Seq::<Record>::empty() =~= acc);
    }
}

proof fn lemma_runs_whole<P: PolicyFn, U: UpdateFn>(
    sim: Simulation<P, U>,
    s: int,
    sets: Seq<Record>,
    r: int,
    acc: Seq<Record>,
)
    ensures
        runs_from(sim, s, sets, r, acc) == match runs_from(sim, s, sets, r, Seq::empty()) {
            Ok(own) => Ok(acc + own),
            Err(f) => Err(f),
        },
{
    lemma_runs_append(sim, s, sets, r, acc);
    lemma_runs_append(sim, s, sets, r, Seq::empty());
    if 0 <= r < sim.runs {
        match (
            subsets_from(sim, s, r, sets, 0, Seq::empty()),
            runs_from(sim, s, sets, r + 1, Seq::empty()),
        ) {
            (Ok(a), Ok(b)) => {
                assert(acc + a + b =~= acc + (Seq::empty() + a + b));
            },
            _ => {},
        }
    } else {
        assert(acc + Seq::<Record>::empty() =~= acc);
    }
}

/// `state` with its run mark changed to that of `run`.
pub open spec fn remarked(state: Record, run: int) -> Record {
    record_set(state, run_key(), Datum::Int(run + 1))
}

/// The substates of `entry`, each with its run mark changed to that of `run`.
pub open spec fn remarked_entry(entry: Seq<Record>, run: int) -> Seq<Record> {
    Seq::new(entry.len(), |j: int| remarked(entry[j], run))
}

/// `history` with the run mark of every substate changed to that of `run`.
pub open spec fn remarked_history(history: History, run: int) -> History {
    Seq::new(history.len(), |t: int| remarked_entry(history[t], run))
}

/// Whether every substate of `history` holds a run mark.
pub open spec fn marked(history: History) -> bool {
    forall|t: int, j: int|
        0 <= t < history.len() && 0 <= j < history[t].len() ==> has_key(
            #[trigger] history[t][j],
            run_key(),
        )
}

/// `f` as it would be reported by `run`.
pub open spec fn in_run(f: FailureModel, run: int) -> FailureModel {
    FailureModel { run, ..f }
}

/// Whether a policy returns on these contents what it returns on the same
/// contents marked as of `run`.
pub open spec fn policy_unmoved<P: PolicyFn>(
    policy: P,
    run: int,
    params: Record,
    substep: int,
    history: History,
    substate: Record,
) -> bool {
    policy.outcome(params, substep, remarked_history(history, run), remarked(substate, run))
        == policy.outcome(params, substep, history, substate)
}

/// Whether an update returns on these contents what it returns on the same
/// contents marked as of `run`.
pub open spec fn update_unmoved<U: UpdateFn>(
    update: U,
    run: int,
    params: Record,
    substep: int,
    history: History,
    substate: Record,
    signals: Record,
) -> bool {
    update.outcome(
        params,
        substep,
        remarked_history(history, run),
        remarked(substate, run),
        signals,
    ) == update.outcome(params, substep, history, substate, signals)
}

/// Whether nothing in a block depends on the run mark: no function returns
/// anything else when the substate and the history handed to it are marked
/// as of `run` instead, and no variable is the run mark itself.
pub open spec fn block_ignores_run<P: PolicyFn, U: UpdateFn>(
    block: PartialUpdateBlock<P, U>,
    run: int,
) -> bool {
    &&& forall|j: int|
        0 <= j < block.variables@.len() ==> (#[trigger] block.variables@[j]).0@ != run_key()
    &&& forall|i: int, params: Record, substep: int, history: History, substate: Record|
        0 <= i < block.policies@.len() ==> #[trigger] policy_unmoved(
            block.policies@[i].1,
            run,
            params,
            substep,
            history,
            substate,
        )
    &&& forall|
        j: int,
        params: Record,
        substep: int,
        history: History,
        substate: Record,
        signals: Record,
    |
        0 <= j < block.variables@.len() ==> #[trigger] update_unmoved(
            block.variables@[j].1,
            run,
            params,
            substep,
            history,
            substate,
            signals,
        )
}

/// Whether nothing in a model's blocks depends on the run mark.
pub open spec fn run_blind<P: PolicyFn, U: UpdateFn>(
    blocks: Seq<PartialUpdateBlock<P, U>>,
    run: int,
) -> bool {
    forall|b: int| 0 <= b < blocks.len() ==> block_ignores_run(#[trigger] blocks[b], run)
}

/// Changing the run mark and setting another name can change places in a
/// substate that holds a run mark.
proof fn lemma_remark_set(x: Record, run: int, key: Seq<char>, value: Datum)
    requires
        has_key(x, run_key()),
        key != run_key(),
    ensures
        remarked(record_set(x, key, value), run) == record_set(remarked(x, run), key, value),
        has_key(record_set(x, key, value), run_key()),
{
    lemma_sets_commute(x, key, value, run_key(), Datum::Int(run + 1));
    lemma_set_keeps_others(x, key, value, run_key());
}

proof fn lemma_initial_entries(
    initial_state: Record,
    simulation: int,
    subset: int,
    r1: int,
    r2: int,
)
    ensures
        initial_entry(initial_state, simulation, subset, r2) == remarked(
            initial_entry(initial_state, simulation, subset, r1),
            r2,
        ),
        has_key(initial_entry(initial_state, simulation, subset, r1), run_key()),
{
    lemma_marks_differ();
    let a = record_set(
        record_set(initial_state, simulation_key(), Datum::Int(simulation)),
        subset_key(),
        Datum::Int(subset),
    );
    let b1 = record_set(a, run_key(), Datum::Int(r1 + 1));
    let c1 = record_set(b1, substep_key(), Datum::Int(0));
    lemma_set_then_lookup(a, run_key(), Datum::Int(r1 + 1));
    lemma_set_twice(a, run_key(), Datum::Int(r1 + 1), Datum::Int(r2 + 1));
    lemma_remark_set(b1, r2, substep_key(), Datum::Int(0));
    lemma_remark_set(c1, r2, timestep_key(), Datum::Int(0));
}

proof fn lemma_stamped(state: Record, simulation: int, subset: int, r1: int, r2: int, t: int)
    requires
        has_key(state, run_key()),
    ensures
        stamped(remarked(state, r2), simulation, subset, r2, t) == remarked(
            stamped(state, simulation, subset, r1, t),
            r2,
        ),
        has_key(stamped(state, simulation, subset, r1, t), run_key()),
{
    lemma_marks_differ();
    let a = record_set(state, simulation_key(), Datum::Int(simulation));
    let b = record_set(a, subset_key(), Datum::Int(subset));
    let c1 = record_set(b, run_key(), Datum::Int(r1 + 1));
    lemma_remark_set(state, r2, simulation_key(), Datum::Int(simulation));
    lemma_remark_set(a, r2, subset_key(), Datum::Int(subset));
    // the left side: the run mark is set to the same value twice
    lemma_set_twice(b, run_key(), Datum::Int(r2 + 1), Datum::Int(r2 + 1));
    // the right side: the mark of the first run is overwritten
    lemma_set_then_lookup(b, run_key(), Datum::Int(r1 + 1));
    lemma_set_twice(b, run_key(), Datum::Int(r1 + 1), Datum::Int(r2 + 1));
    lemma_remark_set(c1, r2, timestep_key(), Datum::Int(t));
}

proof fn lemma_variable_step_blind<P: PolicyFn, U: UpdateFn>(
    block: PartialUpdateBlock<P, U>,
    j: int,
    substep: int,
    schema: Record,
    params: Record,
    history: History,
    acc: Record,
    run: int,
)
    requires
        block_ignores_run(block, run),
        0 <= j < block.variables@.len(),
        has_key(acc, run_key()),
    ensures
        variable_step(
            block,
            j,
            substep,
            schema,
            params,
            remarked_history(history, run),
            remarked(acc, run),
        ) == match variable_step(block, j, substep, schema, params, history, acc) {
            Ok(next) => Ok(remarked(next, run)),
            Err(e) => Err(e),
        },
        variable_step(block, j, substep, schema, params, history, acc) matches Ok(next)
            ==> has_key(next, run_key()),
{
    let name = block.variables@[j].0@;
    assert(block.variables@[j].0@ != run_key());
    let seen = policy_outcomes(block.policies@, params, substep, history, acc);
    let seen_marked = policy_outcomes(
        block.policies@,
        params,
        substep,
        remarked_history(history, run),
        remarked(acc, run),
    );
    assert forall|i: int| 0 <= i < seen.len() implies seen_marked[i] == seen[i] by {
        assert(policy_unmoved(block.policies@[i].1, run, params, substep, history, acc));
    }
    assert(seen_marked =~= seen);
    if has_key(schema, name) {
        match reduced(seen) {
            Err(e) => {},
            Ok(signals) => {
                assert(update_unmoved(
                    block.variables@[j].1,
                    run,
                    params,
                    substep,
                    history,
                    acc,
                    signals,
                ));
                match update_of(
                    schema,
                    name,
                    block.variables@[j].1.outcome(params, substep, history, acc, signals),
                ) {
                    Err(e) => {},
                    Ok(change) => {
                        lemma_remark_set(acc, run, change.0, change.1);
                    },
                }
            },
        }
    }
}

proof fn lemma_variables_blind<P: PolicyFn, U: UpdateFn>(
    block: PartialUpdateBlock<P, U>,
    j: int,
    substep: int,
    schema: Record,
    params: Record,
    history: History,
    acc: Record,
    run: int,
)
    requires
        block_ignores_run(block, run),
        0 <= j,
        has_key(acc, run_key()),
    ensures
        variables_from(
            block,
            j,
            substep,
            schema,
            params,
            remarked_history(history, run),
            remarked(acc, run),
        ) == match variables_from(block, j, substep, schema, params, history, acc) {
            Ok(last) => Ok(remarked(last, run)),
            Err(e) => Err(e),
        },
        variables_from(block, j, substep, schema, params, history, acc) matches Ok(last)
            ==> has_key(last, run_key()),
    decreases block.variables@.len() - j,
{
    if j < block.variables@.len() {
        lemma_variable_step_blind(block, j, substep, schema, params, history, acc, run);
        match variable_step(block, j, substep, schema, params, history, acc) {
            Err(e) => {},
            Ok(next) => {
                lemma_variables_blind(block, j + 1, substep, schema, params, history, next, run);
            },
        }
    }
}

proof fn lemma_substep_blind<P: PolicyFn, U: UpdateFn>(
    block: PartialUpdateBlock<P, U>,
    substep: int,
    schema: Record,
    params: Record,
    history: History,
    previous: Record,
    run: int,
)
    requires
        block_ignores_run(block, run),
        has_key(previous, run_key()),
    ensures
        substep_state(
            block,
            substep,
            schema,
            params,
            remarked_history(history, run),
            remarked(previous, run),
        ) == match substep_state(block, substep, schema, params, history, previous) {
            Ok(state) => Ok(remarked(state, run)),
            Err(e) => Err(e),
        },
        substep_state(block, substep, schema, params, history, previous) matches Ok(state)
            ==> has_key(state, run_key()),
{
    lemma_marks_differ();
    lemma_remark_set(previous, run, substep_key(), Datum::Int(substep + 1));
    lemma_variables_blind(
        block,
        0,
        substep,
        schema,
        params,
        history,
        record_set(previous, substep_key(), Datum::Int(substep + 1)),
        run,
    );
}

proof fn lemma_substeps_blind<P: PolicyFn, U: UpdateFn>(
    s: Setting<P, U>,
    timestep: int,
    history: History,
    seed: Record,
    j: int,
    done: Seq<Record>,
    run: int,
)
    requires
        run_blind(s.blocks, run),
        0 <= j,
        done.len() == j,
        has_key(seed, run_key()),
        forall|i: int| 0 <= i < done.len() ==> has_key(#[trigger] done[i], run_key()),
    ensures
        substeps_from(
            Setting { run, ..s },
            timestep,
            remarked_history(history, run),
            remarked(seed, run),
            j,
            remarked_entry(done, run),
        ) == match substeps_from(s, timestep, history, seed, j, done) {
            Ok(entry) => Ok(remarked_entry(entry, run)),
            Err(f) => Err(in_run(f, run)),
        },
        substeps_from(s, timestep, history, seed, j, done) matches Ok(entry) ==> forall|i: int|
            0 <= i < entry.len() ==> has_key(#[trigger] entry[i], run_key()),
    decreases s.blocks.len() - j,
{
    if j < s.blocks.len() {
        let previous = if j == 0 {
            seed
        } else {
            done[j - 1]
        };
        assert(block_ignores_run(s.blocks[j], run));
        lemma_substep_blind(s.blocks[j], j, s.schema, s.params, history, previous, run);
        match substep_state(s.blocks[j], j, s.schema, s.params, history, previous) {
            Err(e) => {},
            Ok(state) => {
                assert(remarked_entry(done, run).push(remarked(state, run)) =~= remarked_entry(
                    done.push(state),
                    run,
                ));
                lemma_substeps_blind(s, timestep, history, seed, j + 1, done.push(state), run);
            },
        }
    }
}

proof fn lemma_steps_blind<P: PolicyFn, U: UpdateFn>(
    s: Setting<P, U>,
    timesteps: int,
    t: int,
    history: History,
    run: int,
)
    requires
        run_blind(s.blocks, run),
        marked(history),
        history.len() > 0,
        history.last().len() > 0,
        timesteps - t <= 1 || s.blocks.len() >= 1,
    ensures
        steps_from(Setting { run, ..s }, timesteps, t, remarked_history(history, run))
            == match steps_from(s, timesteps, t, history) {
            Ok(h) => Ok(remarked_history(h, run)),
            Err(f) => Err(in_run(f, run)),
        },
    decreases timesteps - t,
{
    if t < timesteps {
        let last = history.last().last();
        assert(has_key(history[history.len() - 1][history.last().len() - 1], run_key()));
        assert(remarked_history(history, run).last().last() == remarked(last, run));
        lemma_stamped(last, s.simulation, s.subset, s.run, run, t + 1);
        let seed = stamped(last, s.simulation, s.subset, s.run, t + 1);
        assert(remarked_entry(Seq::empty(), run) =~= Seq::<Record>::empty());
        lemma_substeps_blind(s, t + 1, history, seed, 0, Seq::empty(), run);
        let s2 = Setting { run, ..s };
        let seed2 = stamped(
            remarked_history(history, run).last().last(),
            s2.simulation,
            s2.subset,
            s2.run,
            t + 1,
        );
        assert(seed2 == remarked(seed, run));
        match substeps_from(s, t + 1, history, seed, 0, Seq::empty()) {
            Err(f) => {
                assert(steps_from(s, timesteps, t, history) == Err::<History, FailureModel>(f));
                assert(substeps_from(
                    s2,
                    t + 1,
                    remarked_history(history, run),
                    seed2,
                    0,
                    Seq::empty(),
                ) == Err::<Seq<Record>, FailureModel>(in_run(f, run)));
            },
            Ok(entry) => {
                lemma_substeps_len(s, t + 1, history, seed, 0, Seq::empty());
                let longer = history.push(entry);
                assert(remarked_history(history, run).push(remarked_entry(entry, run))
                    =~= remarked_history(longer, run));
                assert forall|u: int, j: int|
                    0 <= u < longer.len() && 0 <= j < longer[u].len() implies has_key(
                    #[trigger] longer[u][j],
                    run_key(),
                ) by {
                    if u < history.len() {
                        assert(longer[u] == history[u]);
                    }
                }
                if t + 1 < timesteps {
                    lemma_steps_blind(s, timesteps, t + 1, longer, run);
                } else {
                    assert(steps_from(s, timesteps, t + 1, longer) == Ok::<History, FailureModel>(
                        longer,
                    ));
                    assert(steps_from(s2, timesteps, t + 1, remarked_history(longer, run))
                        == Ok::<History, FailureModel>(remarked_history(longer, run)));
                }
                assert(steps_from(s, timesteps, t, history) == steps_from(
                    s,
                    timesteps,
                    t + 1,
                    longer,
                ));
                assert(substeps_from(
                    s2,
                    t + 1,
                    remarked_history(history, run),
                    seed2,
                    0,
                    Seq::empty(),
                ) == Ok::<Seq<Record>, FailureModel>(remarked_entry(entry, run)));
                assert(steps_from(s2, timesteps, t, remarked_history(history, run))
                    == steps_from(s2, timesteps, t + 1, remarked_history(longer, run)));
            },
        }
    }
}

/// Two runs of one model differ in their run mark alone, where nothing in
/// the model depends on it: the trajectory of run `other` is that of run
/// `run` with every run mark changed, and if one run fails so does the
/// other, with the same error at the same place.
pub proof fn lemma_runs_differ_in_mark_only<P: PolicyFn, U: UpdateFn>(
    simulation: int,
    timesteps: int,
    run: int,
    other: int,
    subset: int,
    initial_state: Record,
    blocks: Seq<PartialUpdateBlock<P, U>>,
    params: Record,
)
    requires
        run_blind(blocks, other),
        timesteps <= 1 || blocks.len() >= 1,
    ensures
        trajectory(simulation, timesteps, other, subset, initial_state, blocks, params)
            == match trajectory(simulation, timesteps, run, subset, initial_state, blocks, params) {
            Ok(h) => Ok(remarked_history(h, other)),
            Err(f) => Err(in_run(f, other)),
        },
{
    let s = Setting { simulation, subset, run, schema: initial_state, blocks, params };
    let first = initial_entry(initial_state, simulation, subset, run);
    let start = seq![seq![first]];
    lemma_initial_entries(initial_state, simulation, subset, run, other);
    assert(remarked_history(start, other) =~= seq![
        seq![initial_entry(initial_state, simulation, subset, other)],
    ]) by {
        assert(remarked_entry(start[0], other) =~= seq![
            initial_entry(initial_state, simulation, subset, other),
        ]);
    }
    assert(marked(start));
    lemma_steps_blind(s, timesteps, 0, start, other);
}

} // verus!
