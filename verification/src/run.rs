//! The run executor and the simulation orchestrator.

use vstd::prelude::*;
use crate::callable::{History, PolicyFn, UpdateFn};
use crate::error::{model_of, FailureModel, RunFailure};
use crate::model::{PartialUpdateBlock, Simulation};
use crate::substep::{execute_substep, pure_block, substep_key, substep_state};
use crate::sweep::{generate_parameter_sweep, sweep, sweep_len, sweepable, ParamSpace};
use crate::value::{clone_items, lemma_list_view, record_set, Datum, Mapping, Record, Value};

verus! {

/// The name under which a substate records the index of its simulation.
pub open spec fn simulation_key() -> Seq<char> {
    "simulation"@
}

/// The name under which a substate records the index of its parameter subset.
pub open spec fn subset_key() -> Seq<char> {
    "subset"@
}

/// The name under which a substate records its run, counted from one.
pub open spec fn run_key() -> Seq<char> {
    "run"@
}

/// The name under which a substate records its timestep.
pub open spec fn timestep_key() -> Seq<char> {
    "timestep"@
}

/// The five marks are five different names.
pub proof fn lemma_marks_differ()
    ensures
        simulation_key() != subset_key(),
        simulation_key() != run_key(),
        simulation_key() != substep_key(),
        simulation_key() != timestep_key(),
        subset_key() != run_key(),
        subset_key() != substep_key(),
        subset_key() != timestep_key(),
        run_key() != substep_key(),
        run_key() != timestep_key(),
        substep_key() != timestep_key(),
{
    reveal_strlit("simulation");
    reveal_strlit("subset");
    reveal_strlit("run");
    reveal_strlit("substep");
    reveal_strlit("timestep");
    assert(simulation_key().len() == 10);
    assert(subset_key().len() == 6);
    assert(run_key().len() == 3);
    assert(substep_key().len() == 7);
    assert(timestep_key().len() == 8);
}

/// The fixed inputs of one run.
pub struct Setting<P, U> {
    pub simulation: int,
    pub subset: int,
    pub run: int,
    pub schema: Record,
    pub blocks: Seq<PartialUpdateBlock<P, U>>,
    pub params: Record,
}

/// Whether every function of every block is a function of the contents handed to it.
pub open spec fn pure_blocks<P: PolicyFn, U: UpdateFn>(
    blocks: Seq<PartialUpdateBlock<P, U>>,
) -> bool {
    forall|b: int| 0 <= b < blocks.len() ==> pure_block(#[trigger] blocks[b])
}

/// `state` marked with the run it belongs to and with `timestep`.
pub open spec fn stamped(
    state: Record,
    simulation: int,
    subset: int,
    run: int,
    timestep: int,
) -> Record {
    record_set(
        record_set(
            record_set(
                record_set(state, simulation_key(), Datum::Int(simulation)),
                subset_key(),
                Datum::Int(subset),
            ),
            run_key(),
            Datum::Int(run + 1),
        ),
        timestep_key(),
        Datum::Int(timestep),
    )
}

/// The first substate of a run: the initial state marked with the run it
/// belongs to, at substep 0 of timestep 0.
pub open spec fn initial_entry(initial_state: Record, simulation: int, subset: int, run: int) -> Record {
    record_set(
        record_set(
            record_set(
                record_set(
                    record_set(initial_state, simulation_key(), Datum::Int(simulation)),
                    subset_key(),
                    Datum::Int(subset),
                ),
                run_key(),
                Datum::Int(run + 1),
            ),
            substep_key(),
            Datum::Int(0),
        ),
        timestep_key(),
        Datum::Int(0),
    )
}

/// The substates of one timestep, the blocks from place `j` on applied in
/// order after those that gave `done`: the first block works on the seed,
/// each later one on what the block before it produced.
pub open spec fn substeps_from<P: PolicyFn, U: UpdateFn>(
    s: Setting<P, U>,
    timestep: int,
    history: History,
    seed: Record,
    j: int,
    done: Seq<Record>,
) -> Result<Seq<Record>, FailureModel>
    decreases s.blocks.len() - j,
{
    if j < 0 || j >= s.blocks.len() {
        Ok(done)
    } else {
        let previous = if j == 0 {
            seed
        } else {
            done[j - 1]
        };
        match substep_state(s.blocks[j], j, s.schema, s.params, history, previous) {
            Err(error) => Err(
                FailureModel {
                    error,
                    simulation: s.simulation,
                    subset: s.subset,
                    run: s.run,
                    timestep,
                    substep: j,
                },
            ),
            Ok(state) => substeps_from(s, timestep, history, seed, j + 1, done.push(state)),
        }
    }
}

/// The history after the timesteps `t + 1` to `timesteps` are run on
/// `history`, which holds the entries of timesteps 0 to `t`. Each timestep is
/// seeded with the last substate of the entry before it, marked anew, and
/// appends one entry.
pub open spec fn steps_from<P: PolicyFn, U: UpdateFn>(
    s: Setting<P, U>,
    timesteps: int,
    t: int,
    history: History,
) -> Result<History, FailureModel>
    decreases timesteps - t,
{
    if t >= timesteps {
        Ok(history)
    } else {
        let seed = stamped(history.last().last(), s.simulation, s.subset, s.run, t + 1);
        match substeps_from(s, t + 1, history, seed, 0, Seq::empty()) {
            Err(f) => Err(f),
            Ok(entry) => steps_from(s, timesteps, t + 1, history.push(entry)),
        }
    }
}

/// The trajectory of one run, or the failure that aborts it.
pub open spec fn trajectory<P: PolicyFn, U: UpdateFn>(
    simulation: int,
    timesteps: int,
    run: int,
    subset: int,
    initial_state: Record,
    blocks: Seq<PartialUpdateBlock<P, U>>,
    params: Record,
) -> Result<History, FailureModel> {
    steps_from(
        Setting { simulation, subset, run, schema: initial_state, blocks, params },
        timesteps,
        0,
        seq![seq![initial_entry(initial_state, simulation, subset, run)]],
    )
}

/// Marks `state` with the run it belongs to and with `timestep`.
fn stamp(state: &mut Mapping, simulation: usize, subset: usize, run: usize, timestep: usize)
    ensures
        final(state)@ == stamped(
            old(state)@,
            simulation as int,
            subset as int,
            run as int,
            timestep as int,
        ),
{
    state.set("simulation".to_owned(), Value::Int(simulation as i128));
    state.set("subset".to_owned(), Value::Int(subset as i128));
    state.set("run".to_owned(), Value::Int(run as i128 + 1));
    state.set("timestep".to_owned(), Value::Int(timestep as i128));
}

/// The entry of one timestep: the blocks applied in order, starting from `seed`.
fn run_timestep<P: PolicyFn, U: UpdateFn>(
    simulation: usize,
    subset: usize,
    run: usize,
    timestep: usize,
    schema: &Mapping,
    blocks: &Vec<PartialUpdateBlock<P, U>>,
    params: &Mapping,
    history: &Vec<Vec<Mapping>>,
    seed: &Mapping,
) -> (out: Result<Vec<Mapping>, RunFailure>)
    ensures
        pure_blocks(blocks@) ==> model_of(out) == substeps_from(
            Setting {
                simulation: simulation as int,
                subset: subset as int,
                run: run as int,
                schema: schema@,
                blocks: blocks@,
                params: params@,
            },
            timestep as int,
            history.deep_view(),
            seed@,
            0,
            Seq::empty(),
        ),
        out is Ok ==> out->Ok_0.len() == blocks.len(),
{
    let ghost s = Setting {
        simulation: simulation as int,
        subset: subset as int,
        run: run as int,
        schema: schema@,
        blocks: blocks@,
        params: params@,
    };
    let mut substeps: Vec<Mapping> = Vec::new();
    let mut j: usize = 0;
    assert(substeps.deep_view() =~= Seq::empty());
    while j < blocks.len()
        invariant
            j <= blocks.len(),
            substeps.len() == j,
            s == (Setting {
                simulation: simulation as int,
                subset: subset as int,
                run: run as int,
                schema: schema@,
                blocks: blocks@,
                params: params@,
            }),
            pure_blocks(blocks@) ==> substeps_from(
                s,
                timestep as int,
                history.deep_view(),
                seed@,
                j as int,
                substeps.deep_view(),
            ) == substeps_from(s, timestep as int, history.deep_view(), seed@, 0, Seq::empty()),
        decreases blocks.len() - j,
    {
        let previous = if j == 0 {
            seed
        } else {
            &substeps[j - 1]
        };
        match execute_substep(&blocks[j], j, schema, params, history, previous) {
            Ok(state) => {
                let ghost before = substeps.deep_view();
                let ghost added = state@;
                substeps.push(state);
                assert(substeps.deep_view() =~= before.push(added));
            },
            Err(error) => {
                return Err(RunFailure { error, simulation, subset, run, timestep, substep: j });
            },
        }
        j += 1;
    }
    Ok(substeps)
}

/// Runs one unit of work: one run of one model under one parameter set.
///
/// The trajectory returned has one entry per timestep. Entry 0 holds the
/// initial state alone, marked with `simulation`, `subset`, `run + 1`,
/// substep 0 and timestep 0. Every later entry holds one substate per block.
/// The first error aborts the run: no part of the trajectory is returned.
///
/// With no block there is no substate to seed a second timestep from, so
/// more than one timestep asks for at least one block.
pub fn single_run<P: PolicyFn, U: UpdateFn>(
    simulation: usize,
    timesteps: usize,
    run: usize,
    subset: usize,
    initial_state: &Mapping,
    blocks: &Vec<PartialUpdateBlock<P, U>>,
    params: &Mapping,
) -> (out: Result<Vec<Vec<Mapping>>, RunFailure>)
    requires
        timesteps <= 1 || blocks.len() >= 1,
    ensures
        pure_blocks(blocks@) ==> model_of(out) == trajectory(
            simulation as int,
            timesteps as int,
            run as int,
            subset as int,
            initial_state@,
            blocks@,
            params@,
        ),
        out matches Ok(h) ==> {
            &&& h.len() == timesteps + 1
            &&& h.deep_view()[0] == seq![
                initial_entry(initial_state@, simulation as int, subset as int, run as int),
            ]
            &&& forall|t: int| 1 <= t <= timesteps ==> (#[trigger] h@[t]).len() == blocks.len()
        },
{
    let ghost s = Setting {
        simulation: simulation as int,
        subset: subset as int,
        run: run as int,
        schema: initial_state@,
        blocks: blocks@,
        params: params@,
    };
    let mut first = initial_state.clone();
    first.set("simulation".to_owned(), Value::Int(simulation as i128));
    first.set("subset".to_owned(), Value::Int(subset as i128));
    first.set("run".to_owned(), Value::Int(run as i128 + 1));
    first.set("substep".to_owned(), Value::Int(0));
    first.set("timestep".to_owned(), Value::Int(0));
    let mut opening: Vec<Mapping> = Vec::new();
    opening.push(first);
    let mut history: Vec<Vec<Mapping>> = Vec::new();
    history.push(opening);
    assert(history.deep_view() =~= seq![
        seq![initial_entry(initial_state@, simulation as int, subset as int, run as int)],
    ]) by {
        assert(history.deep_view()[0] =~= seq![
            initial_entry(initial_state@, simulation as int, subset as int, run as int),
        ]);
    }
    let mut t: usize = 0;
    while t < timesteps
        invariant
            t <= timesteps,
            timesteps <= 1 || blocks.len() >= 1,
            history.len() == t + 1,
            t < timesteps ==> history@[t as int].len() > 0,
            history.deep_view()[0] == seq![
                initial_entry(initial_state@, simulation as int, subset as int, run as int),
            ],
            forall|u: int| 1 <= u <= t ==> (#[trigger] history@[u]).len() == blocks.len(),
            s == (Setting {
                simulation: simulation as int,
                subset: subset as int,
                run: run as int,
                schema: initial_state@,
                blocks: blocks@,
                params: params@,
            }),
            pure_blocks(blocks@) ==> steps_from(s, timesteps as int, t as int, history.deep_view())
                == trajectory(
                simulation as int,
                timesteps as int,
                run as int,
                subset as int,
                initial_state@,
                blocks@,
                params@,
            ),
        decreases timesteps - t,
    {
        let last = &history[t];
        let mut seed = last[last.len() - 1].clone();
        assert(seed@ == history.deep_view().last().last());
        stamp(&mut seed, simulation, subset, run, t + 1);
        match run_timestep(
            simulation,
            subset,
            run,
            t + 1,
            initial_state,
            blocks,
            params,
            &history,
            &seed,
        ) {
            Ok(entry) => {
                let ghost before = history.deep_view();
                let ghost earlier = history@;
                let ghost added = entry.deep_view();
                history.push(entry);
                assert(history.deep_view() =~= before.push(added));
                assert forall|u: int| 1 <= u <= t + 1 implies (#[trigger] history@[u]).len()
                    == blocks.len() by {
                    if u <= t {
                        assert(history@[u] == earlier[u]);
                    }
                }
            },
            Err(f) => {
                return Err(f);
            },
        }
        t += 1;
    }
    Ok(history)
}

/// The parameters as one set, for a run without a sweep: every name set, in
/// order, to the list of its candidates.
pub open spec fn unswept(p: ParamSpace) -> Record
    decreases p.len(),
{
    if p.len() == 0 {
        Seq::empty()
    } else {
        record_set(unswept(p.drop_last()), p.last().0, Datum::List(p.last().1))
    }
}

/// The parameter sets that each run of a simulation is carried out under, in
/// the order of their subset index: the sweep where there is one, else the
/// parameters as they stand.
pub open spec fn parameter_sets(p: ParamSpace) -> Seq<Record> {
    if sweep_len(p) > 0 {
        sweep(p)
    } else {
        seq![unswept(p)]
    }
}

/// Whether a simulation can be run: its parameters can be swept, and it has a
/// block to seed a second timestep from if it has more than one timestep.
pub open spec fn runnable<P, U>(sim: Simulation<P, U>) -> bool {
    &&& sweepable(sim.model.params.deep_view())
    &&& (sim.timesteps <= 1 || sim.model.blocks.len() >= 1)
}

/// The substates of run `r` of simulation `s` under the parameter sets from
/// place `k` on, appended to `acc` in order.
pub open spec fn subsets_from<P: PolicyFn, U: UpdateFn>(
    sim: Simulation<P, U>,
    s: int,
    r: int,
    sets: Seq<Record>,
    k: int,
    acc: Seq<Record>,
) -> Result<Seq<Record>, FailureModel>
    decreases sets.len() - k,
{
    if k < 0 || k >= sets.len() {
        Ok(acc)
    } else {
        match trajectory(
            s,
            sim.timesteps as int,
            r,
            k,
            sim.model.initial_state@,
            sim.model.blocks@,
            sets[k],
        ) {
            Err(f) => Err(f),
            Ok(h) => subsets_from(sim, s, r, sets, k + 1, acc + h.flatten()),
        }
    }
}

/// The substates of the runs of simulation `s` from run `r` on, appended to
/// `acc` in order.
pub open spec fn runs_from<P: PolicyFn, U: UpdateFn>(
    sim: Simulation<P, U>,
    s: int,
    sets: Seq<Record>,
    r: int,
    acc: Seq<Record>,
) -> Result<Seq<Record>, FailureModel>
    decreases sim.runs - r,
{
    if r < 0 || r >= sim.runs {
        Ok(acc)
    } else {
        match subsets_from(sim, s, r, sets, 0, acc) {
            Err(f) => Err(f),
            Ok(next) => runs_from(sim, s, sets, r + 1, next),
        }
    }
}

/// The substates of the simulations from place `s` on, appended to `acc` in order.
pub open spec fn simulations_from<P: PolicyFn, U: UpdateFn>(
    sims: Seq<Simulation<P, U>>,
    s: int,
    acc: Seq<Record>,
) -> Result<Seq<Record>, FailureModel>
    decreases sims.len() - s,
{
    if s < 0 || s >= sims.len() {
        Ok(acc)
    } else {
        match runs_from(sims[s], s, parameter_sets(sims[s].model.params.deep_view()), 0, acc) {
            Err(f) => Err(f),
            Ok(next) => simulations_from(sims, s + 1, next),
        }
    }
}

/// Whether every function of every simulation is a function of the contents
/// handed to it.
pub open spec fn pure_batch<P: PolicyFn, U: UpdateFn>(sims: Seq<Simulation<P, U>>) -> bool {
    forall|s: int| 0 <= s < sims.len() ==> pure_blocks((#[trigger] sims[s]).model.blocks@)
}

/// What a batch of simulations produces: the substates of every trajectory,
/// simulation by simulation, run by run and subset by subset, or the first
/// failure met in that order.
pub open spec fn batch<P: PolicyFn, U: UpdateFn>(sims: Seq<Simulation<P, U>>) -> Result<
    Seq<Record>,
    FailureModel,
> {
    simulations_from(sims, 0, Seq::empty())
}

/// Appends the substates of a trajectory to `out`, in order.
pub fn extend_flat(out: &mut Vec<Mapping>, trajectory: Vec<Vec<Mapping>>)
    ensures
        final(out).deep_view() == old(out).deep_view() + trajectory.deep_view().flatten(),
{
    let ghost h = trajectory.deep_view();
    let ghost start = out.deep_view();
    let mut rest = trajectory;
    let mut i: usize = 0;
    assert(h.take(0) =~= Seq::<Seq<Record>>::empty());
    assert(out.deep_view() =~= start + h.take(0).flatten());
    while i < rest.len()
        invariant
            i <= rest.len(),
            rest.len() == h.len(),
            forall|j: int| i <= j < rest.len() ==> (#[trigger] rest@[j]).deep_view() == h[j],
            out.deep_view() == start + h.take(i as int).flatten(),
        decreases rest.len() - i,
    {
        let ghost before = out.deep_view();
        let ghost later = rest@;
        out.append(&mut rest[i]);
        proof {
            assert(out.deep_view() =~= before + h[i as int]);
            assert(h.take(i + 1) =~= h.take(i as int).push(h[i as int]));
            h.take(i as int).lemma_flatten_push(h[i as int]);
            assert forall|j: int| i + 1 <= j < rest.len() implies (#[trigger] rest@[j]).deep_view()
                == h[j] by {
                assert(rest@[j] == later[j]);
            }
        }
        i += 1;
    }
    assert(h.take(i as int) =~= h);
}

/// The parameters as one set, for a run without a sweep.
fn unswept_params(params: &Vec<(String, Vec<Value>)>) -> (out: Mapping)
    ensures
        out@ == unswept(params.deep_view()),
{
    let ghost p = params.deep_view();
    let mut set = Mapping::new();
    let mut k: usize = 0;
    while k < params.len()
        invariant
            k <= params.len(),
            p == params.deep_view(),
            set@ == unswept(p.take(k as int)),
        decreases params.len() - k,
    {
        let candidates = clone_items(&params[k].1);
        proof {
            assert(p.take(k + 1).drop_last() =~= p.take(k as int));
            assert(p.take(k + 1).last() == p[k as int]);
            assert(p[k as int].1 == candidates.deep_view());
            lemma_list_view(candidates);
        }
        set.set(params[k].0.clone(), Value::List(candidates));
        k += 1;
    }
    assert(p.take(k as int) =~= p);
    set
}

/// The parameter sets that each run of a simulation is carried out under.
fn parameter_sets_of(params: &Vec<(String, Vec<Value>)>) -> (out: Vec<Mapping>)
    requires
        sweepable(params.deep_view()),
    ensures
        out.deep_view() == parameter_sets(params.deep_view()),
{
    let mut sets = generate_parameter_sweep(params);
    if sets.len() == 0 {
        sets.push(unswept_params(params));
        assert(sets.deep_view() =~= seq![unswept(params.deep_view())]);
    }
    sets
}

/// Carries out run `r` of simulation `s` once under each parameter set and
/// appends the substates to `result`.
fn run_subsets<P: PolicyFn, U: UpdateFn>(
    sim: &Simulation<P, U>,
    s: usize,
    r: usize,
    sets: &Vec<Mapping>,
    result: &mut Vec<Mapping>,
) -> (out: Result<(), RunFailure>)
    requires
        sim.timesteps <= 1 || sim.model.blocks.len() >= 1,
    ensures
        pure_blocks(sim.model.blocks@) ==> match subsets_from(
            *sim,
            s as int,
            r as int,
            sets.deep_view(),
            0,
            old(result).deep_view(),
        ) {
            Ok(all) => out is Ok && final(result).deep_view() == all,
            Err(f) => out is Err && out->Err_0@ == f,
        },
{
    let ghost start = result.deep_view();
    let mut k: usize = 0;
    while k < sets.len()
        invariant
            k <= sets.len(),
            sim.timesteps <= 1 || sim.model.blocks.len() >= 1,
            start == old(result).deep_view(),
            pure_blocks(sim.model.blocks@) ==> subsets_from(
                *sim,
                s as int,
                r as int,
                sets.deep_view(),
                k as int,
                result.deep_view(),
            ) == subsets_from(*sim, s as int, r as int, sets.deep_view(), 0, start),
        decreases sets.len() - k,
    {
        assert(sets.deep_view()[k as int] == sets@[k as int]@);
        match single_run(
            s,
            sim.timesteps,
            r,
            k,
            &sim.model.initial_state,
            &sim.model.blocks,
            &sets[k],
        ) {
            Ok(trajectory) => {
                extend_flat(result, trajectory);
            },
            Err(f) => {
                return Err(f);
            },
        }
        k += 1;
    }
    Ok(())
}

/// Carries out every run of simulation `s` and appends the substates to `result`.
fn run_simulation<P: PolicyFn, U: UpdateFn>(
    sim: &Simulation<P, U>,
    s: usize,
    result: &mut Vec<Mapping>,
) -> (out: Result<(), RunFailure>)
    requires
        runnable(*sim),
    ensures
        pure_blocks(sim.model.blocks@) ==> match runs_from(
            *sim,
            s as int,
            parameter_sets(sim.model.params.deep_view()),
            0,
            old(result).deep_view(),
        ) {
            Ok(all) => out is Ok && final(result).deep_view() == all,
            Err(f) => out is Err && out->Err_0@ == f,
        },
{
    let ghost start = result.deep_view();
    let sets = parameter_sets_of(&sim.model.params);
    let mut r: usize = 0;
    while r < sim.runs
        invariant
            r <= sim.runs,
            runnable(*sim),
            start == old(result).deep_view(),
            sets.deep_view() == parameter_sets(sim.model.params.deep_view()),
            pure_blocks(sim.model.blocks@) ==> runs_from(
                *sim,
                s as int,
                sets.deep_view(),
                r as int,
                result.deep_view(),
            ) == runs_from(*sim, s as int, sets.deep_view(), 0, start),
        decreases sim.runs - r,
    {
        match run_subsets(sim, s, r, &sets, result) {
            Ok(()) => {},
            Err(f) => {
                return Err(f);
            },
        }
        r += 1;
    }
    Ok(())
}

/// Runs a batch of simulations. Each simulation is carried out `runs` times;
/// each run once per parameter set of the sweep, with the set's place as
/// subset index, or once with the parameters as they stand and subset 0
/// where the sweep is empty. The substates of all trajectories are returned
/// as one sequence, in the order simulation, run, subset, timestep, substep.
/// The first failure ends the batch.
pub fn run<P: PolicyFn, U: UpdateFn>(simulations: &Vec<Simulation<P, U>>) -> (out: Result<
    Vec<Mapping>,
    RunFailure,
>)
    requires
        forall|s: int| 0 <= s < simulations.len() ==> runnable(#[trigger] simulations@[s]),
    ensures
        pure_batch(simulations@) ==> model_of(out) == batch(simulations@),
{
    let mut result: Vec<Mapping> = Vec::new();
    let mut s: usize = 0;
    assert(result.deep_view() =~= Seq::empty());
    while s < simulations.len()
        invariant
            s <= simulations.len(),
            forall|s: int| 0 <= s < simulations.len() ==> runnable(#[trigger] simulations@[s]),
            pure_batch(simulations@) ==> simulations_from(
                simulations@,
                s as int,
                result.deep_view(),
            ) == batch(simulations@),
        decreases simulations.len() - s,
    {
        match run_simulation(&simulations[s], s, &mut result) {
            Ok(()) => {},
            Err(f) => {
                return Err(f);
            },
        }
        s += 1;
    }
    Ok(result)
}

} // verus!
