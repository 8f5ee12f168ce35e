//! The substep executor: it applies one partial state update block to a substate.

use vstd::prelude::*;
use crate::callable::{History, Outcome, OutcomeModel, PolicyFn, UpdateFn};
use crate::error::{model_of, EngineError, ErrorModel};
use crate::model::PartialUpdateBlock;
use crate::signals::{policy_outcomes, pure_policies, reduce_signals, reduced};
use crate::value::{has_key, lemma_list_view, record_set, Datum, Mapping, Record, Value};

verus! {

/// The name under which a substate records its substep.
pub open spec fn substep_key() -> Seq<char> {
    "substep"@
}

/// Whether every function of a block is a function of the contents handed to it.
pub open spec fn pure_block<P: PolicyFn, U: UpdateFn>(block: PartialUpdateBlock<P, U>) -> bool {
    &&& pure_policies(block.policies@)
    &&& forall|j: int|
        0 <= j < block.variables@.len() ==> (#[trigger] block.variables@[j]).1.is_pure()
}

/// The state change that the outcome of an update function stands for, for
/// the variable it is declared under: the name and the new value, or the
/// error that the outcome amounts to. What is returned must be a list of a
/// string and a value; the string must be the variable's name, and the
/// schema must hold it.
pub open spec fn update_of(schema: Record, variable: Seq<char>, o: OutcomeModel) -> Result<
    (Seq<char>, Datum),
    ErrorModel,
> {
    match o {
        OutcomeModel::NotCallable => Err(ErrorModel::NotCallable),
        OutcomeModel::Raised(message) => Err(ErrorModel::PropagatedUserError { message }),
        OutcomeModel::Returned(d) => {
            if d is List && d->List_0.len() == 2 && d->List_0[0] is Str {
                let key = d->List_0[0]->Str_0;
                if key != variable {
                    Err(ErrorModel::StateKeyMismatch { declared: variable, returned: key })
                } else if !has_key(schema, key) {
                    Err(ErrorModel::InvalidStateKey { key })
                } else {
                    Ok((key, d->List_0[1]))
                }
            } else {
                Err(ErrorModel::UpdateResultTypeError)
            }
        },
    }
}

/// The substate after the `j`-th variable of `block` is processed on `acc`:
/// the variable must be in the schema; the policies and then the update
/// function are invoked on `acc` as it stands, and the value returned is set
/// under the variable's name. Nothing else of `acc` changes.
pub open spec fn variable_step<P: PolicyFn, U: UpdateFn>(
    block: PartialUpdateBlock<P, U>,
    j: int,
    substep: int,
    schema: Record,
    params: Record,
    history: History,
    acc: Record,
) -> Result<Record, ErrorModel> {
    let name = block.variables@[j].0@;
    if !has_key(schema, name) {
        Err(ErrorModel::InvalidStateKey { key: name })
    } else {
        match reduced(policy_outcomes(block.policies@, params, substep, history, acc)) {
            Err(e) => Err(e),
            Ok(signals) => match update_of(
                schema,
                name,
                block.variables@[j].1.outcome(params, substep, history, acc, signals),
            ) {
                Err(e) => Err(e),
                Ok(change) => Ok(record_set(acc, change.0, change.1)),
            },
        }
    }
}

/// The substate after the variables of `block` from place `j` on are
/// processed, in order, each on what the one before it left.
pub open spec fn variables_from<P: PolicyFn, U: UpdateFn>(
    block: PartialUpdateBlock<P, U>,
    j: int,
    substep: int,
    schema: Record,
    params: Record,
    history: History,
    acc: Record,
) -> Result<Record, ErrorModel>
    decreases block.variables@.len() - j,
{
    if j < 0 || j >= block.variables@.len() {
        Ok(acc)
    } else {
        match variable_step(block, j, substep, schema, params, history, acc) {
            Err(e) => Err(e),
            Ok(next) => variables_from(block, j + 1, substep, schema, params, history, next),
        }
    }
}

/// The substate that a substep produces from the one before it: a copy of
/// it, marked with the substep's number counted from one, on which every
/// variable of the block is processed in order.
pub open spec fn substep_state<P: PolicyFn, U: UpdateFn>(
    block: PartialUpdateBlock<P, U>,
    substep: int,
    schema: Record,
    params: Record,
    history: History,
    previous: Record,
) -> Result<Record, ErrorModel> {
    variables_from(
        block,
        0,
        substep,
        schema,
        params,
        history,
        record_set(previous, substep_key(), Datum::Int(substep + 1)),
    )
}

/// Checks what an update function returned for `variable` and applies it to
/// `substate`. On any error the substate is left untouched.
pub fn apply_update(
    substate: &mut Mapping,
    schema: &Mapping,
    variable: &String,
    outcome: Outcome,
) -> (out: Result<(), EngineError>)
    ensures
        match update_of(schema@, variable@, outcome@) {
            Ok(change) => out is Ok && final(substate)@ == record_set(
                old(substate)@,
                change.0,
                change.1,
            ),
            Err(e) => out is Err && out->Err_0@ == e && final(substate)@ == old(substate)@,
        },
{
    match outcome {
        Outcome::NotCallable => Err(EngineError::NotCallable),
        Outcome::Raised(message) => Err(EngineError::PropagatedUserError { message }),
        Outcome::Returned(Value::List(items)) => {
            proof {
                lemma_list_view(items);
            }
            if items.len() != 2 {
                return Err(EngineError::UpdateResultTypeError);
            }
            let mut items = items;
            let ghost pair = items.deep_view();
            let value = items.pop();
            let name = items.pop();
            match (name, value) {
                (Some(Value::Str(key)), Some(value)) => {
                    assert(pair[0] == Datum::Str(key@));
                    assert(pair[1] == value@);
                    if !(key == *variable) {
                        Err(
                            EngineError::StateKeyMismatch {
                                declared: variable.clone(),
                                returned: key,
                            },
                        )
                    } else if !schema.contains_key(&key) {
                        Err(EngineError::InvalidStateKey { key })
                    } else {
                        substate.set(key, value);
                        Ok(())
                    }
                },
                _ => Err(EngineError::UpdateResultTypeError),
            }
        },
        Outcome::Returned(_) => Err(EngineError::UpdateResultTypeError),
    }
}

/// Processes the `j`-th variable of `block`: on an isolated copy of the
/// substate it reduces the signals of the block's policies and invokes the
/// variable's update function, then applies the value returned to `substate`
/// itself. On any error `substate` is left untouched.
pub fn step_variable<P: PolicyFn, U: UpdateFn>(
    block: &PartialUpdateBlock<P, U>,
    j: usize,
    substep: usize,
    schema: &Mapping,
    params: &Mapping,
    history: &Vec<Vec<Mapping>>,
    substate: &mut Mapping,
) -> (out: Result<(), EngineError>)
    requires
        j < block.variables@.len(),
    ensures
        pure_block(*block) ==> match variable_step(
            *block,
            j as int,
            substep as int,
            schema@,
            params@,
            history.deep_view(),
            old(substate)@,
        ) {
            Ok(next) => out is Ok && final(substate)@ == next,
            Err(e) => out is Err && out->Err_0@ == e,
        },
        out is Err ==> final(substate)@ == old(substate)@,
        out is Ok ==> has_key(schema@, block.variables@[j as int].0@) && exists|value: Datum|
            final(substate)@ == record_set(old(substate)@, block.variables@[j as int].0@, value),
{
    let name = &block.variables[j].0;
    if !schema.contains_key(name) {
        return Err(EngineError::InvalidStateKey { key: name.clone() });
    }
    let copy = substate.clone();
    let signals = match reduce_signals(params, substep, history, &copy, &block.policies) {
        Ok(signals) => signals,
        Err(e) => {
            return Err(e);
        },
    };
    let outcome = block.variables[j].1.call(params, substep, history, copy, signals);
    apply_update(substate, schema, name, outcome)
}

/// Applies one block to the substate that the previous substep left (or to
/// the timestep's seed, for the first block) and returns the substate that
/// this substep produces. `substep` is the block's index, counted from zero;
/// the substate is marked with `substep + 1`.
pub fn execute_substep<P: PolicyFn, U: UpdateFn>(
    block: &PartialUpdateBlock<P, U>,
    substep: usize,
    schema: &Mapping,
    params: &Mapping,
    history: &Vec<Vec<Mapping>>,
    previous: &Mapping,
) -> (out: Result<Mapping, EngineError>)
    ensures
        pure_block(*block) ==> model_of(out) == substep_state(
            *block,
            substep as int,
            schema@,
            params@,
            history.deep_view(),
            previous@,
        ),
{
    let mut substate = previous.clone();
    substate.set("substep".to_owned(), Value::Int(substep as i128 + 1));
    let ghost start = substate@;
    let mut j: usize = 0;
    while j < block.variables.len()
        invariant
            j <= block.variables@.len(),
            start == record_set(previous@, substep_key(), Datum::Int(substep + 1)),
            pure_block(*block) ==> variables_from(
                *block,
                j as int,
                substep as int,
                schema@,
                params@,
                history.deep_view(),
                substate@,
            ) == variables_from(
                *block,
                0,
                substep as int,
                schema@,
                params@,
                history.deep_view(),
                start,
            ),
        decreases block.variables@.len() - j,
    {
        match step_variable(block, j, substep, schema, params, history, &mut substate) {
            Ok(()) => {},
            Err(e) => {
                return Err(e);
            },
        }
        j += 1;
    }
    Ok(substate)
}

} // verus!
