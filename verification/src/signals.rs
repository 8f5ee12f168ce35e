//! The signal reducer: it invokes the policies of a block and merges what they return.

use vstd::prelude::*;
use crate::callable::{History, Outcome, OutcomeModel, PolicyFn};
use crate::error::{model_of, EngineError, ErrorModel};
use crate::value::{
    datum_add, has_key, lemma_dict_view, lookup, record_set, Datum, Mapping, Record, Value,
};

verus! {

/// The signals that a policy's outcome stands for: the mapping it returned,
/// or the error that the outcome amounts to.
pub open spec fn signal_of(o: OutcomeModel) -> Result<Record, ErrorModel> {
    match o {
        OutcomeModel::Returned(Datum::Dict(r)) => Ok(r),
        OutcomeModel::Returned(_) => Err(ErrorModel::PolicyResultTypeError),
        OutcomeModel::Raised(message) => Err(ErrorModel::PropagatedUserError { message }),
        OutcomeModel::NotCallable => Err(ErrorModel::NotCallable),
    }
}

/// One signal merged into what was gathered so far: a new name is added as
/// it is, a name that is there gets the sum of the old and the new value.
pub open spec fn merge_entry(acc: Record, key: Seq<char>, value: Datum) -> Result<
    Record,
    ErrorModel,
> {
    if has_key(acc, key) {
        match datum_add(lookup(acc, key), value) {
            Some(sum) => Ok(record_set(acc, key, sum)),
            None => Err(ErrorModel::SignalMergeError { key }),
        }
    } else {
        Ok(record_set(acc, key, value))
    }
}

/// The entries of `output` from place `k` on, merged into `acc` in order.
pub open spec fn merge_from(acc: Record, output: Record, k: int) -> Result<Record, ErrorModel>
    decreases output.len() - k,
{
    if k < 0 || k >= output.len() {
        Ok(acc)
    } else {
        match merge_entry(acc, output[k].0, output[k].1) {
            Err(e) => Err(e),
            Ok(next) => merge_from(next, output, k + 1),
        }
    }
}

/// The outputs from place `i` on, merged into `acc` in order.
pub open spec fn fold_from(acc: Record, outputs: Seq<Record>, i: int) -> Result<
    Record,
    ErrorModel,
>
    decreases outputs.len() - i,
{
    if i < 0 || i >= outputs.len() {
        Ok(acc)
    } else {
        match merge_from(acc, outputs[i], 0) {
            Err(e) => Err(e),
            Ok(next) => fold_from(next, outputs, i + 1),
        }
    }
}

/// The signals that the outputs of the policies reduce to: nothing for no
/// output, the output itself for one, and for more the outputs merged in
/// order, name by name, into an empty mapping.
pub open spec fn merged(outputs: Seq<Record>) -> Result<Record, ErrorModel> {
    if outputs.len() == 1 {
        Ok(outputs[0])
    } else {
        fold_from(Seq::empty(), outputs, 0)
    }
}

/// The outputs of the outcomes from place `i` on, appended to `done`; the
/// first outcome that is no mapping decides the error.
pub open spec fn collect_from(outcomes: Seq<OutcomeModel>, i: int, done: Seq<Record>) -> Result<
    Seq<Record>,
    ErrorModel,
>
    decreases outcomes.len() - i,
{
    if i < 0 || i >= outcomes.len() {
        Ok(done)
    } else {
        match signal_of(outcomes[i]) {
            Err(e) => Err(e),
            Ok(r) => collect_from(outcomes, i + 1, done.push(r)),
        }
    }
}

/// The signals that a sequence of policy outcomes reduces to.
pub open spec fn reduced(outcomes: Seq<OutcomeModel>) -> Result<Record, ErrorModel> {
    match collect_from(outcomes, 0, Seq::empty()) {
        Err(e) => Err(e),
        Ok(outputs) => merged(outputs),
    }
}

/// Whether every policy is a function of the contents handed to it.
pub open spec fn pure_policies<P: PolicyFn>(policies: Seq<(String, P)>) -> bool {
    forall|i: int| 0 <= i < policies.len() ==> (#[trigger] policies[i]).1.is_pure()
}

/// What each policy, in order, returns on the given contents.
pub open spec fn policy_outcomes<P: PolicyFn>(
    policies: Seq<(String, P)>,
    params: Record,
    substep: int,
    history: History,
    substate: Record,
) -> Seq<OutcomeModel> {
    Seq::new(policies.len(), |i: int| policies[i].1.outcome(params, substep, history, substate))
}

/// Turns the outcome of a policy into its signals.
pub fn signal_from(outcome: Outcome) -> (out: Result<Mapping, EngineError>)
    ensures
        model_of(out) == signal_of(outcome@),
{
    match outcome {
        Outcome::Returned(Value::Dict(m)) => {
            proof {
                lemma_dict_view(m);
            }
            Ok(m)
        },
        Outcome::Returned(_) => Err(EngineError::PolicyResultTypeError),
        Outcome::Raised(message) => Err(EngineError::PropagatedUserError { message }),
        Outcome::NotCallable => Err(EngineError::NotCallable),
    }
}

/// Merges one policy output into the signals gathered so far. On an error
/// the signals are left as they were when the error arose.
fn merge_output(acc: &mut Mapping, output: &Mapping) -> (out: Result<(), EngineError>)
    ensures
        match merge_from(old(acc)@, output@, 0) {
            Ok(r) => out is Ok && final(acc)@ == r,
            Err(e) => out is Err && out->Err_0@ == e,
        },
{
    let mut k: usize = 0;
    while k < output.len()
        invariant
            k <= output@.len(),
            merge_from(acc@, output@, k as int) == merge_from(old(acc)@, output@, 0),
        decreases output@.len() - k,
    {
        let key = output.key_at(k);
        let value = output.value_at(k);
        let sum = match acc.get(key) {
            Some(held) => held.add(value),
            None => Some(value.clone()),
        };
        match sum {
            Some(v) => {
                acc.set(key.clone(), v);
            },
            None => {
                return Err(EngineError::SignalMergeError { key: key.clone() });
            },
        }
        k += 1;
    }
    Ok(())
}

/// Merges the outputs of the policies of one substep into one mapping of
/// signals: an empty one for no output, the output unchanged for one, and
/// for more the sum, name by name and in order, of what they hold.
pub fn merge_signals(outputs: Vec<Mapping>) -> (out: Result<Mapping, EngineError>)
    ensures
        model_of(out) == merged(outputs.deep_view()),
{
    let ghost all = outputs.deep_view();
    if outputs.len() == 1 {
        let mut single = outputs;
        match single.pop() {
            Some(only) => {
                return Ok(only);
            },
            None => {
                return Ok(Mapping::new());
            },
        }
    }
    let mut acc = Mapping::new();
    let mut i: usize = 0;
    while i < outputs.len()
        invariant
            i <= outputs.len(),
            all == outputs.deep_view(),
            all.len() != 1,
            fold_from(acc@, all, i as int) == fold_from(Seq::empty(), all, 0),
        decreases outputs.len() - i,
    {
        assert(all[i as int] == outputs@[i as int]@);
        match merge_output(&mut acc, &outputs[i]) {
            Ok(()) => {},
            Err(e) => {
                return Err(e);
            },
        }
        i += 1;
    }
    Ok(acc)
}

/// Invokes every policy of a block, in order, on the same substate, and
/// merges what they return. The first policy that fails, or returns something
/// other than a mapping, ends the reduction: the later ones are not invoked.
pub fn reduce_signals<P: PolicyFn>(
    params: &Mapping,
    substep: usize,
    history: &Vec<Vec<Mapping>>,
    substate: &Mapping,
    policies: &Vec<(String, P)>,
) -> (out: Result<Mapping, EngineError>)
    ensures
        pure_policies(policies@) ==> model_of(out) == reduced(
            policy_outcomes(policies@, params@, substep as int, history.deep_view(), substate@),
        ),
{
    let ghost outcomes = policy_outcomes(
        policies@,
        params@,
        substep as int,
        history.deep_view(),
        substate@,
    );
    let mut outputs: Vec<Mapping> = Vec::new();
    let mut i: usize = 0;
    assert(outputs.deep_view() =~= Seq::empty());
    while i < policies.len()
        invariant
            i <= policies.len(),
            outcomes == policy_outcomes(
                policies@,
                params@,
                substep as int,
                history.deep_view(),
                substate@,
            ),
            pure_policies(policies@) ==> collect_from(outcomes, i as int, outputs.deep_view())
                == collect_from(outcomes, 0, Seq::empty()),
        decreases policies.len() - i,
    {
        let outcome = policies[i].1.call(params, substep, history, substate);
        match signal_from(outcome) {
            Ok(signals) => {
                let ghost before = outputs.deep_view();
                let ghost added = signals@;
                outputs.push(signals);
                assert(outputs.deep_view() =~= before.push(added));
            },
            Err(e) => {
                return Err(e);
            },
        }
        i += 1;
    }
    merge_signals(outputs)
}

} // verus!
