//! The user-supplied functions of a model: policies and state updates.

use vstd::prelude::*;
use crate::value::{Datum, Mapping, Record, Value};

verus! {

/// How one invocation of a user function ended.
#[derive(Debug)]
pub enum Outcome {
    /// The function returned this value.
    Returned(Value),
    /// The function failed with this message.
    Raised(String),
    /// The target is not something that can be invoked.
    NotCallable,
}

/// The mathematical content of an [`Outcome`].
pub enum OutcomeModel {
    Returned(Datum),
    Raised(Seq<char>),
    NotCallable,
}

impl View for Outcome {
    type V = OutcomeModel;

    open spec fn view(&self) -> OutcomeModel {
        match self {
            Outcome::Returned(v) => OutcomeModel::Returned(v@),
            Outcome::Raised(m) => OutcomeModel::Raised(m@),
            Outcome::NotCallable => OutcomeModel::NotCallable,
        }
    }
}

/// The history of a run: one entry per timestep, each the substates of its substeps.
pub type History = Seq<Seq<Record>>;

/// A policy: it computes a signal contribution for the current substep.
///
/// A policy should be a function of the contents handed to it. One that is
/// says so by `is_pure` and names its result by `outcome`; the engine then
/// states exactly what a run produces. Of a policy that does not say so, the
/// engine promises only what holds whatever the policy returns.
pub trait PolicyFn {
    /// Whether `call` returns what `outcome` says. Unless an implementation
    /// states and proves otherwise, it does not claim to.
    open spec fn is_pure(&self) -> bool {
        false
    }

    /// What a pure policy returns on given contents. An implementation that
    /// claims to be pure states its own; nothing is concluded from this one
    /// of an implementation that does not.
    open spec fn outcome(
        &self,
        params: Record,
        substep: int,
        history: History,
        substate: Record,
    ) -> OutcomeModel {
        OutcomeModel::NotCallable
    }

    /// Invokes the policy. On success the value returned should be a mapping of signals.
    fn call(
        &self,
        params: &Mapping,
        substep: usize,
        history: &Vec<Vec<Mapping>>,
        substate: &Mapping,
    ) -> (out: Outcome)
        ensures
            self.is_pure() ==> out@ == self.outcome(
                params@,
                substep as int,
                history.deep_view(),
                substate@,
            ),
    ;
}

/// A state update: it consumes the aggregated signals and gives one variable its new value.
///
/// An update should be a function of the contents handed to it, as a
/// [`PolicyFn`] should. It owns the substate and the signals handed to it and
/// may change them freely: the engine reads only what is returned.
pub trait UpdateFn {
    /// Whether `call` returns what `outcome` says. Unless an implementation
    /// states and proves otherwise, it does not claim to.
    open spec fn is_pure(&self) -> bool {
        false
    }

    /// What a pure update returns on given contents. An implementation that
    /// claims to be pure states its own; nothing is concluded from this one
    /// of an implementation that does not.
    open spec fn outcome(
        &self,
        params: Record,
        substep: int,
        history: History,
        substate: Record,
        signals: Record,
    ) -> OutcomeModel {
        OutcomeModel::NotCallable
    }

    /// Invokes the update. On success the value returned should be a list of
    /// two items, the variable's name and its new value.
    fn call(
        &self,
        params: &Mapping,
        substep: usize,
        history: &Vec<Vec<Mapping>>,
        substate: Mapping,
        signals: Mapping,
    ) -> (out: Outcome)
        ensures
            self.is_pure() ==> out@ == self.outcome(
                params@,
                substep as int,
                history.deep_view(),
                substate@,
                signals@,
            ),
    ;
}

} // verus!
