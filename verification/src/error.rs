//! The ways in which a run can fail.

use vstd::prelude::*;

verus! {

/// Why a run was aborted.
#[derive(Debug, Clone, PartialEq, Eq)]
pub enum EngineError {
    /// A block declares a variable that the initial state does not hold.
    InvalidStateKey { key: String },
    /// An update function returned another name than the one it is declared under.
    StateKeyMismatch { declared: String, returned: String },
    /// A configured policy or update target cannot be invoked.
    NotCallable,
    /// A policy returned something other than a mapping.
    PolicyResultTypeError,
    /// An update function returned something other than a pair of a name and a value.
    UpdateResultTypeError,
    /// Two policies gave signals under one name that cannot be added.
    SignalMergeError { key: String },
    /// A user function failed; the message is its own.
    PropagatedUserError { message: String },
}

/// The mathematical content of an [`EngineError`].
pub enum ErrorModel {
    InvalidStateKey { key: Seq<char> },
    StateKeyMismatch { declared: Seq<char>, returned: Seq<char> },
    NotCallable,
    PolicyResultTypeError,
    UpdateResultTypeError,
    SignalMergeError { key: Seq<char> },
    PropagatedUserError { message: Seq<char> },
}

impl View for EngineError {
    type V = ErrorModel;

    open spec fn view(&self) -> ErrorModel {
        match self {
            EngineError::InvalidStateKey { key } => ErrorModel::InvalidStateKey { key: key@ },
            EngineError::StateKeyMismatch { declared, returned } => ErrorModel::StateKeyMismatch {
                declared: declared@,
                returned: returned@,
            },
            EngineError::NotCallable => ErrorModel::NotCallable,
            EngineError::PolicyResultTypeError => ErrorModel::PolicyResultTypeError,
            EngineError::UpdateResultTypeError => ErrorModel::UpdateResultTypeError,
            EngineError::SignalMergeError { key } => ErrorModel::SignalMergeError { key: key@ },
            EngineError::PropagatedUserError { message } => ErrorModel::PropagatedUserError {
                message: message@,
            },
        }
    }
}

/// An error together with the place in the run where it arose.
#[derive(Debug, Clone, PartialEq, Eq)]
pub struct RunFailure {
    pub error: EngineError,
    /// The index of the simulation.
    pub simulation: usize,
    /// The index of the parameter subset.
    pub subset: usize,
    /// The index of the run, counted from zero.
    pub run: usize,
    /// The timestep that was being computed, counted from one.
    pub timestep: usize,
    /// The index of the block that was being applied, counted from zero.
    pub substep: usize,
}

/// The mathematical content of a [`RunFailure`].
pub struct FailureModel {
    pub error: ErrorModel,
    pub simulation: int,
    pub subset: int,
    pub run: int,
    pub timestep: int,
    pub substep: int,
}

impl View for RunFailure {
    type V = FailureModel;

    open spec fn view(&self) -> FailureModel {
        FailureModel {
            error: self.error@,
            simulation: self.simulation as int,
            subset: self.subset as int,
            run: self.run as int,
            timestep: self.timestep as int,
            substep: self.substep as int,
        }
    }
}

impl DeepView for EngineError {
    type V = ErrorModel;

    open spec fn deep_view(&self) -> ErrorModel {
        self@
    }
}

impl DeepView for RunFailure {
    type V = FailureModel;

    open spec fn deep_view(&self) -> FailureModel {
        self@
    }
}

/// The mathematical content of a result: that of what it holds, on either side.
pub open spec fn model_of<T: DeepView, E: DeepView>(r: Result<T, E>) -> Result<T::V, E::V> {
    match r {
        Ok(t) => Ok(t.deep_view()),
        Err(e) => Err(e.deep_view()),
    }
}

} // verus!
