use std::cell::Cell;

use radcad::callable::{Outcome, PolicyFn};
use radcad::error::EngineError;
use radcad::signals::{merge_signals, reduce_signals, signal_from};
use radcad::value::{Mapping, Value};

fn name(s: &str) -> String {
    s.to_string()
}

fn signals(pairs: &[(&str, i128)]) -> Mapping {
    let mut m = Mapping::new();
    for (k, v) in pairs {
        m.set(name(k), Value::Int(*v));
    }
    m
}

/// A policy that returns a fixed outcome and counts how often it is invoked.
struct Fixed {
    calls: Cell<usize>,
    make: fn() -> Outcome,
}

impl Fixed {
    fn new(make: fn() -> Outcome) -> Fixed {
        Fixed { calls: Cell::new(0), make }
    }
}

impl PolicyFn for Fixed {
    fn call(
        &self,
        _params: &Mapping,
        _substep: usize,
        _history: &Vec<Vec<Mapping>>,
        _substate: &Mapping,
    ) -> Outcome {
        self.calls.set(self.calls.get() + 1);
        (self.make)()
    }
}

fn reduce(policies: &Vec<(String, Fixed)>) -> Result<Mapping, EngineError> {
    let params = Mapping::new();
    let history: Vec<Vec<Mapping>> = Vec::new();
    let substate = Mapping::new();
    reduce_signals(&params, 0, &history, &substate, policies)
}

#[test]
fn no_output_merges_to_an_empty_mapping() {
    let merged = merge_signals(Vec::new()).unwrap();
    assert_eq!(merged.len(), 0);
}

#[test]
fn a_single_output_passes_through_unchanged() {
    let merged = merge_signals(vec![signals(&[("s", 5)])]).unwrap();
    assert_eq!(merged, signals(&[("s", 5)]));
}

#[test]
fn a_single_output_is_not_asked_to_support_addition() {
    let mut only = Mapping::new();
    only.set(name("flag"), Value::Bool(true));
    only.set(name("text"), Value::Str(name("t")));
    let merged = merge_signals(vec![only.clone()]).unwrap();
    assert_eq!(merged, only);
}

#[test]
fn two_outputs_are_added_name_by_name() {
    let merged = merge_signals(vec![signals(&[("s", 1)]), signals(&[("s", 2)])]).unwrap();
    assert_eq!(merged, signals(&[("s", 3)]));
}

#[test]
fn names_held_by_one_output_only_are_taken_as_they_are() {
    let merged = merge_signals(vec![
        signals(&[("a", 1), ("b", 2)]),
        signals(&[("b", 10), ("c", 20)]),
        signals(&[("a", 100), ("c", 200), ("d", 300)]),
    ])
    .unwrap();
    assert_eq!(merged, signals(&[("a", 101), ("b", 12), ("c", 220), ("d", 300)]));
}

#[test]
fn lists_are_merged_in_the_order_of_the_outputs() {
    let mut first = Mapping::new();
    first.set(name("log"), Value::List(vec![Value::Int(1)]));
    let mut second = Mapping::new();
    second.set(name("log"), Value::List(vec![Value::Int(2)]));
    let merged = merge_signals(vec![first, second]).unwrap();
    assert_eq!(
        merged.get(&name("log")),
        Some(&Value::List(vec![Value::Int(1), Value::Int(2)]))
    );
}

#[test]
fn values_without_a_sum_under_one_name_fail_the_merge() {
    let mut first = Mapping::new();
    first.set(name("ok"), Value::Int(1));
    first.set(name("s"), Value::Str(name("a")));
    let mut second = Mapping::new();
    second.set(name("ok"), Value::Int(1));
    second.set(name("s"), Value::Str(name("b")));
    match merge_signals(vec![first, second]) {
        Err(EngineError::SignalMergeError { key }) => assert_eq!(key, "s"),
        other => panic!("unexpected {:?}", other),
    }
}

#[test]
fn mixed_kinds_under_one_name_fail_the_merge() {
    let mut first = Mapping::new();
    first.set(name("s"), Value::Int(1));
    let mut second = Mapping::new();
    second.set(name("s"), Value::List(vec![Value::Int(1)]));
    assert!(matches!(
        merge_signals(vec![first, second]),
        Err(EngineError::SignalMergeError { .. })
    ));
}

#[test]
fn a_sum_that_does_not_fit_fails_the_merge() {
    let merged = merge_signals(vec![signals(&[("s", i128::MAX)]), signals(&[("s", 1)])]);
    assert!(matches!(merged, Err(EngineError::SignalMergeError { .. })));
}

#[test]
fn a_returned_mapping_is_a_signal() {
    let got = signal_from(Outcome::Returned(Value::Dict(signals(&[("s", 1)])))).unwrap();
    assert_eq!(got, signals(&[("s", 1)]));
}

#[test]
fn anything_else_returned_is_a_type_error() {
    for v in [Value::Null, Value::Int(1), Value::Str(name("s")), Value::List(Vec::new())] {
        assert!(matches!(
            signal_from(Outcome::Returned(v)),
            Err(EngineError::PolicyResultTypeError)
        ));
    }
}

#[test]
fn a_raised_error_is_propagated_with_its_message() {
    match signal_from(Outcome::Raised(name("boom"))) {
        Err(EngineError::PropagatedUserError { message }) => assert_eq!(message, "boom"),
        other => panic!("unexpected {:?}", other),
    }
}

#[test]
fn a_target_that_cannot_be_invoked_is_reported() {
    assert!(matches!(signal_from(Outcome::NotCallable), Err(EngineError::NotCallable)));
}

#[test]
fn reducing_no_policies_gives_no_signals() {
    let policies: Vec<(String, Fixed)> = Vec::new();
    assert_eq!(reduce(&policies).unwrap().len(), 0);
}

#[test]
fn reducing_one_policy_gives_its_output() {
    let policies =
        vec![(name("p"), Fixed::new(|| Outcome::Returned(Value::Dict(signals(&[("s", 5)])))))];
    assert_eq!(reduce(&policies).unwrap(), signals(&[("s", 5)]));
    assert_eq!(policies[0].1.calls.get(), 1);
}

#[test]
fn reducing_two_policies_adds_their_outputs() {
    let policies = vec![
        (name("p"), Fixed::new(|| Outcome::Returned(Value::Dict(signals(&[("s", 1)]))))),
        (name("q"), Fixed::new(|| Outcome::Returned(Value::Dict(signals(&[("s", 2)]))))),
    ];
    assert_eq!(reduce(&policies).unwrap(), signals(&[("s", 3)]));
}

#[test]
fn the_first_failing_policy_ends_the_reduction() {
    let policies = vec![
        (name("p"), Fixed::new(|| Outcome::Returned(Value::Dict(signals(&[("s", 1)]))))),
        (name("q"), Fixed::new(|| Outcome::Raised(name("first")))),
        (name("r"), Fixed::new(|| Outcome::Returned(Value::Int(0)))),
    ];
    match reduce(&policies) {
        Err(EngineError::PropagatedUserError { message }) => assert_eq!(message, "first"),
        other => panic!("unexpected {:?}", other),
    }
    assert_eq!(policies[0].1.calls.get(), 1);
    assert_eq!(policies[1].1.calls.get(), 1);
    assert_eq!(policies[2].1.calls.get(), 0);
}

#[test]
fn a_policy_that_returns_no_mapping_fails_the_reduction() {
    let policies = vec![
        (name("p"), Fixed::new(|| Outcome::Returned(Value::List(Vec::new())))),
        (name("q"), Fixed::new(|| Outcome::Raised(name("later")))),
    ];
    assert!(matches!(reduce(&policies), Err(EngineError::PolicyResultTypeError)));
    assert_eq!(policies[1].1.calls.get(), 0);
}

#[test]
fn a_policy_that_cannot_be_invoked_fails_the_reduction() {
    let policies = vec![(name("p"), Fixed::new(|| Outcome::NotCallable))];
    assert!(matches!(reduce(&policies), Err(EngineError::NotCallable)));
}

#[test]
fn every_policy_sees_the_same_inputs() {
    struct Echo;
    impl PolicyFn for Echo {
        fn call(
            &self,
            params: &Mapping,
            substep: usize,
            history: &Vec<Vec<Mapping>>,
            substate: &Mapping,
        ) -> Outcome {
            let mut out = Mapping::new();
            out.set("rate".to_string(), params.get(&"rate".to_string()).unwrap().clone());
            out.set("substep".to_string(), Value::Int(substep as i128));
            out.set("seen".to_string(), Value::Int(history.len() as i128));
            out.set("x".to_string(), substate.get(&"x".to_string()).unwrap().clone());
            Outcome::Returned(Value::Dict(out))
        }
    }
    let params = signals(&[("rate", 3)]);
    let history = vec![vec![signals(&[("x", 0)])], vec![signals(&[("x", 1)])]];
    let substate = signals(&[("x", 7)]);
    let policies = vec![(name("a"), Echo), (name("b"), Echo)];
    let got = reduce_signals(&params, 4, &history, &substate, &policies).unwrap();
    assert_eq!(got, signals(&[("rate", 6), ("substep", 8), ("seen", 4), ("x", 14)]));
}
