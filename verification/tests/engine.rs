use radcad::callable::{Outcome, PolicyFn, UpdateFn};
use radcad::error::{EngineError, RunFailure};
use radcad::model::{Model, PartialUpdateBlock, Simulation};
use radcad::run::{extend_flat, run, single_run};
use radcad::substep::{apply_update, execute_substep, step_variable};
use radcad::value::{Mapping, Value};

type PolicyBody = fn(&Mapping, usize, &Vec<Vec<Mapping>>, &Mapping) -> Outcome;
type UpdateBody = fn(&Mapping, usize, &Vec<Vec<Mapping>>, Mapping, Mapping) -> Outcome;

struct Policy(PolicyBody);
struct Update(UpdateBody);

impl PolicyFn for Policy {
    fn call(
        &self,
        params: &Mapping,
        substep: usize,
        history: &Vec<Vec<Mapping>>,
        substate: &Mapping,
    ) -> Outcome {
        (self.0)(params, substep, history, substate)
    }
}

impl UpdateFn for Update {
    fn call(
        &self,
        params: &Mapping,
        substep: usize,
        history: &Vec<Vec<Mapping>>,
        substate: Mapping,
        signals: Mapping,
    ) -> Outcome {
        (self.0)(params, substep, history, substate, signals)
    }
}

type Block = PartialUpdateBlock<Policy, Update>;

fn name(s: &str) -> String {
    s.to_string()
}

fn int_of(m: &Mapping, key: &str) -> i128 {
    match m.get(&name(key)) {
        Some(Value::Int(i)) => *i,
        other => panic!("no integer under {}: {:?}", key, other),
    }
}

fn state(pairs: &[(&str, i128)]) -> Mapping {
    let mut m = Mapping::new();
    for (k, v) in pairs {
        m.set(name(k), Value::Int(*v));
    }
    m
}

fn change(key: &str, value: Value) -> Outcome {
    Outcome::Returned(Value::List(vec![Value::Str(name(key)), value]))
}

fn block(policies: Vec<(&str, PolicyBody)>, variables: Vec<(&str, UpdateBody)>) -> Block {
    PartialUpdateBlock {
        policies: policies.into_iter().map(|(k, f)| (name(k), Policy(f))).collect(),
        variables: variables.into_iter().map(|(k, f)| (name(k), Update(f))).collect(),
    }
}

fn increment_x(
    _params: &Mapping,
    _substep: usize,
    _history: &Vec<Vec<Mapping>>,
    substate: Mapping,
    _signals: Mapping,
) -> Outcome {
    change("x", Value::Int(int_of(&substate, "x") + 1))
}

fn counter_blocks() -> Vec<Block> {
    vec![block(vec![], vec![("x", increment_x)])]
}

#[test]
fn a_single_update_counts_the_timesteps() {
    let initial = state(&[("x", 0)]);
    let trajectory =
        single_run(0, 3, 0, 0, &initial, &counter_blocks(), &Mapping::new()).unwrap();
    assert_eq!(trajectory.len(), 4);
    assert_eq!(trajectory[0].len(), 1);
    for t in 1..4 {
        assert_eq!(trajectory[t].len(), 1);
    }
    assert_eq!(int_of(&trajectory[3][0], "x"), 3);
    for entry in &trajectory {
        for substate in entry {
            assert_eq!(int_of(substate, "run"), 1);
        }
    }
}

#[test]
fn the_same_model_through_the_batch_entry_point() {
    let model = Model::new(state(&[("x", 0)]), counter_blocks(), Vec::new());
    let simulations = vec![Simulation::new(3, 1, model)];
    let states = run(&simulations).unwrap();
    assert_eq!(states.len(), 4);
    assert_eq!(int_of(&states[3], "x"), 3);
    for (t, s) in states.iter().enumerate() {
        assert_eq!(int_of(s, "run"), 1);
        assert_eq!(int_of(s, "x"), t as i128);
    }
}

#[test]
fn the_first_entry_is_the_marked_initial_state() {
    let initial = state(&[("x", 5), ("y", 6)]);
    let trajectory = single_run(2, 0, 3, 4, &initial, &counter_blocks(), &Mapping::new()).unwrap();
    assert_eq!(trajectory.len(), 1);
    assert_eq!(trajectory[0].len(), 1);
    let mut expected = state(&[("x", 5), ("y", 6)]);
    expected.set(name("simulation"), Value::Int(2));
    expected.set(name("subset"), Value::Int(4));
    expected.set(name("run"), Value::Int(4));
    expected.set(name("substep"), Value::Int(0));
    expected.set(name("timestep"), Value::Int(0));
    assert_eq!(trajectory[0][0], expected);
    assert_eq!(initial, state(&[("x", 5), ("y", 6)]));
}

#[test]
fn every_substate_is_marked_with_its_place() {
    let blocks = vec![
        block(vec![], vec![("x", increment_x)]),
        block(vec![], vec![("x", increment_x)]),
    ];
    let trajectory = single_run(7, 2, 0, 9, &state(&[("x", 0)]), &blocks, &Mapping::new()).unwrap();
    assert_eq!(trajectory.len(), 3);
    for t in 1..3 {
        assert_eq!(trajectory[t].len(), 2);
        for j in 0..2 {
            let s = &trajectory[t][j];
            assert_eq!(int_of(s, "simulation"), 7);
            assert_eq!(int_of(s, "subset"), 9);
            assert_eq!(int_of(s, "run"), 1);
            assert_eq!(int_of(s, "timestep"), t as i128);
            assert_eq!(int_of(s, "substep"), j as i128 + 1);
            assert_eq!(int_of(s, "x"), (2 * (t - 1) + j + 1) as i128);
        }
    }
}

#[test]
fn marks_already_held_by_the_initial_state_keep_their_place() {
    let mut initial = Mapping::new();
    initial.set(name("run"), Value::Int(99));
    initial.set(name("x"), Value::Int(0));
    let trajectory = single_run(0, 1, 0, 0, &initial, &counter_blocks(), &Mapping::new()).unwrap();
    let first = &trajectory[0][0];
    assert_eq!(first.key_at(0), "run");
    assert_eq!(first.key_at(1), "x");
    assert_eq!(first.key_at(2), "simulation");
    assert_eq!(first.key_at(3), "subset");
    assert_eq!(first.key_at(4), "substep");
    assert_eq!(first.key_at(5), "timestep");
    assert_eq!(int_of(first, "run"), 1);
}

#[test]
fn no_timesteps_give_the_initial_entry_alone() {
    let blocks: Vec<Block> = Vec::new();
    let trajectory = single_run(0, 0, 0, 0, &state(&[("x", 1)]), &blocks, &Mapping::new()).unwrap();
    assert_eq!(trajectory.len(), 1);
}

#[test]
fn one_timestep_without_blocks_gives_an_empty_entry() {
    let blocks: Vec<Block> = Vec::new();
    let trajectory = single_run(0, 1, 0, 0, &state(&[("x", 1)]), &blocks, &Mapping::new()).unwrap();
    assert_eq!(trajectory.len(), 2);
    assert_eq!(trajectory[0].len(), 1);
    assert_eq!(trajectory[1].len(), 0);
}

fn one(_p: &Mapping, _s: usize, _h: &Vec<Vec<Mapping>>, _st: &Mapping) -> Outcome {
    Outcome::Returned(Value::Dict(state(&[("s", 1)])))
}

fn two(_p: &Mapping, _s: usize, _h: &Vec<Vec<Mapping>>, _st: &Mapping) -> Outcome {
    Outcome::Returned(Value::Dict(state(&[("s", 2)])))
}

fn add_signal(
    _params: &Mapping,
    _substep: usize,
    _history: &Vec<Vec<Mapping>>,
    substate: Mapping,
    signals: Mapping,
) -> Outcome {
    change("x", Value::Int(int_of(&substate, "x") + int_of(&signals, "s")))
}

#[test]
fn aggregated_signals_reach_the_update_function() {
    let blocks = vec![block(vec![("a", one), ("b", two)], vec![("x", add_signal)])];
    let trajectory = single_run(0, 2, 0, 0, &state(&[("x", 0)]), &blocks, &Mapping::new()).unwrap();
    assert_eq!(int_of(&trajectory[1][0], "x"), 3);
    assert_eq!(int_of(&trajectory[2][0], "x"), 6);
}

fn report(
    params: &Mapping,
    substep: usize,
    history: &Vec<Vec<Mapping>>,
    substate: Mapping,
    signals: Mapping,
) -> Outcome {
    let summary = vec![
        Value::Int(substep as i128),
        Value::Int(history.len() as i128),
        Value::Int(int_of(&substate, "timestep")),
        Value::Int(int_of(&substate, "substep")),
        Value::Int(signals.len() as i128),
        params.get(&name("rate")).cloned().unwrap_or(Value::Null),
    ];
    change("seen", Value::List(summary))
}

#[test]
fn functions_are_handed_the_block_index_the_history_and_the_parameters() {
    let mut initial = Mapping::new();
    initial.set(name("seen"), Value::Null);
    let blocks = vec![block(vec![], vec![("seen", report)]), block(vec![], vec![("seen", report)])];
    let params = state(&[("rate", 8)]);
    let trajectory = single_run(0, 2, 0, 0, &initial, &blocks, &params).unwrap();
    let expect = |t: usize, j: usize, substep: i128, seen: i128, timestep: i128| {
        assert_eq!(
            trajectory[t][j].get(&name("seen")),
            Some(&Value::List(vec![
                Value::Int(substep),
                Value::Int(seen),
                Value::Int(timestep),
                Value::Int(substep + 1),
                Value::Int(0),
                Value::Int(8),
            ]))
        );
    };
    expect(1, 0, 0, 1, 1);
    expect(1, 1, 1, 1, 1);
    expect(2, 0, 0, 2, 2);
    expect(2, 1, 1, 2, 2);
}

fn wrong_name(
    _params: &Mapping,
    _substep: usize,
    _history: &Vec<Vec<Mapping>>,
    _substate: Mapping,
    _signals: Mapping,
) -> Outcome {
    change("y", Value::Int(1))
}

#[test]
fn an_update_under_another_name_is_a_mismatch() {
    let blocks = vec![block(vec![], vec![("x", wrong_name)])];
    let failure =
        single_run(1, 5, 2, 3, &state(&[("x", 0), ("y", 0)]), &blocks, &Mapping::new()).unwrap_err();
    match &failure.error {
        EngineError::StateKeyMismatch { declared, returned } => {
            assert_eq!(declared, "x");
            assert_eq!(returned, "y");
        }
        other => panic!("unexpected {:?}", other),
    }
    assert_eq!(failure.simulation, 1);
    assert_eq!(failure.run, 2);
    assert_eq!(failure.subset, 3);
    assert_eq!(failure.timestep, 1);
    assert_eq!(failure.substep, 0);
}

#[test]
fn a_mismatch_is_reported_whether_or_not_the_schema_holds_the_name() {
    let blocks = vec![block(vec![], vec![("x", wrong_name)])];
    let failure = single_run(0, 1, 0, 0, &state(&[("x", 0)]), &blocks, &Mapping::new()).unwrap_err();
    assert!(matches!(failure.error, EngineError::StateKeyMismatch { .. }));
}

#[test]
fn a_mismatch_applies_nothing() {
    let schema = state(&[("x", 0), ("y", 0)]);
    let mut substate = state(&[("x", 1), ("y", 2)]);
    let before = substate.clone();
    let got = apply_update(&mut substate, &schema, &name("x"), change("y", Value::Int(9)));
    assert!(matches!(got, Err(EngineError::StateKeyMismatch { .. })));
    assert_eq!(substate, before);
}

#[test]
fn a_checked_update_is_applied() {
    let schema = state(&[("x", 0)]);
    let mut substate = state(&[("x", 1), ("other", 2)]);
    apply_update(&mut substate, &schema, &name("x"), change("x", Value::Int(9))).unwrap();
    assert_eq!(substate, state(&[("x", 9), ("other", 2)]));
}

#[test]
fn an_update_of_the_wrong_shape_is_a_type_error() {
    let schema = state(&[("x", 0)]);
    let shapes = vec![
        Value::Null,
        Value::Int(1),
        Value::Str(name("x")),
        Value::Dict(state(&[("x", 1)])),
        Value::List(vec![]),
        Value::List(vec![Value::Str(name("x"))]),
        Value::List(vec![Value::Str(name("x")), Value::Int(1), Value::Int(2)]),
        Value::List(vec![Value::Int(0), Value::Int(1)]),
    ];
    for shape in shapes {
        let mut substate = state(&[("x", 1)]);
        let got = apply_update(&mut substate, &schema, &name("x"), Outcome::Returned(shape));
        assert!(matches!(got, Err(EngineError::UpdateResultTypeError)));
        assert_eq!(substate, state(&[("x", 1)]));
    }
}

#[test]
fn an_update_outside_the_schema_is_an_invalid_key() {
    let schema = state(&[("x", 0)]);
    let mut substate = state(&[("x", 1)]);
    let got = apply_update(&mut substate, &schema, &name("w"), change("w", Value::Int(1)));
    match got {
        Err(EngineError::InvalidStateKey { key }) => assert_eq!(key, "w"),
        other => panic!("unexpected {:?}", other),
    }
    assert_eq!(substate, state(&[("x", 1)]));
}

#[test]
fn a_failed_or_missing_update_function_is_reported() {
    let schema = state(&[("x", 0)]);
    let mut substate = state(&[("x", 1)]);
    match apply_update(&mut substate, &schema, &name("x"), Outcome::Raised(name("bad"))) {
        Err(EngineError::PropagatedUserError { message }) => assert_eq!(message, "bad"),
        other => panic!("unexpected {:?}", other),
    }
    assert!(matches!(
        apply_update(&mut substate, &schema, &name("x"), Outcome::NotCallable),
        Err(EngineError::NotCallable)
    ));
    assert_eq!(substate, state(&[("x", 1)]));
}

fn set_w(
    _params: &Mapping,
    _substep: usize,
    _history: &Vec<Vec<Mapping>>,
    _substate: Mapping,
    _signals: Mapping,
) -> Outcome {
    change("w", Value::Int(1))
}

#[test]
fn a_variable_outside_the_schema_aborts_the_run() {
    let blocks = vec![block(vec![], vec![("x", increment_x)]), block(vec![], vec![("w", set_w)])];
    let failure = single_run(0, 3, 0, 0, &state(&[("x", 0)]), &blocks, &Mapping::new()).unwrap_err();
    match &failure.error {
        EngineError::InvalidStateKey { key } => assert_eq!(key, "w"),
        other => panic!("unexpected {:?}", other),
    }
    assert_eq!(failure.timestep, 1);
    assert_eq!(failure.substep, 1);
}

#[test]
fn the_marks_are_no_variables_unless_the_initial_state_holds_them() {
    fn set_run(
        _p: &Mapping,
        _s: usize,
        _h: &Vec<Vec<Mapping>>,
        _st: Mapping,
        _sig: Mapping,
    ) -> Outcome {
        change("run", Value::Int(0))
    }
    let blocks = vec![block(vec![], vec![("run", set_run)])];
    let failure = single_run(0, 1, 0, 0, &state(&[("x", 0)]), &blocks, &Mapping::new()).unwrap_err();
    assert!(matches!(failure.error, EngineError::InvalidStateKey { .. }));
}

fn raise(_p: &Mapping, _s: usize, _h: &Vec<Vec<Mapping>>, st: &Mapping) -> Outcome {
    if int_of(st, "timestep") == 2 {
        Outcome::Raised(name("policy failed"))
    } else {
        Outcome::Returned(Value::Dict(Mapping::new()))
    }
}

#[test]
fn a_failing_policy_aborts_the_run_with_its_place() {
    let blocks = vec![
        block(vec![], vec![("x", increment_x)]),
        block(vec![("p", raise)], vec![("x", increment_x)]),
    ];
    let failure = single_run(4, 3, 1, 0, &state(&[("x", 0)]), &blocks, &Mapping::new()).unwrap_err();
    match &failure.error {
        EngineError::PropagatedUserError { message } => assert_eq!(message, "policy failed"),
        other => panic!("unexpected {:?}", other),
    }
    assert_eq!(
        (failure.simulation, failure.run, failure.subset, failure.timestep, failure.substep),
        (4, 1, 0, 2, 1)
    );
}

fn not_a_mapping(_p: &Mapping, _s: usize, _h: &Vec<Vec<Mapping>>, _st: &Mapping) -> Outcome {
    Outcome::Returned(Value::Int(1))
}

fn cannot_add(_p: &Mapping, _s: usize, _h: &Vec<Vec<Mapping>>, _st: &Mapping) -> Outcome {
    let mut m = Mapping::new();
    m.set(name("s"), Value::Str(name("text")));
    Outcome::Returned(Value::Dict(m))
}

fn missing(_p: &Mapping, _s: usize, _h: &Vec<Vec<Mapping>>, _st: &Mapping) -> Outcome {
    Outcome::NotCallable
}

fn error_of(policies: Vec<(&str, PolicyBody)>, variables: Vec<(&str, UpdateBody)>) -> RunFailure {
    let blocks = vec![block(policies, variables)];
    single_run(0, 1, 0, 0, &state(&[("x", 0)]), &blocks, &Mapping::new()).unwrap_err()
}

#[test]
fn each_error_of_a_policy_aborts_the_run() {
    assert!(matches!(
        error_of(vec![("p", not_a_mapping)], vec![("x", increment_x)]).error,
        EngineError::PolicyResultTypeError
    ));
    assert!(matches!(
        error_of(vec![("p", cannot_add), ("q", cannot_add)], vec![("x", increment_x)]).error,
        EngineError::SignalMergeError { .. }
    ));
    assert!(matches!(
        error_of(vec![("p", missing)], vec![("x", increment_x)]).error,
        EngineError::NotCallable
    ));
}

#[test]
fn each_error_of_an_update_aborts_the_run() {
    fn no_pair(_p: &Mapping, _s: usize, _h: &Vec<Vec<Mapping>>, _st: Mapping, _sig: Mapping) -> Outcome {
        Outcome::Returned(Value::Int(3))
    }
    fn fails(_p: &Mapping, _s: usize, _h: &Vec<Vec<Mapping>>, _st: Mapping, _sig: Mapping) -> Outcome {
        Outcome::Raised(name("update failed"))
    }
    fn absent(_p: &Mapping, _s: usize, _h: &Vec<Vec<Mapping>>, _st: Mapping, _sig: Mapping) -> Outcome {
        Outcome::NotCallable
    }
    assert!(matches!(
        error_of(vec![], vec![("x", no_pair)]).error,
        EngineError::UpdateResultTypeError
    ));
    assert!(matches!(
        error_of(vec![], vec![("x", fails)]).error,
        EngineError::PropagatedUserError { .. }
    ));
    assert!(matches!(error_of(vec![], vec![("x", absent)]).error, EngineError::NotCallable));
}

fn spoil_and_set_a(
    _params: &Mapping,
    _substep: usize,
    _history: &Vec<Vec<Mapping>>,
    substate: Mapping,
    signals: Mapping,
) -> Outcome {
    let mut mine = substate;
    mine.set(name("a"), Value::Int(-1));
    mine.set(name("b"), Value::Int(-1));
    mine.set(name("junk"), Value::Int(-1));
    let mut theirs = signals;
    theirs.set(name("junk"), Value::Int(-1));
    change("a", Value::Int(1))
}

fn copy_what_b_sees(
    _params: &Mapping,
    _substep: usize,
    _history: &Vec<Vec<Mapping>>,
    substate: Mapping,
    _signals: Mapping,
) -> Outcome {
    let seen = vec![
        Value::Int(int_of(&substate, "a")),
        Value::Int(int_of(&substate, "b")),
        Value::Bool(substate.contains_key(&name("junk"))),
    ];
    change("b", Value::List(seen))
}

#[test]
fn what_an_update_does_to_its_substate_stays_with_it() {
    let blocks = vec![block(vec![], vec![("a", spoil_and_set_a), ("b", copy_what_b_sees)])];
    let initial = state(&[("a", 0), ("b", 0)]);
    let trajectory = single_run(0, 1, 0, 0, &initial, &blocks, &Mapping::new()).unwrap();
    assert_eq!(int_of(&trajectory[1][0], "a"), 1);
    assert!(!trajectory[1][0].contains_key(&name("junk")));
    assert_eq!(
        trajectory[1][0].get(&name("b")),
        Some(&Value::List(vec![Value::Int(1), Value::Int(0), Value::Bool(false)]))
    );
    assert_eq!(int_of(&trajectory[0][0], "a"), 0);
    assert_eq!(int_of(&trajectory[0][0], "b"), 0);
    assert!(!trajectory[0][0].contains_key(&name("junk")));
}

#[test]
fn one_variable_step_changes_that_variable_only() {
    let blocks = block(vec![], vec![("a", spoil_and_set_a), ("b", copy_what_b_sees)]);
    let schema = state(&[("a", 0), ("b", 0)]);
    let history: Vec<Vec<Mapping>> = Vec::new();
    let mut substate = state(&[("a", 5), ("b", 6), ("c", 7)]);
    step_variable(&blocks, 0, 0, &schema, &Mapping::new(), &history, &mut substate).unwrap();
    assert_eq!(substate, state(&[("a", 1), ("b", 6), ("c", 7)]));
}

#[test]
fn a_substep_works_on_a_copy_of_the_substate_before_it() {
    let b = block(vec![], vec![("x", increment_x)]);
    let schema = state(&[("x", 0)]);
    let history: Vec<Vec<Mapping>> = Vec::new();
    let previous = state(&[("x", 10), ("substep", 0)]);
    let next = execute_substep(&b, 4, &schema, &Mapping::new(), &history, &previous).unwrap();
    assert_eq!(next, state(&[("x", 11), ("substep", 5)]));
    assert_eq!(previous, state(&[("x", 10), ("substep", 0)]));
}

fn unmark(m: &Mapping) -> Vec<(String, Value)> {
    (0..m.len())
        .filter(|i| m.key_at(*i) != "run")
        .map(|i| (m.key_at(i).clone(), m.value_at(i).clone()))
        .collect()
}

#[test]
fn two_runs_differ_in_their_run_mark_only() {
    let blocks = vec![block(vec![("a", one), ("b", two)], vec![("x", add_signal)])];
    let initial = state(&[("x", 0)]);
    let first = single_run(0, 3, 0, 0, &initial, &blocks, &Mapping::new()).unwrap();
    let second = single_run(0, 3, 1, 0, &initial, &blocks, &Mapping::new()).unwrap();
    assert_eq!(first.len(), second.len());
    for t in 0..first.len() {
        assert_eq!(first[t].len(), second[t].len());
        for j in 0..first[t].len() {
            assert_eq!(int_of(&first[t][j], "run"), 1);
            assert_eq!(int_of(&second[t][j], "run"), 2);
            assert_eq!(unmark(&first[t][j]), unmark(&second[t][j]));
        }
    }
}

#[test]
fn runs_give_the_same_results_in_either_order_and_in_a_batch() {
    let initial = state(&[("x", 0)]);
    let blocks = || vec![block(vec![("a", one)], vec![("x", add_signal)])];
    let second_first = single_run(0, 2, 1, 0, &initial, &blocks(), &Mapping::new()).unwrap();
    let first_second = single_run(0, 2, 0, 0, &initial, &blocks(), &Mapping::new()).unwrap();
    let first_again = single_run(0, 2, 0, 0, &initial, &blocks(), &Mapping::new()).unwrap();
    let second_again = single_run(0, 2, 1, 0, &initial, &blocks(), &Mapping::new()).unwrap();
    assert_eq!(first_second, first_again);
    assert_eq!(second_first, second_again);

    let mut expected: Vec<Mapping> = Vec::new();
    extend_flat(&mut expected, first_second);
    extend_flat(&mut expected, second_first);
    let model = Model::new(state(&[("x", 0)]), blocks(), Vec::new());
    let states = run(&vec![Simulation::new(2, 2, model)]).unwrap();
    assert_eq!(states, expected);
    assert_eq!(states.len(), 6);
}

#[test]
fn flattening_keeps_the_order_of_the_substates() {
    let trajectory = vec![
        vec![state(&[("i", 0)])],
        vec![],
        vec![state(&[("i", 1)]), state(&[("i", 2)])],
    ];
    let mut out = vec![state(&[("i", -1)])];
    extend_flat(&mut out, trajectory);
    let got: Vec<i128> = out.iter().map(|m| int_of(m, "i")).collect();
    assert_eq!(got, vec![-1, 0, 1, 2]);
}

fn add_rate(
    params: &Mapping,
    _substep: usize,
    _history: &Vec<Vec<Mapping>>,
    substate: Mapping,
    _signals: Mapping,
) -> Outcome {
    change("x", Value::Int(int_of(&substate, "x") + int_of(params, "rate")))
}

#[test]
fn a_sweep_runs_every_subset_in_every_run() {
    let params = vec![(name("rate"), vec![Value::Int(1), Value::Int(10)])];
    let model = Model::new(state(&[("x", 0)]), vec![block(vec![], vec![("x", add_rate)])], params);
    let sims = vec![Simulation::new(2, 2, model)];
    let states = run(&sims).unwrap();
    assert_eq!(states.len(), 12);
    let marks: Vec<(i128, i128, i128, i128)> = states
        .iter()
        .map(|s| (int_of(s, "run"), int_of(s, "subset"), int_of(s, "timestep"), int_of(s, "x")))
        .collect();
    assert_eq!(
        marks,
        vec![
            (1, 0, 0, 0),
            (1, 0, 1, 1),
            (1, 0, 2, 2),
            (1, 1, 0, 0),
            (1, 1, 1, 10),
            (1, 1, 2, 20),
            (2, 0, 0, 0),
            (2, 0, 1, 1),
            (2, 0, 2, 2),
            (2, 1, 0, 0),
            (2, 1, 1, 10),
            (2, 1, 2, 20),
        ]
    );
}

fn count_candidates(
    params: &Mapping,
    _substep: usize,
    _history: &Vec<Vec<Mapping>>,
    _substate: Mapping,
    _signals: Mapping,
) -> Outcome {
    match params.get(&name("rate")) {
        Some(Value::List(items)) => change("x", Value::Int(items.len() as i128)),
        Some(_) => change("x", Value::Int(-1)),
        None => change("x", Value::Int(-2)),
    }
}

#[test]
fn without_a_sweep_the_parameters_are_handed_on_as_they_stand() {
    let params = vec![(name("rate"), Vec::new())];
    let model =
        Model::new(state(&[("x", 0)]), vec![block(vec![], vec![("x", count_candidates)])], params);
    let states = run(&vec![Simulation::new(1, 1, model)]).unwrap();
    assert_eq!(states.len(), 2);
    assert_eq!(int_of(&states[1], "x"), 0);
    assert_eq!(int_of(&states[1], "subset"), 0);

    let model =
        Model::new(state(&[("x", 0)]), vec![block(vec![], vec![("x", count_candidates)])], Vec::new());
    let states = run(&vec![Simulation::new(1, 1, model)]).unwrap();
    assert_eq!(int_of(&states[1], "x"), -2);
}

#[test]
fn simulations_are_numbered_in_order() {
    let a = Model::new(state(&[("x", 0)]), counter_blocks(), Vec::new());
    let b = Model::new(state(&[("x", 100)]), counter_blocks(), Vec::new());
    let states = run(&vec![Simulation::new(1, 1, a), Simulation::new(2, 1, b)]).unwrap();
    let marks: Vec<(i128, i128)> =
        states.iter().map(|s| (int_of(s, "simulation"), int_of(s, "x"))).collect();
    assert_eq!(marks, vec![(0, 0), (0, 1), (1, 100), (1, 101), (1, 102)]);
}

#[test]
fn no_simulations_and_no_runs_give_no_states() {
    let none: Vec<Simulation<Policy, Update>> = Vec::new();
    assert!(run(&none).unwrap().is_empty());
    let model = Model::new(state(&[("x", 0)]), counter_blocks(), Vec::new());
    assert!(run(&vec![Simulation::new(3, 0, model)]).unwrap().is_empty());
}

#[test]
fn a_failure_ends_the_batch() {
    let good = Model::new(state(&[("x", 0)]), counter_blocks(), Vec::new());
    let bad = Model::new(state(&[("x", 0)]), vec![block(vec![], vec![("x", wrong_name)])], Vec::new());
    let failure = run(&vec![Simulation::new(1, 1, good), Simulation::new(1, 2, bad)]).unwrap_err();
    assert!(matches!(failure.error, EngineError::StateKeyMismatch { .. }));
    assert_eq!(failure.simulation, 1);
    assert_eq!(failure.run, 0);
    assert_eq!(failure.timestep, 1);
}

#[test]
fn constructors_keep_what_they_are_given() {
    let model = Model::new(state(&[("x", 1)]), counter_blocks(), vec![(name("p"), vec![Value::Null])]);
    assert_eq!(model.initial_state, state(&[("x", 1)]));
    assert_eq!(model.blocks.len(), 1);
    assert_eq!(model.params.len(), 1);
    let sim = Simulation::new(100, 1, model);
    assert_eq!(sim.timesteps, 100);
    assert_eq!(sim.runs, 1);
    assert_eq!(sim.model.params[0].0, "p");
}

#[test]
fn a_longer_run_begins_as_the_shorter_one() {
    let blocks = vec![block(vec![("a", one), ("b", two)], vec![("x", add_signal)])];
    let initial = state(&[("x", 0)]);
    let shorter = single_run(0, 2, 0, 0, &initial, &blocks, &Mapping::new()).unwrap();
    let longer = single_run(0, 5, 0, 0, &initial, &blocks, &Mapping::new()).unwrap();
    assert_eq!(longer.len(), 6);
    assert_eq!(&longer[..3], &shorter[..]);
}

#[test]
fn no_substate_holds_a_name_twice() {
    let blocks = vec![
        block(vec![], vec![("a", spoil_and_set_a)]),
        block(vec![], vec![("x", increment_x)]),
    ];
    let initial = state(&[("a", 0), ("x", 0), ("run", 7)]);
    let trajectory = single_run(0, 3, 0, 0, &initial, &blocks, &Mapping::new()).unwrap();
    for entry in &trajectory {
        for substate in entry {
            for i in 0..substate.len() {
                assert_eq!(substate.find(substate.key_at(i)), Some(i));
            }
        }
    }
}
