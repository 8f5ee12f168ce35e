use radcad::sweep::generate_parameter_sweep;
use radcad::value::{Mapping, Value};

fn name(s: &str) -> String {
    s.to_string()
}

fn ints(xs: &[i128]) -> Vec<Value> {
    xs.iter().map(|x| Value::Int(*x)).collect()
}

fn set_of(pairs: &[(&str, i128)]) -> Mapping {
    let mut m = Mapping::new();
    for (k, v) in pairs {
        m.set(name(k), Value::Int(*v));
    }
    m
}

#[test]
fn sweep_pads_shorter_sequences_with_their_last_value() {
    let params = vec![(name("a"), ints(&[1, 2, 3])), (name("b"), ints(&[10, 20]))];
    let sweep = generate_parameter_sweep(&params);
    assert_eq!(sweep.len(), 3);
    assert_eq!(sweep[0], set_of(&[("a", 1), ("b", 10)]));
    assert_eq!(sweep[1], set_of(&[("a", 2), ("b", 20)]));
    assert_eq!(sweep[2], set_of(&[("a", 3), ("b", 20)]));
}

#[test]
fn sweep_of_no_parameters_is_empty() {
    let params: Vec<(String, Vec<Value>)> = Vec::new();
    let sweep = generate_parameter_sweep(&params);
    assert!(sweep.is_empty());
}

#[test]
fn sweep_of_empty_sequences_is_empty() {
    let params = vec![(name("a"), Vec::new()), (name("b"), Vec::new())];
    assert!(generate_parameter_sweep(&params).is_empty());
}

#[test]
fn sweep_of_one_parameter_lists_its_candidates() {
    let params = vec![(name("rate"), ints(&[5, 6]))];
    let sweep = generate_parameter_sweep(&params);
    assert_eq!(sweep.len(), 2);
    assert_eq!(sweep[0], set_of(&[("rate", 5)]));
    assert_eq!(sweep[1], set_of(&[("rate", 6)]));
}

#[test]
fn sweep_of_equal_lengths_pairs_by_index() {
    let params = vec![(name("a"), ints(&[1, 2])), (name("b"), ints(&[3, 4]))];
    let sweep = generate_parameter_sweep(&params);
    assert_eq!(sweep.len(), 2);
    assert_eq!(sweep[0], set_of(&[("a", 1), ("b", 3)]));
    assert_eq!(sweep[1], set_of(&[("a", 2), ("b", 4)]));
}

#[test]
fn sweep_keeps_the_order_of_the_parameters() {
    let params = vec![(name("z"), ints(&[1])), (name("a"), ints(&[2])), (name("m"), ints(&[3]))];
    let sweep = generate_parameter_sweep(&params);
    assert_eq!(sweep.len(), 1);
    assert_eq!(sweep[0].len(), 3);
    assert_eq!(sweep[0].key_at(0), "z");
    assert_eq!(sweep[0].key_at(1), "a");
    assert_eq!(sweep[0].key_at(2), "m");
}

#[test]
fn sweep_repeats_a_single_candidate_throughout() {
    let params = vec![(name("a"), ints(&[7])), (name("b"), ints(&[1, 2, 3, 4]))];
    let sweep = generate_parameter_sweep(&params);
    assert_eq!(sweep.len(), 4);
    for (i, set) in sweep.iter().enumerate() {
        assert_eq!(set.get(&name("a")), Some(&Value::Int(7)));
        assert_eq!(set.get(&name("b")), Some(&Value::Int(i as i128 + 1)));
    }
}

#[test]
fn sweep_copies_nested_candidates() {
    let nested = Value::List(vec![Value::Int(1), Value::Str(name("x"))]);
    let params = vec![(name("a"), vec![nested.clone(), Value::Null])];
    let sweep = generate_parameter_sweep(&params);
    assert_eq!(sweep.len(), 2);
    assert_eq!(sweep[0].get(&name("a")), Some(&nested));
    assert_eq!(sweep[1].get(&name("a")), Some(&Value::Null));
}
