//! Expansion of swept parameters into parameter sets.

use vstd::prelude::*;
use crate::value::{has_key, record_set, Datum, Mapping, Record, Value};

verus! {

/// The mathematical content of swept parameters: each name with its candidates.
pub type ParamSpace = Seq<(Seq<char>, Seq<Datum>)>;

/// The length of the sweep: that of the longest candidate sequence, 0 without parameters.
pub open spec fn sweep_len(p: ParamSpace) -> nat
    decreases p.len(),
{
    if p.len() == 0 {
        0
    } else {
        let rest = sweep_len(p.drop_last());
        let n = p.last().1.len();
        if n > rest {
            n
        } else {
            rest
        }
    }
}

/// The candidate taken at sweep index `i`: the one at `i`, or the last one
/// where the sequence is shorter.
pub open spec fn candidate(seq: Seq<Datum>, i: int) -> Datum {
    if i < seq.len() {
        seq[i]
    } else {
        seq[seq.len() - 1]
    }
}

/// The parameter set at sweep index `i`: every name set, in order, to its candidate at `i`.
pub open spec fn parameter_set(p: ParamSpace, i: int) -> Record
    decreases p.len(),
{
    if p.len() == 0 {
        Seq::empty()
    } else {
        record_set(parameter_set(p.drop_last(), i), p.last().0, candidate(p.last().1, i))
    }
}

/// The whole sweep.
pub open spec fn sweep(p: ParamSpace) -> Seq<Record> {
    Seq::new(sweep_len(p), |i: int| parameter_set(p, i))
}

/// Whether every parameter has a candidate to take at each index of the sweep:
/// none is empty unless all are.
pub open spec fn sweepable(p: ParamSpace) -> bool {
    sweep_len(p) > 0 ==> forall|k: int| 0 <= k < p.len() ==> (#[trigger] p[k]).1.len() > 0
}

/// The sweep length is the greatest candidate count: it bounds each, and one reaches it.
pub proof fn lemma_sweep_len_is_max(p: ParamSpace)
    ensures
        forall|k: int| 0 <= k < p.len() ==> (#[trigger] p[k]).1.len() <= sweep_len(p),
        p.len() == 0 ==> sweep_len(p) == 0,
        p.len() > 0 ==> exists|k: int| 0 <= k < p.len() && (#[trigger] p[k]).1.len() == sweep_len(p),
    decreases p.len(),
{
    if p.len() > 0 {
        let q = p.drop_last();
        lemma_sweep_len_is_max(q);
        assert forall|k: int| 0 <= k < p.len() implies (#[trigger] p[k]).1.len() <= sweep_len(p) by {
            if k < q.len() {
                assert(q[k] == p[k]);
            }
        }
        if p.last().1.len() > sweep_len(q) || q.len() == 0 {
            assert(p[p.len() - 1].1.len() == sweep_len(p));
        } else {
            let k = choose|k: int| 0 <= k < q.len() && (#[trigger] q[k]).1.len() == sweep_len(q);
            assert(p[k] == q[k]);
        }
    }
}

/// Whether no parameter is named twice.
pub open spec fn distinct_names(p: ParamSpace) -> bool {
    forall|i: int, j: int| 0 <= i < j < p.len() ==> (#[trigger] p[i]).0 != (#[trigger] p[j]).0
}

/// Where no parameter is named twice, a parameter set holds one entry for each
/// parameter, in order: its name with its candidate at the sweep index.
pub proof fn lemma_parameter_set_entries(p: ParamSpace, i: int)
    requires
        distinct_names(p),
    ensures
        parameter_set(p, i) == Seq::new(p.len(), |k: int| (p[k].0, candidate(p[k].1, i))),
    decreases p.len(),
{
    let entries = Seq::new(p.len(), |k: int| (p[k].0, candidate(p[k].1, i)));
    if p.len() == 0 {
        assert(parameter_set(p, i) =~= entries);
    } else {
        let q = p.drop_last();
        let before = parameter_set(q, i);
        assert forall|a: int, b: int| 0 <= a < b < q.len() implies (#[trigger] q[a]).0 != (
        #[trigger] q[b]).0 by {
            assert(q[a] == p[a]);
            assert(q[b] == p[b]);
        }
        lemma_parameter_set_entries(q, i);
        if has_key(before, p.last().0) {
            let w = choose|w: int| 0 <= w < before.len() && (#[trigger] before[w]).0 == p.last().0;
            assert(before[w].0 == q[w].0);
            assert(q[w] == p[w]);
            assert(p[w].0 != p[p.len() - 1].0);
        }
        assert(parameter_set(p, i) =~= entries) by {
            assert forall|k: int| 0 <= k < p.len() implies parameter_set(p, i)[k] == entries[k] by {
                if k < q.len() {
                    assert(q[k] == p[k]);
                }
            }
        }
    }
}

/// The number of candidates of the longest parameter.
fn longest(params: &Vec<(String, Vec<Value>)>) -> (out: usize)
    ensures
        out == sweep_len(params.deep_view()),
{
    let ghost p = params.deep_view();
    let mut max_len: usize = 0;
    let mut k: usize = 0;
    while k < params.len()
        invariant
            k <= params.len(),
            p == params.deep_view(),
            max_len == sweep_len(p.take(k as int)),
        decreases params.len() - k,
    {
        proof {
            assert(p.take(k + 1).drop_last() =~= p.take(k as int));
            assert(p.take(k + 1).last() == p[k as int]);
            assert(p[k as int].1.len() == params@[k as int].1.len());
        }
        if params[k].1.len() > max_len {
            max_len = params[k].1.len();
        }
        k += 1;
    }
    assert(p.take(k as int) =~= p);
    max_len
}

/// The parameter set at sweep index `i`.
fn parameter_set_at(params: &Vec<(String, Vec<Value>)>, i: usize) -> (out: Mapping)
    requires
        forall|k: int| 0 <= k < params.len() ==> (#[trigger] params@[k]).1.len() > 0,
    ensures
        out@ == parameter_set(params.deep_view(), i as int),
{
    let ghost p = params.deep_view();
    let mut set = Mapping::new();
    let mut k: usize = 0;
    while k < params.len()
        invariant
            k <= params.len(),
            p == params.deep_view(),
            forall|k: int| 0 <= k < params.len() ==> (#[trigger] params@[k]).1.len() > 0,
            set@ == parameter_set(p.take(k as int), i as int),
        decreases params.len() - k,
    {
        let candidates = &params[k].1;
        let chosen = if i < candidates.len() {
            candidates[i].clone()
        } else {
            candidates[candidates.len() - 1].clone()
        };
        proof {
            assert(p.take(k + 1).drop_last() =~= p.take(k as int));
            assert(p.take(k + 1).last() == p[k as int]);
            assert(p[k as int].1 == candidates.deep_view());
            assert(chosen@ == candidate(p[k as int].1, i as int));
        }
        set.set(params[k].0.clone(), chosen);
        k += 1;
    }
    assert(p.take(k as int) =~= p);
    set
}

/// Expands swept parameters into one parameter set per sweep index. The sweep
/// is as long as the longest candidate sequence; a shorter sequence gives its
/// last candidate from its end on. Without parameters the sweep is empty.
pub fn generate_parameter_sweep(params: &Vec<(String, Vec<Value>)>) -> (out: Vec<Mapping>)
    requires
        sweepable(params.deep_view()),
    ensures
        out.deep_view() == sweep(params.deep_view()),
{
    let ghost p = params.deep_view();
    let max_len = longest(params);
    let mut out: Vec<Mapping> = Vec::new();
    let mut i: usize = 0;
    proof {
        if max_len > 0 {
            assert forall|k: int| 0 <= k < params.len() implies (#[trigger] params@[k]).1.len()
                > 0 by {
                assert(p[k].1.len() == params@[k].1.len());
            }
        }
    }
    while i < max_len
        invariant
            i <= max_len,
            p == params.deep_view(),
            max_len == sweep_len(p),
            max_len > 0 ==> forall|k: int|
                0 <= k < params.len() ==> (#[trigger] params@[k]).1.len() > 0,
            out.len() == i,
            forall|j: int| 0 <= j < i ==> (#[trigger] out@[j])@ == parameter_set(p, j),
        decreases max_len - i,
    {
        let set = parameter_set_at(params, i);
        out.push(set);
        i += 1;
    }
    assert(out.deep_view() =~= sweep(p));
    out
}

} // verus!
