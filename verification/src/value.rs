//! Schema-free values and the insertion-ordered mappings that hold them.

use vstd::prelude::*;

verus! {

/// The mathematical content of a [`Value`].
pub enum Datum {
    Null,
    Bool(bool),
    Int(int),
    Str(Seq<char>),
    List(Seq<Datum>),
    Dict(Seq<(Seq<char>, Datum)>),
}

/// The mathematical content of a [`Mapping`]: its entries in insertion order.
pub type Record = Seq<(Seq<char>, Datum)>;

/// A state, parameter or signal entry of any shape: nothing, a truth value,
/// an integer, a string, a list of values or a mapping from names to values.
#[derive(Debug)]
pub enum Value {
    Null,
    Bool(bool),
    Int(i128),
    Str(String),
    List(Vec<Value>),
    Dict(Mapping),
}

/// A mapping from names to values that keeps the order in which names were
/// first set. Built by [`Mapping::new`] and [`Mapping::set`] it never holds a
/// name twice.
#[derive(Debug)]
pub struct Mapping {
    entries: Vec<(String, Value)>,
}

/// The content of a value: what it holds, down to its leaves. (The bounds on
/// `i` are there for the recursion to be seen to end.)
pub open spec fn datum_of(v: Value) -> Datum
    decreases v,
{
    match v {
        Value::Null => Datum::Null,
        Value::Bool(b) => Datum::Bool(b),
        Value::Int(i) => Datum::Int(i as int),
        Value::Str(s) => Datum::Str(s@),
        Value::List(items) => Datum::List(
            Seq::new(
                items@.len(),
                |i: int|
                    if 0 <= i < items@.len() {
                        datum_of(items@[i])
                    } else {
                        Datum::Null
                    },
            ),
        ),
        Value::Dict(m) => Datum::Dict(
            Seq::new(
                m.pairs().len(),
                |i: int|
                    if 0 <= i < m.pairs().len() {
                        (m.pairs()[i].0@, datum_of(m.pairs()[i].1))
                    } else {
                        (Seq::empty(), Datum::Null)
                    },
            ),
        ),
    }
}

impl View for Value {
    type V = Datum;

    open spec fn view(&self) -> Datum {
        datum_of(*self)
    }
}

impl Mapping {
    /// The stored pairs, in insertion order.
    pub closed spec fn pairs(&self) -> Seq<(String, Value)> {
        self.entries@
    }
}

impl View for Mapping {
    type V = Record;

    open spec fn view(&self) -> Record {
        Seq::new(self.pairs().len(), |i: int| (self.pairs()[i].0@, self.pairs()[i].1@))
    }
}

impl DeepView for Value {
    type V = Datum;

    open spec fn deep_view(&self) -> Datum {
        self@
    }
}

impl DeepView for Mapping {
    type V = Record;

    open spec fn deep_view(&self) -> Record {
        self@
    }
}

/// A list value holds the contents of its items, in order.
pub proof fn lemma_list_view(items: Vec<Value>)
    ensures
        Value::List(items)@ == Datum::List(items.deep_view()),
{
    assert(Value::List(items)@->List_0 =~= items.deep_view());
}

/// A dictionary value holds the contents of its mapping.
pub proof fn lemma_dict_view(m: Mapping)
    ensures
        Value::Dict(m)@ == Datum::Dict(m@),
{
    assert(Value::Dict(m)@->Dict_0 =~= m@);
}

/// Whether some entry of `r` is named `key`.
pub open spec fn has_key(r: Record, key: Seq<char>) -> bool {
    exists|i: int| 0 <= i < r.len() && (#[trigger] r[i]).0 == key
}

/// Whether `i` is the first place in `r` whose entry is named `key`.
pub open spec fn is_first(r: Record, key: Seq<char>, i: int) -> bool {
    &&& 0 <= i < r.len()
    &&& r[i].0 == key
    &&& forall|j: int| 0 <= j < i ==> (#[trigger] r[j]).0 != key
}

/// The first place in `r` whose entry is named `key`, where there is one.
pub open spec fn position(r: Record, key: Seq<char>) -> int {
    choose|i: int| is_first(r, key, i)
}

/// The value that `r` holds under `key`, where it holds one.
pub open spec fn lookup(r: Record, key: Seq<char>) -> Datum {
    r[position(r, key)].1
}

/// `r` after `key` is set to `value`: an entry that is there keeps its place,
/// a new one goes to the end.
pub open spec fn record_set(r: Record, key: Seq<char>, value: Datum) -> Record {
    if has_key(r, key) {
        r.update(position(r, key), (key, value))
    } else {
        r.push((key, value))
    }
}

/// Whether no name occurs twice in `r`.
pub open spec fn distinct_keys(r: Record) -> bool {
    forall|i: int, j: int| 0 <= i < j < r.len() ==> (#[trigger] r[i]).0 != (#[trigger] r[j]).0
}

/// A first place is the only first place.
pub proof fn lemma_first_is_position(r: Record, key: Seq<char>, i: int)
    requires
        is_first(r, key, i),
    ensures
        has_key(r, key),
        position(r, key) == i,
{
    let p = position(r, key);
    assert(is_first(r, key, p));
    if p < i {
        assert(r[p].0 != key);
    }
    if i < p {
        assert(r[i].0 != key);
    }
}

/// A name that occurs in `r` has a first place there.
pub proof fn lemma_position_is_first(r: Record, key: Seq<char>)
    requires
        has_key(r, key),
    ensures
        is_first(r, key, position(r, key)),
{
    let w = choose|i: int| 0 <= i < r.len() && (#[trigger] r[i]).0 == key;
    lemma_first_below(r, key, w);
}

proof fn lemma_first_below(r: Record, key: Seq<char>, w: int)
    requires
        0 <= w < r.len(),
        r[w].0 == key,
    ensures
        exists|i: int| is_first(r, key, i),
    decreases w,
{
    if forall|j: int| 0 <= j < w ==> (#[trigger] r[j]).0 != key {
        assert(is_first(r, key, w));
    } else {
        let j = choose|j: int| 0 <= j < w && (#[trigger] r[j]).0 == key;
        lemma_first_below(r, key, j);
    }
}

/// What setting a name does, place by place: an entry that is there is
/// replaced where it stands, a new one is appended, and every other entry
/// stays where it is.
pub proof fn lemma_set_places(r: Record, key: Seq<char>, value: Datum)
    ensures
        has_key(r, key) ==> {
            &&& record_set(r, key, value).len() == r.len()
            &&& is_first(r, key, position(r, key))
            &&& record_set(r, key, value)[position(r, key)] == (key, value)
            &&& forall|i: int|
                0 <= i < r.len() && i != position(r, key) ==> #[trigger] record_set(
                    r,
                    key,
                    value,
                )[i] == r[i]
        },
        !has_key(r, key) ==> {
            &&& record_set(r, key, value).len() == r.len() + 1
            &&& record_set(r, key, value)[r.len() as int] == (key, value)
            &&& forall|i: int| 0 <= i < r.len() ==> #[trigger] record_set(r, key, value)[i] == r[i]
        },
        forall|i: int|
            0 <= i < r.len() ==> (#[trigger] record_set(r, key, value)[i]).0 == r[i].0,
{
    if has_key(r, key) {
        lemma_position_is_first(r, key);
    }
}

/// After a name is set, the record holds it, with the value given.
pub proof fn lemma_set_then_lookup(r: Record, key: Seq<char>, value: Datum)
    ensures
        has_key(record_set(r, key, value), key),
        lookup(record_set(r, key, value), key) == value,
{
    let after = record_set(r, key, value);
    lemma_set_places(r, key, value);
    if has_key(r, key) {
        assert(is_first(after, key, position(r, key)));
        lemma_first_is_position(after, key, position(r, key));
    } else {
        assert forall|j: int| 0 <= j < r.len() implies (#[trigger] after[j]).0 != key by {
            assert(after[j].0 == r[j].0);
        }
        assert(is_first(after, key, r.len() as int));
        lemma_first_is_position(after, key, r.len() as int);
    }
}

/// Setting one name leaves every other name as it was: whether the record
/// holds it, where, and with which value.
pub proof fn lemma_set_keeps_others(r: Record, key: Seq<char>, value: Datum, other: Seq<char>)
    requires
        other != key,
    ensures
        has_key(record_set(r, key, value), other) == has_key(r, other),
        has_key(r, other) ==> position(record_set(r, key, value), other) == position(r, other),
        has_key(r, other) ==> lookup(record_set(r, key, value), other) == lookup(r, other),
{
    let after = record_set(r, key, value);
    lemma_set_places(r, key, value);
    if has_key(r, other) {
        lemma_position_is_first(r, other);
        let p = position(r, other);
        assert(after[p] == r[p]);
        assert forall|j: int| 0 <= j < p implies (#[trigger] after[j]).0 != other by {
            assert(after[j].0 == r[j].0);
        }
        assert(is_first(after, other, p));
        lemma_first_is_position(after, other, p);
    } else {
        if has_key(after, other) {
            let w = choose|i: int| 0 <= i < after.len() && (#[trigger] after[i]).0 == other;
            if w < r.len() {
                assert(after[w].0 == r[w].0);
                assert(r[w].0 == other);
            }
        }
    }
}

/// Of two settings of one name, the second alone counts.
pub proof fn lemma_set_twice(r: Record, key: Seq<char>, a: Datum, b: Datum)
    ensures
        record_set(record_set(r, key, a), key, b) == record_set(r, key, b),
{
    let once = record_set(r, key, a);
    lemma_set_places(r, key, a);
    lemma_set_then_lookup(r, key, a);
    lemma_position_is_first(once, key);
    if has_key(r, key) {
        let p = position(r, key);
        assert forall|j: int| 0 <= j < p implies (#[trigger] once[j]).0 != key by {
            assert(once[j].0 == r[j].0);
        }
        assert(is_first(once, key, p));
        lemma_first_is_position(once, key, p);
        assert(record_set(once, key, b) =~= record_set(r, key, b));
    } else {
        assert forall|j: int| 0 <= j < r.len() implies (#[trigger] once[j]).0 != key by {
            assert(once[j].0 == r[j].0);
        }
        assert(is_first(once, key, r.len() as int));
        lemma_first_is_position(once, key, r.len() as int);
        assert(record_set(once, key, b) =~= record_set(r, key, b));
    }
}

/// Settings of two names can change places, so long as the record holds one
/// of the names already: else the order in which the names are added shows.
pub proof fn lemma_sets_commute(r: Record, k1: Seq<char>, v1: Datum, k2: Seq<char>, v2: Datum)
    requires
        k1 != k2,
        has_key(r, k1) || has_key(r, k2),
    ensures
        record_set(record_set(r, k1, v1), k2, v2) == record_set(record_set(r, k2, v2), k1, v1),
{
    let a = record_set(r, k1, v1);
    let b = record_set(r, k2, v2);
    lemma_set_places(r, k1, v1);
    lemma_set_places(r, k2, v2);
    lemma_set_keeps_others(r, k1, v1, k2);
    lemma_set_keeps_others(r, k2, v2, k1);
    lemma_set_places(a, k2, v2);
    lemma_set_places(b, k1, v1);
    if has_key(r, k1) {
        lemma_position_is_first(r, k1);
    }
    if has_key(r, k2) {
        lemma_position_is_first(r, k2);
    }
    assert(record_set(a, k2, v2) =~= record_set(b, k1, v1));
}

/// Setting a name keeps the names of a record distinct.
pub proof fn lemma_set_keeps_distinct(r: Record, key: Seq<char>, value: Datum)
    requires
        distinct_keys(r),
    ensures
        distinct_keys(record_set(r, key, value)),
{
    let after = record_set(r, key, value);
    lemma_set_places(r, key, value);
    assert forall|i: int, j: int| 0 <= i < j < after.len() implies (#[trigger] after[i]).0 != (
    #[trigger] after[j]).0 by {
        if j < r.len() {
            assert(after[i].0 == r[i].0);
            assert(after[j].0 == r[j].0);
        } else {
            assert(after[i].0 == r[i].0);
            assert(r[i].0 != key);
        }
    }
}

impl Mapping {
    /// An empty mapping.
    pub fn new() -> (out: Mapping)
        ensures
            out@ == Seq::<(Seq<char>, Datum)>::empty(),
            distinct_keys(out@),
    {
        Mapping { entries: Vec::new() }
    }

    /// The number of entries.
    pub fn len(&self) -> (out: usize)
        ensures
            out == self@.len(),
    {
        self.entries.len()
    }

    /// The name of the entry at place `i`.
    pub fn key_at(&self, i: usize) -> (out: &String)
        requires
            i < self@.len(),
        ensures
            out@ == self@[i as int].0,
    {
        &self.entries[i].0
    }

    /// The value of the entry at place `i`.
    pub fn value_at(&self, i: usize) -> (out: &Value)
        requires
            i < self@.len(),
        ensures
            out@ == self@[i as int].1,
    {
        &self.entries[i].1
    }

    /// The first place that holds `key`, if any.
    pub fn find(&self, key: &String) -> (out: Option<usize>)
        ensures
            match out {
                Some(i) => is_first(self@, key@, i as int),
                None => !has_key(self@, key@),
            },
    {
        let mut i: usize = 0;
        while i < self.entries.len()
            invariant
                i <= self.entries.len(),
                forall|j: int| 0 <= j < i ==> (#[trigger] self@[j]).0 != key@,
            decreases self.entries.len() - i,
        {
            if self.entries[i].0 == *key {
                return Some(i);
            }
            i += 1;
        }
        None
    }

    /// Whether the mapping holds `key`.
    pub fn contains_key(&self, key: &String) -> (out: bool)
        ensures
            out == has_key(self@, key@),
    {
        match self.find(key) {
            Some(i) => {
                proof {
                    lemma_first_is_position(self@, key@, i as int);
                }
                true
            },
            None => false,
        }
    }

    /// The value held under `key`, if any.
    pub fn get(&self, key: &String) -> (out: Option<&Value>)
        ensures
            match out {
                Some(v) => has_key(self@, key@) && v@ == lookup(self@, key@),
                None => !has_key(self@, key@),
            },
    {
        match self.find(key) {
            Some(i) => {
                proof {
                    lemma_first_is_position(self@, key@, i as int);
                }
                Some(&self.entries[i].1)
            },
            None => None,
        }
    }

    /// Sets `key` to `value`: in place where the mapping holds `key`, at the end where not.
    pub fn set(&mut self, key: String, value: Value)
        ensures
            final(self)@ == record_set(old(self)@, key@, value@),
            distinct_keys(old(self)@) ==> distinct_keys(final(self)@),
    {
        proof {
            if distinct_keys(self@) {
                lemma_set_keeps_distinct(self@, key@, value@);
            }
        }
        match self.find(&key) {
            Some(i) => {
                proof {
                    lemma_first_is_position(self@, key@, i as int);
                }
                self.entries[i] = (key, value);
                assert(self@ =~= old(self)@.update(i as int, (key@, value@)));
            },
            None => {
                self.entries.push((key, value));
                assert(self@ =~= old(self)@.push((key@, value@)));
            },
        }
    }
}

/// What `+` gives on two contents: the sum of two integers that fits in 128 bits,
/// the concatenation of two lists, and nothing for any other pair.
pub open spec fn datum_add(a: Datum, b: Datum) -> Option<Datum> {
    match (a, b) {
        (Datum::Int(x), Datum::Int(y)) => if i128::MIN <= x + y <= i128::MAX {
            Some(Datum::Int(x + y))
        } else {
            None
        },
        (Datum::List(x), Datum::List(y)) => Some(Datum::List(x + y)),
        _ => None,
    }
}

/// A deep copy of a list of values.
pub fn clone_items(items: &Vec<Value>) -> (out: Vec<Value>)
    ensures
        out.deep_view() == items.deep_view(),
    decreases items,
{
    let mut out: Vec<Value> = Vec::new();
    let mut i: usize = 0;
    while i < items.len()
        invariant
            i <= items.len(),
            out.len() == i,
            forall|j: int| 0 <= j < i ==> (#[trigger] out@[j])@ == items@[j]@,
        decreases items.len() - i,
    {
        out.push(items[i].clone());
        i += 1;
    }
    assert(out.deep_view() =~= items.deep_view());
    out
}

/// Whether two lists of values hold the same contents in the same order.
pub fn items_equal(a: &Vec<Value>, b: &Vec<Value>) -> (out: bool)
    ensures
        out == (a.deep_view() == b.deep_view()),
    decreases a,
{
    if a.len() != b.len() {
        assert(a.deep_view().len() != b.deep_view().len());
        return false;
    }
    let mut i: usize = 0;
    while i < a.len()
        invariant
            i <= a.len(),
            a.len() == b.len(),
            forall|j: int| 0 <= j < i ==> (#[trigger] a@[j])@ == b@[j]@,
        decreases a.len() - i,
    {
        if !a[i].equals(&b[i]) {
            assert(a.deep_view()[i as int] != b.deep_view()[i as int]);
            return false;
        }
        i += 1;
    }
    assert(a.deep_view() =~= b.deep_view());
    true
}

impl Clone for Value {
    /// A deep copy: it shares nothing with `self` and holds the same content.
    fn clone(&self) -> (out: Value)
        ensures
            out@ == self@,
        decreases self,
    {
        match self {
            Value::Null => Value::Null,
            Value::Bool(b) => Value::Bool(*b),
            Value::Int(i) => Value::Int(*i),
            Value::Str(s) => Value::Str(s.clone()),
            Value::List(items) => {
                let copy = clone_items(items);
                proof {
                    lemma_list_view(*items);
                    lemma_list_view(copy);
                }
                Value::List(copy)
            },
            Value::Dict(m) => {
                let copy = m.clone();
                proof {
                    lemma_dict_view(*m);
                    lemma_dict_view(copy);
                }
                Value::Dict(copy)
            },
        }
    }
}

impl Clone for Mapping {
    /// A deep copy: it shares nothing with `self` and holds the same entries in the same order.
    fn clone(&self) -> (out: Mapping)
        ensures
            out@ == self@,
        decreases self,
    {
        let mut entries: Vec<(String, Value)> = Vec::new();
        let mut i: usize = 0;
        while i < self.entries.len()
            invariant
                i <= self.entries.len(),
                entries.len() == i,
                forall|j: int|
                    0 <= j < i ==> (#[trigger] entries@[j]).0@ == self.entries@[j].0@
                        && entries@[j].1@ == self.entries@[j].1@,
            decreases self.entries.len() - i,
        {
            let key = self.entries[i].0.clone();
            let value = self.entries[i].1.clone();
            entries.push((key, value));
            i += 1;
        }
        let out = Mapping { entries };
        assert(out@ =~= self@);
        out
    }
}

impl Value {
    /// Whether `self` and `other` hold the same content.
    pub fn equals(&self, other: &Value) -> (out: bool)
        ensures
            out == (self@ == other@),
        decreases self,
    {
        match (self, other) {
            (Value::Null, Value::Null) => true,
            (Value::Bool(a), Value::Bool(b)) => *a == *b,
            (Value::Int(a), Value::Int(b)) => *a == *b,
            (Value::Str(a), Value::Str(b)) => *a == *b,
            (Value::List(a), Value::List(b)) => {
                proof {
                    lemma_list_view(*a);
                    lemma_list_view(*b);
                }
                items_equal(a, b)
            },
            (Value::Dict(a), Value::Dict(b)) => {
                proof {
                    lemma_dict_view(*a);
                    lemma_dict_view(*b);
                }
                a.equals(b)
            },
            _ => false,
        }
    }

    /// The combination `self + other`, or `None` where the two kinds have none.
    pub fn add(&self, other: &Value) -> (out: Option<Value>)
        ensures
            out.deep_view() == datum_add(self@, other@),
    {
        match (self, other) {
            (Value::Int(a), Value::Int(b)) => {
                match a.checked_add(*b) {
                    Some(sum) => Some(Value::Int(sum)),
                    None => None,
                }
            },
            (Value::List(a), Value::List(b)) => {
                let mut items = clone_items(a);
                let mut tail = clone_items(b);
                items.append(&mut tail);
                proof {
                    lemma_list_view(*a);
                    lemma_list_view(*b);
                    lemma_list_view(items);
                    assert(items.deep_view() =~= a.deep_view() + b.deep_view());
                }
                Some(Value::List(items))
            },
            _ => None,
        }
    }
}

impl Mapping {
    /// Whether `self` and `other` hold the same entries in the same order.
    pub fn equals(&self, other: &Mapping) -> (out: bool)
        ensures
            out == (self@ == other@),
        decreases self,
    {
        if self.entries.len() != other.entries.len() {
            assert(self@.len() != other@.len());
            return false;
        }
        let mut i: usize = 0;
        while i < self.entries.len()
            invariant
                i <= self.entries.len(),
                self.entries.len() == other.entries.len(),
                forall|j: int| 0 <= j < i ==> (#[trigger] self@[j]) == other@[j],
            decreases self.entries.len() - i,
        {
            if !(self.entries[i].0 == other.entries[i].0) || !self.entries[i].1.equals(
                &other.entries[i].1,
            ) {
                assert(self@[i as int] != other@[i as int]);
                return false;
            }
            i += 1;
        }
        assert(self@ =~= other@);
        true
    }
}

impl PartialEq for Value {
    fn eq(&self, other: &Value) -> (out: bool) {
        self.equals(other)
    }
}

impl vstd::std_specs::cmp::PartialEqSpecImpl for Value {
    open spec fn obeys_eq_spec() -> bool {
        true
    }

    open spec fn eq_spec(&self, other: &Value) -> bool {
        self@ == other@
    }
}

impl PartialEq for Mapping {
    fn eq(&self, other: &Mapping) -> (out: bool) {
        self.equals(other)
    }
}

impl vstd::std_specs::cmp::PartialEqSpecImpl for Mapping {
    open spec fn obeys_eq_spec() -> bool {
        true
    }

    open spec fn eq_spec(&self, other: &Mapping) -> bool {
        self@ == other@
    }
}

} // verus!
