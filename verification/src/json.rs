//! The value tree that a document stands for.

use vstd::prelude::*;
use crate::error::{Error, ErrorModel};
use crate::parse::{document_of, parse};
use crate::text::same_text;
use crate::tokenize::{
    all_whitespace, lex, lex_ignores_leading_whitespace, lex_ignores_trailing_whitespace, tokenize,
};

verus! {

/// A JSON value.
///
/// A number carries its literal exactly as written in the document.
#[derive(Debug)]
pub enum Value {
    Null,
    Bool(bool),
    Object(Object),
    Array(Vec<Value>),
    Number(String),
    String(String),
}

/// The members of a JSON object: a mapping from keys to values. No key occurs
/// twice; the order of the members carries no meaning.
#[derive(Debug)]
pub struct Object {
    entries: Vec<(String, Value)>,
}

/// The mathematical content of a [`Value`].
pub enum ValueModel {
    Null,
    Bool(bool),
    Object(Map<Seq<char>, ValueModel>),
    Array(Seq<ValueModel>),
    Number(Seq<char>),
    String(Seq<char>),
}

/// Whether some entry has the key `key`.
pub open spec fn has_key(entries: Seq<(String, Value)>, key: Seq<char>) -> bool {
    exists|i: int| 0 <= i < entries.len() && (#[trigger] entries[i]).0@ == key
}

/// The position of an entry with the key `key`.
pub open spec fn key_index(entries: Seq<(String, Value)>, key: Seq<char>) -> int {
    choose|i: int| 0 <= i < entries.len() && (#[trigger] entries[i]).0@ == key
}

/// Whether no two entries have the same key.
pub open spec fn distinct_keys(entries: Seq<(String, Value)>) -> bool {
    forall|i: int, j: int|
        0 <= i < j < entries.len() ==> (#[trigger] entries[i]).0@ != (#[trigger] entries[j]).0@
}

impl View for Value {
    type V = ValueModel;

    open spec fn view(&self) -> ValueModel
        decreases self,
    {
        match self {
            Value::Null => ValueModel::Null,
            Value::Bool(b) => ValueModel::Bool(*b),
            Value::Object(o) => ValueModel::Object(o@),
            Value::Array(items) => ValueModel::Array(
                Seq::new(
                    items@.len(),
                    |i: int|
                        if 0 <= i < items@.len() {
                            items@[i]@
                        } else {
                            ValueModel::Null
                        },
                ),
            ),
            Value::Number(n) => ValueModel::Number(n@),
            Value::String(s) => ValueModel::String(s@),
        }
    }
}

impl View for Object {
    type V = Map<Seq<char>, ValueModel>;

    closed spec fn view(&self) -> Map<Seq<char>, ValueModel>
        decreases self,
    {
        Map::new(
            |key: Seq<char>| has_key(self.entries@, key),
            |key: Seq<char>|
                {
                    let i = key_index(self.entries@, key);
                    if 0 <= i < self.entries@.len() {
                        self.entries@[i].1@
                    } else {
                        ValueModel::Null
                    }
                },
        )
    }
}

/// The views of a sequence of values, element by element.
pub open spec fn item_models(items: Seq<Value>) -> Seq<ValueModel> {
    Seq::new(items.len(), |i: int| items[i]@)
}

/// The view of an array is the sequence of its items' views.
pub proof fn array_view(items: Vec<Value>)
    ensures
        Value::Array(items)@ == ValueModel::Array(item_models(items@)),
{
    assert(Value::Array(items)@->Array_0 =~= item_models(items@));
}

/// Whether `entries` lists the members of `members`: each member once, under
/// its key, and nothing else.
pub open spec fn lists(entries: Seq<(String, Value)>, members: Map<Seq<char>, ValueModel>) -> bool {
    &&& distinct_keys(entries)
    &&& forall|i: int|
        0 <= i < entries.len() ==> members.contains_key((#[trigger] entries[i]).0@)
            && members[entries[i].0@] == entries[i].1@
    &&& forall|key: Seq<char>| #[trigger] members.contains_key(key) ==> has_key(entries, key)
}

proof fn lemma_key_index(entries: Seq<(String, Value)>, i: int)
    requires
        distinct_keys(entries),
        0 <= i < entries.len(),
    ensures
        has_key(entries, entries[i].0@),
        key_index(entries, entries[i].0@) == i,
{
    let key = entries[i].0@;
    let j = key_index(entries, key);
    assert(0 <= j < entries.len() && entries[j].0@ == key);
    if j < i {
        assert(entries[j].0@ != entries[i].0@);
    } else if i < j {
        assert(entries[i].0@ != entries[j].0@);
    }
}

impl Object {
    #[verifier::type_invariant]
    spec fn well_formed(self) -> bool {
        distinct_keys(self.entries@)
    }

    /// An object without members.
    pub fn new() -> (out: Object)
        ensures
            out@ == Map::<Seq<char>, ValueModel>::empty(),
    {
        let out = Object { entries: Vec::new() };
        assert(out@ =~= Map::<Seq<char>, ValueModel>::empty());
        out
    }

    /// Whether the object has no members.
    pub fn is_empty(&self) -> (empty: bool)
        ensures
            empty == (self@ == Map::<Seq<char>, ValueModel>::empty()),
    {
        proof {
            use_type_invariant(self);
            if self.entries@.len() == 0 {
                assert(self@ =~= Map::<Seq<char>, ValueModel>::empty());
            } else {
                lemma_key_index(self.entries@, 0);
                assert(self@.contains_key(self.entries@[0].0@));
            }
        }
        self.entries.len() == 0
    }

    fn position(&self, key: &str) -> (at: Option<usize>)
        ensures
            match at {
                Some(i) => i < self.entries@.len() && self.entries@[i as int].0@ == key@,
                None => !has_key(self.entries@, key@),
            },
    {
        let mut i: usize = 0;
        while i < self.entries.len()
            invariant
                i <= self.entries@.len(),
                forall|j: int| 0 <= j < i ==> (#[trigger] self.entries@[j]).0@ != key@,
            decreases self.entries@.len() - i,
        {
            if same_text(self.entries[i].0.as_str(), key) {
                return Some(i);
            }
            i += 1;
        }
        None
    }

    /// The value under `key`, if the object has such a member.
    pub fn get(&self, key: &str) -> (found: Option<&Value>)
        ensures
            match found {
                Some(value) => self@.contains_key(key@) && self@[key@] == value@,
                None => !self@.contains_key(key@),
            },
    {
        proof {
            use_type_invariant(self);
        }
        match self.position(key) {
            Some(i) => {
                proof {
                    lemma_key_index(self.entries@, i as int);
                }
                Some(&self.entries[i].1)
            },
            None => None,
        }
    }

    /// Puts `value` under `key`. A value that stood under the same key before
    /// is replaced.
    pub fn insert(&mut self, key: String, value: Value)
        ensures
            final(self)@ == old(self)@.insert(key@, value@),
    {
        proof {
            use_type_invariant(&*self);
        }
        let ghost before = self.entries@;
        let ghost k = key@;
        let ghost v = value@;
        let at = self.position(key.as_str());
        let mut entries: Vec<(String, Value)> = Vec::new();
        core::mem::swap(&mut self.entries, &mut entries);
        match at {
            Some(i) => {
                entries.set(i, (key, value));
            },
            None => {
                entries.push((key, value));
            },
        }
        assert(distinct_keys(entries@));
        core::mem::swap(&mut self.entries, &mut entries);
        proof {
            let after = self.entries@;
            assert forall|q: Seq<char>| has_key(after, q) <==> (q == k || has_key(before, q)) by {
                if has_key(after, q) {
                    let j = key_index(after, q);
                    if q != k {
                        assert(before[j].0@ == q);
                    }
                }
                if has_key(before, q) {
                    let j = key_index(before, q);
                    assert(after[j].0@ == q);
                }
                if q == k {
                    let j = if after.len() == before.len() {
                        key_index(before, k)
                    } else {
                        before.len() as int
                    };
                    assert(after[j].0@ == q);
                }
            }
            assert forall|q: Seq<char>| has_key(after, q) implies #[trigger] final(self)@[q]
                == old(self)@.insert(k, v)[q] by {
                let j = key_index(after, q);
                lemma_key_index(after, j);
                if q != k {
                    assert(before[j].0@ == q);
                    lemma_key_index(before, j);
                }
            }
            assert(final(self)@ =~= old(self)@.insert(k, v));
        }
    }

    /// The members, each once, in no particular order.
    pub fn entries(&self) -> (out: &[(String, Value)])
        ensures
            lists(out@, self@),
    {
        proof {
            use_type_invariant(self);
            assert forall|i: int| 0 <= i < self.entries@.len() implies self@.contains_key(
                (#[trigger] self.entries@[i]).0@,
            ) && self@[self.entries@[i].0@] == self.entries@[i].1@ by {
                lemma_key_index(self.entries@, i);
            }
        }
        self.entries.as_slice()
    }
}

/// Whether two values have the same content. Arrays are compared item by
/// item, objects member by member whatever the order they were built in.
pub fn same_value(a: &Value, b: &Value) -> (same: bool)
    ensures
        same == (a@ == b@),
    decreases a, 1int,
{
    match (a, b) {
        (Value::Null, Value::Null) => true,
        (Value::Bool(x), Value::Bool(y)) => *x == *y,
        (Value::Number(x), Value::Number(y)) => same_text(x.as_str(), y.as_str()),
        (Value::String(x), Value::String(y)) => same_text(x.as_str(), y.as_str()),
        (Value::Array(x), Value::Array(y)) => {
            proof {
                array_view(*x);
                array_view(*y);
            }
            if x.len() != y.len() {
                assert(item_models(x@).len() != item_models(y@).len());
                return false;
            }
            let mut i: usize = 0;
            while i < x.len()
                invariant
                    i <= x@.len() == y@.len(),
                    forall|j: int| 0 <= j < i ==> (#[trigger] x@[j])@ == y@[j]@,
                    *a == Value::Array(*x),
                    a@ == ValueModel::Array(item_models(x@)),
                    b@ == ValueModel::Array(item_models(y@)),
                decreases x@.len() - i,
            {
                if !same_value(&x[i], &y[i]) {
                    assert(item_models(x@)[i as int] != item_models(y@)[i as int]);
                    return false;
                }
                i += 1;
            }
            assert(item_models(x@) =~= item_models(y@));
            true
        },
        (Value::Object(x), Value::Object(y)) => same_object(x, y),
        _ => false,
    }
}

/// Whether two objects have the same members, whatever the order they were
/// built in.
pub fn same_object(a: &Object, b: &Object) -> (same: bool)
    ensures
        same == (a@ == b@),
    decreases a, 0int,
{
    proof {
        use_type_invariant(a);
        use_type_invariant(b);
    }
    let mut i: usize = 0;
    while i < a.entries.len()
        invariant
            i <= a.entries@.len(),
            distinct_keys(a.entries@),
            forall|j: int|
                0 <= j < i ==> b@.contains_key((#[trigger] a.entries@[j]).0@) && b@[a.entries@[j].0@]
                    == a.entries@[j].1@,
        decreases a.entries@.len() - i,
    {
        proof {
            lemma_key_index(a.entries@, i as int);
        }
        match b.get(a.entries[i].0.as_str()) {
            Some(value) => {
                if !same_value(&a.entries[i].1, value) {
                    return false;
                }
            },
            None => {
                return false;
            },
        }
        i += 1;
    }
    let mut k: usize = 0;
    while k < b.entries.len()
        invariant
            k <= b.entries@.len(),
            distinct_keys(b.entries@),
            forall|j: int| 0 <= j < k ==> a@.contains_key((#[trigger] b.entries@[j]).0@),
        decreases b.entries@.len() - k,
    {
        proof {
            lemma_key_index(b.entries@, k as int);
        }
        if a.position(b.entries[k].0.as_str()).is_none() {
            assert(b@.contains_key(b.entries@[k as int].0@));
            assert(!a@.contains_key(b.entries@[k as int].0@));
            return false;
        }
        k += 1;
    }
    proof {
        assert forall|key: Seq<char>| a@.contains_key(key) implies b@.contains_key(key) && a@[key]
            == b@[key] by {
            let j = key_index(a.entries@, key);
            lemma_key_index(a.entries@, j);
        }
        assert forall|key: Seq<char>| b@.contains_key(key) implies a@.contains_key(key) by {
            let j = key_index(b.entries@, key);
            lemma_key_index(b.entries@, j);
        }
        assert(a@ =~= b@);
    }
    true
}

impl PartialEq for Value {
    fn eq(&self, other: &Value) -> (same: bool) {
        same_value(self, other)
    }
}

impl vstd::std_specs::cmp::PartialEqSpecImpl for Value {
    open spec fn obeys_eq_spec() -> bool {
        true
    }

    open spec fn eq_spec(&self, other: &Value) -> bool {
        self@ == other@
    }
}

impl PartialEq for Object {
    fn eq(&self, other: &Object) -> (same: bool) {
        same_object(self, other)
    }
}

impl vstd::std_specs::cmp::PartialEqSpecImpl for Object {
    open spec fn obeys_eq_spec() -> bool {
        true
    }

    open spec fn eq_spec(&self, other: &Object) -> bool {
        self@ == other@
    }
}

/// The outcome of reading a value, as the contracts speak of it.
pub open spec fn outcome(r: Result<Value, Error>) -> Result<ValueModel, ErrorModel> {
    match r {
        Ok(value) => Ok(value@),
        Err(e) => Err(e@),
    }
}

/// The value that the text `s` stands for: the value of its tokens, where
/// they can all be read.
pub open spec fn document(s: Seq<char>) -> Result<ValueModel, ErrorModel> {
    match lex(s) {
        Ok(tokens) => document_of(tokens),
        Err(e) => Err(e),
    }
}

/// Whitespace around a text that scans does not change the document that
/// the text stands for.
pub proof fn document_ignores_surrounding_whitespace(
    before: Seq<char>,
    s: Seq<char>,
    after: Seq<char>,
)
    requires
        all_whitespace(before),
        all_whitespace(after),
        lex(s) is Ok,
    ensures
        document(before + s + after) == document(s),
{
    lex_ignores_trailing_whitespace(s, after);
    lex_ignores_leading_whitespace(before, s + after);
    assert(before + s + after =~= before + (s + after));
}

/// Reads `input` as one JSON document.
pub fn parse_document(input: &str) -> (r: Result<Value, Error>)
    ensures
        outcome(r) == document(input@),
{
    let tokens = tokenize(input)?;
    parse(tokens.as_slice())
}

impl core::str::FromStr for Value {
    type Err = Error;

    fn from_str(s: &str) -> (r: Result<Value, Error>)
        ensures
            outcome(r) == document(s@),
    {
        parse_document(s)
    }
}

} // verus!
