//! The dynamic value that requests, responses and stored data are made of.

use vstd::prelude::*;
use vstd::string::StringExecFns;

verus! {

/// A dynamically typed value.
///
/// `Mapping` holds its pairs in a vector; a well-formed mapping keeps them in
/// strictly ascending key order (see [`SpecValue::wf`]), so a key occurs at
/// most once and two equal mappings hold equal vectors.
#[derive(Debug, PartialEq, Eq, PartialOrd, Ord)]
pub enum Value {
    Int(i64),
    Bool(bool),
    String(Option<String>),
    Array(Option<Vec<Value>>),
    Mapping(Vec<(Value, Value)>),
    Null,
}

/// The mathematical content of a [`Value`].
pub enum SpecValue {
    Int(i64),
    Bool(bool),
    Text(Option<Seq<char>>),
    Array(Option<Seq<SpecValue>>),
    Mapping(Seq<(SpecValue, SpecValue)>),
    Null,
}

/// The contents of a vector of values, item by item.
pub open spec fn view_items(items: Seq<Value>) -> Seq<SpecValue>
    decreases items,
{
    if items.len() == 0 {
        Seq::empty()
    } else {
        view_items(items.drop_last()).push(value_view(items.last()))
    }
}

/// The contents of a vector of key/value pairs, pair by pair.
pub open spec fn view_pairs(pairs: Seq<(Value, Value)>) -> Seq<(SpecValue, SpecValue)>
    decreases pairs,
{
    if pairs.len() == 0 {
        Seq::empty()
    } else {
        view_pairs(pairs.drop_last()).push((value_view(pairs.last().0), value_view(pairs.last().1)))
    }
}

/// The contents of one value.
pub open spec fn value_view(v: Value) -> SpecValue
    decreases v,
{
    match v {
        Value::Int(i) => SpecValue::Int(i),
        Value::Bool(b) => SpecValue::Bool(b),
        Value::String(Some(s)) => SpecValue::Text(Some(s@)),
        Value::String(None) => SpecValue::Text(None),
        Value::Array(Some(items)) => SpecValue::Array(Some(view_items(items@))),
        Value::Array(None) => SpecValue::Array(None),
        Value::Mapping(pairs) => SpecValue::Mapping(view_pairs(pairs@)),
        Value::Null => SpecValue::Null,
    }
}

impl View for Value {
    type V = SpecValue;

    open spec fn view(&self) -> SpecValue {
        value_view(*self)
    }
}

/// `view_items` keeps the length and views each item in place.
pub proof fn lemma_view_items(items: Seq<Value>)
    ensures
        view_items(items).len() == items.len(),
        forall|i: int| 0 <= i < items.len() ==> (#[trigger] view_items(items)[i]) == items[i]@,
    decreases items.len(),
{
    if items.len() > 0 {
        lemma_view_items(items.drop_last());
    }
}

/// `view_pairs` keeps the length and views each pair in place.
pub proof fn lemma_view_pairs(pairs: Seq<(Value, Value)>)
    ensures
        view_pairs(pairs).len() == pairs.len(),
        forall|i: int|
            0 <= i < pairs.len() ==> (#[trigger] view_pairs(pairs)[i]) == (
                pairs[i].0@,
                pairs[i].1@,
            ),
    decreases pairs.len(),
{
    if pairs.len() > 0 {
        lemma_view_pairs(pairs.drop_last());
    }
}

impl Default for Value {
    fn default() -> (r: Value)
        ensures
            r == Value::Null,
    {
        Value::Null
    }
}

/// A copy of `items` with the same contents.
pub fn clone_items(items: &Vec<Value>) -> (r: Vec<Value>)
    ensures
        view_items(r@) == view_items(items@),
    decreases items,
{
    let mut out: Vec<Value> = Vec::new();
    let mut i: usize = 0;
    while i < items.len()
        invariant
            i <= items.len(),
            out.len() == i,
            forall|j: int| 0 <= j < i ==> out[j]@ == items[j]@,
        decreases items.len() - i,
    {
        let item = items[i].duplicate();
        out.push(item);
        i += 1;
    }
    proof {
        lemma_view_items(out@);
        lemma_view_items(items@);
        assert(view_items(out@) =~= view_items(items@));
    }
    out
}

/// A copy of `pairs` with the same contents.
pub fn clone_pairs(pairs: &Vec<(Value, Value)>) -> (r: Vec<(Value, Value)>)
    ensures
        view_pairs(r@) == view_pairs(pairs@),
    decreases pairs,
{
    let mut out: Vec<(Value, Value)> = Vec::new();
    let mut i: usize = 0;
    while i < pairs.len()
        invariant
            i <= pairs.len(),
            out.len() == i,
            forall|j: int| 0 <= j < i ==> out[j].0@ == pairs[j].0@ && out[j].1@ == pairs[j].1@,
        decreases pairs.len() - i,
    {
        let key = pairs[i].0.duplicate();
        let val = pairs[i].1.duplicate();
        out.push((key, val));
        i += 1;
    }
    proof {
        lemma_view_pairs(out@);
        lemma_view_pairs(pairs@);
        assert(view_pairs(out@) =~= view_pairs(pairs@));
    }
    out
}

impl Value {
    /// A text value holding `s`.
    pub fn str(s: &str) -> (r: Value)
        ensures
            r@ == SpecValue::Text(Some(s@)),
    {
        Value::String(Some(String::from_str(s)))
    }

    /// A deep copy: a value with the same contents as `self`.
    pub fn duplicate(&self) -> (r: Value)
        ensures
            r@ == self@,
        decreases self,
    {
        match self {
            Value::Int(i) => Value::Int(*i),
            Value::Bool(b) => Value::Bool(*b),
            Value::String(Some(s)) => Value::String(Some(s.clone())),
            Value::String(None) => Value::String(None),
            Value::Array(Some(items)) => {
                let copy = clone_items(items);
                Value::Array(Some(copy))
            },
            Value::Array(None) => Value::Array(None),
            Value::Mapping(pairs) => {
                let copy = clone_pairs(pairs);
                Value::Mapping(copy)
            },
            Value::Null => Value::Null,
        }
    }

    /// The integer, if `self` is one.
    pub fn to_int(self) -> (r: Option<i64>)
        ensures
            r == match self {
                Value::Int(i) => Some(i),
                _ => None,
            },
    {
        match self {
            Value::Int(i) => Some(i),
            _ => None,
        }
    }

    /// The boolean, if `self` is one.
    pub fn to_bool(self) -> (r: Option<bool>)
        ensures
            r == match self {
                Value::Bool(b) => Some(b),
                _ => None,
            },
    {
        match self {
            Value::Bool(b) => Some(b),
            _ => None,
        }
    }

    /// The text, if `self` is a present text.
    pub fn to_str(self) -> (r: Option<String>)
        ensures
            r == match self {
                Value::String(s) => s,
                _ => None,
            },
    {
        match self {
            Value::String(s) => s,
            _ => None,
        }
    }

    /// The items, if `self` is a present array.
    pub fn to_arr(self) -> (r: Option<Vec<Value>>)
        ensures
            r == match self {
                Value::Array(items) => items,
                _ => None,
            },
    {
        match self {
            Value::Array(items) => items,
            _ => None,
        }
    }

    /// The pairs in ascending key order, if `self` is a mapping.
    pub fn to_map(self) -> (r: Option<Vec<(Value, Value)>>)
        ensures
            r == match self {
                Value::Mapping(pairs) => Some(pairs),
                _ => None,
            },
    {
        match self {
            Value::Mapping(pairs) => Some(pairs),
            _ => None,
        }
    }

    /// The integer, if `self` is one.
    pub fn get_int(&self) -> (r: Option<i64>)
        ensures
            r == match *self {
                Value::Int(i) => Some(i),
                _ => None,
            },
    {
        match self {
            Value::Int(i) => Some(*i),
            _ => None,
        }
    }

    /// The boolean, if `self` is one.
    pub fn get_bool(&self) -> (r: Option<bool>)
        ensures
            r == match *self {
                Value::Bool(b) => Some(b),
                _ => None,
            },
    {
        match self {
            Value::Bool(b) => Some(*b),
            _ => None,
        }
    }

    /// The text, if `self` is a present text.
    pub fn get_str(&self) -> (r: Option<&String>)
        ensures
            match *self {
                Value::String(Some(s)) => r == Some(&s),
                _ => r is None,
            },
    {
        match self {
            Value::String(Some(s)) => Some(s),
            _ => None,
        }
    }

    /// The items, if `self` is a present array.
    pub fn get_arr(&self) -> (r: Option<&Vec<Value>>)
        ensures
            match *self {
                Value::Array(Some(items)) => r == Some(&items),
                _ => r is None,
            },
    {
        match self {
            Value::Array(Some(items)) => Some(items),
            _ => None,
        }
    }

    /// The pairs in ascending key order, if `self` is a mapping.
    pub fn get_map(&self) -> (r: Option<&Vec<(Value, Value)>>)
        ensures
            match *self {
                Value::Mapping(pairs) => r == Some(&pairs),
                _ => r is None,
            },
    {
        match self {
            Value::Mapping(pairs) => Some(pairs),
            _ => None,
        }
    }
}

impl Clone for Value {
    fn clone(&self) -> (r: Value)
        ensures
            r@ == self@,
    {
        self.duplicate()
    }
}

} // verus!
