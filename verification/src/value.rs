//! The field values a record can hold. The schema is open: a value is
//! scalar text, an ordered sequence of text, or any other shape (a nested
//! record or non-text scalar), which the core carries through verbatim in
//! its serialized form and never matches against.

use vstd::prelude::*;

verus! {

pub enum Value {
    Text(String),
    List(Vec<String>),
    Other(String),
}

/// The mathematical shape of a [`Value`].
pub enum ValueV {
    Text(Seq<char>),
    List(Seq<Seq<char>>),
    Other(Seq<char>),
}

impl View for Value {
    type V = ValueV;

    open spec fn view(&self) -> ValueV {
        match self {
            Value::Text(s) => ValueV::Text(s@),
            Value::List(v) => ValueV::List(v.deep_view()),
            Value::Other(s) => ValueV::Other(s@),
        }
    }
}

fn clone_string_vec(v: &Vec<String>) -> (r: Vec<String>)
    ensures
        r.deep_view() == v.deep_view(),
{
    let mut r: Vec<String> = Vec::new();
    let mut i: usize = 0;
    while i < v.len()
        invariant
            i <= v.len(),
            r@.len() == i,
            forall|j: int| 0 <= j < i ==> r@[j]@ == v@[j]@,
        decreases v.len() - i,
    {
        r.push(v[i].clone());
        i = i + 1;
    }
    proof {
        assert(r.deep_view() =~= v.deep_view());
    }
    r
}

impl Clone for Value {
    /// A clone carries the same shape and text.
    fn clone(&self) -> (r: Self)
        ensures
            r@ == self@,
    {
        match self {
            Value::Text(s) => Value::Text(s.clone()),
            Value::List(v) => Value::List(clone_string_vec(v)),
            Value::Other(s) => Value::Other(s.clone()),
        }
    }
}

impl Value {
    /// The scalar text of the value, when it is scalar text.
    pub fn as_text(&self) -> (r: Option<&String>)
        ensures
            match r {
                Some(s) => self@ == ValueV::Text(s@),
                None => !(self@ is Text),
            },
    {
        match self {
            Value::Text(s) => Some(s),
            _ => None,
        }
    }
}

} // verus!
