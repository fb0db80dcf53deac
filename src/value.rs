use vstd::prelude::*;

verus! {

broadcast use vstd::std_specs::vec::group_vec_axioms;

/// A numeral as it appeared in the text: an integer, or a decimal literal.
///
/// A decimal literal is kept as its text (an optional `-`, then digits with
/// exactly one `.`); turning it into a binary floating-point value is left
/// to the caller.
#[derive(Debug, Clone, PartialEq)]
pub enum Number {
    Integer(i64),
    Float(String),
}

/// A JSON value. An object holds its members in a list with unique keys.
#[derive(Debug, PartialEq)]
pub enum Value {
    String(String),
    Number(Number),
    Boolean(bool),
    Array(Vec<Value>),
    Object(Vec<(String, Value)>),
    Null,
}

/// The mathematical meaning of a `Number`.
pub enum NumberModel {
    Integer(int),
    Float(Seq<char>),
}

/// The mathematical meaning of a `Value`: objects are maps from keys to values.
pub enum Json {
    String(Seq<char>),
    Number(NumberModel),
    Boolean(bool),
    Array(Seq<Json>),
    Object(Map<Seq<char>, Json>),
    Null,
}

impl View for Number {
    type V = NumberModel;

    open spec fn view(&self) -> NumberModel {
        match self {
            Number::Integer(i) => NumberModel::Integer(*i as int),
            Number::Float(s) => NumberModel::Float(s@),
        }
    }
}

impl Value {
    pub open spec fn model(self) -> Json
        decreases self,
    {
        match self {
            Value::String(s) => Json::String(s@),
            Value::Number(n) => Json::Number(n@),
            Value::Boolean(b) => Json::Boolean(b),
            Value::Array(a) => Json::Array(values_model(a@)),
            Value::Object(m) => Json::Object(members_model(m@)),
            Value::Null => Json::Null,
        }
    }
}

impl Value {
    /// Every object in the tree holds each key once.
    pub open spec fn well_formed(self) -> bool
        decreases self,
    {
        match self {
            Value::Array(a) => values_well_formed(a@),
            Value::Object(m) => keys_unique(m@) && members_well_formed(m@),
            _ => true,
        }
    }
}

pub open spec fn values_well_formed(s: Seq<Value>) -> bool
    decreases s,
{
    s.len() > 0 ==> values_well_formed(s.drop_last()) && s.last().well_formed()
}

pub open spec fn members_well_formed(s: Seq<(String, Value)>) -> bool
    decreases s,
{
    s.len() > 0 ==> members_well_formed(s.drop_last()) && s.last().1.well_formed()
}

/// Keys that occur once each.
pub open spec fn keys_unique(s: Seq<(String, Value)>) -> bool {
    forall|a: int, b: int| 0 <= a < b < s.len() ==> s[a].0@ != s[b].0@
}

/// The models of a list of values, in order.
pub open spec fn values_model(s: Seq<Value>) -> Seq<Json>
    decreases s,
{
    if s.len() == 0 {
        Seq::empty()
    } else {
        values_model(s.drop_last()).push(s.last().model())
    }
}

/// The map that a list of members stands for; a later member wins over an
/// earlier one with the same key.
pub open spec fn members_model(s: Seq<(String, Value)>) -> Map<Seq<char>, Json>
    decreases s,
{
    if s.len() == 0 {
        Map::empty()
    } else {
        members_model(s.drop_last()).insert(s.last().0@, s.last().1.model())
    }
}

/// A value asked for as a type that it does not have.
#[derive(Debug, Clone, Copy, PartialEq, Eq, Structural)]
pub struct TypeMismatch;

impl Value {
    /// The text of a string value.
    pub fn as_string(&self) -> (r: Result<String, TypeMismatch>)
        ensures
            match self.model() {
                Json::String(s) => r is Ok && r->Ok_0@ == s,
                _ => r == Err::<String, TypeMismatch>(TypeMismatch),
            },
    {
        match self {
            Value::String(s) => Ok(s.clone()),
            _ => Err(TypeMismatch),
        }
    }

    /// The integer that an integer value holds.
    pub fn as_integer(&self) -> (r: Result<i64, TypeMismatch>)
        ensures
            match self.model() {
                Json::Number(NumberModel::Integer(i)) => r is Ok && r->Ok_0 as int == i,
                _ => r == Err::<i64, TypeMismatch>(TypeMismatch),
            },
    {
        match self {
            Value::Number(Number::Integer(i)) => Ok(*i),
            _ => Err(TypeMismatch),
        }
    }

    /// The truth value of a boolean value.
    pub fn as_bool(&self) -> (r: Result<bool, TypeMismatch>)
        ensures
            match self.model() {
                Json::Boolean(b) => r == Ok::<bool, TypeMismatch>(b),
                _ => r == Err::<bool, TypeMismatch>(TypeMismatch),
            },
    {
        match self {
            Value::Boolean(b) => Ok(*b),
            _ => Err(TypeMismatch),
        }
    }

    /// The elements of an array value.
    pub fn as_array(&self) -> (r: Result<&Vec<Value>, TypeMismatch>)
        ensures
            match self {
                Value::Array(a) => r == Ok::<&Vec<Value>, TypeMismatch>(a),
                _ => r == Err::<&Vec<Value>, TypeMismatch>(TypeMismatch),
            },
    {
        match self {
            Value::Array(a) => Ok(a),
            _ => Err(TypeMismatch),
        }
    }

    /// The members of an object value.
    pub fn as_object(&self) -> (r: Result<&Vec<(String, Value)>, TypeMismatch>)
        ensures
            match self {
                Value::Object(m) => r == Ok::<&Vec<(String, Value)>, TypeMismatch>(m),
                _ => r == Err::<&Vec<(String, Value)>, TypeMismatch>(TypeMismatch),
            },
    {
        match self {
            Value::Object(m) => Ok(m),
            _ => Err(TypeMismatch),
        }
    }
}

} // verus!
