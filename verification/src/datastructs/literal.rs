use vstd::prelude::*;

verus! {

/// A runtime value of the language.
///
/// A number is held by the bit pattern of its IEEE-754 double (`f64::to_bits`):
/// the library moves numbers around and hands them to the caller for arithmetic,
/// but never computes on them itself.
#[derive(Clone, Debug)]
pub enum Literal {
    Bool(bool),
    String(String),
    Number(u64),
    /// A function, by its index among the functions a run has declared.
    Callable(usize),
    /// A class, by its index among the classes a run has declared.
    Class(usize),
    /// An instance of a class, by its index among the instances a run has made.
    Instance(usize),
    Nil,
}

/// What a value is, as the contracts speak of it: strings by their characters.
pub enum Value {
    Bool(bool),
    Str(Seq<char>),
    Number(u64),
    Callable(usize),
    Class(usize),
    Instance(usize),
    Nil,
}

impl View for Literal {
    type V = Value;

    open spec fn view(&self) -> Value {
        match self {
            Literal::Bool(b) => Value::Bool(*b),
            Literal::String(s) => Value::Str(s@),
            Literal::Number(n) => Value::Number(*n),
            Literal::Callable(i) => Value::Callable(*i),
            Literal::Class(i) => Value::Class(*i),
            Literal::Instance(i) => Value::Instance(*i),
            Literal::Nil => Value::Nil,
        }
    }
}

impl Literal {
    /// A copy of this value.
    pub fn duplicate(&self) -> (r: Literal)
        ensures
            r == *self,
    {
        match self {
            Literal::Bool(b) => Literal::Bool(*b),
            Literal::String(s) => Literal::String(s.clone()),
            Literal::Number(n) => Literal::Number(*n),
            Literal::Callable(i) => Literal::Callable(*i),
            Literal::Class(i) => Literal::Class(*i),
            Literal::Instance(i) => Literal::Instance(*i),
            Literal::Nil => Literal::Nil,
        }
    }
}

/// Whether two values are equal: booleans, strings and `nil` by value, instances by
/// identity, functions and classes never, values of different kinds never. Two numbers
/// are equal as doubles, which is the caller's to compare: `None`.
pub open spec fn literal_equal(a: Value, b: Value) -> Option<bool> {
    match (a, b) {
        (Value::Number(_), Value::Number(_)) => None,
        (Value::Bool(x), Value::Bool(y)) => Some(x == y),
        (Value::Str(x), Value::Str(y)) => Some(x == y),
        (Value::Nil, Value::Nil) => Some(true),
        (Value::Instance(x), Value::Instance(y)) => Some(x == y),
        _ => Some(false),
    }
}

impl Literal {
    /// Whether this value equals `other`, as `literal_equal` says.
    pub fn equals(&self, other: &Literal) -> (r: Option<bool>)
        ensures
            r == literal_equal(self@, other@),
    {
        match (self, other) {
            (Literal::Number(_), Literal::Number(_)) => None,
            (Literal::Bool(x), Literal::Bool(y)) => Some(*x == *y),
            (Literal::String(x), Literal::String(y)) => Some(*x == *y),
            (Literal::Nil, Literal::Nil) => Some(true),
            (Literal::Instance(x), Literal::Instance(y)) => Some(*x == *y),
            _ => Some(false),
        }
    }
}

/// The kinds of function a declaration can make.
#[derive(Clone, Copy, Debug, PartialEq, Eq, Structural)]
pub enum FunctionType {
    Function,
    Method,
}

} // verus!
