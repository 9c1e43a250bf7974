//! The values kaon programs compute with.
use vstd::prelude::*;
use crate::expr::SpannedExpr;
use crate::error::KaonError;

verus! {

/// The kind of a [`Value`]
#[derive(Debug, Clone, Copy, PartialEq, Eq, Structural)]
pub enum Type {
    Null,
    Bool,
    Int,
    Float,
    Str,
    List,
    Iter,
    Method,
}

/// A value representable by kaon.
///
/// A float is held as its decimal text, which stands for the `f32` it denotes.
#[derive(Debug, PartialEq)]
pub enum Value {
    Null,
    Bool(bool),
    Int(i32),
    Float(String),
    Str(String),

    List(Vec<Value>),

    Method {
        args: Vec<String>,
        body: SpannedExpr,
    },
}

impl Value {
    /// The type of a value
    pub open spec fn type_spec(&self) -> Type {
        match self {
            Value::Null => Type::Null,
            Value::Bool(_) => Type::Bool,
            Value::Int(_) => Type::Int,
            Value::Float(_) => Type::Float,
            Value::Str(_) => Type::Str,
            Value::List(_) => Type::List,
            Value::Method { .. } => Type::Method,
        }
    }

    /// This value's type
    pub fn type_of(&self) -> (r: Type)
        ensures
            r == self.type_spec(),
    {
        match self {
            Value::Null => Type::Null,
            Value::Bool(_) => Type::Bool,
            Value::Int(_) => Type::Int,
            Value::Float(_) => Type::Float,
            Value::Str(_) => Type::Str,
            Value::List(_) => Type::List,
            Value::Method { .. } => Type::Method,
        }
    }

    /// Whether this value is null
    pub fn null(&self) -> (r: bool)
        ensures
            r == (self is Null),
    {
        match self {
            Value::Null => true,
            _ => false,
        }
    }

    /// Attempts to downcast the value into a boolean
    pub fn bool(&self) -> (r: Result<bool, KaonError>)
        ensures
            match self {
                Value::Bool(b) => r == Ok::<bool, KaonError>(*b),
                _ => r == Err::<bool, KaonError>(KaonError::ExpectedType(Type::Bool, self.type_spec())),
            },
    {
        match self {
            Value::Bool(b) => Ok(*b),
            other => Err(KaonError::ExpectedType(Type::Bool, other.type_of())),
        }
    }

    /// Attempts to downcast the value into an integer
    pub fn integer(&self) -> (r: Result<i32, KaonError>)
        ensures
            match self {
                Value::Int(i) => r == Ok::<i32, KaonError>(*i),
                _ => r == Err::<i32, KaonError>(KaonError::ExpectedType(Type::Int, self.type_spec())),
            },
    {
        match self {
            Value::Int(i) => Ok(*i),
            other => Err(KaonError::ExpectedType(Type::Int, other.type_of())),
        }
    }

    /// Attepts to downcast the value into a str
    pub fn str(&self) -> (r: Result<&str, KaonError>)
        ensures
            match self {
                Value::Str(s) => r is Ok && r->Ok_0@ == s@,
                _ => r == Err::<&str, KaonError>(KaonError::ExpectedType(Type::Str, self.type_spec())),
            },
    {
        match self {
            Value::Str(s) => Ok(s.as_str()),
            other => Err(KaonError::ExpectedType(Type::Str, other.type_of())),
        }
    }

    /// Checks the value is a method, and returns its parameters and body
    pub fn method(self) -> (r: Result<(Vec<String>, SpannedExpr), KaonError>)
        ensures
            match self {
                Value::Method { args, body } => r == Ok::<(Vec<String>, SpannedExpr), KaonError>((args, body)),
                _ => r == Err::<(Vec<String>, SpannedExpr), KaonError>(KaonError::ExpectedType(Type::Method, self.type_spec())),
            },
    {
        match self {
            Value::Method { args, body } => Ok((args, body)),
            other => {
                let t = other.type_of();
                Err(KaonError::ExpectedType(Type::Method, t))
            },
        }
    }
}

} // verus!
