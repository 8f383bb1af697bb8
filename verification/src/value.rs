//! The tagged scalar stored in a cell, and its mathematical model.

use vstd::prelude::*;

verus! {

/// A cell value. `Double` carries the IEEE-754 bit pattern of a 64-bit
/// float, so that equality of values is plain bit equality. `Deleted` is
/// the tombstone sentinel written by cell deletions; callers observe it
/// only as absence.
pub enum Value {
    Double(u64),
    I64(i64),
    Str(String),
    True,
    False,
    Null,
    Deleted,
}

/// The model of a [`Value`]: the same tags, with the string abstracted
/// to its character sequence.
pub enum ValueModel {
    Double(u64),
    I64(i64),
    Str(Seq<char>),
    True,
    False,
    Null,
    Deleted,
}

impl ValueModel {
    /// True on every variant but the tombstone.
    pub open spec fn is_live(self) -> bool {
        !(self matches ValueModel::Deleted)
    }
}

impl View for Value {
    type V = ValueModel;

    open spec fn view(&self) -> ValueModel {
        match self {
            Value::Double(b) => ValueModel::Double(*b),
            Value::I64(i) => ValueModel::I64(*i),
            Value::Str(s) => ValueModel::Str(s@),
            Value::True => ValueModel::True,
            Value::False => ValueModel::False,
            Value::Null => ValueModel::Null,
            Value::Deleted => ValueModel::Deleted,
        }
    }
}

impl Value {
    /// True on every variant but the tombstone.
    pub open spec fn spec_is_live(self) -> bool {
        self@.is_live()
    }

    pub fn is_live(&self) -> (r: bool)
        ensures
            r == self.spec_is_live(),
    {
        !matches!(self, Value::Deleted)
    }

    /// A deep copy whose model equals the original's.
    pub fn dup(&self) -> (r: Value)
        ensures
            r@ == self@,
    {
        match self {
            Value::Double(b) => Value::Double(*b),
            Value::I64(i) => Value::I64(*i),
            Value::Str(s) => Value::Str(s.clone()),
            Value::True => Value::True,
            Value::False => Value::False,
            Value::Null => Value::Null,
            Value::Deleted => Value::Deleted,
        }
    }

    /// Value equality: tag and payload.
    pub fn value_eq(&self, other: &Value) -> (r: bool)
        ensures
            r == (self@ == other@),
    {
        match self {
            Value::Double(a) => match other {
                Value::Double(b) => *a == *b,
                _ => false,
            },
            Value::I64(a) => match other {
                Value::I64(b) => *a == *b,
                _ => false,
            },
            Value::Str(a) => match other {
                Value::Str(b) => *a == *b,
                _ => false,
            },
            Value::True => matches!(other, Value::True),
            Value::False => matches!(other, Value::False),
            Value::Null => matches!(other, Value::Null),
            Value::Deleted => matches!(other, Value::Deleted),
        }
    }
}

} // verus!
