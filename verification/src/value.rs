//! Values on the virtual machine's stack.

use vstd::prelude::*;

verus! {

/// A runtime value.
#[derive(Debug, Clone, Copy, PartialEq, Eq, Structural, PartialOrd, Ord)]
pub enum Value {
    I32(i32),
    Unit,
}

/// The type of a runtime value.
#[derive(Debug, Clone, Copy, PartialEq, Eq, Structural, PartialOrd, Ord)]
pub enum ValueType {
    I32,
    Unit,
}

/// The type of a value.
pub open spec fn value_kind(v: Value) -> ValueType {
    match v {
        Value::I32(_) => ValueType::I32,
        Value::Unit => ValueType::Unit,
    }
}

impl Value {
    /// The type of this value.
    pub fn kind(&self) -> (t: ValueType)
        ensures
            t == value_kind(*self),
    {
        match self {
            Value::I32(_) => ValueType::I32,
            Value::Unit => ValueType::Unit,
        }
    }
}

} // verus!
