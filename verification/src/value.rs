//! A single typed scalar, used for filter literals and aggregate results.
use crate::data_type::DataType;
use vstd::prelude::*;

verus! {

/// A typed scalar. A float is held as its IEEE-754 bit pattern.
#[derive(Debug, Clone, PartialEq)]
pub enum Value {
    Int64(i64),
    Float64(u64),
    String(String),
}

impl Value {
    /// The type of this value.
    pub open spec fn dtype(self) -> DataType {
        match self {
            Value::Int64(_) => DataType::Int64,
            Value::Float64(_) => DataType::Float64,
            Value::String(_) => DataType::String,
        }
    }

    /// The type of this value.
    pub fn data_type(&self) -> (dt: DataType)
        ensures
            dt == self.dtype(),
    {
        match self {
            Value::Int64(_) => DataType::Int64,
            Value::Float64(_) => DataType::Float64,
            Value::String(_) => DataType::String,
        }
    }
}

} // verus!
