//! Types of values.

use vstd::prelude::*;

verus! {

/// The type of a value.
#[derive(Debug, PartialEq, Eq)]
pub enum DataType {
    /// The type of the missing value alone.
    Null,
    Boolean,
    Int8,
    Int16,
    Int32,
    Int64,
    UInt8,
    UInt16,
    UInt32,
    UInt64,
    Utf8,
    Binary,
    /// Lists of values of one type.
    List(Box<DataType>),
}

impl DataType {
    /// The type of strings.
    pub fn utf8() -> (datatype: DataType)
        ensures
            datatype == DataType::Utf8,
    {
        DataType::Utf8
    }

    /// The type of 64-bit integers.
    pub fn int64() -> (datatype: DataType)
        ensures
            datatype == DataType::Int64,
    {
        DataType::Int64
    }

    /// The type of lists of values of type `inner`.
    pub fn list(inner: DataType) -> (datatype: DataType)
        ensures
            datatype == DataType::List(Box::new(inner)),
    {
        DataType::List(Box::new(inner))
    }

    /// Whether the two types are the same.
    pub fn same(&self, other: &DataType) -> (same: bool)
        ensures
            same == (*self == *other),
        decreases self,
    {
        match (self, other) {
            (DataType::Null, DataType::Null) => true,
            (DataType::Boolean, DataType::Boolean) => true,
            (DataType::Int8, DataType::Int8) => true,
            (DataType::Int16, DataType::Int16) => true,
            (DataType::Int32, DataType::Int32) => true,
            (DataType::Int64, DataType::Int64) => true,
            (DataType::UInt8, DataType::UInt8) => true,
            (DataType::UInt16, DataType::UInt16) => true,
            (DataType::UInt32, DataType::UInt32) => true,
            (DataType::UInt64, DataType::UInt64) => true,
            (DataType::Utf8, DataType::Utf8) => true,
            (DataType::Binary, DataType::Binary) => true,
            (DataType::List(a), DataType::List(b)) => a.same(b),
            _ => false,
        }
    }

    /// A copy of the type.
    pub fn duplicate(&self) -> (copy: DataType)
        ensures
            copy == *self,
        decreases self,
    {
        match self {
            DataType::Null => DataType::Null,
            DataType::Boolean => DataType::Boolean,
            DataType::Int8 => DataType::Int8,
            DataType::Int16 => DataType::Int16,
            DataType::Int32 => DataType::Int32,
            DataType::Int64 => DataType::Int64,
            DataType::UInt8 => DataType::UInt8,
            DataType::UInt16 => DataType::UInt16,
            DataType::UInt32 => DataType::UInt32,
            DataType::UInt64 => DataType::UInt64,
            DataType::Utf8 => DataType::Utf8,
            DataType::Binary => DataType::Binary,
            DataType::List(inner) => DataType::List(Box::new(inner.duplicate())),
        }
    }
}

} // verus!
