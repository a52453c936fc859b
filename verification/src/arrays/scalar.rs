//! Single values.

use vstd::prelude::*;

verus! {

/// A single value that borrows what it does not hold itself.
#[derive(Debug, Clone, Copy, PartialEq, Eq)]
pub enum BorrowedScalarValue<'a> {
    /// The missing value.
    Null,
    Boolean(bool),
    Int8(i8),
    Int16(i16),
    Int32(i32),
    Int64(i64),
    UInt8(u8),
    UInt16(u16),
    UInt32(u32),
    UInt64(u64),
    Utf8(&'a str),
    Binary(&'a [u8]),
}

} // verus!
