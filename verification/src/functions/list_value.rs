//! The function that makes a list of its arguments.

use vstd::prelude::*;
use crate::arrays::datatype::DataType;

verus! {

/// Create a list from the given values.
#[derive(Debug, Clone, Copy)]
pub struct ListValue;

/// The arguments of `list_value` are not all of one type.
#[derive(Debug, PartialEq, Eq)]
pub struct MixedTypes {
    /// Position of the first argument of another type than the first one.
    pub index: usize,
    /// The type of that argument.
    pub got: DataType,
    /// The type of the first argument.
    pub expected: DataType,
}

impl ListValue {
    /// The type of the values of a list made of values of the types
    /// `inputs`: that of the first, or null where there are none.
    pub open spec fn element_type(inputs: Seq<DataType>) -> DataType {
        if inputs.len() == 0 {
            DataType::Null
        } else {
            inputs[0]
        }
    }

    /// The type of the list made of values of the types `inputs`: a list of
    /// the type that all inputs have, or of nulls where there are no inputs.
    ///
    /// Fails on the first input whose type is not that of the first one.
    pub fn bind(&self, inputs: &Vec<DataType>) -> (bound: Result<DataType, MixedTypes>)
        ensures
            bound.is_ok() <==> forall|i: int|
                0 <= i < inputs@.len() ==> inputs@[i] == Self::element_type(inputs@),
            bound matches Ok(datatype) ==> datatype == DataType::List(
                Box::new(Self::element_type(inputs@)),
            ),
            bound matches Err(e) ==> e.index < inputs@.len() && e.got == inputs@[e.index as int]
                && e.expected == Self::element_type(inputs@) && e.got != e.expected && forall|
                i: int,
            | 0 <= i < e.index ==> inputs@[i] == Self::element_type(inputs@),
    {
        let first = if inputs.len() == 0 {
            // No values in the list.
            DataType::Null
        } else {
            inputs[0].duplicate()
        };
        let mut i: usize = 0;
        while i < inputs.len()
            invariant
                i <= inputs.len(),
                first == Self::element_type(inputs@),
                forall|k: int| 0 <= k < i ==> inputs@[k] == first,
            decreases inputs.len() - i,
        {
            if !inputs[i].same(&first) {
                return Err(MixedTypes { index: i, got: inputs[i].duplicate(), expected: first });
            }
            i += 1;
        }
        Ok(DataType::list(first))
    }
}

} // verus!
