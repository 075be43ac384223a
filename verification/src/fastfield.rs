//! Values read out of a fast-field column.

use vstd::prelude::*;

verus! {

/// A single fast-field value: one integer, or a row of them.
#[derive(Debug, Clone, PartialEq, Eq)]
pub enum FieldValue {
    U64(u64),
    U64s(Vec<u64>),
}

impl FieldValue {
    /// The single integer this value holds, if it is one.
    pub fn as_u64(self) -> (r: Option<u64>)
        ensures
            r == (match self {
                FieldValue::U64(v) => Some(v),
                FieldValue::U64s(_) => None::<u64>,
            }),
    {
        match self {
            FieldValue::U64(v) => Some(v),
            FieldValue::U64s(_) => None,
        }
    }

    /// The row of integers this value holds, if it is one.
    pub fn as_u64s(self) -> (r: Option<Vec<u64>>)
        ensures
            (self matches FieldValue::U64s(v) ==> r == Some(v)) && (self matches FieldValue::U64(
                _,
            ) ==> r is None),
    {
        match self {
            FieldValue::U64s(v) => Some(v),
            FieldValue::U64(_) => None,
        }
    }
}

} // verus!
