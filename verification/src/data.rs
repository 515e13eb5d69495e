//! Column types and column values.

use vstd::prelude::*;

verus! {

/// The type of a column.
#[derive(Debug, Clone, Copy, PartialEq, Eq, Structural)]
pub enum DataType {
    Int32,
    Int64,
    Float32,
    Float64,
    String,
}

/// A column value. Floating-point values are held as their IEEE 754 bit
/// patterns.
#[derive(Debug, PartialEq, Eq)]
pub enum Data {
    Int32(i32),
    Int64(i64),
    Float32(u32),
    Float64(u64),
    String(String),
}

/// The mathematical content of a [`Data`].
pub enum DataValue {
    Int32(i32),
    Int64(i64),
    Float32(u32),
    Float64(u64),
    Text(Seq<char>),
}

impl View for Data {
    type V = DataValue;

    open spec fn view(&self) -> DataValue {
        match self {
            Data::Int32(v) => DataValue::Int32(*v),
            Data::Int64(v) => DataValue::Int64(*v),
            Data::Float32(v) => DataValue::Float32(*v),
            Data::Float64(v) => DataValue::Float64(*v),
            Data::String(v) => DataValue::Text(v@),
        }
    }
}

impl DataValue {
    /// The type of the column that holds this value.
    pub open spec fn data_type(self) -> DataType {
        match self {
            DataValue::Int32(_) => DataType::Int32,
            DataValue::Int64(_) => DataType::Int64,
            DataValue::Float32(_) => DataType::Float32,
            DataValue::Float64(_) => DataType::Float64,
            DataValue::Text(_) => DataType::String,
        }
    }

    /// A value whose text, if any, holds no NUL character.
    pub open spec fn storable(self) -> bool {
        self matches DataValue::Text(s) ==> !s.contains('\0')
    }
}

/// The contents of a row's values.
pub open spec fn views(values: Seq<Data>) -> Seq<DataValue> {
    Seq::new(values.len(), |i: int| values[i]@)
}

/// A row has the column types `types`, and its texts can be stored.
pub open spec fn conforms(row: Seq<DataValue>, types: Seq<DataType>) -> bool {
    &&& row.len() == types.len()
    &&& forall|i: int|
        0 <= i < row.len() ==> (#[trigger] row[i]).data_type() == types[i] && row[i].storable()
}

impl Clone for Data {
    fn clone(&self) -> (r: Self)
        ensures
            r@ == self@,
    {
        match self {
            Data::Int32(v) => Data::Int32(*v),
            Data::Int64(v) => Data::Int64(*v),
            Data::Float32(v) => Data::Float32(*v),
            Data::Float64(v) => Data::Float64(*v),
            Data::String(v) => Data::String(v.clone()),
        }
    }
}

} // verus!
