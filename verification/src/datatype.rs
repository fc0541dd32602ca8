//! Column data types and their fixed byte widths.

use vstd::prelude::*;
use crate::strutil::str_eq;

verus! {

/// A column's data type. `Char` and `Varchar` carry their declared length.
#[derive(Debug, Clone, Copy, PartialEq, Eq, Structural)]
pub enum DataType {
    Char(u8),
    Double,
    Float,
    Int,
    Varchar(u8),
}

impl DataType {
    /// Looks a type up by its SQL name; `len` applies to `char` and `varchar`
    /// and defaults to 0 when absent.
    pub fn get(s: &str, len: Option<u8>) -> (r: Option<DataType>)
        ensures
            r == Self::spec_get(s@, len),
    {
        let length: u8 = match len {
            Some(l) => l,
            None => 0,
        };
        if str_eq(s, "char") {
            Some(DataType::Char(length))
        } else if str_eq(s, "double") {
            Some(DataType::Double)
        } else if str_eq(s, "float") {
            Some(DataType::Float)
        } else if str_eq(s, "int") {
            Some(DataType::Int)
        } else if str_eq(s, "varchar") {
            Some(DataType::Varchar(length))
        } else {
            None
        }
    }

    pub open spec fn spec_get(s: Seq<char>, len: Option<u8>) -> Option<DataType> {
        let length = if len is Some { len->Some_0 } else { 0u8 };
        if s == "char"@ {
            Some(DataType::Char(length))
        } else if s == "double"@ {
            Some(DataType::Double)
        } else if s == "float"@ {
            Some(DataType::Float)
        } else if s == "int"@ {
            Some(DataType::Int)
        } else if s == "varchar"@ {
            Some(DataType::Varchar(length))
        } else {
            None
        }
    }

    /// The number of bytes a value of this type occupies in a row record.
    pub open spec fn spec_size(self) -> u32 {
        match self {
            DataType::Char(length) => length as u32,
            DataType::Double => 8,
            DataType::Float => 4,
            DataType::Int => 4,
            DataType::Varchar(length) => length as u32,
        }
    }
}

} // verus!
