//! Column definitions: name, type, constraints, and a stable identifier.

use vstd::prelude::*;
use crate::datatype::DataType;

verus! {

/// A column of a table.
#[derive(Debug, Clone)]
pub struct Field {
    pub name: String,
    pub datatype: DataType,
    pub not_null: bool,
    pub default: Option<String>,
    pub check: Checker,
    pub encrypt: bool,
    pub uuid: String,
}

/// An optional value constraint on a column.
#[derive(Debug, Clone)]
pub enum Checker {
    NoCheck,
    Cond(Operator, String),
}

/// Comparison operators usable in checks.
#[derive(Debug, Clone, Copy, PartialEq, Eq, Structural)]
pub enum Operator {
    LT,
    LE,
    EQ,
    NE,
    GT,
    GE,
}

/// Relies on uuid::Uuid::new_v4 for a fresh random identifier; nothing
/// is promised of the returned text.
#[verifier::external_body]
fn fresh_uuid() -> String {
    uuid::Uuid::new_v4().to_string()
}

impl Field {
    /// A plain nullable column without default, check, or encryption.
    pub fn new(name: &str, datatype: DataType) -> (r: Field)
        ensures
            r.name@ == name@,
            r.datatype == datatype,
            !r.not_null,
            r.default is None,
            r.check is NoCheck,
            !r.encrypt,
    {
        Field {
            name: name.to_owned(),
            datatype,
            not_null: false,
            default: None,
            check: Checker::NoCheck,
            encrypt: false,
            uuid: fresh_uuid(),
        }
    }

    /// A column with every property given.
    pub fn new_all(
        name: &str,
        datatype: DataType,
        not_null: bool,
        default: Option<String>,
        check: Checker,
        encrypt: bool,
    ) -> (r: Field)
        ensures
            r.name@ == name@,
            r.datatype == datatype,
            r.not_null == not_null,
            r.default == default,
            r.check == check,
            r.encrypt == encrypt,
    {
        Field { name: name.to_owned(), datatype, not_null, default, check, encrypt,
            uuid: fresh_uuid() }
    }

    /// A value-equal copy.
    pub fn duplicate(&self) -> (r: Field)
        ensures
            r == *self,
    {
        Field {
            name: self.name.clone(),
            datatype: self.datatype,
            not_null: self.not_null,
            default: match &self.default {
                Some(d) => Some(d.clone()),
                None => None,
            },
            check: match &self.check {
                Checker::NoCheck => Checker::NoCheck,
                Checker::Cond(op, s) => Checker::Cond(*op, s.clone()),
            },
            encrypt: self.encrypt,
            uuid: self.uuid.clone(),
        }
    }
}

} // verus!
