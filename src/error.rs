use vstd::prelude::*;

verus! {

/// What went wrong in an operation of the engine.
#[derive(Clone, Copy, Debug, PartialEq, Eq, Structural)]
pub enum DbError {
    /// A document, query or update spec does not have the shape the operation needs.
    MalformedInput,
    /// An update tried to set, unset, increment, push to or pull from `id`.
    ReservedField,
    /// An operator met an operand of the wrong kind, or a sum that does not fit a number.
    TypeMismatch,
    /// A unique index already maps the key to another document.
    UniqueViolation,
    /// A document with the same id is already stored.
    DuplicateId,
    /// The index kind named is none of `single`, `unique`, `multi`.
    UnknownIndexKind,
}

impl DbError {
    /// A short description of the error.
    pub fn message(&self) -> String {
        match self {
            DbError::MalformedInput => String::from_str("malformed input"),
            DbError::ReservedField => String::from_str("the id field cannot be updated"),
            DbError::TypeMismatch => String::from_str("operand of the wrong kind"),
            DbError::UniqueViolation => String::from_str("duplicate key for unique index"),
            DbError::DuplicateId => String::from_str("a document with this id already exists"),
            DbError::UnknownIndexKind => String::from_str("invalid index type"),
        }
    }
}

} // verus!
