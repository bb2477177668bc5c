//! The kinds of fields that make up a document.
use vstd::prelude::*;

verus! {

/// The kind of a field, with the number of bytes that it takes in a row.
#[derive(Debug, Clone, PartialEq, Eq, Structural)]
pub enum FieldKind {
    /// Keywords are not tokenized.
    Keyword(usize),
    /// Text fields are tokenized.
    Text(usize),
    /// Just a number.
    Number(usize),
}

impl FieldKind {
    /// The number of bytes that the field takes.
    pub open spec fn spec_size(&self) -> nat {
        match self {
            FieldKind::Keyword(u) => *u as nat,
            FieldKind::Text(u) => *u as nat,
            FieldKind::Number(u) => *u as nat,
        }
    }

    /// Gets the number of bytes needed to store the field.
    pub fn size(&self) -> (r: usize)
        ensures
            r == self.spec_size(),
    {
        match self {
            FieldKind::Keyword(u) => *u,
            FieldKind::Text(u) => *u,
            FieldKind::Number(u) => *u,
        }
    }
}

} // verus!
