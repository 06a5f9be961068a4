//! The record schema: the ordered fields every frame's records share.

use vstd::prelude::*;

verus! {

/// The kind of value a field holds.
#[derive(Clone, Copy, Debug, PartialEq, Eq, Structural)]
pub enum ElementType {
    String,
    MultiStrings,
}

/// One field of the schema: its name and the kind of value it holds.
#[derive(Debug)]
pub struct FieldSchema {
    pub name: String,
    pub dtype: ElementType,
}

impl FieldSchema {
    pub fn new(name: String, dtype: ElementType) -> (f: FieldSchema)
        ensures
            f.name@ == name@,
            f.dtype == dtype,
    {
        FieldSchema { name, dtype }
    }
}

/// The ordered fields of a record.
#[derive(Debug)]
pub struct RecordSchema {
    pub fields: Vec<FieldSchema>,
}

impl RecordSchema {
    pub fn new(fields: Vec<FieldSchema>) -> (s: RecordSchema)
        ensures
            s.fields@ == fields@,
    {
        RecordSchema { fields }
    }

    /// How many fields the schema has.
    pub fn num_fields(&self) -> (n: usize)
        ensures
            n == self.fields@.len(),
    {
        self.fields.len()
    }
}

} // verus!
