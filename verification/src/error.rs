use vstd::prelude::*;
use vstd::std_specs::cmp::PartialEqSpecImpl;

verus! {

/// Why a query, an insertion or a conversion failed.
#[derive(Debug)]
pub enum JsonError {
    /// The key path was empty.
    NoPathProvided,
    /// The key path leads to no entry, or to a container where a leaf was asked for.
    InvalidPath,
    /// The token sequence is not that of a JSON object.
    InvalidJson,
    /// The entry that was to receive a new member holds a scalar.
    InsertCantInsertIntoValue,
    /// Reading or writing a file failed; the text describes the failure.
    StdInputOutputError(String),
    /// The value is not an integer.
    JsonValueIsNotInteger,
    /// The value is not a float.
    JsonValueIsNotFloat,
    /// The value is not a boolean.
    JsonValueIsNotBool,
    /// The value is not a string.
    JsonValueIsNotString,
}

/// The result of a fallible operation of this crate.
pub type JsonResult<T> = Result<T, JsonError>;

impl JsonError {
    /// Whether two errors compare equal: both are the same one of the
    /// path, structure, insertion and I/O errors. Two I/O errors are equal
    /// whatever their texts; a conversion error equals nothing, itself included.
    pub open spec fn same(self, other: JsonError) -> bool {
        match (self, other) {
            (JsonError::NoPathProvided, JsonError::NoPathProvided) => true,
            (JsonError::InvalidPath, JsonError::InvalidPath) => true,
            (JsonError::InvalidJson, JsonError::InvalidJson) => true,
            (JsonError::InsertCantInsertIntoValue, JsonError::InsertCantInsertIntoValue) => true,
            (JsonError::StdInputOutputError(_), JsonError::StdInputOutputError(_)) => true,
            _ => false,
        }
    }
}

impl PartialEq for JsonError {
    fn eq(&self, other: &Self) -> (r: bool)
    {
        match (self, other) {
            (JsonError::NoPathProvided, JsonError::NoPathProvided) => true,
            (JsonError::InvalidPath, JsonError::InvalidPath) => true,
            (JsonError::InvalidJson, JsonError::InvalidJson) => true,
            (JsonError::InsertCantInsertIntoValue, JsonError::InsertCantInsertIntoValue) => true,
            (JsonError::StdInputOutputError(_), JsonError::StdInputOutputError(_)) => true,
            _ => false,
        }
    }
}

impl PartialEqSpecImpl for JsonError {
    open spec fn obeys_eq_spec() -> bool {
        true
    }

    open spec fn eq_spec(&self, other: &Self) -> bool {
        self.same(*other)
    }
}

} // verus!
