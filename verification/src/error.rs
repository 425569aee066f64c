//! Typed failures. Every failure names what went wrong ([`ErrorKind`]) and the
//! path of field names, innermost first, at which it was detected.
use vstd::prelude::*;

verus! {

/// The four families of failures.
#[derive(Clone, Copy, Debug, PartialEq, Eq, Structural)]
pub enum ErrorCategory {
    /// The schema of a record collection could not be inferred.
    SchemaInference,
    /// A field tree cannot be represented as a program.
    Compilation,
    /// An event sequence does not match the shape the program expects.
    Interpreter,
    /// Buffers handed to deserialization are inconsistent.
    DataIntegrity,
}

/// What went wrong.
#[derive(Clone, Copy, Debug, PartialEq, Eq, Structural)]
pub enum ErrorKind {
    /// Two observations of one field cannot be merged into one data type.
    IncompatibleTypes,
    /// The traced root is not a collection of records.
    RootNotRecords,
    /// No record was seen, so no schema can be determined.
    NoRecords,
    /// A field was only ever observed as null.
    NullOnlyField,
    /// An event of a kind that no column can hold.
    UnsupportedValue,
    /// A schema operation named a field that does not exist.
    UnknownSchemaField,
    /// The field tree has a shape that no program can represent.
    UnsupportedField,
    /// A value of the wrong kind for its field.
    TypeMismatch,
    /// A record named a field that the struct does not have, or named one twice.
    UnknownField,
    /// A record lacks a field that is not nullable.
    MissingField,
    /// Start and end events do not balance, or events are left over.
    UnbalancedNesting,
    /// Text that is not a date and time in the expected format.
    InvalidDate,
    /// An interpreter was used again after it had failed.
    Failed,
    /// An offset points outside the child buffer.
    OffsetOutOfRange,
    /// Offsets do not increase monotonically.
    NonMonotonicOffsets,
    /// Buffers of one record set disagree in length or in kind.
    LengthMismatch,
}

impl ErrorKind {
    /// The family a kind belongs to.
    pub open spec fn spec_category(self) -> ErrorCategory {
        match self {
            ErrorKind::IncompatibleTypes
            | ErrorKind::RootNotRecords
            | ErrorKind::NoRecords
            | ErrorKind::NullOnlyField
            | ErrorKind::UnsupportedValue
            | ErrorKind::UnknownSchemaField => ErrorCategory::SchemaInference,
            ErrorKind::UnsupportedField => ErrorCategory::Compilation,
            ErrorKind::TypeMismatch
            | ErrorKind::UnknownField
            | ErrorKind::MissingField
            | ErrorKind::UnbalancedNesting
            | ErrorKind::InvalidDate
            | ErrorKind::Failed => ErrorCategory::Interpreter,
            ErrorKind::OffsetOutOfRange
            | ErrorKind::NonMonotonicOffsets
            | ErrorKind::LengthMismatch => ErrorCategory::DataIntegrity,
        }
    }

    #[verifier::when_used_as_spec(spec_category)]
    pub fn category(self) -> (c: ErrorCategory)
        ensures
            c == self.spec_category(),
    {
        match self {
            ErrorKind::IncompatibleTypes
            | ErrorKind::RootNotRecords
            | ErrorKind::NoRecords
            | ErrorKind::NullOnlyField
            | ErrorKind::UnsupportedValue
            | ErrorKind::UnknownSchemaField => ErrorCategory::SchemaInference,
            ErrorKind::UnsupportedField => ErrorCategory::Compilation,
            ErrorKind::TypeMismatch
            | ErrorKind::UnknownField
            | ErrorKind::MissingField
            | ErrorKind::UnbalancedNesting
            | ErrorKind::InvalidDate
            | ErrorKind::Failed => ErrorCategory::Interpreter,
            ErrorKind::OffsetOutOfRange
            | ErrorKind::NonMonotonicOffsets
            | ErrorKind::LengthMismatch => ErrorCategory::DataIntegrity,
        }
    }

    /// A short description of the kind.
    pub open spec fn spec_describe(self) -> Seq<char> {
        match self {
            ErrorKind::IncompatibleTypes => "incompatible data types for one field"@,
            ErrorKind::RootNotRecords => "the root value is not a collection of records"@,
            ErrorKind::NoRecords => "no records found to determine schema"@,
            ErrorKind::NullOnlyField => "encountered a field that is always null"@,
            ErrorKind::UnsupportedValue => "value of an unsupported kind"@,
            ErrorKind::UnknownSchemaField => "cannot change an unknown field"@,
            ErrorKind::UnsupportedField => "the field cannot be compiled"@,
            ErrorKind::TypeMismatch => "value does not match the type of the field"@,
            ErrorKind::UnknownField => "unknown or repeated field in record"@,
            ErrorKind::MissingField => "missing field that is not nullable"@,
            ErrorKind::UnbalancedNesting => "unbalanced start and end events"@,
            ErrorKind::InvalidDate => "text is not a valid date and time"@,
            ErrorKind::Failed => "the interpreter has failed before"@,
            ErrorKind::OffsetOutOfRange => "offset out of range"@,
            ErrorKind::NonMonotonicOffsets => "offsets are not monotonic"@,
            ErrorKind::LengthMismatch => "buffers disagree in length or kind"@,
        }
    }

    /// A short description of the kind.
    pub fn describe(self) -> (s: String)
        ensures
            s@ == self.spec_describe(),
    {
        match self {
            ErrorKind::IncompatibleTypes => "incompatible data types for one field".to_owned(),
            ErrorKind::RootNotRecords => "the root value is not a collection of records".to_owned(),
            ErrorKind::NoRecords => "no records found to determine schema".to_owned(),
            ErrorKind::NullOnlyField => "encountered a field that is always null".to_owned(),
            ErrorKind::UnsupportedValue => "value of an unsupported kind".to_owned(),
            ErrorKind::UnknownSchemaField => "cannot change an unknown field".to_owned(),
            ErrorKind::UnsupportedField => "the field cannot be compiled".to_owned(),
            ErrorKind::TypeMismatch => "value does not match the type of the field".to_owned(),
            ErrorKind::UnknownField => "unknown or repeated field in record".to_owned(),
            ErrorKind::MissingField => "missing field that is not nullable".to_owned(),
            ErrorKind::UnbalancedNesting => "unbalanced start and end events".to_owned(),
            ErrorKind::InvalidDate => "text is not a valid date and time".to_owned(),
            ErrorKind::Failed => "the interpreter has failed before".to_owned(),
            ErrorKind::OffsetOutOfRange => "offset out of range".to_owned(),
            ErrorKind::NonMonotonicOffsets => "offsets are not monotonic".to_owned(),
            ErrorKind::LengthMismatch => "buffers disagree in length or kind".to_owned(),
        }
    }
}

/// A failure: its kind and the field path, innermost name first.
#[derive(Debug)]
pub struct Error {
    pub kind: ErrorKind,
    pub path: Vec<String>,
}

impl Error {
    /// A failure of the given kind with an empty path.
    pub fn new(kind: ErrorKind) -> (e: Error)
        ensures
            e.kind == kind,
            e.path@.len() == 0,
    {
        Error { kind, path: Vec::new() }
    }

    /// The same failure, seen from the enclosing field `name`.
    pub fn within(self, name: &String) -> (e: Error)
        ensures
            e.kind == self.kind,
            e.path@ == self.path@.push(*name),
    {
        let mut path = self.path;
        path.push(name.clone());
        Error { kind: self.kind, path }
    }

    /// The family of the failure.
    pub fn category(&self) -> (c: ErrorCategory)
        ensures
            c == self.kind.spec_category(),
    {
        self.kind.category()
    }

    /// The description of the kind; the path is available in `path`.
    pub fn message(&self) -> (s: String)
        ensures
            s@ == self.kind.spec_describe(),
    {
        self.kind.describe()
    }
}

} // verus!
