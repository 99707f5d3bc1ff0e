use vstd::prelude::*;

verus! {

/// The ways an engine operation can fail.
#[derive(Debug, Clone, Copy, PartialEq, Eq, Structural)]
pub enum DbError {
    /// The table directory, its descriptor or its free-space file is missing.
    TableNotFound,
    /// Stored bytes do not describe a valid value, ledger or schema.
    CorruptedData,
    /// An inserted record repeats a primary-key value that is already live.
    UniqueConstraintViolation,
    /// A buffer is shorter than the shape it is decoded with.
    TruncatedBuffer,
    /// A filter operator other than equality was requested.
    UnsupportedFilter,
    /// A filesystem operation failed.
    IoError,
    /// A table schema breaks one of its rules.
    InvalidSchema,
    /// A free-space interval would be empty or reversed.
    EmptyInterval,
    /// A table would need more pages than its ledger can number.
    TableFull,
    /// A filter names a field the table does not have.
    UnknownField,
}

} // verus!
