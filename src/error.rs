use vstd::prelude::*;

verus! {

/// Errors reported by the library; every failure is a value, never a panic.
#[derive(PartialEq, Eq, Structural, Debug, Clone, Copy)]
pub enum KmcError {
    /// The file pair is malformed, has an unsupported version, or is inconsistent.
    OpenFailed,
    /// The operation does not match the mode the database was opened in
    /// (or the database is closed).
    ModePrecondition,
    /// The text holds a character other than A, C, G, T (in either case).
    InvalidSymbol,
    /// The text is longer than the 32 symbols one `u64` can hold.
    KmerTooLong,
    /// The k-mer's length differs from the database's `k`.
    LengthMismatch,
}

} // verus!
