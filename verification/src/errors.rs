use vstd::prelude::*;

verus! {

/// Failures of the cryptographic envelope engine and of password hashing.
#[derive(Debug, Clone, Copy, PartialEq, Eq, Structural)]
pub enum CryptoError {
    EncryptionFailed,
    DecryptionFailed,
    InvalidFormat,
    PasswordHashFailed,
    PasswordVerificationFailed,
}

/// What a safe-file parse rejected.
#[derive(Debug, Clone, Copy, PartialEq, Eq, Structural)]
pub enum ParseIssueKind {
    /// A non-comment line without a `=` separator.
    InvalidLine,
    /// A `KEY=VALUE` line whose key is empty after trimming.
    EmptyKey,
    MissingVersion,
    MissingUuid,
    MissingDescription,
    MissingCreated,
    MissingUpdated,
    MissingPassHash,
    /// An import line whose key is not a valid environment variable
    /// name.
    InvalidKey,
    /// An imported file with no usable entries at all.
    NoEntries,
}

/// What argument validation rejected before any work was done.
#[derive(Debug, Clone, Copy, PartialEq, Eq, Structural)]
pub enum ArgIssue {
    EmptyKey,
    /// A key that is not a valid environment variable name.
    InvalidKey,
    /// Both the plain-only and the encrypted-only filters at once.
    ConflictingFilters,
    /// An explicitly given parameter-store prefix that is empty.
    EmptySsmPrefix,
    /// A cleanup age in days too large to compute with.
    DaysTooLarge,
    /// A value marked plain that the file format cannot carry verbatim.
    UnstorablePlainValue,
    /// A value too large for one envelope.
    ValueTooLarge,
}

/// A structured parse error: the 1-based line number where the fault lies
/// (0 when the fault is a missing metadata field of the whole file) and
/// what was wrong.
#[derive(Debug, Clone, Copy, PartialEq, Eq, Structural)]
pub struct ParseIssue {
    pub line: usize,
    pub kind: ParseIssueKind,
}

/// Which tier of the password authentication chain a password came from.
#[derive(Debug, Clone, Copy, PartialEq, Eq, Structural)]
pub enum PasswordSource {
    /// The well-known environment variable.
    Environment,
    /// The persisted per-safe key file.
    KeyFile,
    /// The interactive prompt.
    Prompt,
    /// A password handed in directly by the caller.
    Caller,
}

/// Why a candidate password was rejected by the password policy.
#[derive(Debug, Clone, Copy, PartialEq, Eq, Structural)]
pub enum PolicyViolation {
    TooShort,
    InvalidCharacter,
    MissingLowercase,
    MissingUppercase,
    MissingDigit,
    MissingSpecial,
}

/// The library's error type.
#[derive(Debug)]
pub enum SkitError {
    /// An I/O failure, as a message; raised only by the surrounding
    /// application, never by the library itself.
    Io(String),
    Crypto(CryptoError),
    KeyNotFound,
    SafeNotFound(String),
    InvalidPassword(PasswordSource),
    EmptyCommand,
    ParseError(ParseIssue),
    /// A new password that does not meet the password policy.
    WeakPassword(PolicyViolation),
    /// A command argument rejected before any work was done.
    InvalidArgument(ArgIssue),
    AwsError(String),
}

} // verus!
