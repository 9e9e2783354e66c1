//! The status taxonomy shared by every backup-engine operation.
//!
//! A failed operation reports a [`Code`] saying which kind of failure
//! occurred, a [`SubCode`] refining it, a [`Severity`], and a state string
//! naming the object (usually the relative path) that failed.

use vstd::prelude::*;

verus! {

/// The kind of failure an operation reports.
#[derive(Debug, Copy, Clone, PartialEq, Eq, Structural)]
pub enum Code {
    _Ok,
    NotFound,
    Corruption,
    NotSupported,
    InvalidArgument,
    IOError,
    MergeInProgress,
    Incomplete,
    ShutdownInProgress,
    TimedOut,
    Aborted,
    Busy,
    Expired,
    TryAgain,
    CompactionTooLarge,
    ColumnFamilyDropped,
}

/// A refinement of [`Code`].
#[derive(Debug, Copy, Clone, PartialEq, Eq, Structural)]
pub enum SubCode {
    NoSubCode,
    MutexTimeout,
    LockTimeout,
    LockLimit,
    NoSpace,
    Deadlock,
    StaleFile,
    MemoryLimit,
    SpaceLimit,
    PathNotFound,
    MergeOperandsInsufficientCapacity,
    ManualCompactionPaused,
}

/// How recoverable a failure is.
#[derive(Debug, Copy, Clone, PartialEq, Eq, Structural)]
pub enum Severity {
    NoError,
    SoftError,
    HardError,
    FatalError,
    UnrecoverableError,
}

/// The error value returned by backup-engine operations.
///
/// `state` names the object the failure is about: for `Corruption` raised
/// while deduplicating or verifying a file, it holds that file's relative
/// path.
#[derive(Debug)]
pub struct Error {
    pub code: Code,
    pub subcode: SubCode,
    pub severity: Severity,
    pub state: String,
}

impl Error {
    /// Builds an error of the given code with an empty refinement.
    pub fn with_state(code: Code, state: String) -> (r: Error)
        ensures
            r.code == code,
            r.subcode == SubCode::NoSubCode,
            r.severity == Severity::NoError,
            r.state@ == state@,
    {
        Error { code, subcode: SubCode::NoSubCode, severity: Severity::NoError, state }
    }

    /// True exactly when the code is `NotFound`.
    pub fn is_not_found(&self) -> (r: bool)
        ensures
            r == (self.code is NotFound),
    {
        self.code == Code::NotFound
    }

    /// The kind of failure.
    pub fn code(&self) -> (r: Code)
        ensures
            r == self.code,
    {
        self.code
    }

    /// The refinement of the failure kind.
    pub fn subcode(&self) -> (r: SubCode)
        ensures
            r == self.subcode,
    {
        self.subcode
    }

    /// How recoverable the failure is.
    pub fn severity(&self) -> (r: Severity)
        ensures
            r == self.severity,
    {
        self.severity
    }

    /// The message naming what failed, usually a relative path.
    pub fn state(&self) -> (r: &str)
        ensures
            r@ == self.state@,
    {
        self.state.as_str()
    }
}

} // verus!
