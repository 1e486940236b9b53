//! What a compiler reports about the sources.

use vstd::prelude::*;

verus! {

/// How serious a diagnostic is.
#[derive(Clone, Copy, Debug, PartialEq, Eq, Structural)]
pub enum Severity {
    Error,
    Warning,
    Info,
}

impl Severity {
    /// The place of the severity in their order: errors come first.
    pub open spec fn level(self) -> int {
        match self {
            Severity::Error => 0,
            Severity::Warning => 1,
            Severity::Info => 2,
        }
    }

    /// Whether this is the severity of an error.
    pub fn is_error(&self) -> (r: bool)
        ensures
            r == (*self == Severity::Error),
    {
        *self == Severity::Error
    }

    /// Whether this is the severity of a warning.
    pub fn is_warning(&self) -> (r: bool)
        ensures
            r == (*self == Severity::Warning),
    {
        *self == Severity::Warning
    }

    /// Whether a filter that is set to this severity reaches diagnostics of the other.
    pub fn reaches(&self, other: &Severity) -> (r: bool)
        ensures
            r == (self.level() >= other.level()),
    {
        match (self, other) {
            (Severity::Info, _) => true,
            (Severity::Warning, Severity::Info) => false,
            (Severity::Warning, _) => true,
            (Severity::Error, Severity::Error) => true,
            (Severity::Error, _) => false,
        }
    }
}

/// Where in the sources a diagnostic belongs.
#[derive(Clone, Debug, PartialEq, Eq)]
pub struct SourceLocation {
    pub file: String,
    pub start: i32,
    pub end: i32,
}

/// A diagnostic of the compiler, which need not be an error.
#[derive(Clone, Debug, PartialEq, Eq)]
pub struct Error {
    pub source_location: Option<SourceLocation>,
    pub severity: Severity,
    pub error_code: Option<u64>,
    /// What the diagnostic is displayed as.
    pub text: String,
}

impl Error {
    /// Whether the diagnostic is an error.
    pub fn is_error(&self) -> (r: bool)
        ensures
            r == (self.severity == Severity::Error),
    {
        self.severity.is_error()
    }

    /// Whether the diagnostic is a warning.
    pub fn is_warning(&self) -> (r: bool)
        ensures
            r == (self.severity == Severity::Warning),
    {
        self.severity.is_warning()
    }
}

} // verus!
