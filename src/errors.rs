use vstd::prelude::*;
use vstd::string::*;

verus! {

broadcast use vstd::string::group_string_axioms;

/// What a failed filesystem access was, as far as the scan cares.
#[derive(Clone, Copy, Debug, PartialEq, Eq, Structural)]
pub enum ErrorKind {
    PermissionDenied,
    NotFound,
    Other,
}

/// Why a request on a root or on the cache failed.
#[derive(Clone, Copy, Debug, PartialEq, Eq, Structural)]
pub enum ScanError {
    NotFound,
    PermissionDenied,
    NotADirectory,
    NotCached,
    Other,
}

pub open spec fn error_of(kind: ErrorKind) -> ScanError {
    match kind {
        ErrorKind::PermissionDenied => ScanError::PermissionDenied,
        ErrorKind::NotFound => ScanError::NotFound,
        ErrorKind::Other => ScanError::Other,
    }
}

impl ScanError {
    pub fn from_kind(kind: ErrorKind) -> (r: ScanError)
        ensures
            r == error_of(kind),
    {
        match kind {
            ErrorKind::PermissionDenied => ScanError::PermissionDenied,
            ErrorKind::NotFound => ScanError::NotFound,
            ErrorKind::Other => ScanError::Other,
        }
    }

    /// A short description for display.
    pub fn message(&self) -> (r: String)
        ensures
            r@ == match self {
                ScanError::NotFound => "Path does not exist"@,
                ScanError::PermissionDenied => "Permission denied"@,
                ScanError::NotADirectory => "Path is not a directory"@,
                ScanError::NotCached => "Path not found in cache"@,
                ScanError::Other => "I/O error"@,
            },
    {
        match self {
            ScanError::NotFound => "Path does not exist".to_string(),
            ScanError::PermissionDenied => "Permission denied".to_string(),
            ScanError::NotADirectory => "Path is not a directory".to_string(),
            ScanError::NotCached => "Path not found in cache".to_string(),
            ScanError::Other => "I/O error".to_string(),
        }
    }
}

pub open spec fn bump(count: u64, by: nat) -> u64 {
    if count + by > u64::MAX {
        u64::MAX
    } else {
        (count + by) as u64
    }
}

/// Counts the failures met while scanning; a failure is counted and skipped,
/// never propagated. The counters stop at `u64::MAX`.
#[derive(Clone, Copy)]
pub struct ErrorAccountant {
    permission_denied: u64,
    not_found: u64,
}

impl ErrorAccountant {
    pub closed spec fn denied(&self) -> u64 {
        self.permission_denied
    }

    pub closed spec fn missing(&self) -> u64 {
        self.not_found
    }

    pub fn new() -> (r: ErrorAccountant)
        ensures
            r.denied() == 0,
            r.missing() == 0,
    {
        ErrorAccountant { permission_denied: 0, not_found: 0 }
    }

    /// Counts one failure under its kind and hands the kind back.
    pub fn classify_and_record(&mut self, kind: ErrorKind) -> (r: ErrorKind)
        ensures
            r == kind,
            final(self).denied() == bump(
                old(self).denied(),
                if kind == ErrorKind::PermissionDenied { 1 } else { 0 },
            ),
            final(self).missing() == bump(
                old(self).missing(),
                if kind == ErrorKind::NotFound { 1 } else { 0 },
            ),
    {
        match kind {
            ErrorKind::PermissionDenied => {
                self.permission_denied = self.permission_denied.saturating_add(1);
            },
            ErrorKind::NotFound => {
                self.not_found = self.not_found.saturating_add(1);
            },
            ErrorKind::Other => {},
        }
        kind
    }

    /// The permission-denied and not-found counts.
    pub fn stats(&self) -> (r: (u64, u64))
        ensures
            r == (self.denied(), self.missing()),
    {
        (self.permission_denied, self.not_found)
    }

    pub fn reset(&mut self)
        ensures
            final(self).denied() == 0,
            final(self).missing() == 0,
    {
        self.permission_denied = 0;
        self.not_found = 0;
    }
}

} // verus!
