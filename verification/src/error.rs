//! Error kinds reported by the credential store and its secret-sharing core.

use vstd::prelude::*;

verus! {

/// The four failure classes: secret-sharing invariant violations
/// (`ShardError`), vault-state and authentication violations (`AuthError`),
/// storage-medium failures (`FileError`) and encoding failures (`SerError`).
#[derive(Debug, Clone, Copy, PartialEq, Eq, Structural)]
pub enum PPHErrorKind {
    ShardError,
    AuthError,
    FileError,
    SerError,
}

/// An error: a kind together with a human-readable message.
#[derive(Debug, Clone)]
pub struct PPHError {
    pub kind: PPHErrorKind,
    pub msg: String,
}

/// Result alias used throughout the crate.
pub type PPHResult<R> = Result<R, PPHError>;

impl PPHError {
    /// Builds an error of the given kind carrying the given message.
    pub fn new(kind: PPHErrorKind, msg: &str) -> (r: PPHError)
        ensures
            r.kind == kind,
            r.msg@ == msg@,
    {
        PPHError { kind, msg: msg.to_owned() }
    }

    /// The message text; offered in place of a `Display` impl.
    pub fn message(&self) -> (r: &str)
        ensures
            r@ == self.msg@,
    {
        self.msg.as_str()
    }
}

} // verus!
