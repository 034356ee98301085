//! The error kinds that engine operations surface.

use vstd::prelude::*;

verus! {

/// Every failure an engine operation can report.
///
/// `Unavailable` and `Timeout` come from the storage backend and are
/// retryable by the caller with backoff; `Corrupt` marks a stored payload
/// that failed to decode and is fatal to that single operation only.  No
/// error is ever silently downgraded to success.
#[derive(Clone, Copy, Debug, PartialEq, Eq, Structural)]
pub enum KeygateError {
    /// The named identity or session does not exist.
    NotFound,
    /// The natural key is already bound to another identity.
    Conflict,
    /// A malformed or unverifiable token.
    Invalid,
    /// The token's lifetime has elapsed.
    Expired,
    /// The session's revocation flag is set.
    Revoked,
    /// The owning identity is no longer `active`.
    IdentityDisabled,
    /// A non-monotonic identity status change was attempted.
    InvalidTransition,
    /// The storage backend is unreachable; the caller may retry.
    Unavailable,
    /// The storage backend timed out; the caller may retry.
    Timeout,
    /// A stored payload failed deserialization.
    Corrupt,
}

} // verus!
