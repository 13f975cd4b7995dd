//! Error taxonomy of the protocol core.
//!
//! Validation errors are returned synchronously to the request that caused
//! them; resolution-phase failures are recorded on the `Match` itself and
//! observed through subsequent reads.

use vstd::prelude::*;

verus! {

/// Why a targeted or searched join could not be satisfied.
///
/// The three causes are reported separately so that a caller can tell a
/// missing session from a full one and from one it already occupies.
#[derive(Clone, Copy, Debug, PartialEq, Eq, Structural)]
pub enum JoinRefusal {
    /// No session with the requested id exists.
    NotFound,
    /// The session already has both participants.
    AlreadyFull,
    /// The requester is already one of the session's participants.
    AlreadyMember,
}

/// Every error the protocol can report to a caller. Validation and join
/// refusals are returned synchronously by the store operations;
/// `EngineUnavailable` and `IntegrityError` are recorded on the failed
/// match itself (see `MatchFailure`) and stand here for the surrounding
/// process to reuse when it reports such a match; `StorageError` is how
/// that process reports a store it could not reach at all.
#[derive(Clone, Copy, Debug, PartialEq, Eq, Structural)]
pub enum ProtocolError {
    /// The request is malformed (an empty participant id, a participant
    /// matched against itself, or a resolution commit against a match that
    /// is not resolving).
    ValidationError,
    /// No session with the given id exists.
    SessionNotFound,
    /// The session does not yet have both participants bound.
    SessionIncomplete,
    /// The submitter is not the participant whose turn it is.
    NotYourTurn,
    /// The match has entered resolution; no further submissions are taken.
    MatchInProgress,
    /// The match is terminal; no further submissions are taken.
    MatchComplete,
    /// A targeted or searched join failed, with the specific cause.
    NotJoinable(JoinRefusal),
    /// An automated-opponent pairing was already played to a terminal state.
    AlreadyPlayed,
    /// The resolution engine stayed unreachable after bounded retries.
    EngineUnavailable,
    /// The engine's reported commitments disagree with the stored ones.
    IntegrityError,
    /// The store could not serve the request; the caller may retry.
    StorageError,
}

} // verus!
