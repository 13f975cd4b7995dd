//! Core of a two-participant matchmaking and commitment protocol.
//!
//! A `Session` pairs two participants; a `Match` drives a turn-based
//! commitment protocol over their submissions and records the outcome of a
//! single, exactly-once resolution step. All protocol decisions are made
//! here, over plain values; the surrounding process supplies storage and
//! the resolution engine.

pub mod arena;
pub mod commitment;
pub mod errors;
pub mod machine;
pub mod model;

pub use arena::Arena;
pub use commitment::commitment_of_submission;

pub use errors::JoinRefusal;
pub use errors::ProtocolError;
pub use model::CompletedMatch;
pub use model::EngineReport;
pub use model::Match;
pub use model::MatchFailure;
pub use model::MatchState;
pub use model::ResolutionTask;
pub use model::Session;
pub use model::SubmitAck;
pub use model::Winner;
