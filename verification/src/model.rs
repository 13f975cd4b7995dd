//! Data model: sessions, matches, engine reports, and their ghost views.
//!
//! A `Session` pairs two participants; an empty `participant_b` marks it
//! open. A `Match` is the per-session record of the commitment protocol;
//! its well-formedness predicate ties each stored commitment to its
//! submission and each state to the slots it requires.

use vstd::prelude::*;

verus! {

/// The ghost image of an optional byte string.
pub open spec fn opt_bytes_view(v: Option<Vec<u8>>) -> Option<Seq<u8>> {
    match v {
        Some(b) => Some(b@),
        None => None,
    }
}

/// The ghost image of an optional text.
pub open spec fn opt_string_view(v: Option<String>) -> Option<Seq<char>> {
    match v {
        Some(s) => Some(s@),
        None => None,
    }
}

/// The phase of a match. `AwaitingA`/`AwaitingB` name the participant whose
/// submission comes next; `Resolving` is entered at most once and leads only
/// to the two terminal states.
#[derive(Clone, Copy, Debug, PartialEq, Eq, Structural)]
pub enum MatchState {
    AwaitingA,
    AwaitingB,
    Complete,
    Failed,
    Resolving,
}

/// True of the two states a match can never leave.
pub open spec fn is_terminal(s: MatchState) -> bool {
    s is Complete || s is Failed
}

/// How far a state is along the protocol: the awaiting phase, resolution,
/// then a terminal state. Every transition is non-decreasing in this rank.
pub open spec fn state_rank(s: MatchState) -> int {
    match s {
        MatchState::AwaitingA => 0,
        MatchState::AwaitingB => 0,
        MatchState::Resolving => 1,
        MatchState::Complete => 2,
        MatchState::Failed => 2,
    }
}

/// A pairing of two participants. `participant_b` stays empty until a
/// second participant joins; once non-empty it never changes.
pub struct Session {
    pub id: u64,
    pub participant_a: String,
    pub participant_b: String,
}

/// Ghost image of a `Session`.
pub struct SessionView {
    pub id: u64,
    pub participant_a: Seq<char>,
    pub participant_b: Seq<char>,
}

impl View for Session {
    type V = SessionView;

    open spec fn view(&self) -> SessionView {
        SessionView {
            id: self.id,
            participant_a: self.participant_a@,
            participant_b: self.participant_b@,
        }
    }
}

impl SessionView {
    /// A session still waiting for its second participant.
    pub open spec fn is_open(self) -> bool {
        self.participant_b.len() == 0
    }

    pub open spec fn wf(self) -> bool {
        &&& self.participant_a.len() > 0
        &&& !self.is_open() ==> self.participant_b != self.participant_a
    }
}

/// Why a match ended in `Failed`.
#[derive(Clone, Debug, PartialEq, Eq)]
pub enum MatchFailure {
    /// The engine's reported commitments disagree with the stored ones.
    IntegrityError,
    /// The engine stayed unreachable after bounded retries.
    EngineUnavailable,
    /// The engine reported that the contest could not be completed, with
    /// its reason.
    Domain(String),
}

/// Ghost image of a `MatchFailure`.
pub enum MatchFailureView {
    IntegrityError,
    EngineUnavailable,
    Domain(Seq<char>),
}

impl View for MatchFailure {
    type V = MatchFailureView;

    open spec fn view(&self) -> MatchFailureView {
        match self {
            MatchFailure::IntegrityError => MatchFailureView::IntegrityError,
            MatchFailure::EngineUnavailable => MatchFailureView::EngineUnavailable,
            MatchFailure::Domain(s) => MatchFailureView::Domain(s@),
        }
    }
}

/// The per-session record of the commitment protocol. Submissions are kept
/// only until resolution completes; commitments are kept forever.
pub struct Match {
    pub session_id: u64,
    pub participant_a: String,
    pub participant_b: String,
    pub submission_a: Option<u64>,
    pub commitment_a: Option<Vec<u8>>,
    pub submission_b: Option<u64>,
    pub commitment_b: Option<Vec<u8>>,
    pub ruleset_commitment: Vec<u8>,
    pub state: MatchState,
    pub result: Option<String>,
    pub winner_id: Option<String>,
    pub winner_commitment: Option<Vec<u8>>,
    pub error: Option<MatchFailure>,
}

/// Ghost image of a `Match`.
pub struct MatchView {
    pub session_id: u64,
    pub participant_a: Seq<char>,
    pub participant_b: Seq<char>,
    pub submission_a: Option<u64>,
    pub commitment_a: Option<Seq<u8>>,
    pub submission_b: Option<u64>,
    pub commitment_b: Option<Seq<u8>>,
    pub ruleset_commitment: Seq<u8>,
    pub state: MatchState,
    pub result: Option<Seq<char>>,
    pub winner_id: Option<Seq<char>>,
    pub winner_commitment: Option<Seq<u8>>,
    pub error: Option<MatchFailureView>,
}

impl View for Match {
    type V = MatchView;

    open spec fn view(&self) -> MatchView {
        MatchView {
            session_id: self.session_id,
            participant_a: self.participant_a@,
            participant_b: self.participant_b@,
            submission_a: self.submission_a,
            commitment_a: opt_bytes_view(self.commitment_a),
            submission_b: self.submission_b,
            commitment_b: opt_bytes_view(self.commitment_b),
            ruleset_commitment: self.ruleset_commitment@,
            state: self.state,
            result: opt_string_view(self.result),
            winner_id: opt_string_view(self.winner_id),
            winner_commitment: opt_bytes_view(self.winner_commitment),
            error: match self.error {
                Option::Some(e) => Option::Some(e@),
                Option::None => Option::None,
            },
        }
    }
}

impl MatchView {
    pub open spec fn wf(self) -> bool {
        &&& self.participant_a.len() > 0
        &&& self.participant_b.len() > 0
        &&& self.participant_a != self.participant_b
        // a stored submission is always bound by a commitment
        &&& self.submission_a is Some ==> self.commitment_a is Some
        &&& self.submission_b is Some ==> self.commitment_b is Some
        // until resolution completes, a stored commitment keeps its raw submission
        &&& !is_terminal(self.state) && self.commitment_a is Some ==> self.submission_a is Some
        &&& !is_terminal(self.state) && self.commitment_b is Some ==> self.submission_b is Some
        // the participant whose turn it is was preceded by the other slot
        &&& self.state is AwaitingA ==> self.commitment_b is Some
        &&& self.state is AwaitingB ==> self.commitment_a is Some
        // from resolution on, both slots are committed
        &&& state_rank(self.state) >= 1 ==> self.commitment_a is Some && self.commitment_b is Some
        // a completed match keeps only the commitments
        &&& self.state is Complete ==> self.submission_a is None && self.submission_b is None
        // outcome bookkeeping
        &&& self.result is Some <==> self.state is Complete
        &&& self.winner_id is Some ==> self.state is Complete
        &&& (self.winner_id is Some <==> self.winner_commitment is Some)
        &&& self.error is Some <==> self.state is Failed
    }
}

/// Everything the resolution engine reports for one contest.
pub struct EngineReport {
    /// The engine's recomputed commitment for participant A's submission.
    pub commitment_a: Vec<u8>,
    /// The engine's recomputed commitment for participant B's submission.
    pub commitment_b: Vec<u8>,
    /// The engine's account of how the contest unfolded.
    pub result: String,
    /// The winner, if the contest was not a draw.
    pub winner: Option<Winner>,
    /// A domain-level reason why the contest could not be completed.
    pub error: Option<String>,
}

/// The winning side of an engine report.
pub struct Winner {
    pub id: String,
    pub commitment: Vec<u8>,
}

/// Ghost image of an `EngineReport`.
pub struct EngineReportView {
    pub commitment_a: Seq<u8>,
    pub commitment_b: Seq<u8>,
    pub result: Seq<char>,
    pub winner: Option<WinnerView>,
    pub error: Option<Seq<char>>,
}

/// Ghost image of a `Winner`.
pub struct WinnerView {
    pub id: Seq<char>,
    pub commitment: Seq<u8>,
}

impl View for Winner {
    type V = WinnerView;

    open spec fn view(&self) -> WinnerView {
        WinnerView { id: self.id@, commitment: self.commitment@ }
    }
}

impl View for EngineReport {
    type V = EngineReportView;

    open spec fn view(&self) -> EngineReportView {
        EngineReportView {
            commitment_a: self.commitment_a@,
            commitment_b: self.commitment_b@,
            result: self.result@,
            winner: match self.winner {
                Option::Some(w) => Option::Some(w@),
                Option::None => Option::None,
            },
            error: opt_string_view(self.error),
        }
    }
}

/// What a triggered resolution job needs: both identities and the raw
/// submissions captured at trigger time.
#[derive(Debug, PartialEq, Eq)]
pub struct ResolutionTask {
    pub session_id: u64,
    pub participant_a: String,
    pub submission_a: u64,
    pub participant_b: String,
    pub submission_b: u64,
}

/// Ghost image of a `ResolutionTask`.
pub struct ResolutionTaskView {
    pub session_id: u64,
    pub participant_a: Seq<char>,
    pub submission_a: u64,
    pub participant_b: Seq<char>,
    pub submission_b: u64,
}

impl View for ResolutionTask {
    type V = ResolutionTaskView;

    open spec fn view(&self) -> ResolutionTaskView {
        ResolutionTaskView {
            session_id: self.session_id,
            participant_a: self.participant_a@,
            submission_a: self.submission_a,
            participant_b: self.participant_b@,
            submission_b: self.submission_b,
        }
    }
}

/// The acknowledgment a successful submission earns.
#[derive(Debug, PartialEq, Eq)]
pub enum SubmitAck {
    /// The submission and its commitment were stored and the turn passed.
    Recorded,
    /// The submission confirmed a stored commitment: the match entered
    /// resolution, and the carried task must be dispatched exactly once.
    ResolutionStarted(ResolutionTask),
}

/// One entry of the completed-match listing: identifiers and raw
/// submissions are stripped, only participants, the ruleset commitment and
/// the outcome remain.
pub struct CompletedMatch {
    pub participant_a: String,
    pub participant_b: String,
    pub ruleset_commitment: Vec<u8>,
    pub result: String,
    pub winner_id: Option<String>,
    pub winner_commitment: Option<Vec<u8>>,
}

/// Ghost image of a `CompletedMatch`.
pub struct CompletedMatchView {
    pub participant_a: Seq<char>,
    pub participant_b: Seq<char>,
    pub ruleset_commitment: Seq<u8>,
    pub result: Seq<char>,
    pub winner_id: Option<Seq<char>>,
    pub winner_commitment: Option<Seq<u8>>,
}

impl View for CompletedMatch {
    type V = CompletedMatchView;

    open spec fn view(&self) -> CompletedMatchView {
        CompletedMatchView {
            participant_a: self.participant_a@,
            participant_b: self.participant_b@,
            ruleset_commitment: self.ruleset_commitment@,
            result: self.result@,
            winner_id: opt_string_view(self.winner_id),
            winner_commitment: opt_bytes_view(self.winner_commitment),
        }
    }
}

/// The completed-match entry a given match yields.
pub open spec fn completed_entry_of(m: MatchView) -> CompletedMatchView {
    CompletedMatchView {
        participant_a: m.participant_a,
        participant_b: m.participant_b,
        ruleset_commitment: m.ruleset_commitment,
        result: m.result->0,
        winner_id: m.winner_id,
        winner_commitment: m.winner_commitment,
    }
}

} // verus!
