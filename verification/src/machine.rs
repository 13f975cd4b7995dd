//! The per-match state machine, at the ghost level.
//!
//! `spec_submit` is the full meaning of one submission; `spec_resolve` and
//! `spec_engine_failure` are the two ways a resolution commits. The exec
//! methods of `Arena` promise to realise exactly these steps, and the
//! lemmas below state the protocol's laws over them.

use vstd::prelude::*;

use crate::errors::ProtocolError;
use crate::model::is_terminal;
use crate::model::state_rank;
use crate::model::EngineReportView;
use crate::model::MatchFailureView;
use crate::model::MatchState;
use crate::model::MatchView;

verus! {

/// What one accepted submission did to the match.
pub enum SubmitOutcome {
    /// The slot was (over)written and the turn passed to the other side.
    Recorded,
    /// The stored commitment was confirmed: the match entered resolution.
    Triggered,
}

/// One submission applied to a match: the new match record, and what the
/// submitter is told. `by_a` says which bound participant is submitting;
/// `commitment` is the commitment of `submission`.
///
/// A submission into the submitter's own turn either confirms the slot's
/// stored commitment — the trigger, moving the match to `Resolving` with
/// every other field untouched — or (over)writes the slot and passes the
/// turn. Everything else is rejected without any change.
pub open spec fn spec_submit(
    m: MatchView,
    by_a: bool,
    submission: u64,
    commitment: Seq<u8>,
) -> (MatchView, Result<SubmitOutcome, ProtocolError>) {
    if m.state is Resolving {
        (m, Err(ProtocolError::MatchInProgress))
    } else if is_terminal(m.state) {
        (m, Err(ProtocolError::MatchComplete))
    } else if by_a != (m.state is AwaitingA) {
        (m, Err(ProtocolError::NotYourTurn))
    } else if by_a {
        if m.commitment_a == Some(commitment) {
            (MatchView { state: MatchState::Resolving, ..m }, Ok(SubmitOutcome::Triggered))
        } else {
            (
                MatchView {
                    submission_a: Some(submission),
                    commitment_a: Some(commitment),
                    state: MatchState::AwaitingB,
                    ..m
                },
                Ok(SubmitOutcome::Recorded),
            )
        }
    } else {
        if m.commitment_b == Some(commitment) {
            (MatchView { state: MatchState::Resolving, ..m }, Ok(SubmitOutcome::Triggered))
        } else {
            (
                MatchView {
                    submission_b: Some(submission),
                    commitment_b: Some(commitment),
                    state: MatchState::AwaitingA,
                    ..m
                },
                Ok(SubmitOutcome::Recorded),
            )
        }
    }
}

/// An engine report committed onto a resolving match. A match in any other
/// state is left untouched. Commitments that disagree with the stored ones
/// are an integrity violation; a reported domain error fails the match with
/// its reason; otherwise the match completes, keeps the outcome and winner,
/// and purges the raw submissions.
pub open spec fn spec_resolve(m: MatchView, report: EngineReportView) -> MatchView {
    if !(m.state is Resolving) {
        m
    } else if m.commitment_a != Some(report.commitment_a) || m.commitment_b != Some(
        report.commitment_b,
    ) {
        MatchView { state: MatchState::Failed, error: Some(MatchFailureView::IntegrityError), ..m }
    } else if report.error is Some {
        MatchView {
            state: MatchState::Failed,
            error: Some(MatchFailureView::Domain(report.error->0)),
            ..m
        }
    } else {
        MatchView {
            state: MatchState::Complete,
            result: Some(report.result),
            winner_id: match report.winner {
                Some(w) => Some(w.id),
                None => None,
            },
            winner_commitment: match report.winner {
                Some(w) => Some(w.commitment),
                None => None,
            },
            submission_a: None,
            submission_b: None,
            ..m
        }
    }
}

/// A resolving match abandoned because the engine stayed unreachable. A
/// match in any other state is left untouched.
pub open spec fn spec_engine_failure(m: MatchView) -> MatchView {
    if m.state is Resolving {
        MatchView {
            state: MatchState::Failed,
            error: Some(MatchFailureView::EngineUnavailable),
            ..m
        }
    } else {
        m
    }
}

/// Law: a submission only ever moves a match forward. The state's rank
/// never decreases, a match that has entered resolution is never changed by
/// a submission, and once the rank has left the awaiting phase no awaiting
/// state is ever revisited.
pub proof fn lemma_submit_moves_forward(
    m: MatchView,
    by_a: bool,
    submission: u64,
    commitment: Seq<u8>,
)
    ensures
        state_rank(spec_submit(m, by_a, submission, commitment).0.state) >= state_rank(m.state),
        state_rank(m.state) >= 1 ==> spec_submit(m, by_a, submission, commitment).0 == m,
{
}

/// Law: a resolution commit only ever moves a match forward, and it never
/// touches the participants, the stored commitments or the ruleset
/// commitment.
pub proof fn lemma_resolve_moves_forward(m: MatchView, report: EngineReportView)
    ensures
        state_rank(spec_resolve(m, report).state) >= state_rank(m.state),
        is_terminal(m.state) ==> spec_resolve(m, report) == m,
        m.state is Resolving ==> is_terminal(spec_resolve(m, report).state),
        m.state is Resolving ==> is_terminal(spec_engine_failure(m).state),
        spec_resolve(m, report).participant_a == m.participant_a,
        spec_resolve(m, report).participant_b == m.participant_b,
        spec_resolve(m, report).commitment_a == m.commitment_a,
        spec_resolve(m, report).commitment_b == m.commitment_b,
        spec_resolve(m, report).ruleset_commitment == m.ruleset_commitment,
        state_rank(spec_engine_failure(m).state) >= state_rank(m.state),
        is_terminal(m.state) ==> spec_engine_failure(m) == m,
{
}

/// Law: once a submission has been stored, its commitment changes only by
/// the slot's own participant overwriting it during their turn — never by a
/// submission of the other participant, and never once resolution has been
/// triggered.
pub proof fn lemma_commitments_pinned_after_trigger(
    m: MatchView,
    by_a: bool,
    submission: u64,
    commitment: Seq<u8>,
)
    ensures
        state_rank(m.state) >= 1 ==> spec_submit(m, by_a, submission, commitment).0.commitment_a
            == m.commitment_a && spec_submit(m, by_a, submission, commitment).0.commitment_b
            == m.commitment_b,
        !by_a ==> spec_submit(m, by_a, submission, commitment).0.commitment_a == m.commitment_a,
        by_a ==> spec_submit(m, by_a, submission, commitment).0.commitment_b == m.commitment_b,
{
}

/// Law: a submission whose commitment differs from the one stored for the
/// submitter's slot, made while it is the submitter's turn, overwrites the
/// slot, passes the turn, and does not trigger resolution.
pub proof fn lemma_revision_overwrites(
    m: MatchView,
    by_a: bool,
    submission: u64,
    commitment: Seq<u8>,
)
    requires
        !(m.state is Resolving),
        !is_terminal(m.state),
        by_a == (m.state is AwaitingA),
        (if by_a {
            m.commitment_a
        } else {
            m.commitment_b
        }) != Some(commitment),
    ensures
        spec_submit(m, by_a, submission, commitment).1 == Ok::<_, ProtocolError>(
            SubmitOutcome::Recorded,
        ),
        state_rank(spec_submit(m, by_a, submission, commitment).0.state) == 0,
        by_a ==> spec_submit(m, by_a, submission, commitment).0 == (MatchView {
            submission_a: Some(submission),
            commitment_a: Some(commitment),
            state: MatchState::AwaitingB,
            ..m
        }),
        !by_a ==> spec_submit(m, by_a, submission, commitment).0 == (MatchView {
            submission_b: Some(submission),
            commitment_b: Some(commitment),
            state: MatchState::AwaitingA,
            ..m
        }),
{
}

/// Law: a submission that confirms the stored commitment of the
/// submitter's own slot, while it is their turn and resolution has not
/// started, triggers resolution, and nothing else of the match changes.
pub proof fn lemma_confirmation_triggers(
    m: MatchView,
    by_a: bool,
    submission: u64,
    commitment: Seq<u8>,
)
    requires
        !(m.state is Resolving),
        !is_terminal(m.state),
        by_a == (m.state is AwaitingA),
        (if by_a {
            m.commitment_a
        } else {
            m.commitment_b
        }) == Some(commitment),
    ensures
        spec_submit(m, by_a, submission, commitment).1 == Ok::<_, ProtocolError>(
            SubmitOutcome::Triggered,
        ),
        spec_submit(m, by_a, submission, commitment).0 == (MatchView {
            state: MatchState::Resolving,
            ..m
        }),
{
}

/// Law: a resolving match rejects every submission unchanged, so the
/// trigger fires at most once per match even when identical confirmations
/// race: the first moves the match to `Resolving`, and each later one is
/// answered with `MatchInProgress` and changes nothing.
pub proof fn lemma_trigger_at_most_once(
    m: MatchView,
    by_a: bool,
    first: u64,
    second_by_a: bool,
    second: u64,
    commitment: Seq<u8>,
)
    requires
        !(m.state is Resolving),
        !is_terminal(m.state),
        by_a == (m.state is AwaitingA),
        (if by_a {
            m.commitment_a
        } else {
            m.commitment_b
        }) == Some(commitment),
    ensures
        spec_submit(m, by_a, first, commitment).1 == Ok::<_, ProtocolError>(
            SubmitOutcome::Triggered,
        ),
        spec_submit(spec_submit(m, by_a, first, commitment).0, second_by_a, second, commitment)
            == (spec_submit(m, by_a, first, commitment).0, Err::<SubmitOutcome, _>(
            ProtocolError::MatchInProgress,
        )),
{
}

/// Anything that can happen to a match after its creation: a submission by
/// either participant, an engine report committed, or the engine given up
/// on.
pub enum MatchEvent {
    Submission { by_a: bool, submission: u64, commitment: Seq<u8> },
    Resolution { report: EngineReportView },
    EngineFailure,
}

/// One event applied to a match (the answer to the submitter dropped).
pub open spec fn apply_event(m: MatchView, e: MatchEvent) -> MatchView {
    match e {
        MatchEvent::Submission { by_a, submission, commitment } => spec_submit(
            m,
            by_a,
            submission,
            commitment,
        ).0,
        MatchEvent::Resolution { report } => spec_resolve(m, report),
        MatchEvent::EngineFailure => spec_engine_failure(m),
    }
}

/// A whole path of events applied in order.
pub open spec fn run_events(m: MatchView, es: Seq<MatchEvent>) -> MatchView
    decreases es.len(),
{
    if es.len() == 0 {
        m
    } else {
        run_events(apply_event(m, es[0]), es.drop_first())
    }
}

/// Law: along every path of events, a match only moves forward. Its rank
/// never decreases; once resolution has been entered, no awaiting state is
/// ever revisited; and a terminal match never changes again.
pub proof fn lemma_no_path_moves_backward(m: MatchView, es: Seq<MatchEvent>)
    ensures
        state_rank(run_events(m, es).state) >= state_rank(m.state),
        state_rank(m.state) >= 1 ==> !(run_events(m, es).state is AwaitingA) && !(run_events(
            m,
            es,
        ).state is AwaitingB),
        is_terminal(m.state) ==> run_events(m, es) == m,
    decreases es.len(),
{
    if es.len() > 0 {
        let m1 = apply_event(m, es[0]);
        assert(state_rank(m1.state) >= state_rank(m.state));
        assert(is_terminal(m.state) ==> m1 == m);
        lemma_no_path_moves_backward(m1, es.drop_first());
    }
}

/// Law: a submission step preserves the match's well-formedness.
pub proof fn lemma_submit_preserves_wf(
    m: MatchView,
    by_a: bool,
    submission: u64,
    commitment: Seq<u8>,
)
    requires
        m.wf(),
    ensures
        spec_submit(m, by_a, submission, commitment).0.wf(),
{
}

/// Law: both resolution commits preserve the match's well-formedness.
pub proof fn lemma_resolve_preserves_wf(m: MatchView, report: EngineReportView)
    requires
        m.wf(),
    ensures
        spec_resolve(m, report).wf(),
        spec_engine_failure(m).wf(),
{
}

} // verus!
