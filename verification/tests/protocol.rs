//! End-to-end behavior of the matchmaking and commitment protocol.

use match_core::commitment_of_submission;
use match_core::Arena;
use match_core::EngineReport;
use match_core::JoinRefusal;
use match_core::MatchFailure;
use match_core::MatchState;
use match_core::ProtocolError;
use match_core::SubmitAck;
use match_core::Winner;

fn arena() -> Arena {
    Arena::new(vec![0xAA, 0xBB, 0xCC])
}

fn full_session(a: &mut Arena, p1: &str, p2: &str) -> u64 {
    let id = a.join(&p1.to_string(), None, true).unwrap();
    let joined = a.join(&p2.to_string(), Some(id), false).unwrap();
    assert_eq!(joined, id);
    id
}

fn good_report(sub_a: u64, sub_b: u64, result: &str, winner: Option<(&str, u64)>) -> EngineReport {
    EngineReport {
        commitment_a: commitment_of_submission(sub_a),
        commitment_b: commitment_of_submission(sub_b),
        result: result.to_string(),
        winner: winner.map(|(id, sub)| Winner {
            id: id.to_string(),
            commitment: commitment_of_submission(sub),
        }),
        error: None,
    }
}

#[test]
fn join_force_new_creates_open_session() {
    let mut a = arena();
    let id = a.join(&"p1".to_string(), None, true).unwrap();
    let s = a.session_record(id).unwrap();
    assert_eq!(s.participant_a, "p1");
    assert_eq!(s.participant_b, "");
}

#[test]
fn join_targeted_fills_second_slot() {
    let mut a = arena();
    let id = a.join(&"p1".to_string(), None, true).unwrap();
    let r = a.join(&"p2".to_string(), Some(id), false);
    assert_eq!(r, Ok(id));
    let s = a.session_record(id).unwrap();
    assert_eq!(s.participant_a, "p1");
    assert_eq!(s.participant_b, "p2");
}

#[test]
fn join_refusals_are_distinct() {
    let mut a = arena();
    let id = full_session(&mut a, "p1", "p2");
    assert_eq!(
        a.join(&"p3".to_string(), Some(999), false),
        Err(ProtocolError::NotJoinable(JoinRefusal::NotFound))
    );
    assert_eq!(
        a.join(&"p3".to_string(), Some(id), false),
        Err(ProtocolError::NotJoinable(JoinRefusal::AlreadyFull))
    );
    assert_eq!(
        a.join(&"p1".to_string(), Some(id), false),
        Err(ProtocolError::NotJoinable(JoinRefusal::AlreadyMember))
    );
    assert_eq!(
        a.join(&"p2".to_string(), Some(id), false),
        Err(ProtocolError::NotJoinable(JoinRefusal::AlreadyMember))
    );
    assert_eq!(
        a.join(&"".to_string(), None, false),
        Err(ProtocolError::ValidationError)
    );
}

#[test]
fn join_search_finds_open_session_of_another() {
    let mut a = arena();
    let id = a.join(&"p1".to_string(), None, true).unwrap();
    let r = a.join(&"p2".to_string(), None, false).unwrap();
    assert_eq!(r, id);
    assert_eq!(a.session_record(id).unwrap().participant_b, "p2");
}

#[test]
fn join_search_never_pairs_requester_with_themselves() {
    let mut a = arena();
    let first = a.join(&"p1".to_string(), None, true).unwrap();
    let second = a.join(&"p1".to_string(), None, false).unwrap();
    assert_ne!(first, second);
    assert_eq!(a.session_record(first).unwrap().participant_b, "");
    assert_eq!(a.session_record(second).unwrap().participant_a, "p1");
}

#[test]
fn two_requesters_one_open_slot() {
    // Two requesters race for one open session: linearized by the store,
    // exactly one fills the slot and the other ends up elsewhere.
    let mut a = arena();
    let id = a.join(&"p1".to_string(), None, true).unwrap();
    let winner = a.join(&"p2".to_string(), None, false).unwrap();
    assert_eq!(winner, id);
    let other = a.join(&"p3".to_string(), None, false).unwrap();
    assert_ne!(other, id);
    let s = a.session_record(id).unwrap();
    assert_eq!(s.participant_b, "p2");
}

#[test]
fn full_flow_two_participants() {
    let mut a = arena();
    let id = full_session(&mut a, "p1", "p2");

    // First submission creates the match, waiting on the other side.
    let r = a.submit(id, &"p1".to_string(), 7);
    assert!(matches!(r, Ok(SubmitAck::Recorded)));
    {
        let m = a.match_record(id).unwrap();
        assert_eq!(m.state, MatchState::AwaitingB);
        assert_eq!(m.submission_a, Some(7));
        assert_eq!(m.commitment_a, Some(commitment_of_submission(7)));
        assert_eq!(m.submission_b, None);
    }

    // Second participant answers; turn passes back.
    let r = a.submit(id, &"p2".to_string(), 9);
    assert!(matches!(r, Ok(SubmitAck::Recorded)));
    assert_eq!(a.match_record(id).unwrap().state, MatchState::AwaitingA);

    // Resending the identical value is the confirmation: the trigger.
    let r = a.submit(id, &"p1".to_string(), 7);
    match r {
        Ok(SubmitAck::ResolutionStarted(task)) => {
            assert_eq!(task.session_id, id);
            assert_eq!(task.participant_a, "p1");
            assert_eq!(task.submission_a, 7);
            assert_eq!(task.participant_b, "p2");
            assert_eq!(task.submission_b, 9);
        }
        other => panic!("expected a resolution task, got {:?}", other.is_ok()),
    }
    assert_eq!(a.match_record(id).unwrap().state, MatchState::Resolving);

    // The engine's report commits the outcome and purges raw submissions.
    let report = good_report(7, 9, "p1 wins", Some(("p1", 7)));
    assert_eq!(a.apply_resolution(id, &report), Ok(()));
    let m = a.match_record(id).unwrap();
    assert_eq!(m.state, MatchState::Complete);
    assert_eq!(m.submission_a, None);
    assert_eq!(m.submission_b, None);
    assert_eq!(m.commitment_a, Some(commitment_of_submission(7)));
    assert_eq!(m.result, Some("p1 wins".to_string()));
    assert_eq!(m.winner_id, Some("p1".to_string()));
    assert_eq!(m.winner_commitment, Some(commitment_of_submission(7)));
    assert_eq!(m.error, None);
}

#[test]
fn revised_submission_overwrites_without_trigger() {
    let mut a = arena();
    let id = full_session(&mut a, "p1", "p2");
    a.submit(id, &"p1".to_string(), 7).unwrap();
    a.submit(id, &"p2".to_string(), 9).unwrap();

    // A different value while it is p1's turn: overwrite, no resolution.
    let r = a.submit(id, &"p1".to_string(), 8);
    assert!(matches!(r, Ok(SubmitAck::Recorded)));
    let (state, sub_a, com_a) = {
        let m = a.match_record(id).unwrap();
        (m.state, m.submission_a.clone(), m.commitment_a.clone())
    };
    assert_eq!(state, MatchState::AwaitingB);
    assert_eq!(sub_a, Some(8));
    assert_eq!(com_a, Some(commitment_of_submission(8)));

    // The turn passed to p2, so p1 cannot confirm immediately.
    assert_eq!(
        a.submit(id, &"p1".to_string(), 8),
        Err(ProtocolError::NotYourTurn)
    );
}

#[test]
fn duplicate_confirmations_trigger_once() {
    let mut a = arena();
    let id = full_session(&mut a, "p1", "p2");
    a.submit(id, &"p1".to_string(), 7).unwrap();
    a.submit(id, &"p2".to_string(), 9).unwrap();

    let first = a.submit(id, &"p1".to_string(), 7);
    assert!(matches!(first, Ok(SubmitAck::ResolutionStarted(_))));

    // An identical confirmation arriving after the winner of the race is
    // rejected and changes nothing.
    let second = a.submit(id, &"p1".to_string(), 7);
    assert_eq!(second, Err(ProtocolError::MatchInProgress));
    let third = a.submit(id, &"p2".to_string(), 9);
    assert_eq!(third, Err(ProtocolError::MatchInProgress));
    assert_eq!(a.match_record(id).unwrap().state, MatchState::Resolving);
}

#[test]
fn submit_rejections() {
    let mut a = arena();
    assert_eq!(
        a.submit(42, &"p1".to_string(), 1),
        Err(ProtocolError::SessionNotFound)
    );

    let open = a.join(&"p1".to_string(), None, true).unwrap();
    assert_eq!(
        a.submit(open, &"p1".to_string(), 1),
        Err(ProtocolError::SessionIncomplete)
    );

    let id = full_session(&mut a, "q1", "q2");
    assert_eq!(
        a.submit(id, &"stranger".to_string(), 1),
        Err(ProtocolError::NotYourTurn)
    );
    a.submit(id, &"q1".to_string(), 3).unwrap();
    assert_eq!(
        a.submit(id, &"q1".to_string(), 4),
        Err(ProtocolError::NotYourTurn)
    );
    a.submit(id, &"q2".to_string(), 5).unwrap();
    a.submit(id, &"q1".to_string(), 3).unwrap();
    let report = good_report(3, 5, "draw", None);
    a.apply_resolution(id, &report).unwrap();
    assert_eq!(
        a.submit(id, &"q1".to_string(), 3),
        Err(ProtocolError::MatchComplete)
    );
    assert_eq!(
        a.submit(id, &"q2".to_string(), 5),
        Err(ProtocolError::MatchComplete)
    );
}

#[test]
fn domain_error_fails_match_without_winner() {
    let mut a = arena();
    let id = full_session(&mut a, "p1", "p2");
    a.submit(id, &"p1".to_string(), 7).unwrap();
    a.submit(id, &"p2".to_string(), 9).unwrap();
    a.submit(id, &"p1".to_string(), 7).unwrap();

    let mut report = good_report(7, 9, "", None);
    report.error = Some("simulation exceeded the cycle limit".to_string());
    assert_eq!(a.apply_resolution(id, &report), Ok(()));
    let m = a.match_record(id).unwrap();
    assert_eq!(m.state, MatchState::Failed);
    assert_eq!(
        m.error,
        Some(MatchFailure::Domain(
            "simulation exceeded the cycle limit".to_string()
        ))
    );
    assert_eq!(m.winner_id, None);
    assert_eq!(m.result, None);
}

#[test]
fn commitment_mismatch_is_integrity_failure_and_service_continues() {
    let mut a = arena();
    let id = full_session(&mut a, "p1", "p2");
    a.submit(id, &"p1".to_string(), 7).unwrap();
    a.submit(id, &"p2".to_string(), 9).unwrap();
    a.submit(id, &"p1".to_string(), 7).unwrap();

    // The engine reports a commitment for a different submission.
    let report = good_report(8, 9, "p1 wins", Some(("p1", 8)));
    assert_eq!(a.apply_resolution(id, &report), Ok(()));
    let (state, error) = {
        let m = a.match_record(id).unwrap();
        (m.state, m.error.clone())
    };
    assert_eq!(state, MatchState::Failed);
    assert_eq!(error, Some(MatchFailure::IntegrityError));

    // Other matches keep working in the same store.
    let id2 = full_session(&mut a, "p3", "p4");
    a.submit(id2, &"p3".to_string(), 1).unwrap();
    a.submit(id2, &"p4".to_string(), 2).unwrap();
    a.submit(id2, &"p3".to_string(), 1).unwrap();
    a.apply_resolution(id2, &good_report(1, 2, "p4 wins", Some(("p4", 2))))
        .unwrap();
    assert_eq!(a.match_record(id2).unwrap().state, MatchState::Complete);
}

#[test]
fn automated_opponent_resolves_and_guards_replay() {
    let mut a = arena();
    let task = a
        .submit_vs_automated(&"p1".to_string(), 7, &"npc".to_string(), 9)
        .unwrap();
    assert_eq!(task.participant_a, "p1");
    assert_eq!(task.submission_a, 7);
    assert_eq!(task.participant_b, "npc");
    assert_eq!(task.submission_b, 9);
    let id = task.session_id;
    assert_eq!(a.match_record(id).unwrap().state, MatchState::Resolving);
    assert_eq!(a.session_record(id).unwrap().participant_b, "npc");

    // While the first contest is still resolving, the guard does not fire.
    a.apply_resolution(id, &good_report(7, 9, "npc wins", Some(("npc", 9))))
        .unwrap();

    // The same pairing after a terminal outcome is a replay.
    assert_eq!(
        a.submit_vs_automated(&"p1".to_string(), 7, &"npc".to_string(), 9),
        Err(ProtocolError::AlreadyPlayed)
    );

    // A different submission is a fresh contest.
    assert!(a
        .submit_vs_automated(&"p1".to_string(), 8, &"npc".to_string(), 9)
        .is_ok());

    // Malformed automated requests are rejected.
    assert_eq!(
        a.submit_vs_automated(&"".to_string(), 1, &"npc".to_string(), 2),
        Err(ProtocolError::ValidationError)
    );
    assert_eq!(
        a.submit_vs_automated(&"p1".to_string(), 1, &"p1".to_string(), 2),
        Err(ProtocolError::ValidationError)
    );
}

#[test]
fn engine_failure_marks_match_failed() {
    let mut a = arena();
    let task = a
        .submit_vs_automated(&"p1".to_string(), 7, &"npc".to_string(), 9)
        .unwrap();
    assert_eq!(a.record_engine_failure(task.session_id), Ok(()));
    let m = a.match_record(task.session_id).unwrap();
    assert_eq!(m.state, MatchState::Failed);
    assert_eq!(m.error, Some(MatchFailure::EngineUnavailable));
    assert_eq!(
        a.submit(task.session_id, &"p1".to_string(), 7),
        Err(ProtocolError::MatchComplete)
    );
}

#[test]
fn resolution_commit_guards() {
    let mut a = arena();
    assert_eq!(
        a.apply_resolution(5, &good_report(1, 2, "x", None)),
        Err(ProtocolError::SessionNotFound)
    );
    assert_eq!(
        a.record_engine_failure(5),
        Err(ProtocolError::SessionNotFound)
    );

    let id = full_session(&mut a, "p1", "p2");
    a.submit(id, &"p1".to_string(), 7).unwrap();
    // Not resolving yet: a commit is a malformed request.
    assert_eq!(
        a.apply_resolution(id, &good_report(7, 9, "x", None)),
        Err(ProtocolError::ValidationError)
    );
    assert_eq!(a.record_engine_failure(id), Err(ProtocolError::ValidationError));

    // Once terminal, a second commit is rejected too.
    a.submit(id, &"p2".to_string(), 9).unwrap();
    a.submit(id, &"p1".to_string(), 7).unwrap();
    a.apply_resolution(id, &good_report(7, 9, "draw", None)).unwrap();
    assert_eq!(
        a.apply_resolution(id, &good_report(7, 9, "draw", None)),
        Err(ProtocolError::ValidationError)
    );
}

#[test]
fn completed_listing_strips_identifiers_and_submissions() {
    let mut a = arena();
    // One completed match, one failed, one still waiting.
    let id1 = full_session(&mut a, "p1", "p2");
    a.submit(id1, &"p1".to_string(), 7).unwrap();
    a.submit(id1, &"p2".to_string(), 9).unwrap();
    a.submit(id1, &"p1".to_string(), 7).unwrap();
    a.apply_resolution(id1, &good_report(7, 9, "p2 wins", Some(("p2", 9))))
        .unwrap();

    let t = a
        .submit_vs_automated(&"p3".to_string(), 1, &"npc".to_string(), 2)
        .unwrap();
    a.record_engine_failure(t.session_id).unwrap();

    let id3 = full_session(&mut a, "p5", "p6");
    a.submit(id3, &"p5".to_string(), 4).unwrap();

    let listing = a.get_completed_matches();
    assert_eq!(listing.len(), 1);
    let entry = &listing[0];
    assert_eq!(entry.participant_a, "p1");
    assert_eq!(entry.participant_b, "p2");
    assert_eq!(entry.ruleset_commitment, vec![0xAA, 0xBB, 0xCC]);
    assert_eq!(entry.result, "p2 wins");
    assert_eq!(entry.winner_id, Some("p2".to_string()));
    assert_eq!(entry.winner_commitment, Some(commitment_of_submission(9)));
}
