//! The shared store of sessions and matches, and the protocol's operations
//! on it.
//!
//! Every public method is one atomic step against the store: the point at
//! which concurrent requests are linearized. Each method's contract gives
//! the exact new store and answer for every input, so the race-sensitive
//! guarantees — a full session is never re-joined, a match enters
//! `Resolving` at most once — are consequences of these contracts applied
//! to any interleaving of steps.

use vstd::prelude::*;

use crate::commitment::commitment_of;
use crate::commitment::commitment_of_submission;
use crate::errors::JoinRefusal;
use crate::errors::ProtocolError;
use crate::machine::spec_engine_failure;
use crate::machine::spec_resolve;
use crate::machine::spec_submit;
use crate::machine::SubmitOutcome;
use crate::model::completed_entry_of;
use crate::model::is_terminal;
use crate::model::state_rank;
use crate::model::opt_bytes_view;
use crate::model::CompletedMatch;
use crate::model::CompletedMatchView;
use crate::model::EngineReport;
use crate::model::EngineReportView;
use crate::model::Match;
use crate::model::MatchFailure;
use crate::model::MatchState;
use crate::model::MatchView;
use crate::model::ResolutionTask;
use crate::model::ResolutionTaskView;
use crate::model::Session;
use crate::model::SessionView;
use crate::model::SubmitAck;

verus! {

/// The ghost images of a sequence of sessions.
pub open spec fn session_views(ss: Seq<Session>) -> Seq<SessionView> {
    Seq::new(ss.len(), |i: int| ss[i]@)
}

/// The ghost images of a sequence of matches.
pub open spec fn match_views(ms: Seq<Match>) -> Seq<MatchView> {
    Seq::new(ms.len(), |i: int| ms[i]@)
}

/// Some session in the list carries this id.
pub open spec fn has_session(ss: Seq<SessionView>, id: u64) -> bool {
    exists|k: int| 0 <= k < ss.len() && (#[trigger] ss[k]).id == id
}

/// The position of the session carrying this id (unique when ids are
/// distinct).
pub open spec fn session_ix(ss: Seq<SessionView>, id: u64) -> int {
    choose|k: int| 0 <= k < ss.len() && (#[trigger] ss[k]).id == id
}

/// Some match in the list belongs to this session.
pub open spec fn has_match_for(ms: Seq<MatchView>, session_id: u64) -> bool {
    exists|k: int| 0 <= k < ms.len() && (#[trigger] ms[k]).session_id == session_id
}

/// The position of the session's match (unique when session ids are
/// distinct among matches).
pub open spec fn match_ix(ms: Seq<MatchView>, session_id: u64) -> int {
    choose|k: int| 0 <= k < ms.len() && (#[trigger] ms[k]).session_id == session_id
}

/// An open session that this requester may join by search: open, and not
/// created by the requester themselves.
pub open spec fn joinable_candidate(s: SessionView, requester: Seq<char>) -> bool {
    s.is_open() && s.participant_a != requester
}

/// Some session is open to this requester.
pub open spec fn has_open_candidate(ss: Seq<SessionView>, requester: Seq<char>) -> bool {
    exists|k: int| 0 <= k < ss.len() && joinable_candidate(#[trigger] ss[k], requester)
}

/// The session with its second slot filled by the requester.
pub open spec fn with_second(s: SessionView, requester: Seq<char>) -> SessionView {
    SessionView { participant_b: requester, ..s }
}

/// A terminal match that already played this exact pairing: same first
/// participant and the same two submission commitments.
pub open spec fn replay_of(
    m: MatchView,
    participant: Seq<char>,
    ca: Seq<u8>,
    cb: Seq<u8>,
) -> bool {
    &&& is_terminal(m.state)
    &&& m.participant_a == participant
    &&& m.commitment_a == Some(ca)
    &&& m.commitment_b == Some(cb)
}

/// The replay guard: some terminal match already played this pairing.
pub open spec fn already_played(
    ms: Seq<MatchView>,
    participant: Seq<char>,
    ca: Seq<u8>,
    cb: Seq<u8>,
) -> bool {
    exists|k: int| 0 <= k < ms.len() && replay_of(#[trigger] ms[k], participant, ca, cb)
}

/// The match record created by the first submission into a full session.
pub open spec fn initial_match(
    s: SessionView,
    by_a: bool,
    submission: u64,
    commitment: Seq<u8>,
    ruleset: Seq<u8>,
) -> MatchView {
    MatchView {
        session_id: s.id,
        participant_a: s.participant_a,
        participant_b: s.participant_b,
        submission_a: if by_a {
            Some(submission)
        } else {
            None
        },
        commitment_a: if by_a {
            Some(commitment)
        } else {
            None
        },
        submission_b: if by_a {
            None
        } else {
            Some(submission)
        },
        commitment_b: if by_a {
            None
        } else {
            Some(commitment)
        },
        ruleset_commitment: ruleset,
        state: if by_a {
            MatchState::AwaitingB
        } else {
            MatchState::AwaitingA
        },
        result: None,
        winner_id: None,
        winner_commitment: None,
        error: None,
    }
}

/// The match record created already resolving, for an automated-opponent
/// contest supplied with both submissions at once.
pub open spec fn automated_match(
    session_id: u64,
    participant: Seq<char>,
    submission: u64,
    opponent: Seq<char>,
    opponent_submission: u64,
    ruleset: Seq<u8>,
) -> MatchView {
    MatchView {
        session_id: session_id,
        participant_a: participant,
        participant_b: opponent,
        submission_a: Some(submission),
        commitment_a: Some(commitment_of(submission)),
        submission_b: Some(opponent_submission),
        commitment_b: Some(commitment_of(opponent_submission)),
        ruleset_commitment: ruleset,
        state: MatchState::Resolving,
        result: None,
        winner_id: None,
        winner_commitment: None,
        error: None,
    }
}

/// A join that created a fresh open session: the requester holds the first
/// slot, the new id is the old counter, and nothing else moved.
pub open spec fn join_created(
    pre: ArenaView,
    post: ArenaView,
    requester: Seq<char>,
    r: Result<u64, ProtocolError>,
) -> bool {
    &&& r == Ok::<u64, ProtocolError>(pre.next_session_id)
    &&& post.sessions == pre.sessions.push(
        SessionView {
            id: pre.next_session_id,
            participant_a: requester,
            participant_b: Seq::<char>::empty(),
        },
    )
    &&& post.next_session_id == pre.next_session_id + 1
}

/// A join that filled the second slot of the open session at position `k`,
/// and changed nothing else.
pub open spec fn join_joined_at(
    pre: ArenaView,
    post: ArenaView,
    requester: Seq<char>,
    k: int,
    r: Result<u64, ProtocolError>,
) -> bool {
    &&& 0 <= k < pre.sessions.len()
    &&& joinable_candidate(pre.sessions[k], requester)
    &&& r == Ok::<u64, ProtocolError>(pre.sessions[k].id)
    &&& post.sessions == pre.sessions.update(k, with_second(pre.sessions[k], requester))
    &&& post.next_session_id == pre.next_session_id
}

/// The outcome of a join aimed at one session: not found, already a member,
/// already full, or joined — each reported distinctly, and the store is
/// changed only by the one successful case.
pub open spec fn join_target_post(
    pre: ArenaView,
    post: ArenaView,
    requester: Seq<char>,
    tid: u64,
    r: Result<u64, ProtocolError>,
) -> bool {
    if !has_session(pre.sessions, tid) {
        r == Err::<u64, ProtocolError>(ProtocolError::NotJoinable(JoinRefusal::NotFound)) && post
            == pre
    } else {
        let k = session_ix(pre.sessions, tid);
        let s = pre.sessions[k];
        if s.participant_a == requester || s.participant_b == requester {
            r == Err::<u64, ProtocolError>(ProtocolError::NotJoinable(JoinRefusal::AlreadyMember))
                && post == pre
        } else if !s.is_open() {
            r == Err::<u64, ProtocolError>(ProtocolError::NotJoinable(JoinRefusal::AlreadyFull))
                && post == pre
        } else {
            join_joined_at(pre, post, requester, k, r)
        }
    }
}

/// The resolution task a triggered match hands to the dispatcher: both
/// identities and the raw submissions stored at trigger time.
pub open spec fn trigger_task_of(m: MatchView) -> ResolutionTaskView {
    ResolutionTaskView {
        session_id: m.session_id,
        participant_a: m.participant_a,
        submission_a: m.submission_a->0,
        participant_b: m.participant_b,
        submission_b: m.submission_b->0,
    }
}

/// The submitter's answer agrees with the state machine's answer: errors
/// are passed through, a recorded submission is acknowledged, and a
/// trigger carries exactly the stored task.
pub open spec fn ack_matches(
    r: Result<SubmitAck, ProtocolError>,
    step_r: Result<SubmitOutcome, ProtocolError>,
    m: MatchView,
) -> bool {
    match step_r {
        Result::Ok(SubmitOutcome::Recorded) => match r {
            Result::Ok(SubmitAck::Recorded) => true,
            _ => false,
        },
        Result::Ok(SubmitOutcome::Triggered) => match r {
            Result::Ok(SubmitAck::ResolutionStarted(t)) => t@ == trigger_task_of(m),
            _ => false,
        },
        Result::Err(e) => r == Err::<SubmitAck, ProtocolError>(e),
    }
}

/// The whole meaning of one submission against the store: each rejection
/// comes exactly on its own condition and leaves the store unchanged; the
/// first submission into a full session creates the match; any later one
/// is the state machine's step applied to the session's match, in place.
pub open spec fn submit_post(
    pre: ArenaView,
    post: ArenaView,
    session_id: u64,
    participant: Seq<char>,
    submission: u64,
    r: Result<SubmitAck, ProtocolError>,
) -> bool {
    let c = commitment_of(submission);
    if !has_session(pre.sessions, session_id) {
        post == pre && r == Err::<SubmitAck, ProtocolError>(ProtocolError::SessionNotFound)
    } else {
        let s = pre.sessions[session_ix(pre.sessions, session_id)];
        if s.is_open() {
            post == pre && r == Err::<SubmitAck, ProtocolError>(ProtocolError::SessionIncomplete)
        } else if participant != s.participant_a && participant != s.participant_b {
            post == pre && r == Err::<SubmitAck, ProtocolError>(ProtocolError::NotYourTurn)
        } else {
            let by_a = participant == s.participant_a;
            if !has_match_for(pre.matches, session_id) {
                &&& post.matches == pre.matches.push(
                    initial_match(s, by_a, submission, c, pre.ruleset_commitment),
                )
                &&& match r {
                    Result::Ok(SubmitAck::Recorded) => true,
                    _ => false,
                }
            } else {
                let j = match_ix(pre.matches, session_id);
                let m = pre.matches[j];
                let step = spec_submit(m, by_a, submission, c);
                &&& ack_matches(r, step.1, m)
                &&& step.1 is Err ==> post == pre
                &&& step.1 is Ok ==> post.matches == pre.matches.update(j, step.0)
            }
        }
    }
}

/// The whole meaning of an automated-opponent contest: malformed requests
/// and replays are rejected unchanged; otherwise a full session and an
/// already-resolving match are created and the dispatcher's task returned.
pub open spec fn automated_post(
    pre: ArenaView,
    post: ArenaView,
    participant: Seq<char>,
    submission: u64,
    opponent: Seq<char>,
    opponent_submission: u64,
    r: Result<ResolutionTask, ProtocolError>,
) -> bool {
    let ca = commitment_of(submission);
    let cb = commitment_of(opponent_submission);
    if participant.len() == 0 || opponent.len() == 0 || participant == opponent {
        post == pre && r == Err::<ResolutionTask, ProtocolError>(ProtocolError::ValidationError)
    } else if already_played(pre.matches, participant, ca, cb) {
        post == pre && r == Err::<ResolutionTask, ProtocolError>(ProtocolError::AlreadyPlayed)
    } else {
        &&& match r {
            Result::Ok(t) => t@ == (ResolutionTaskView {
                session_id: pre.next_session_id,
                participant_a: participant,
                submission_a: submission,
                participant_b: opponent,
                submission_b: opponent_submission,
            }),
            _ => false,
        }
        &&& post.sessions == pre.sessions.push(
            SessionView {
                id: pre.next_session_id,
                participant_a: participant,
                participant_b: opponent,
            },
        )
        &&& post.matches == pre.matches.push(
            automated_match(
                pre.next_session_id,
                participant,
                submission,
                opponent,
                opponent_submission,
                pre.ruleset_commitment,
            ),
        )
        &&& post.next_session_id == pre.next_session_id + 1
    }
}

/// The whole meaning of committing an engine report: a missing match and a
/// match that is not resolving are rejected unchanged; otherwise the
/// resolution step is applied to the session's match, in place.
pub open spec fn resolution_post(
    pre: ArenaView,
    post: ArenaView,
    session_id: u64,
    report: EngineReportView,
    r: Result<(), ProtocolError>,
) -> bool {
    if !has_match_for(pre.matches, session_id) {
        post == pre && r == Err::<(), ProtocolError>(ProtocolError::SessionNotFound)
    } else {
        let j = match_ix(pre.matches, session_id);
        let m = pre.matches[j];
        if !(m.state is Resolving) {
            post == pre && r == Err::<(), ProtocolError>(ProtocolError::ValidationError)
        } else {
            r == Ok::<(), ProtocolError>(()) && post.matches == pre.matches.update(
                j,
                spec_resolve(m, report),
            )
        }
    }
}

/// The whole meaning of abandoning a resolution after the engine stayed
/// unreachable: the session's resolving match fails with
/// `EngineUnavailable`; everything else is rejected unchanged.
pub open spec fn engine_failure_post(
    pre: ArenaView,
    post: ArenaView,
    session_id: u64,
    r: Result<(), ProtocolError>,
) -> bool {
    if !has_match_for(pre.matches, session_id) {
        post == pre && r == Err::<(), ProtocolError>(ProtocolError::SessionNotFound)
    } else {
        let j = match_ix(pre.matches, session_id);
        let m = pre.matches[j];
        if !(m.state is Resolving) {
            post == pre && r == Err::<(), ProtocolError>(ProtocolError::ValidationError)
        } else {
            r == Ok::<(), ProtocolError>(()) && post.matches == pre.matches.update(
                j,
                spec_engine_failure(m),
            )
        }
    }
}

/// The ghost images of a sequence of completed-match entries.
pub open spec fn completed_views(cs: Seq<CompletedMatch>) -> Seq<CompletedMatchView> {
    Seq::new(cs.len(), |i: int| cs[i]@)
}

/// The completed-match listing: one entry per match in `Complete` state, in
/// store order, with identifiers and raw submissions stripped.
pub open spec fn completed_entries(ms: Seq<MatchView>) -> Seq<CompletedMatchView>
    decreases ms.len(),
{
    if ms.len() == 0 {
        Seq::<CompletedMatchView>::empty()
    } else {
        let rest = completed_entries(ms.drop_last());
        if ms.last().state is Complete {
            rest.push(completed_entry_of(ms.last()))
        } else {
            rest
        }
    }
}

/// Ghost image of the whole store.
pub struct ArenaView {
    pub sessions: Seq<SessionView>,
    pub matches: Seq<MatchView>,
    pub next_session_id: u64,
    pub ruleset_commitment: Seq<u8>,
}

impl ArenaView {
    /// The session a match was created from: same id and the same two
    /// participants.
    pub open spec fn has_backing_session(self, m: MatchView) -> bool {
        exists|k: int|
            0 <= k < self.sessions.len() && (#[trigger] self.sessions[k]).id == m.session_id
                && self.sessions[k].participant_a == m.participant_a
                && self.sessions[k].participant_b == m.participant_b
    }

    /// Well-formedness of the store: sessions and matches are individually
    /// well-formed, ids are unique and below the allocation counter, every
    /// match carries the store's ruleset commitment, at most one match
    /// exists per session, and every match's session exists with the same
    /// participants.
    pub open spec fn wf(self) -> bool {
        &&& forall|i: int| 0 <= i < self.sessions.len() ==> (#[trigger] self.sessions[i]).wf()
        &&& forall|i: int|
            0 <= i < self.sessions.len() ==> (#[trigger] self.sessions[i]).id
                < self.next_session_id
        &&& forall|i: int, j: int|
            0 <= i < j < self.sessions.len() ==> (#[trigger] self.sessions[i]).id != (
            #[trigger] self.sessions[j]).id
        &&& forall|i: int| 0 <= i < self.matches.len() ==> (#[trigger] self.matches[i]).wf()
        &&& forall|i: int|
            0 <= i < self.matches.len() ==> (#[trigger] self.matches[i]).ruleset_commitment
                == self.ruleset_commitment
        &&& forall|i: int, j: int|
            0 <= i < j < self.matches.len() ==> (#[trigger] self.matches[i]).session_id != (
            #[trigger] self.matches[j]).session_id
        &&& forall|i: int|
            0 <= i < self.matches.len() ==> self.has_backing_session(#[trigger] self.matches[i])
    }
}

/// The store: every session and match, and the id counter. One value of
/// this type stands for the persistent collections; each method is one
/// atomic conditional read-modify-write against it.
pub struct Arena {
    pub sessions: Vec<Session>,
    pub matches: Vec<Match>,
    pub next_session_id: u64,
    pub ruleset_commitment: Vec<u8>,
}

impl View for Arena {
    type V = ArenaView;

    open spec fn view(&self) -> ArenaView {
        ArenaView {
            sessions: session_views(self.sessions@),
            matches: match_views(self.matches@),
            next_session_id: self.next_session_id,
            ruleset_commitment: self.ruleset_commitment@,
        }
    }
}

/// With distinct session ids, any position holding the id is the chosen
/// one.
pub proof fn lemma_session_ix_is(ss: Seq<SessionView>, id: u64, i: int)
    requires
        forall|a: int, b: int|
            0 <= a < b < ss.len() ==> (#[trigger] ss[a]).id != (#[trigger] ss[b]).id,
        0 <= i < ss.len(),
        ss[i].id == id,
    ensures
        has_session(ss, id),
        session_ix(ss, id) == i,
{
    assert(has_session(ss, id));
    let k = session_ix(ss, id);
    if k < i {
        assert(ss[k].id != ss[i].id);
    } else if i < k {
        assert(ss[i].id != ss[k].id);
    }
}

/// With distinct session ids among matches, any position holding the id is
/// the chosen one.
pub proof fn lemma_match_ix_is(ms: Seq<MatchView>, session_id: u64, i: int)
    requires
        forall|a: int, b: int|
            0 <= a < b < ms.len() ==> (#[trigger] ms[a]).session_id != (
            #[trigger] ms[b]).session_id,
        0 <= i < ms.len(),
        ms[i].session_id == session_id,
    ensures
        has_match_for(ms, session_id),
        match_ix(ms, session_id) == i,
{
    assert(has_match_for(ms, session_id));
    let k = match_ix(ms, session_id);
    if k < i {
        assert(ms[k].session_id != ms[i].session_id);
    } else if i < k {
        assert(ms[i].session_id != ms[k].session_id);
    }
}

/// Finds the position of the session carrying this id.
fn find_session_index(sessions: &Vec<Session>, id: u64) -> (r: Option<usize>)
    ensures
        match r {
            Some(i) => i < sessions@.len() && session_views(sessions@)[i as int].id == id,
            None => !has_session(session_views(sessions@), id),
        },
{
    let ghost views = session_views(sessions@);
    let mut i: usize = 0;
    let n = sessions.len();
    while i < n
        invariant
            n == sessions@.len(),
            i <= n,
            views == session_views(sessions@),
            forall|k: int| 0 <= k < i ==> (#[trigger] views[k]).id != id,
        decreases n - i,
    {
        if sessions[i].id == id {
            return Some(i);
        }
        i += 1;
    }
    proof {
        assert forall|k: int| 0 <= k < views.len() implies (#[trigger] views[k]).id != id by {}
    }
    None
}

/// Finds the position of the session's match.
fn find_match_index(matches: &Vec<Match>, session_id: u64) -> (r: Option<usize>)
    ensures
        match r {
            Some(i) => i < matches@.len() && match_views(matches@)[i as int].session_id
                == session_id,
            None => !has_match_for(match_views(matches@), session_id),
        },
{
    let ghost views = match_views(matches@);
    let mut i: usize = 0;
    let n = matches.len();
    while i < n
        invariant
            n == matches@.len(),
            i <= n,
            views == match_views(matches@),
            forall|k: int| 0 <= k < i ==> (#[trigger] views[k]).session_id != session_id,
        decreases n - i,
    {
        if matches[i].session_id == session_id {
            return Some(i);
        }
        i += 1;
    }
    proof {
        assert forall|k: int| 0 <= k < views.len() implies (#[trigger] views[k]).session_id
            != session_id by {}
    }
    None
}

/// Finds the position of some session open to this requester.
fn find_open_candidate(sessions: &Vec<Session>, requester: &String) -> (r: Option<usize>)
    ensures
        match r {
            Some(i) => i < sessions@.len() && joinable_candidate(
                session_views(sessions@)[i as int],
                requester@,
            ),
            None => !has_open_candidate(session_views(sessions@), requester@),
        },
{
    let ghost views = session_views(sessions@);
    let mut i: usize = 0;
    let n = sessions.len();
    while i < n
        invariant
            n == sessions@.len(),
            i <= n,
            views == session_views(sessions@),
            forall|k: int| 0 <= k < i ==> !joinable_candidate(#[trigger] views[k], requester@),
        decreases n - i,
    {
        if sessions[i].participant_b.as_str().is_empty() && !sessions[i].participant_a.eq(requester)
        {
            return Some(i);
        }
        i += 1;
    }
    proof {
        assert forall|k: int| 0 <= k < views.len() implies !joinable_candidate(
            #[trigger] views[k],
            requester@,
        ) by {}
    }
    None
}

/// A byte-for-byte copy with the same view.
fn clone_bytes(v: &Vec<u8>) -> (r: Vec<u8>)
    ensures
        r@ == v@,
{
    let r = v.clone();
    proof {
        assert(r@ =~= v@);
    }
    r
}

/// A copy of an optional byte string, equal at the view level.
fn clone_opt_bytes(v: &Option<Vec<u8>>) -> (r: Option<Vec<u8>>)
    ensures
        opt_bytes_view(r) == opt_bytes_view(*v),
        r is Some <==> v is Some,
{
    match v {
        Some(b) => Some(clone_bytes(b)),
        None => None,
    }
}

/// Whether two byte strings hold the same bytes.
fn bytes_equal(a: &Vec<u8>, b: &Vec<u8>) -> (r: bool)
    ensures
        r == (a@ == b@),
{
    let r = a == b;
    proof {
        if r {
            assert(a@ =~= b@);
        } else {
            if a@ == b@ {
                assert(forall|i: int| 0 <= i < a@.len() ==> a@[i] == b@[i]);
                assert(false);
            }
        }
    }
    r
}

/// Law: a session's second slot is filled at most once. A join that filled
/// the slot at position `k` leaves it occupied, so no later join can fill
/// the same slot again: of any number of requesters racing for one open
/// session, exactly one occupies it and the others end up elsewhere.
pub proof fn lemma_second_slot_filled_once(
    pre: ArenaView,
    mid: ArenaView,
    post: ArenaView,
    first: Seq<char>,
    second: Seq<char>,
    k: int,
    ra: Result<u64, ProtocolError>,
    rb: Result<u64, ProtocolError>,
)
    requires
        first.len() > 0,
        join_joined_at(pre, mid, first, k, ra),
    ensures
        !join_joined_at(mid, post, second, k, rb),
{
    assert(mid.sessions[k].participant_b == first);
}

/// Law: an automated pairing whose match has reached a terminal state is a
/// replay: repeating it is answered with `AlreadyPlayed` and the store does
/// not change.
pub proof fn lemma_automated_replay_rejected(
    a: ArenaView,
    post: ArenaView,
    participant: Seq<char>,
    submission: u64,
    opponent: Seq<char>,
    opponent_submission: u64,
    j: int,
    r: Result<ResolutionTask, ProtocolError>,
)
    requires
        0 <= j < a.matches.len(),
        is_terminal(a.matches[j].state),
        a.matches[j].participant_a == participant,
        a.matches[j].commitment_a == Some(commitment_of(submission)),
        a.matches[j].commitment_b == Some(commitment_of(opponent_submission)),
        participant.len() > 0,
        opponent.len() > 0,
        participant != opponent,
        automated_post(a, post, participant, submission, opponent, opponent_submission, r),
    ensures
        r == Err::<ResolutionTask, ProtocolError>(ProtocolError::AlreadyPlayed),
        post == a,
{
    assert(replay_of(
        a.matches[j],
        participant,
        commitment_of(submission),
        commitment_of(opponent_submission),
    ));
    assert(already_played(
        a.matches,
        participant,
        commitment_of(submission),
        commitment_of(opponent_submission),
    ));
}

/// A match keeps its backing session when every session it could be backed
/// by is unchanged; the one updated position was open, so it backs no
/// match.
proof fn lemma_backing_preserved_update(pre: ArenaView, post: ArenaView, m: MatchView, i: int)
    requires
        pre.has_backing_session(m),
        m.wf(),
        post.sessions.len() == pre.sessions.len(),
        0 <= i < pre.sessions.len(),
        pre.sessions[i].is_open(),
        forall|k: int|
            0 <= k < pre.sessions.len() && k != i ==> post.sessions[k] == pre.sessions[k],
    ensures
        post.has_backing_session(m),
{
    let k = choose|k: int|
        0 <= k < pre.sessions.len() && (#[trigger] pre.sessions[k]).id == m.session_id
            && pre.sessions[k].participant_a == m.participant_a && pre.sessions[k].participant_b
            == m.participant_b;
    assert(m.participant_b.len() > 0);
    assert(k != i);
    assert(post.sessions[k] == pre.sessions[k]);
}

/// A match keeps its backing session when the session list only grows.
proof fn lemma_backing_preserved_extend(pre: ArenaView, post: ArenaView, m: MatchView)
    requires
        pre.has_backing_session(m),
        post.sessions.len() >= pre.sessions.len(),
        forall|k: int| 0 <= k < pre.sessions.len() ==> post.sessions[k] == pre.sessions[k],
    ensures
        post.has_backing_session(m),
{
    let k = choose|k: int|
        0 <= k < pre.sessions.len() && (#[trigger] pre.sessions[k]).id == m.session_id
            && pre.sessions[k].participant_a == m.participant_a && pre.sessions[k].participant_b
            == m.participant_b;
    assert(post.sessions[k] == pre.sessions[k]);
}

/// A match record that keeps its session id and participants keeps its
/// backing session while the sessions stand still.
proof fn lemma_backing_same_participants(
    pre: ArenaView,
    post: ArenaView,
    m: MatchView,
    m2: MatchView,
)
    requires
        pre.has_backing_session(m),
        post.sessions == pre.sessions,
        m2.session_id == m.session_id,
        m2.participant_a == m.participant_a,
        m2.participant_b == m.participant_b,
    ensures
        post.has_backing_session(m2),
{
    let k = choose|k: int|
        0 <= k < pre.sessions.len() && (#[trigger] pre.sessions[k]).id == m.session_id
            && pre.sessions[k].participant_a == m.participant_a && pre.sessions[k].participant_b
            == m.participant_b;
    assert(post.sessions[k].id == m2.session_id);
}

impl Arena {
    /// An empty store whose matches will all carry this ruleset
    /// commitment.
    pub fn new(ruleset_commitment: Vec<u8>) -> (r: Arena)
        ensures
            r@.wf(),
            r@.sessions.len() == 0,
            r@.matches.len() == 0,
            r@.next_session_id == 0,
            r@.ruleset_commitment == ruleset_commitment@,
    {
        let r = Arena {
            sessions: Vec::new(),
            matches: Vec::new(),
            next_session_id: 0,
            ruleset_commitment,
        };
        proof {
            assert(r@.sessions =~= Seq::<SessionView>::empty());
            assert(r@.matches =~= Seq::<MatchView>::empty());
        }
        r
    }

    /// Appends a fresh open session owned by the requester.
    fn create_session(&mut self, requester: &String) -> (r: u64)
        requires
            old(self)@.wf(),
            old(self)@.next_session_id < u64::MAX,
            requester@.len() > 0,
        ensures
            final(self)@.wf(),
            final(self)@.matches == old(self)@.matches,
            final(self)@.ruleset_commitment == old(self)@.ruleset_commitment,
            join_created(old(self)@, final(self)@, requester@, Ok(r)),
    {
        let ghost pre = self@;
        let id = self.next_session_id;
        self.next_session_id = id + 1;
        let s = Session { id, participant_a: requester.clone(), participant_b: String::new() };
        self.sessions.push(s);
        proof {
            assert(self@.sessions =~= pre.sessions.push(
                SessionView {
                    id: pre.next_session_id,
                    participant_a: requester@,
                    participant_b: Seq::<char>::empty(),
                },
            ));
            assert(self@.matches =~= pre.matches);
            assert forall|mi: int| 0 <= mi < self@.matches.len() implies self@.has_backing_session(
                #[trigger] self@.matches[mi],
            ) by {
                lemma_backing_preserved_extend(pre, self@, self@.matches[mi]);
            }
        }
        id
    }

    /// Fills the second slot of the open session at position `i` with the
    /// requester.
    fn fill_second_slot(&mut self, i: usize, requester: &String) -> (r: u64)
        requires
            old(self)@.wf(),
            i < old(self)@.sessions.len(),
            joinable_candidate(old(self)@.sessions[i as int], requester@),
            requester@.len() > 0,
        ensures
            final(self)@.wf(),
            final(self)@.matches == old(self)@.matches,
            final(self)@.ruleset_commitment == old(self)@.ruleset_commitment,
            join_joined_at(old(self)@, final(self)@, requester@, i as int, Ok(r)),
    {
        let ghost pre = self@;
        let id = self.sessions[i].id;
        let first = self.sessions[i].participant_a.clone();
        let updated = Session { id, participant_a: first, participant_b: requester.clone() };
        self.sessions[i] = updated;
        proof {
            assert(self@.sessions =~= pre.sessions.update(
                i as int,
                with_second(pre.sessions[i as int], requester@),
            ));
            assert(self@.matches =~= pre.matches);
            assert forall|mi: int| 0 <= mi < self@.matches.len() implies self@.has_backing_session(
                #[trigger] self@.matches[mi],
            ) by {
                assert(pre.has_backing_session(pre.matches[mi]));
                assert(pre.matches[mi].wf());
                lemma_backing_preserved_update(pre, self@, self@.matches[mi], i as int);
            }
        }
        id
    }

    /// Accepts one submission into the session's match, creating the match
    /// on the first submission. Only a bound participant may submit, only
    /// during their own turn; a submission that confirms the submitter's
    /// stored commitment triggers resolution exactly once and returns the
    /// task the dispatcher must run; any other submission during the turn
    /// (over)writes the slot and passes the turn.
    pub fn submit(
        &mut self,
        session_id: u64,
        participant: &String,
        submission: u64,
    ) -> (r: Result<SubmitAck, ProtocolError>)
        requires
            old(self)@.wf(),
        ensures
            final(self)@.wf(),
            final(self)@.sessions == old(self)@.sessions,
            final(self)@.next_session_id == old(self)@.next_session_id,
            final(self)@.ruleset_commitment == old(self)@.ruleset_commitment,
            forall|k: int|
                0 <= k < old(self)@.matches.len() ==> state_rank(
                    (#[trigger] final(self)@.matches[k]).state,
                ) >= state_rank(old(self)@.matches[k].state),
            forall|k: int|
                0 <= k < old(self)@.matches.len() && is_terminal(old(self)@.matches[k].state)
                    ==> #[trigger] final(self)@.matches[k] == old(self)@.matches[k],
            submit_post(old(self)@, final(self)@, session_id, participant@, submission, r),
    {
        let ghost pre = self@;
        let si = match find_session_index(&self.sessions, session_id) {
            None => {
                return Err(ProtocolError::SessionNotFound);
            },
            Some(i) => i,
        };
        proof {
            lemma_session_ix_is(pre.sessions, session_id, si as int);
        }
        if self.sessions[si].participant_b.as_str().is_empty() {
            return Err(ProtocolError::SessionIncomplete);
        }
        let by_a = if self.sessions[si].participant_a.eq(participant) {
            true
        } else if self.sessions[si].participant_b.eq(participant) {
            false
        } else {
            return Err(ProtocolError::NotYourTurn);
        };
        let commitment = commitment_of_submission(submission);
        let mj = match find_match_index(&self.matches, session_id) {
            None => {
                let (sa, ca) = if by_a {
                    (Some(submission), Some(commitment))
                } else {
                    (None, None)
                };
                let (sb, cb) = match ca {
                    Some(_) => (None, None),
                    None => (Some(submission), Some(commitment_of_submission(submission))),
                };
                let m = Match {
                    session_id,
                    participant_a: self.sessions[si].participant_a.clone(),
                    participant_b: self.sessions[si].participant_b.clone(),
                    submission_a: sa,
                    commitment_a: ca,
                    submission_b: sb,
                    commitment_b: cb,
                    ruleset_commitment: clone_bytes(&self.ruleset_commitment),
                    state: if by_a {
                        MatchState::AwaitingB
                    } else {
                        MatchState::AwaitingA
                    },
                    result: None,
                    winner_id: None,
                    winner_commitment: None,
                    error: None,
                };
                let ghost mv = m@;
                self.matches.push(m);
                proof {
                    let s = pre.sessions[session_ix(pre.sessions, session_id)];
                    assert(mv == initial_match(
                        s,
                        by_a,
                        submission,
                        commitment_of(submission),
                        pre.ruleset_commitment,
                    ));
                    assert(self@.matches =~= pre.matches.push(mv));
                    assert forall|k: int| 0 <= k < pre.matches.len() implies (
                    #[trigger] pre.matches[k]).session_id != session_id by {}
                    assert forall|mi: int|
                        0 <= mi < self@.matches.len() implies self@.has_backing_session(
                        #[trigger] self@.matches[mi],
                    ) by {
                        if mi < pre.matches.len() {
                            lemma_backing_preserved_extend(pre, self@, self@.matches[mi]);
                        } else {
                            assert(self@.sessions[si as int].id == mv.session_id
                                && self@.sessions[si as int].participant_a == mv.participant_a
                                && self@.sessions[si as int].participant_b == mv.participant_b);
                        }
                    }
                }
                return Ok(SubmitAck::Recorded);
            },
            Some(j) => j,
        };
        let j = mj;
        proof {
            lemma_match_ix_is(pre.matches, session_id, j as int);
        }
        let ghost m = pre.matches[j as int];
        let st = self.matches[j].state;
        if st == MatchState::Resolving {
            return Err(ProtocolError::MatchInProgress);
        }
        if st == MatchState::Complete || st == MatchState::Failed {
            return Err(ProtocolError::MatchComplete);
        }
        if by_a != (st == MatchState::AwaitingA) {
            return Err(ProtocolError::NotYourTurn);
        }
        let stored_match = if by_a {
            match &self.matches[j].commitment_a {
                Some(c) => bytes_equal(c, &commitment),
                None => false,
            }
        } else {
            match &self.matches[j].commitment_b {
                Some(c) => bytes_equal(c, &commitment),
                None => false,
            }
        };
        proof {
            assert(m.wf());
        }
        if stored_match {
            let task = ResolutionTask {
                session_id,
                participant_a: self.matches[j].participant_a.clone(),
                submission_a: self.matches[j].submission_a.unwrap(),
                participant_b: self.matches[j].participant_b.clone(),
                submission_b: self.matches[j].submission_b.unwrap(),
            };
            let new_m = Match {
                session_id: self.matches[j].session_id,
                participant_a: self.matches[j].participant_a.clone(),
                participant_b: self.matches[j].participant_b.clone(),
                submission_a: self.matches[j].submission_a,
                commitment_a: clone_opt_bytes(&self.matches[j].commitment_a),
                submission_b: self.matches[j].submission_b,
                commitment_b: clone_opt_bytes(&self.matches[j].commitment_b),
                ruleset_commitment: clone_bytes(&self.matches[j].ruleset_commitment),
                state: MatchState::Resolving,
                result: None,
                winner_id: None,
                winner_commitment: None,
                error: None,
            };
            let ghost nmv = new_m@;
            self.matches[j] = new_m;
            proof {
                crate::machine::lemma_submit_preserves_wf(
                    m,
                    by_a,
                    submission,
                    commitment_of(submission),
                );
                assert(nmv == spec_submit(m, by_a, submission, commitment_of(submission)).0);
                assert(self@.matches =~= pre.matches.update(j as int, nmv));
                assert forall|mi: int|
                    0 <= mi < self@.matches.len() implies self@.has_backing_session(
                    #[trigger] self@.matches[mi],
                ) by {
                    assert(pre.has_backing_session(pre.matches[mi]));
                    lemma_backing_same_participants(
                        pre,
                        self@,
                        pre.matches[mi],
                        self@.matches[mi],
                    );
                }
            }
            Ok(SubmitAck::ResolutionStarted(task))
        } else {
            let (sa, ca) = if by_a {
                (Some(submission), Some(commitment))
            } else {
                (self.matches[j].submission_a, clone_opt_bytes(&self.matches[j].commitment_a))
            };
            let (sb, cb) = if by_a {
                (self.matches[j].submission_b, clone_opt_bytes(&self.matches[j].commitment_b))
            } else {
                (Some(submission), Some(commitment_of_submission(submission)))
            };
            let new_m = Match {
                session_id: self.matches[j].session_id,
                participant_a: self.matches[j].participant_a.clone(),
                participant_b: self.matches[j].participant_b.clone(),
                submission_a: sa,
                commitment_a: ca,
                submission_b: sb,
                commitment_b: cb,
                ruleset_commitment: clone_bytes(&self.matches[j].ruleset_commitment),
                state: if by_a {
                    MatchState::AwaitingB
                } else {
                    MatchState::AwaitingA
                },
                result: None,
                winner_id: None,
                winner_commitment: None,
                error: None,
            };
            let ghost nmv = new_m@;
            self.matches[j] = new_m;
            proof {
                crate::machine::lemma_submit_preserves_wf(
                    m,
                    by_a,
                    submission,
                    commitment_of(submission),
                );
                assert(nmv == spec_submit(m, by_a, submission, commitment_of(submission)).0);
                assert(self@.matches =~= pre.matches.update(j as int, nmv));
                assert forall|mi: int|
                    0 <= mi < self@.matches.len() implies self@.has_backing_session(
                    #[trigger] self@.matches[mi],
                ) by {
                    assert(pre.has_backing_session(pre.matches[mi]));
                    lemma_backing_same_participants(
                        pre,
                        self@,
                        pre.matches[mi],
                        self@.matches[mi],
                    );
                }
            }
            Ok(SubmitAck::Recorded)
        }
    }

    /// Joins the requester into a session: into the targeted one if a
    /// target is given, else into some open session of another
    /// participant, else — or on request — into a freshly created one.
    /// Targeted joins report a missing session, a full one and one the
    /// requester already occupies each as its own refusal, and a full
    /// session is never changed by any join.
    pub fn join(&mut self, requester: &String, target: Option<u64>, force_new: bool) -> (r: Result<
        u64,
        ProtocolError,
    >)
        requires
            old(self)@.wf(),
            old(self)@.next_session_id < u64::MAX,
        ensures
            final(self)@.wf(),
            final(self)@.matches == old(self)@.matches,
            final(self)@.ruleset_commitment == old(self)@.ruleset_commitment,
            final(self)@.sessions.len() >= old(self)@.sessions.len(),
            forall|k: int|
                0 <= k < old(self)@.sessions.len() ==> {
                    &&& (#[trigger] final(self)@.sessions[k]).id == old(self)@.sessions[k].id
                    &&& final(self)@.sessions[k].participant_a
                        == old(self)@.sessions[k].participant_a
                    &&& !old(self)@.sessions[k].is_open() ==> final(self)@.sessions[k]
                        == old(self)@.sessions[k]
                },
            r is Err ==> final(self)@ == old(self)@,
            (r == Err::<u64, ProtocolError>(ProtocolError::ValidationError)) <==> requester@.len()
                == 0,
            requester@.len() > 0 && target is Some ==> join_target_post(
                old(self)@,
                final(self)@,
                requester@,
                target->0,
                r,
            ),
            requester@.len() > 0 && target is None && (force_new || !has_open_candidate(
                old(self)@.sessions,
                requester@,
            )) ==> join_created(old(self)@, final(self)@, requester@, r),
            requester@.len() > 0 && target is None && !force_new && has_open_candidate(
                old(self)@.sessions,
                requester@,
            ) ==> exists|k: int| #[trigger] join_joined_at(old(self)@, final(self)@, requester@, k, r),
    {
        if requester.as_str().is_empty() {
            return Err(ProtocolError::ValidationError);
        }
        match target {
            Some(tid) => {
                match find_session_index(&self.sessions, tid) {
                    None => Err(ProtocolError::NotJoinable(JoinRefusal::NotFound)),
                    Some(i) => {
                        proof {
                            lemma_session_ix_is(self@.sessions, tid, i as int);
                        }
                        let member = self.sessions[i].participant_a.eq(requester)
                            || self.sessions[i].participant_b.eq(requester);
                        if member {
                            Err(ProtocolError::NotJoinable(JoinRefusal::AlreadyMember))
                        } else if !self.sessions[i].participant_b.as_str().is_empty() {
                            Err(ProtocolError::NotJoinable(JoinRefusal::AlreadyFull))
                        } else {
                            Ok(self.fill_second_slot(i, requester))
                        }
                    },
                }
            },
            None => {
                if !force_new {
                    match find_open_candidate(&self.sessions, requester) {
                        Some(i) => {
                            let id = self.fill_second_slot(i, requester);
                            proof {
                                assert(join_joined_at(
                                    old(self)@,
                                    self@,
                                    requester@,
                                    i as int,
                                    Ok(id),
                                ));
                            }
                            Ok(id)
                        },
                        None => Ok(self.create_session(requester)),
                    }
                } else {
                    Ok(self.create_session(requester))
                }
            },
        }
    }

    /// Creates the session and the already-resolving match for a contest
    /// against an automated opponent, both submissions supplied at once.
    /// A pairing already played to a terminal state — same first
    /// participant, same two commitments — is rejected with
    /// `AlreadyPlayed`; a successful creation returns the task the
    /// dispatcher must run immediately.
    pub fn submit_vs_automated(
        &mut self,
        participant: &String,
        submission: u64,
        opponent: &String,
        opponent_submission: u64,
    ) -> (r: Result<ResolutionTask, ProtocolError>)
        requires
            old(self)@.wf(),
            old(self)@.next_session_id < u64::MAX,
        ensures
            final(self)@.wf(),
            final(self)@.ruleset_commitment == old(self)@.ruleset_commitment,
            forall|k: int|
                0 <= k < old(self)@.sessions.len() ==> #[trigger] final(self)@.sessions[k] == old(
                    self,
                )@.sessions[k],
            forall|k: int|
                0 <= k < old(self)@.matches.len() ==> #[trigger] final(self)@.matches[k] == old(
                    self,
                )@.matches[k],
            automated_post(
                old(self)@,
                final(self)@,
                participant@,
                submission,
                opponent@,
                opponent_submission,
                r,
            ),
    {
        let ghost pre = self@;
        if participant.as_str().is_empty() || opponent.as_str().is_empty() || participant.eq(
            opponent,
        ) {
            return Err(ProtocolError::ValidationError);
        }
        let ca = commitment_of_submission(submission);
        let cb = commitment_of_submission(opponent_submission);
        if find_replay(&self.matches, participant, &ca, &cb) {
            return Err(ProtocolError::AlreadyPlayed);
        }
        let id = self.next_session_id;
        self.next_session_id = id + 1;
        let s = Session {
            id,
            participant_a: participant.clone(),
            participant_b: opponent.clone(),
        };
        self.sessions.push(s);
        let m = Match {
            session_id: id,
            participant_a: participant.clone(),
            participant_b: opponent.clone(),
            submission_a: Some(submission),
            commitment_a: Some(ca),
            submission_b: Some(opponent_submission),
            commitment_b: Some(cb),
            ruleset_commitment: clone_bytes(&self.ruleset_commitment),
            state: MatchState::Resolving,
            result: None,
            winner_id: None,
            winner_commitment: None,
            error: None,
        };
        let ghost mv = m@;
        self.matches.push(m);
        proof {
            assert(self@.sessions =~= pre.sessions.push(
                SessionView { id, participant_a: participant@, participant_b: opponent@ },
            ));
            assert(self@.matches =~= pre.matches.push(mv));
            assert(mv == automated_match(
                id,
                participant@,
                submission,
                opponent@,
                opponent_submission,
                pre.ruleset_commitment,
            ));
            lemma_match_ids_below(pre);
            assert forall|mi: int| 0 <= mi < self@.matches.len() implies self@.has_backing_session(
                #[trigger] self@.matches[mi],
            ) by {
                if mi < pre.matches.len() {
                    lemma_backing_preserved_extend(pre, self@, self@.matches[mi]);
                } else {
                    let k = pre.sessions.len() as int;
                    assert(self@.sessions[k].id == mv.session_id && self@.sessions[k].participant_a
                        == mv.participant_a && self@.sessions[k].participant_b
                        == mv.participant_b);
                }
            }
        }
        Ok(
            ResolutionTask {
                session_id: id,
                participant_a: participant.clone(),
                submission_a: submission,
                participant_b: opponent.clone(),
                submission_b: opponent_submission,
            },
        )
    }

    /// Commits an engine report onto the session's resolving match:
    /// mismatched commitments fail it with `IntegrityError`, a reported
    /// domain error fails it with the reason, and otherwise it completes,
    /// keeps outcome and winner, and purges the raw submissions. Only a
    /// match in `Resolving` accepts a commit.
    pub fn apply_resolution(&mut self, session_id: u64, report: &EngineReport) -> (r: Result<
        (),
        ProtocolError,
    >)
        requires
            old(self)@.wf(),
        ensures
            final(self)@.wf(),
            final(self)@.sessions == old(self)@.sessions,
            final(self)@.next_session_id == old(self)@.next_session_id,
            final(self)@.ruleset_commitment == old(self)@.ruleset_commitment,
            forall|k: int|
                0 <= k < old(self)@.matches.len() ==> state_rank(
                    (#[trigger] final(self)@.matches[k]).state,
                ) >= state_rank(old(self)@.matches[k].state),
            forall|k: int|
                0 <= k < old(self)@.matches.len() && is_terminal(old(self)@.matches[k].state)
                    ==> #[trigger] final(self)@.matches[k] == old(self)@.matches[k],
            resolution_post(old(self)@, final(self)@, session_id, report@, r),
    {
        let ghost pre = self@;
        let j = match find_match_index(&self.matches, session_id) {
            None => {
                return Err(ProtocolError::SessionNotFound);
            },
            Some(j) => j,
        };
        proof {
            lemma_match_ix_is(pre.matches, session_id, j as int);
        }
        let ghost m = pre.matches[j as int];
        if !(self.matches[j].state == MatchState::Resolving) {
            return Err(ProtocolError::ValidationError);
        }
        proof {
            assert(m.wf());
        }
        let ok_a = match &self.matches[j].commitment_a {
            Some(c) => bytes_equal(c, &report.commitment_a),
            None => false,
        };
        let ok_b = match &self.matches[j].commitment_b {
            Some(c) => bytes_equal(c, &report.commitment_b),
            None => false,
        };
        let new_m: Match = if !(ok_a && ok_b) {
            Match {
                session_id: self.matches[j].session_id,
                participant_a: self.matches[j].participant_a.clone(),
                participant_b: self.matches[j].participant_b.clone(),
                submission_a: self.matches[j].submission_a,
                commitment_a: clone_opt_bytes(&self.matches[j].commitment_a),
                submission_b: self.matches[j].submission_b,
                commitment_b: clone_opt_bytes(&self.matches[j].commitment_b),
                ruleset_commitment: clone_bytes(&self.matches[j].ruleset_commitment),
                state: MatchState::Failed,
                result: None,
                winner_id: None,
                winner_commitment: None,
                error: Some(MatchFailure::IntegrityError),
            }
        } else {
            match &report.error {
                Some(reason) => Match {
                    session_id: self.matches[j].session_id,
                    participant_a: self.matches[j].participant_a.clone(),
                    participant_b: self.matches[j].participant_b.clone(),
                    submission_a: self.matches[j].submission_a,
                    commitment_a: clone_opt_bytes(&self.matches[j].commitment_a),
                    submission_b: self.matches[j].submission_b,
                    commitment_b: clone_opt_bytes(&self.matches[j].commitment_b),
                    ruleset_commitment: clone_bytes(&self.matches[j].ruleset_commitment),
                    state: MatchState::Failed,
                    result: None,
                    winner_id: None,
                    winner_commitment: None,
                    error: Some(MatchFailure::Domain(reason.clone())),
                },
                None => {
                    let (wid, wc) = match &report.winner {
                        Some(w) => (Some(w.id.clone()), Some(clone_bytes(&w.commitment))),
                        None => (None, None),
                    };
                    Match {
                        session_id: self.matches[j].session_id,
                        participant_a: self.matches[j].participant_a.clone(),
                        participant_b: self.matches[j].participant_b.clone(),
                        submission_a: None,
                        commitment_a: clone_opt_bytes(&self.matches[j].commitment_a),
                        submission_b: None,
                        commitment_b: clone_opt_bytes(&self.matches[j].commitment_b),
                        ruleset_commitment: clone_bytes(&self.matches[j].ruleset_commitment),
                        state: MatchState::Complete,
                        result: Some(report.result.clone()),
                        winner_id: wid,
                        winner_commitment: wc,
                        error: None,
                    }
                },
            }
        };
        let ghost nmv = new_m@;
        self.matches[j] = new_m;
        proof {
            crate::machine::lemma_resolve_preserves_wf(m, report@);
            assert(nmv == spec_resolve(m, report@));
            assert(self@.matches =~= pre.matches.update(j as int, nmv));
            assert forall|mi: int| 0 <= mi < self@.matches.len() implies self@.has_backing_session(
                #[trigger] self@.matches[mi],
            ) by {
                assert(pre.has_backing_session(pre.matches[mi]));
                lemma_backing_same_participants(pre, self@, pre.matches[mi], self@.matches[mi]);
            }
        }
        Ok(())
    }

    /// Abandons the session's resolving match after the engine stayed
    /// unreachable through its bounded retries: the match fails with
    /// `EngineUnavailable`. Only a match in `Resolving` can be abandoned.
    pub fn record_engine_failure(&mut self, session_id: u64) -> (r: Result<(), ProtocolError>)
        requires
            old(self)@.wf(),
        ensures
            final(self)@.wf(),
            final(self)@.sessions == old(self)@.sessions,
            final(self)@.next_session_id == old(self)@.next_session_id,
            final(self)@.ruleset_commitment == old(self)@.ruleset_commitment,
            forall|k: int|
                0 <= k < old(self)@.matches.len() ==> state_rank(
                    (#[trigger] final(self)@.matches[k]).state,
                ) >= state_rank(old(self)@.matches[k].state),
            forall|k: int|
                0 <= k < old(self)@.matches.len() && is_terminal(old(self)@.matches[k].state)
                    ==> #[trigger] final(self)@.matches[k] == old(self)@.matches[k],
            engine_failure_post(old(self)@, final(self)@, session_id, r),
    {
        let ghost pre = self@;
        let j = match find_match_index(&self.matches, session_id) {
            None => {
                return Err(ProtocolError::SessionNotFound);
            },
            Some(j) => j,
        };
        proof {
            lemma_match_ix_is(pre.matches, session_id, j as int);
        }
        let ghost m = pre.matches[j as int];
        if !(self.matches[j].state == MatchState::Resolving) {
            return Err(ProtocolError::ValidationError);
        }
        proof {
            assert(m.wf());
        }
        let new_m = Match {
            session_id: self.matches[j].session_id,
            participant_a: self.matches[j].participant_a.clone(),
            participant_b: self.matches[j].participant_b.clone(),
            submission_a: self.matches[j].submission_a,
            commitment_a: clone_opt_bytes(&self.matches[j].commitment_a),
            submission_b: self.matches[j].submission_b,
            commitment_b: clone_opt_bytes(&self.matches[j].commitment_b),
            ruleset_commitment: clone_bytes(&self.matches[j].ruleset_commitment),
            state: MatchState::Failed,
            result: None,
            winner_id: None,
            winner_commitment: None,
            error: Some(MatchFailure::EngineUnavailable),
        };
        let ghost nmv = new_m@;
        self.matches[j] = new_m;
        proof {
            crate::machine::lemma_resolve_preserves_wf(
                m,
                EngineReportView {
                    commitment_a: Seq::<u8>::empty(),
                    commitment_b: Seq::<u8>::empty(),
                    result: Seq::<char>::empty(),
                    winner: None,
                    error: None,
                },
            );
            assert(nmv == spec_engine_failure(m));
            assert(self@.matches =~= pre.matches.update(j as int, nmv));
            assert forall|mi: int| 0 <= mi < self@.matches.len() implies self@.has_backing_session(
                #[trigger] self@.matches[mi],
            ) by {
                assert(pre.has_backing_session(pre.matches[mi]));
                lemma_backing_same_participants(pre, self@, pre.matches[mi], self@.matches[mi]);
            }
        }
        Ok(())
    }

    /// Lists every completed match, in store order, with identifiers and
    /// raw submissions stripped: only the participants, the ruleset
    /// commitment and the outcome are reported.
    pub fn get_completed_matches(&self) -> (r: Vec<CompletedMatch>)
        requires
            self@.wf(),
        ensures
            completed_views(r@) == completed_entries(self@.matches),
    {
        let mut out: Vec<CompletedMatch> = Vec::new();
        let mut i: usize = 0;
        let n = self.matches.len();
        proof {
            assert(completed_views(out@) =~= completed_entries(self@.matches.take(0)));
        }
        while i < n
            invariant
                self@.wf(),
                n == self@.matches.len(),
                i <= n,
                completed_views(out@) == completed_entries(self@.matches.take(i as int)),
            decreases n - i,
        {
            let ghost prefix = self@.matches.take(i as int);
            let ghost mview = self@.matches[i as int];
            if self.matches[i].state == MatchState::Complete {
                proof {
                    assert(mview.wf());
                }
                let result = match &self.matches[i].result {
                    Some(s) => s.clone(),
                    None => {
                        proof {
                            assert(false);
                        }
                        String::new()
                    },
                };
                let winner_id = match &self.matches[i].winner_id {
                    Some(s) => Some(s.clone()),
                    None => None,
                };
                let entry = CompletedMatch {
                    participant_a: self.matches[i].participant_a.clone(),
                    participant_b: self.matches[i].participant_b.clone(),
                    ruleset_commitment: clone_bytes(&self.matches[i].ruleset_commitment),
                    result,
                    winner_id,
                    winner_commitment: clone_opt_bytes(&self.matches[i].winner_commitment),
                };
                let ghost ev = entry@;
                out.push(entry);
                proof {
                    assert(ev == completed_entry_of(mview));
                    assert(self@.matches.take(i + 1).drop_last() =~= prefix);
                    assert(self@.matches.take(i + 1).last() == mview);
                    assert(completed_views(out@) =~= completed_entries(
                        self@.matches.take(i + 1),
                    ));
                }
            } else {
                proof {
                    assert(self@.matches.take(i + 1).drop_last() =~= prefix);
                    assert(self@.matches.take(i + 1).last() == mview);
                    assert(completed_views(out@) =~= completed_entries(
                        self@.matches.take(i + 1),
                    ));
                }
            }
            i += 1;
        }
        proof {
            assert(self@.matches.take(n as int) =~= self@.matches);
        }
        out
    }

    /// The session carrying this id, if any.
    pub fn session_record(&self, session_id: u64) -> (r: Option<&Session>)
        requires
            self@.wf(),
        ensures
            match r {
                Some(s) => has_session(self@.sessions, session_id) && s@ == self@.sessions[
                    session_ix(self@.sessions, session_id)
                ],
                None => !has_session(self@.sessions, session_id),
            },
    {
        match find_session_index(&self.sessions, session_id) {
            Some(i) => {
                proof {
                    lemma_session_ix_is(self@.sessions, session_id, i as int);
                }
                Some(&self.sessions[i])
            },
            None => None,
        }
    }

    /// The session's match, if any.
    pub fn match_record(&self, session_id: u64) -> (r: Option<&Match>)
        requires
            self@.wf(),
        ensures
            match r {
                Some(m) => has_match_for(self@.matches, session_id) && m@ == self@.matches[
                    match_ix(self@.matches, session_id)
                ],
                None => !has_match_for(self@.matches, session_id),
            },
    {
        match find_match_index(&self.matches, session_id) {
            Some(i) => {
                proof {
                    lemma_match_ix_is(self@.matches, session_id, i as int);
                }
                Some(&self.matches[i])
            },
            None => None,
        }
    }
}

/// Every match's session id is below the allocation counter, because its
/// backing session's is.
proof fn lemma_match_ids_below(a: ArenaView)
    requires
        a.wf(),
    ensures
        forall|mi: int|
            0 <= mi < a.matches.len() ==> (#[trigger] a.matches[mi]).session_id
                < a.next_session_id,
{
    assert forall|mi: int|
        0 <= mi < a.matches.len() implies (#[trigger] a.matches[mi]).session_id
        < a.next_session_id by {
        assert(a.has_backing_session(a.matches[mi]));
        let m = a.matches[mi];
        let k = choose|k: int|
            0 <= k < a.sessions.len() && (#[trigger] a.sessions[k]).id == m.session_id
                && a.sessions[k].participant_a == m.participant_a && a.sessions[k].participant_b
                == m.participant_b;
        assert(a.sessions[k].id < a.next_session_id);
    }
}

/// Whether some terminal match already played this pairing.
fn find_replay(matches: &Vec<Match>, participant: &String, ca: &Vec<u8>, cb: &Vec<u8>) -> (r: bool)
    ensures
        r == already_played(match_views(matches@), participant@, ca@, cb@),
{
    let ghost views = match_views(matches@);
    let mut i: usize = 0;
    let n = matches.len();
    while i < n
        invariant
            n == matches@.len(),
            i <= n,
            views == match_views(matches@),
            forall|k: int|
                0 <= k < i ==> !replay_of(#[trigger] views[k], participant@, ca@, cb@),
        decreases n - i,
    {
        let terminal = matches[i].state == MatchState::Complete || matches[i].state
            == MatchState::Failed;
        let same_first = matches[i].participant_a.eq(participant);
        let same_a = match &matches[i].commitment_a {
            Some(c) => bytes_equal(c, ca),
            None => false,
        };
        let same_b = match &matches[i].commitment_b {
            Some(c) => bytes_equal(c, cb),
            None => false,
        };
        if terminal && same_first && same_a && same_b {
            proof {
                assert(replay_of(views[i as int], participant@, ca@, cb@));
            }
            return true;
        }
        i += 1;
    }
    proof {
        assert forall|k: int| 0 <= k < views.len() implies !replay_of(
            #[trigger] views[k],
            participant@,
            ca@,
            cb@,
        ) by {}
    }
    false
}

} // verus!
