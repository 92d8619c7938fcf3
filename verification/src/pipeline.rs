//! Linking one commit: the matching steps in turn, and the course of a
//! request from the commit reference to the stored link.
//!
//! The library decides; the caller does the outside work. A request is a
//! `LinkState` that says what is awaited from outside; the caller does that
//! work and reports it as a `LinkEvent`; `step` gives the next state.

use crate::cass::models::Message;
use crate::evidence::{assistant_code_lines, code_lines, mentioned_files, mentions};
use crate::matcher::gates::Conversation;
use crate::matcher::step0::{match_step0, step0_result, MatchResult};
use crate::matcher::step1::{
    match_step1_simple, mentions_of, step1_result, texts, ConversationWithFiles,
};
use crate::matcher::step2::{code_of, match_step2, step2_result, ConversationWithCode};
use vstd::prelude::*;

verus! {

/// What the three steps make of the candidates: the result of the first step
/// that has one. The confidences of the steps are never combined.
pub open spec fn pipeline_result(
    candidates: Seq<Conversation>,
    with_files: Seq<ConversationWithFiles>,
    commit_files: Seq<Seq<char>>,
    with_code: Seq<ConversationWithCode>,
    diff_lines: Seq<Seq<char>>,
) -> Option<MatchResult> {
    match step0_result(candidates) {
        Some(r) => Some(r),
        None => match step1_result(
            crate::matcher::step1::conversations_of(with_files),
            mentions_of(with_files),
            commit_files,
        ) {
            Some(r) => Some(r),
            None => step2_result(
                crate::matcher::step2::conversations_of(with_code),
                code_of(with_code),
                diff_lines,
            ),
        },
    }
}

/// Runs the three matching steps in turn and returns the result of the first
/// that is confident.
pub fn match_pipeline(
    candidates: &[Conversation],
    with_files: &[ConversationWithFiles],
    commit_files: &[String],
    with_code: &[ConversationWithCode],
    diff_lines: &[String],
) -> (r: Option<MatchResult>)
    ensures
        r == pipeline_result(
            candidates@,
            with_files@,
            texts(commit_files@),
            with_code@,
            texts(diff_lines@),
        ),
{
    match match_step0(candidates) {
        Some(r) => Some(r),
        None => match match_step1_simple(with_files, commit_files) {
            Some(r) => Some(r),
            None => match_step2(with_code, diff_lines),
        },
    }
}

/// Why a request failed.
#[derive(Debug, Clone, PartialEq)]
pub enum Failure {
    /// The outside work failed, for the reason given.
    Reported(String),
    /// The time of the commit, in milliseconds, is beyond what is counted.
    TimeOutOfRange,
    /// What was reported is not what was awaited.
    Unexpected,
}

/// How a request ended.
#[derive(Debug, Clone, PartialEq)]
pub enum Outcome {
    /// The commit was matched and its link stored.
    Linked { sha: String, result: MatchResult },
    /// The store held a link for the commit already; nothing was matched.
    AlreadyLinked { sha: String },
    /// No conversation of the workspace is near the commit in time, or no
    /// workspace is known for the repository.
    NoCandidate { sha: String },
    /// None of the steps was confident about any of the candidates.
    NoMatch { sha: String, candidates: usize },
    /// The request failed.
    Failed(Failure),
}

/// Where a request stands: what is awaited from outside, or how it ended.
#[derive(Debug, Clone, PartialEq)]
pub enum LinkState {
    /// Awaited: the commit that the reference names.
    Resolve,
    /// Awaited: whether the store holds a link for the commit.
    CheckStore { sha: String, commit_time_ms: i64 },
    /// Awaited: the candidates for a commit made at `commit_time_ms`.
    FindCandidates { sha: String, commit_time_ms: i64 },
    /// Awaited: the files that the commit changes and the lines of its diff.
    ReadCommit { sha: String, candidates: Vec<Conversation> },
    /// Awaited: the messages of each candidate.
    ReadMessages {
        sha: String,
        candidates: Vec<Conversation>,
        commit_files: Vec<String>,
        diff_lines: Vec<String>,
    },
    /// Awaited: the link stored, first the record, then the index.
    Persist { sha: String, result: MatchResult },
    /// The request has ended.
    Done(Outcome),
}

/// What the outside work reports.
#[derive(Debug, Clone)]
pub enum LinkEvent {
    /// The reference names this commit, made at this time (in seconds).
    CommitResolved { sha: String, author_time_seconds: i64 },
    /// Whether the store holds a link for the commit.
    StoreChecked { exists: bool },
    /// The candidates, in the catalogue's order.
    CandidatesFound { candidates: Vec<Conversation> },
    /// The files that the commit changes and the lines of its diff.
    CommitRead { commit_files: Vec<String>, diff_lines: Vec<String> },
    /// The messages of each candidate, in the candidates' order; `None` for a
    /// candidate whose messages could not be read.
    MessagesRead { messages: Vec<Option<Vec<Message>>> },
    /// The link is stored.
    Persisted,
    /// The outside work failed.
    Failed { reason: String },
}

/// The most seconds that can be counted in milliseconds.
pub const MAX_SECONDS: i64 = 9_223_372_036_854_775;

/// The candidates whose messages were read, among the first `k`.
pub open spec fn answered(
    candidates: Seq<Conversation>,
    messages: Seq<Option<Vec<Message>>>,
    k: int,
) -> Seq<Conversation>
    decreases k,
{
    if k <= 0 {
        Seq::empty()
    } else {
        match messages[k - 1] {
            Some(_) => answered(candidates, messages, k - 1).push(candidates[k - 1]),
            None => answered(candidates, messages, k - 1),
        }
    }
}

/// What each of the first `k` candidates mentions, for those whose messages
/// were read.
pub open spec fn file_evidence(messages: Seq<Option<Vec<Message>>>, k: int) -> Seq<
    Seq<Seq<char>>,
>
    decreases k,
{
    if k <= 0 {
        Seq::empty()
    } else {
        match messages[k - 1] {
            Some(read) => file_evidence(messages, k - 1).push(mentions(read@)),
            None => file_evidence(messages, k - 1),
        }
    }
}

/// The code lines of each of the first `k` candidates, for those whose
/// messages were read.
pub open spec fn code_evidence(messages: Seq<Option<Vec<Message>>>, k: int) -> Seq<
    Seq<Seq<char>>,
>
    decreases k,
{
    if k <= 0 {
        Seq::empty()
    } else {
        match messages[k - 1] {
            Some(read) => code_evidence(messages, k - 1).push(code_lines(read@)),
            None => code_evidence(messages, k - 1),
        }
    }
}

/// What steps 1 and 2 make of the candidates and their messages: the result
/// of step 1, and that of step 2 where step 1 has none. A candidate whose
/// messages could not be read takes no part.
pub open spec fn later_steps(
    candidates: Seq<Conversation>,
    messages: Seq<Option<Vec<Message>>>,
    commit_files: Seq<Seq<char>>,
    diff_lines: Seq<Seq<char>>,
) -> Option<MatchResult> {
    let n = candidates.len() as int;
    match step1_result(answered(candidates, messages, n), file_evidence(messages, n), commit_files) {
        Some(r) => Some(r),
        None => step2_result(answered(candidates, messages, n), code_evidence(messages, n), diff_lines),
    }
}

/// The state that follows `state` when `event` is reported.
///
/// An ended request stays as it is. A reported failure ends the request, and
/// so does an event that was not awaited. Otherwise:
/// the commit resolved, the store is asked; a commit that is linked already
/// ends the request without matching; without candidates the request ends;
/// step 0 is tried on the candidates, and the messages are read only where it
/// declines and the commit changes something; then steps 1 and 2 are tried;
/// a result is stored, and no result ends the request.
pub open spec fn next_state(state: LinkState, event: LinkEvent) -> LinkState {
    match state {
        LinkState::Done(outcome) => LinkState::Done(outcome),
        _ => match event {
            LinkEvent::Failed { reason } => LinkState::Done(
                Outcome::Failed(Failure::Reported(reason)),
            ),
            _ => awaited(state, event),
        },
    }
}

/// The state that follows a state that awaits something, when something
/// other than a failure is reported.
pub open spec fn awaited(state: LinkState, event: LinkEvent) -> LinkState {
    match (state, event) {
        (LinkState::Resolve, LinkEvent::CommitResolved { sha, author_time_seconds }) => {
            if -MAX_SECONDS <= author_time_seconds <= MAX_SECONDS {
                LinkState::CheckStore { sha, commit_time_ms: (author_time_seconds * 1000) as i64 }
            } else {
                LinkState::Done(Outcome::Failed(Failure::TimeOutOfRange))
            }
        },
        (LinkState::CheckStore { sha, commit_time_ms }, LinkEvent::StoreChecked { exists }) => {
            if exists {
                LinkState::Done(Outcome::AlreadyLinked { sha })
            } else {
                LinkState::FindCandidates { sha, commit_time_ms }
            }
        },
        (
            LinkState::FindCandidates { sha, commit_time_ms },
            LinkEvent::CandidatesFound { candidates },
        ) => {
            if candidates@.len() == 0 {
                LinkState::Done(Outcome::NoCandidate { sha })
            } else {
                LinkState::ReadCommit { sha, candidates }
            }
        },
        (
            LinkState::ReadCommit { sha, candidates },
            LinkEvent::CommitRead { commit_files, diff_lines },
        ) => {
            match step0_result(candidates@) {
                Some(result) => LinkState::Persist { sha, result },
                None => if commit_files@.len() == 0 && diff_lines@.len() == 0 {
                    LinkState::Done(
                        Outcome::NoMatch { sha, candidates: candidates@.len() as usize },
                    )
                } else {
                    LinkState::ReadMessages { sha, candidates, commit_files, diff_lines }
                },
            }
        },
        (
            LinkState::ReadMessages { sha, candidates, commit_files, diff_lines },
            LinkEvent::MessagesRead { messages },
        ) => {
            if messages@.len() != candidates@.len() {
                LinkState::Done(Outcome::Failed(Failure::Unexpected))
            } else {
                match later_steps(candidates@, messages@, texts(commit_files@), texts(diff_lines@)) {
                    Some(result) => LinkState::Persist { sha, result },
                    None => LinkState::Done(
                        Outcome::NoMatch { sha, candidates: candidates@.len() as usize },
                    ),
                }
            }
        },
        (LinkState::Persist { sha, result }, LinkEvent::Persisted) => LinkState::Done(
            Outcome::Linked { sha, result },
        ),
        _ => LinkState::Done(Outcome::Failed(Failure::Unexpected)),
    }
}

/// Steps 1 and 2 on the candidates and their messages.
fn match_on_messages(
    candidates: &Vec<Conversation>,
    messages: &Vec<Option<Vec<Message>>>,
    commit_files: &Vec<String>,
    diff_lines: &Vec<String>,
) -> (r: Option<MatchResult>)
    requires
        messages@.len() == candidates@.len(),
    ensures
        r == later_steps(candidates@, messages@, texts(commit_files@), texts(diff_lines@)),
{
    let n = candidates.len();
    let first = if commit_files.len() > 0 {
        let mut with_files: Vec<ConversationWithFiles> = Vec::new();
        let mut i: usize = 0;
        assert(crate::matcher::step1::conversations_of(with_files@) =~= Seq::<Conversation>::empty(
        ));
        assert(mentions_of(with_files@) =~= Seq::<Seq<Seq<char>>>::empty());
        while i < n
            invariant
                i <= n,
                n == candidates@.len(),
                n == messages@.len(),
                crate::matcher::step1::conversations_of(with_files@) == answered(
                    candidates@,
                    messages@,
                    i as int,
                ),
                mentions_of(with_files@) == file_evidence(messages@, i as int),
            decreases n - i,
        {
            if let Some(read) = &messages[i] {
                let ghost conversations = crate::matcher::step1::conversations_of(with_files@);
                let ghost evidence = mentions_of(with_files@);
                let mentioned = mentioned_files(read);
                with_files.push(
                    ConversationWithFiles { conversation: candidates[i], mentioned_files: mentioned },
                );
                assert(crate::matcher::step1::conversations_of(with_files@) =~= conversations.push(
                    candidates@[i as int],
                ));
                assert(mentions_of(with_files@) =~= evidence.push(mentions(read@)));
            }
            i += 1;
        }
        match_step1_simple(with_files.as_slice(), commit_files.as_slice())
    } else {
        None
    };
    match first {
        Some(r) => Some(r),
        None => {
            if diff_lines.len() > 0 {
                let mut with_code: Vec<ConversationWithCode> = Vec::new();
                let mut i: usize = 0;
                assert(crate::matcher::step2::conversations_of(with_code@) =~= Seq::<
                    Conversation,
                >::empty());
                assert(code_of(with_code@) =~= Seq::<Seq<Seq<char>>>::empty());
                while i < n
                    invariant
                        i <= n,
                        n == candidates@.len(),
                        n == messages@.len(),
                        crate::matcher::step2::conversations_of(with_code@) == answered(
                            candidates@,
                            messages@,
                            i as int,
                        ),
                        code_of(with_code@) == code_evidence(messages@, i as int),
                    decreases n - i,
                {
                    if let Some(read) = &messages[i] {
                        let ghost conversations = crate::matcher::step2::conversations_of(
                            with_code@,
                        );
                        let ghost evidence = code_of(with_code@);
                        let lines = assistant_code_lines(read);
                        with_code.push(
                            ConversationWithCode { conversation: candidates[i], code_lines: lines },
                        );
                        assert(crate::matcher::step2::conversations_of(with_code@)
                            =~= conversations.push(candidates@[i as int]));
                        assert(code_of(with_code@) =~= evidence.push(code_lines(read@)));
                    }
                    i += 1;
                }
                match_step2(with_code.as_slice(), diff_lines.as_slice())
            } else {
                None
            }
        },
    }
}

/// The state that follows `state` when `event` is reported.
pub fn step(state: LinkState, event: LinkEvent) -> (next: LinkState)
    ensures
        next == next_state(state, event),
{
    match state {
        LinkState::Done(outcome) => LinkState::Done(outcome),
        LinkState::Resolve => match event {
            LinkEvent::Failed { reason } => LinkState::Done(
                Outcome::Failed(Failure::Reported(reason)),
            ),
            LinkEvent::CommitResolved { sha, author_time_seconds } => {
                if -MAX_SECONDS <= author_time_seconds && author_time_seconds <= MAX_SECONDS {
                    LinkState::CheckStore { sha, commit_time_ms: author_time_seconds * 1000 }
                } else {
                    LinkState::Done(Outcome::Failed(Failure::TimeOutOfRange))
                }
            },
            _ => LinkState::Done(Outcome::Failed(Failure::Unexpected)),
        },
        LinkState::CheckStore { sha, commit_time_ms } => match event {
            LinkEvent::Failed { reason } => LinkState::Done(
                Outcome::Failed(Failure::Reported(reason)),
            ),
            LinkEvent::StoreChecked { exists } => {
                if exists {
                    LinkState::Done(Outcome::AlreadyLinked { sha })
                } else {
                    LinkState::FindCandidates { sha, commit_time_ms }
                }
            },
            _ => LinkState::Done(Outcome::Failed(Failure::Unexpected)),
        },
        LinkState::FindCandidates { sha, commit_time_ms } => match event {
            LinkEvent::Failed { reason } => LinkState::Done(
                Outcome::Failed(Failure::Reported(reason)),
            ),
            LinkEvent::CandidatesFound { candidates } => {
                if candidates.len() == 0 {
                    LinkState::Done(Outcome::NoCandidate { sha })
                } else {
                    LinkState::ReadCommit { sha, candidates }
                }
            },
            _ => LinkState::Done(Outcome::Failed(Failure::Unexpected)),
        },
        LinkState::ReadCommit { sha, candidates } => match event {
            LinkEvent::Failed { reason } => LinkState::Done(
                Outcome::Failed(Failure::Reported(reason)),
            ),
            LinkEvent::CommitRead { commit_files, diff_lines } => {
                match match_step0(candidates.as_slice()) {
                    Some(result) => LinkState::Persist { sha, result },
                    None => {
                        if commit_files.len() == 0 && diff_lines.len() == 0 {
                            LinkState::Done(Outcome::NoMatch { sha, candidates: candidates.len() })
                        } else {
                            LinkState::ReadMessages { sha, candidates, commit_files, diff_lines }
                        }
                    },
                }
            },
            _ => LinkState::Done(Outcome::Failed(Failure::Unexpected)),
        },
        LinkState::ReadMessages { sha, candidates, commit_files, diff_lines } => match event {
            LinkEvent::Failed { reason } => LinkState::Done(
                Outcome::Failed(Failure::Reported(reason)),
            ),
            LinkEvent::MessagesRead { messages } => {
                if messages.len() != candidates.len() {
                    LinkState::Done(Outcome::Failed(Failure::Unexpected))
                } else {
                    match match_on_messages(&candidates, &messages, &commit_files, &diff_lines) {
                        Some(result) => LinkState::Persist { sha, result },
                        None => LinkState::Done(
                            Outcome::NoMatch { sha, candidates: candidates.len() },
                        ),
                    }
                }
            },
            _ => LinkState::Done(Outcome::Failed(Failure::Unexpected)),
        },
        LinkState::Persist { sha, result } => match event {
            LinkEvent::Failed { reason } => LinkState::Done(
                Outcome::Failed(Failure::Reported(reason)),
            ),
            LinkEvent::Persisted => LinkState::Done(Outcome::Linked { sha, result }),
            _ => LinkState::Done(Outcome::Failed(Failure::Unexpected)),
        },
    }
}

/// Where a request stands after a run of events.
pub open spec fn after(state: LinkState, events: Seq<LinkEvent>) -> LinkState
    decreases events.len(),
{
    if events.len() == 0 {
        state
    } else {
        next_state(after(state, events.drop_last()), events.last())
    }
}

/// A request that has ended stays as it ended, whatever is reported.
pub proof fn lemma_done_is_final(outcome: Outcome, events: Seq<LinkEvent>)
    ensures
        after(LinkState::Done(outcome), events) == LinkState::Done(outcome),
    decreases events.len(),
{
    if events.len() > 0 {
        lemma_done_is_final(outcome, events.drop_last());
    }
}

/// A request for a commit that the store holds already ends at once, as
/// `AlreadyLinked`: nothing is matched and nothing is stored, whatever is
/// reported afterwards. Linking a commit a second time changes nothing.
pub proof fn lemma_linked_commit_is_left_alone(
    sha: String,
    commit_time_ms: i64,
    events: Seq<LinkEvent>,
)
    ensures
        after(
            next_state(
                LinkState::CheckStore { sha, commit_time_ms },
                LinkEvent::StoreChecked { exists: true },
            ),
            events,
        ) == LinkState::Done(Outcome::AlreadyLinked { sha }),
{
    lemma_done_is_final(Outcome::AlreadyLinked { sha }, events);
}

/// A link is stored only for a match: a request comes to await the storing
/// of a result only from step 0 on the candidates, or from steps 1 and 2 on
/// the candidates and their messages; and it ends as `Linked` only after the
/// result has been stored.
pub proof fn lemma_only_matches_are_stored(state: LinkState, event: LinkEvent)
    ensures
        next_state(state, event) matches LinkState::Persist { sha, result } ==> {
            ||| state matches LinkState::ReadCommit { sha: s, candidates } && s == sha
                && step0_result(candidates@) == Some(result)
            ||| state matches LinkState::ReadMessages {
                sha: s,
                candidates,
                commit_files,
                diff_lines,
            } && event matches LinkEvent::MessagesRead { messages } && s == sha && later_steps(
                candidates@,
                messages@,
                texts(commit_files@),
                texts(diff_lines@),
            ) == Some(result)
        },
        next_state(state, event) matches LinkState::Done(Outcome::Linked { sha, result }) ==> {
            ||| state == LinkState::Done(Outcome::Linked { sha, result })
            ||| state == (LinkState::Persist { sha, result }) && event is Persisted
        },
{
}

/// The step of a result names the step that made it: a result of the three
/// steps in turn is the result of step 0, or that of step 1 where step 0 has
/// none, or that of step 2 where neither has one.
pub proof fn lemma_pipeline_result(
    candidates: Seq<Conversation>,
    with_files: Seq<ConversationWithFiles>,
    commit_files: Seq<Seq<char>>,
    with_code: Seq<ConversationWithCode>,
    diff_lines: Seq<Seq<char>>,
)
    ensures
        pipeline_result(candidates, with_files, commit_files, with_code, diff_lines) matches Some(
            m,
        ) ==> {
            ||| m.step == 0 && step0_result(candidates) == Some(m)
            ||| m.step == 1 && step0_result(candidates) is None && step1_result(
                crate::matcher::step1::conversations_of(with_files),
                mentions_of(with_files),
                commit_files,
            ) == Some(m)
            ||| m.step == 2 && step0_result(candidates) is None && step1_result(
                crate::matcher::step1::conversations_of(with_files),
                mentions_of(with_files),
                commit_files,
            ) is None && step2_result(
                crate::matcher::step2::conversations_of(with_code),
                code_of(with_code),
                diff_lines,
            ) == Some(m)
        },
{
    let conversations = crate::matcher::step1::conversations_of(with_files);
    crate::matcher::step1::lemma_step1(conversations, mentions_of(with_files), commit_files);
}

} // verus!
