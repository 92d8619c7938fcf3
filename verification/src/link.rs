//! The link between a commit and the conversation that produced it.

use crate::confidence::Confidence;
use vstd::prelude::*;

verus! {

/// A point in time, in UTC: seconds since the Unix epoch, and the nanoseconds
/// of the second begun.
#[derive(Debug, Clone, Copy, PartialEq, Eq, Structural)]
pub struct Timestamp {
    pub seconds: i64,
    pub nanos: u32,
}

/// A link between a git commit and the conversation that produced it.
#[derive(Debug, Clone)]
pub struct Link {
    /// The SHA of the commit.
    pub commit_sha: String,
    /// The id of the conversation in the catalogue.
    pub session_id: i64,
    /// How sure the match is.
    pub confidence: Confidence,
    /// The matching step that made the link: 0, 1 or 2.
    pub match_step: u8,
    /// When the link was made.
    pub created_at: Timestamp,
}

/// The mathematical value of a `Link`.
pub struct LinkModel {
    pub commit_sha: Seq<char>,
    pub session_id: i64,
    pub confidence: Confidence,
    pub match_step: u8,
    pub created_at: Timestamp,
}

impl View for Link {
    type V = LinkModel;

    open spec fn view(&self) -> LinkModel {
        LinkModel {
            commit_sha: self.commit_sha@,
            session_id: self.session_id,
            confidence: self.confidence,
            match_step: self.match_step,
            created_at: self.created_at,
        }
    }
}

impl PartialEq for Link {
    /// Two links are equal when all their five fields are; their confidences
    /// are equal when they are the same number.
    fn eq(&self, other: &Link) -> (equal: bool) {
        self.commit_sha == other.commit_sha && self.session_id == other.session_id
            && self.confidence == other.confidence && self.match_step == other.match_step
            && self.created_at == other.created_at
    }
}

impl vstd::std_specs::cmp::PartialEqSpecImpl for Link {
    open spec fn obeys_eq_spec() -> bool {
        true
    }

    open spec fn eq_spec(&self, other: &Link) -> bool {
        &&& self.commit_sha@ == other.commit_sha@
        &&& self.session_id == other.session_id
        &&& self.confidence.same(other.confidence)
        &&& self.match_step == other.match_step
        &&& self.created_at == other.created_at
    }
}

/// `chrono::Utc::now`: the time of the call, of which nothing is known
/// beforehand. The call does not return where the system clock stands before
/// 1970.
#[verifier::external_body]
fn now() -> Timestamp {
    let t = chrono::Utc::now();
    Timestamp { seconds: t.timestamp(), nanos: t.timestamp_subsec_nanos() }
}

impl Link {
    /// A link made at `created_at`.
    pub fn at(
        commit_sha: &str,
        session_id: i64,
        confidence: Confidence,
        step: u8,
        created_at: Timestamp,
    ) -> (link: Link)
        ensures
            link@ == (LinkModel {
                commit_sha: commit_sha@,
                session_id,
                confidence,
                match_step: step,
                created_at,
            }),
    {
        Link {
            commit_sha: commit_sha.to_owned(),
            session_id,
            confidence,
            match_step: step,
            created_at,
        }
    }

    /// A link made now: it holds what it is given, and the time of the call.
    pub fn new(commit_sha: &str, session_id: i64, confidence: Confidence, step: u8) -> (link: Link)
        ensures
            link.commit_sha@ == commit_sha@,
            link.session_id == session_id,
            link.confidence == confidence,
            link.match_step == step,
    {
        Link::at(commit_sha, session_id, confidence, step, now())
    }
}

} // verus!
