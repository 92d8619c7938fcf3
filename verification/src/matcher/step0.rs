//! Step 0: a single candidate is the match.

use crate::confidence::Confidence;
use crate::matcher::gates::Conversation;
use vstd::prelude::*;

verus! {

/// A successful match: the conversation, how sure the match is, and the step
/// that made it.
#[derive(Debug, Clone, Copy, PartialEq, Eq)]
pub struct MatchResult {
    pub conversation: Conversation,
    pub confidence: Confidence,
    pub step: u8,
}

/// What step 0 makes of the candidates.
pub open spec fn step0_result(candidates: Seq<Conversation>) -> Option<MatchResult> {
    if candidates.len() == 1 {
        Some(
            MatchResult {
                conversation: candidates[0],
                confidence: Confidence { numerator: 9, denominator: 10 },
                step: 0,
            },
        )
    } else {
        None
    }
}

/// Step 0: where there is exactly one candidate, it is the match, with
/// confidence 0.9. The confidence stays below 1: the commit may have been made
/// outside any conversation.
pub fn match_step0(candidates: &[Conversation]) -> (r: Option<MatchResult>)
    ensures
        r == step0_result(candidates@),
{
    if candidates.len() == 1 {
        Some(
            MatchResult {
                conversation: candidates[0],
                confidence: Confidence { numerator: 9, denominator: 10 },
                step: 0,
            },
        )
    } else {
        None
    }
}

/// Every result of step 0 comes from exactly one candidate and has confidence
/// 0.9.
pub proof fn lemma_step0(candidates: Seq<Conversation>)
    ensures
        step0_result(candidates) matches Some(m) ==> candidates.len() == 1 && m.conversation
            == candidates[0] && m.step == 0 && m.confidence.equals(9, 10) && m.confidence.wf(),
{
}

} // verus!
