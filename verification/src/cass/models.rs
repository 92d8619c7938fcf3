//! The rows of the catalogue: workspaces, conversations, messages, snippets.

use vstd::prelude::*;

verus! {

/// A workspace of the catalogue: a project directory.
#[derive(Debug, Clone)]
pub struct Workspace {
    pub id: i64,
    pub path: String,
}

/// A conversation in a workspace. Times are in milliseconds since the Unix
/// epoch; the catalogue may lack any of them, and the workspace.
#[derive(Debug, Clone)]
pub struct Conversation {
    pub id: i64,
    pub workspace_id: Option<i64>,
    pub started_at: Option<i64>,
    pub ended_at: Option<i64>,
    pub title: Option<String>,
    pub source_path: Option<String>,
}

/// A message of a conversation.
#[derive(Debug, Clone)]
pub struct Message {
    pub id: i64,
    pub conversation_id: i64,
    /// Who wrote the message: `"user"` or `"assistant"`.
    pub role: String,
    pub content: String,
    pub created_at: Option<i64>,
}

/// A code snippet that the catalogue took from a message.
#[derive(Debug, Clone)]
pub struct Snippet {
    pub id: i64,
    pub message_id: i64,
    pub file_path: Option<String>,
    pub start_line: Option<i32>,
    pub end_line: Option<i32>,
    pub language: Option<String>,
    pub snippet_text: Option<String>,
}

impl Conversation {
    /// The conversation as matching sees it, if its workspace and its start
    /// are known.
    pub open spec fn matchable(self) -> Option<crate::matcher::gates::Conversation> {
        match (self.workspace_id, self.started_at) {
            (Some(workspace_id), Some(started_at)) => Some(
                crate::matcher::gates::Conversation {
                    id: self.id,
                    workspace_id,
                    started_at,
                    ended_at: self.ended_at,
                },
            ),
            _ => None,
        }
    }

    /// The conversation as matching sees it, if its workspace and its start
    /// are known.
    pub fn for_matching(&self) -> (r: Option<crate::matcher::gates::Conversation>)
        ensures
            r == self.matchable(),
    {
        match (self.workspace_id, self.started_at) {
            (Some(workspace_id), Some(started_at)) => Some(
                crate::matcher::gates::Conversation {
                    id: self.id,
                    workspace_id,
                    started_at,
                    ended_at: self.ended_at,
                },
            ),
            _ => None,
        }
    }
}

/// The conversations of `all` whose workspace and start are known, as matching
/// sees them, in their order.
pub open spec fn matchable_of(all: Seq<Conversation>) -> Seq<crate::matcher::gates::Conversation>
    decreases all.len(),
{
    if all.len() == 0 {
        Seq::empty()
    } else {
        match all.last().matchable() {
            Some(c) => matchable_of(all.drop_last()).push(c),
            None => matchable_of(all.drop_last()),
        }
    }
}

/// The conversations that can be matched: those whose workspace and start
/// are known.
pub fn conversations_for_matching(all: &Vec<Conversation>) -> (kept: Vec<
    crate::matcher::gates::Conversation,
>)
    ensures
        kept@ == matchable_of(all@),
{
    let mut kept: Vec<crate::matcher::gates::Conversation> = Vec::new();
    let mut i: usize = 0;
    assert(all@.take(0) =~= Seq::<Conversation>::empty());
    while i < all.len()
        invariant
            i <= all.len(),
            kept@ == matchable_of(all@.take(i as int)),
        decreases all.len() - i,
    {
        proof {
            assert(all@.take(i + 1).drop_last() =~= all@.take(i as int));
            assert(all@.take(i + 1).last() == all@[i as int]);
        }
        match all[i].for_matching() {
            Some(c) => {
                kept.push(c);
            },
            None => {},
        }
        i += 1;
    }
    assert(all@.take(all.len() as int) =~= all@);
    kept
}

} // verus!
