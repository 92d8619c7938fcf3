//! The candidate gate: which conversations can have produced a commit.
//!
//! The workspace must match; the time window only bounds how far the search
//! for candidates reaches.

use vstd::prelude::*;

verus! {

/// A conversation, as far as matching needs it. Times are in milliseconds
/// since the Unix epoch.
#[derive(Debug, Clone, Copy, PartialEq, Eq, Structural)]
pub struct Conversation {
    pub id: i64,
    pub workspace_id: i64,
    pub started_at: i64,
    pub ended_at: Option<i64>,
}

/// A workspace of the catalogue: a project directory.
#[derive(Debug, Clone)]
pub struct Workspace {
    pub id: i64,
    pub path: String,
}

/// The catalogue of conversations, as far as candidates are sought in it.
pub trait ConversationStore {
    /// What a failed lookup reports.
    type Error;

    /// Whether `answer` can be what the catalogue answers when asked for the
    /// workspace of `repo_path`. An implementation that says nothing of its
    /// answers leaves this as it is: anything can be.
    open spec fn finds(
        &self,
        repo_path: Seq<char>,
        answer: Result<Option<Workspace>, Self::Error>,
    ) -> bool {
        true
    }

    /// Whether `answer` can be what the catalogue answers when asked for the
    /// conversations of a workspace. An implementation that says nothing of
    /// its answers leaves this as it is: anything can be.
    open spec fn lists(
        &self,
        workspace_id: i64,
        answer: Result<Vec<Conversation>, Self::Error>,
    ) -> bool {
        true
    }

    /// The workspace whose directory is `repo_path`, if the catalogue knows one.
    fn find_workspace_for_path(&self, repo_path: &str) -> (answer: Result<
        Option<Workspace>,
        Self::Error,
    >)
        ensures
            self.finds(repo_path@, answer),
    ;

    /// The conversations of a workspace, most recent first.
    fn conversations_for_workspace(&self, workspace_id: i64) -> (answer: Result<
        Vec<Conversation>,
        Self::Error,
    >)
        ensures
            self.lists(workspace_id, answer),
    ;
}

/// Half the width of the time window: seven days, in milliseconds.
pub const INDEX_WINDOW_MS: i64 = 604_800_000;

impl Conversation {
    /// When the conversation ended, or when it started if it has not ended.
    pub open spec fn effective_end(self) -> int {
        match self.ended_at {
            Some(end) => end as int,
            None => self.started_at as int,
        }
    }

    /// Whether the conversation meets the window of seven days around
    /// `commit_time_ms`.
    pub open spec fn in_window(self, commit_time_ms: int) -> bool {
        &&& commit_time_ms + INDEX_WINDOW_MS >= self.started_at
        &&& commit_time_ms - INDEX_WINDOW_MS <= self.effective_end()
    }

    /// Whether the conversation meets the window around `commit_time_ms`.
    pub fn is_in_window(&self, commit_time_ms: i64) -> (b: bool)
        ensures
            b == self.in_window(commit_time_ms as int),
    {
        let end: i64 = match self.ended_at {
            Some(end) => end,
            None => self.started_at,
        };
        let commit: i128 = commit_time_ms as i128;
        let window: i128 = INDEX_WINDOW_MS as i128;
        commit + window >= self.started_at as i128 && commit - window <= end as i128
    }
}

/// The conversations of `all` that meet the window around `commit_time_ms`,
/// in their order.
pub open spec fn in_window_of(all: Seq<Conversation>, commit_time_ms: int) -> Seq<Conversation> {
    all.filter(|c: Conversation| c.in_window(commit_time_ms))
}

/// Keeps the conversations that meet the window around `commit_time_ms`.
pub fn within_window(all: Vec<Conversation>, commit_time_ms: i64) -> (kept: Vec<Conversation>)
    ensures
        kept@ == in_window_of(all@, commit_time_ms as int),
{
    let mut kept: Vec<Conversation> = Vec::new();
    let ghost pred = |c: Conversation| c.in_window(commit_time_ms as int);
    let mut i: usize = 0;
    assert(all@.take(0) =~= Seq::<Conversation>::empty());
    while i < all.len()
        invariant
            i <= all.len(),
            pred == |c: Conversation| c.in_window(commit_time_ms as int),
            kept@ == all@.take(i as int).filter(pred),
        decreases all.len() - i,
    {
        let c = all[i];
        proof {
            reveal(Seq::filter);
            assert(all@.take(i + 1).drop_last() =~= all@.take(i as int));
            assert(all@.take(i + 1).last() == c);
        }
        if c.is_in_window(commit_time_ms) {
            kept.push(c);
        }
        i += 1;
    }
    assert(all@.take(all.len() as int) =~= all@);
    kept
}

/// What the search for candidates returns when the catalogue answers
/// `listed` to the question for the conversations of the workspace: the
/// catalogue's error, or the conversations that meet the window, in the
/// catalogue's order.
pub open spec fn candidates_of<E>(
    listed: Result<Vec<Conversation>, E>,
    commit_time_ms: int,
    r: Result<Vec<Conversation>, E>,
) -> bool {
    match listed {
        Ok(all) => r matches Ok(kept) && kept@ == in_window_of(all@, commit_time_ms),
        Err(e) => r matches Err(failure) && failure == e,
    }
}

/// Whether the catalogue can answer the question for the conversations of the
/// workspace so that the search for candidates returns `r`.
pub open spec fn lists_for<S: ConversationStore>(
    store: S,
    workspace_id: i64,
    commit_time_ms: int,
    r: Result<Vec<Conversation>, S::Error>,
) -> bool {
    exists|listed: Result<Vec<Conversation>, S::Error>| #[trigger]
        store.lists(workspace_id, listed) && candidates_of(listed, commit_time_ms, r)
}

/// What the search for candidates returns when the catalogue answers `found`
/// to the question for the workspace of the repository: the catalogue's
/// error; no candidate where it knows no workspace; else what the
/// conversations of that workspace give.
pub open spec fn candidates_for<S: ConversationStore>(
    store: S,
    found: Result<Option<Workspace>, S::Error>,
    commit_time_ms: int,
    r: Result<Vec<Conversation>, S::Error>,
) -> bool {
    match found {
        Ok(Some(workspace)) => lists_for(store, workspace.id, commit_time_ms, r),
        Ok(None) => r matches Ok(kept) && kept@.len() == 0,
        Err(e) => r matches Err(failure) && failure == e,
    }
}

/// The conversations that can have produced a commit made at `commit_time_ms`
/// in the repository at `repo_path`: those of the repository's workspace that
/// meet the time window, in the catalogue's order; none where the catalogue
/// knows no workspace for the repository.
///
/// The catalogue is asked for the workspace of `repo_path` and then for the
/// conversations of the workspace it named. The result is what
/// `candidates_for` says of the catalogue's answers: its error when it fails,
/// and otherwise exactly the conversations of its answer that meet the
/// window. Every conversation returned meets the window.
pub fn candidate_sessions<S: ConversationStore>(
    store: &S,
    repo_path: &str,
    commit_time_ms: i64,
) -> (r: Result<Vec<Conversation>, S::Error>)
    ensures
        exists|found: Result<Option<Workspace>, S::Error>| #[trigger]
            store.finds(repo_path@, found) && candidates_for(
                *store,
                found,
                commit_time_ms as int,
                r,
            ),
        r matches Ok(kept) ==> forall|i: int|
            0 <= i < kept@.len() ==> (#[trigger] kept@[i]).in_window(commit_time_ms as int),
{
    let found = store.find_workspace_for_path(repo_path);
    let ws = match found {
        Ok(Some(ws)) => ws,
        Ok(None) => {
            let r = Ok(Vec::new());
            assert(candidates_for(*store, found, commit_time_ms as int, r));
            return r;
        },
        Err(e) => {
            let r = Err(e);
            assert(candidates_for(*store, found, commit_time_ms as int, r));
            return r;
        },
    };
    let listed = store.conversations_for_workspace(ws.id);
    let r = match listed {
        Ok(all) => {
            proof {
                lemma_gate(all@, ws.id, commit_time_ms as int);
            }
            Ok(within_window(all, commit_time_ms))
        },
        Err(e) => Err(e),
    };
    assert(candidates_of(listed, commit_time_ms as int, r));
    assert(lists_for(*store, ws.id, commit_time_ms as int, r));
    assert(candidates_for(*store, found, commit_time_ms as int, r));
    r
}

/// Every conversation kept meets the window; and where the catalogue answered
/// with conversations of the workspace asked for, every conversation kept
/// belongs to that workspace.
pub proof fn lemma_gate(all: Seq<Conversation>, workspace_id: i64, commit_time_ms: int)
    ensures
        forall|i: int|
            0 <= i < in_window_of(all, commit_time_ms).len() ==> (#[trigger] in_window_of(
                all,
                commit_time_ms,
            )[i]).in_window(commit_time_ms),
        (forall|i: int| 0 <= i < all.len() ==> (#[trigger] all[i]).workspace_id == workspace_id)
            ==> forall|i: int|
            0 <= i < in_window_of(all, commit_time_ms).len() ==> (#[trigger] in_window_of(
                all,
                commit_time_ms,
            )[i]).workspace_id == workspace_id,
{
    let pred = |c: Conversation| c.in_window(commit_time_ms);
    let kept = all.filter(pred);
    assert forall|i: int| 0 <= i < kept.len() implies (#[trigger] kept[i]).in_window(
        commit_time_ms,
    ) by {
        all.lemma_filter_pred(pred, i);
    }
    if forall|i: int| 0 <= i < all.len() ==> (#[trigger] all[i]).workspace_id == workspace_id {
        assert forall|i: int| 0 <= i < kept.len() implies (#[trigger] kept[i]).workspace_id
            == workspace_id by {
            assert(kept.contains(kept[i]));
            all.lemma_filter_contains_rev(pred, kept[i]);
        }
    }
}

} // verus!
