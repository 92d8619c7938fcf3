use prv_core::matcher::gates::{
    candidate_sessions, within_window, Conversation, ConversationStore, Workspace,
};

/// A catalogue held in memory.
struct MockStore {
    workspace: Option<Workspace>,
    conversations: Vec<Conversation>,
}

impl ConversationStore for MockStore {
    type Error = String;

    fn find_workspace_for_path(&self, _repo_path: &str) -> Result<Option<Workspace>, String> {
        Ok(self.workspace.clone())
    }

    fn conversations_for_workspace(&self, _workspace_id: i64) -> Result<Vec<Conversation>, String> {
        Ok(self.conversations.clone())
    }
}

struct BrokenStore {
    fail_on_workspace: bool,
}

impl ConversationStore for BrokenStore {
    type Error = String;

    fn find_workspace_for_path(&self, _repo_path: &str) -> Result<Option<Workspace>, String> {
        if self.fail_on_workspace {
            Err("no workspaces".to_string())
        } else {
            Ok(Some(Workspace { id: 1, path: "/repo".into() }))
        }
    }

    fn conversations_for_workspace(&self, _workspace_id: i64) -> Result<Vec<Conversation>, String> {
        Err("no conversations".to_string())
    }
}

fn mock_conversation(id: i64, started_at: i64, ended_at: Option<i64>) -> Conversation {
    Conversation { id, workspace_id: 1, started_at, ended_at }
}

const DAY_MS: i64 = 24 * 60 * 60 * 1000;
const HOUR_MS: i64 = 60 * 60 * 1000;

#[test]
fn test_no_workspace_returns_empty() {
    let store = MockStore {
        workspace: None,
        conversations: vec![mock_conversation(1, 1000, Some(2000))],
    };

    let result = candidate_sessions(&store, "/some/repo", 1500).unwrap();
    assert!(result.is_empty(), "No workspace should return empty vec");
}

#[test]
fn test_outside_index_window_filtered() {
    let commit_time = 100 * DAY_MS;
    let store = MockStore {
        workspace: Some(Workspace { id: 1, path: "/repo".into() }),
        conversations: vec![mock_conversation(1, 80 * DAY_MS, Some(90 * DAY_MS))],
    };

    let result = candidate_sessions(&store, "/repo", commit_time).unwrap();
    assert!(result.is_empty(), "Session outside window should be filtered");
}

#[test]
fn test_session_in_window_included() {
    let commit_time = 100 * DAY_MS;
    let store = MockStore {
        workspace: Some(Workspace { id: 1, path: "/repo".into() }),
        conversations: vec![mock_conversation(
            1,
            100 * DAY_MS - 2 * HOUR_MS,
            Some(100 * DAY_MS - HOUR_MS),
        )],
    };

    let result = candidate_sessions(&store, "/repo", commit_time).unwrap();
    assert_eq!(result.len(), 1, "Session in window should be included");
    assert_eq!(result[0].id, 1);
}

#[test]
fn test_session_spanning_commit_time_included() {
    let commit_time = 100 * DAY_MS;
    let store = MockStore {
        workspace: Some(Workspace { id: 1, path: "/repo".into() }),
        conversations: vec![mock_conversation(
            1,
            100 * DAY_MS - HOUR_MS,
            Some(100 * DAY_MS + HOUR_MS),
        )],
    };

    let result = candidate_sessions(&store, "/repo", commit_time).unwrap();
    assert_eq!(result.len(), 1, "Session spanning commit should be included");
}

#[test]
fn test_ongoing_session_uses_started_at() {
    let commit_time = 100 * DAY_MS;
    let store = MockStore {
        workspace: Some(Workspace { id: 1, path: "/repo".into() }),
        conversations: vec![mock_conversation(1, 100 * DAY_MS - HOUR_MS, None)],
    };

    let result = candidate_sessions(&store, "/repo", commit_time).unwrap();
    assert_eq!(result.len(), 1, "Ongoing session should use started_at as end");
}

#[test]
fn test_multiple_sessions_filtered_correctly() {
    let commit_time = 100 * DAY_MS;
    let store = MockStore {
        workspace: Some(Workspace { id: 1, path: "/repo".into() }),
        conversations: vec![
            mock_conversation(1, 99 * DAY_MS, Some(99 * DAY_MS + HOUR_MS)),
            mock_conversation(2, 80 * DAY_MS, Some(81 * DAY_MS)),
            mock_conversation(3, 100 * DAY_MS - HOUR_MS, Some(100 * DAY_MS)),
            mock_conversation(4, 110 * DAY_MS, Some(111 * DAY_MS)),
        ],
    };

    let result = candidate_sessions(&store, "/repo", commit_time).unwrap();
    assert_eq!(result.len(), 2, "Should have 2 sessions in window");

    let ids: Vec<i64> = result.iter().map(|c| c.id).collect();
    assert!(ids.contains(&1), "Session 1 should be included");
    assert!(ids.contains(&3), "Session 3 should be included");
}

#[test]
fn the_window_is_seven_days_wide_on_both_sides_and_closed() {
    let t = 100 * DAY_MS;
    // a conversation that ended exactly seven days before the commit
    assert!(mock_conversation(1, 90 * DAY_MS, Some(93 * DAY_MS)).is_in_window(t));
    assert!(!mock_conversation(1, 90 * DAY_MS, Some(93 * DAY_MS - 1)).is_in_window(t));
    // a conversation that started exactly seven days after the commit
    assert!(mock_conversation(1, 107 * DAY_MS, None).is_in_window(t));
    assert!(!mock_conversation(1, 107 * DAY_MS + 1, None).is_in_window(t));
    // without an end, the start stands for it
    assert!(!mock_conversation(1, 93 * DAY_MS - 1, None).is_in_window(t));
}

#[test]
fn the_window_does_not_overflow_at_the_ends_of_time() {
    assert!(mock_conversation(1, i64::MAX, None).is_in_window(i64::MAX));
    assert!(mock_conversation(1, i64::MIN, Some(i64::MIN)).is_in_window(i64::MIN));
    assert!(!mock_conversation(1, i64::MAX, None).is_in_window(i64::MIN));
    assert!(!mock_conversation(1, i64::MIN, Some(i64::MIN)).is_in_window(i64::MAX));
}

#[test]
fn candidates_keep_the_order_of_the_catalogue() {
    let t = 100 * DAY_MS;
    let all = vec![
        mock_conversation(5, 100 * DAY_MS, None),
        mock_conversation(9, 10 * DAY_MS, None),
        mock_conversation(2, 99 * DAY_MS, None),
        mock_conversation(7, 98 * DAY_MS, Some(101 * DAY_MS)),
    ];
    let kept: Vec<i64> = within_window(all, t).iter().map(|c| c.id).collect();
    assert_eq!(kept, vec![5, 2, 7]);
}

#[test]
fn every_candidate_is_of_the_workspace_and_meets_the_window() {
    let t = 50 * DAY_MS;
    let store = MockStore {
        workspace: Some(Workspace { id: 1, path: "/repo".into() }),
        conversations: (0..100).map(|d| mock_conversation(d, d * DAY_MS, Some(d * DAY_MS + HOUR_MS))).collect(),
    };
    let kept = candidate_sessions(&store, "/repo", t).unwrap();
    assert_eq!(kept.len(), 15);
    for c in kept {
        assert_eq!(c.workspace_id, 1);
        assert!(t + 7 * DAY_MS >= c.started_at && t - 7 * DAY_MS <= c.ended_at.unwrap());
    }
}

#[test]
fn a_failing_catalogue_fails_the_search() {
    let first = candidate_sessions(&BrokenStore { fail_on_workspace: true }, "/repo", 0);
    assert_eq!(first.unwrap_err(), "no workspaces");
    let second = candidate_sessions(&BrokenStore { fail_on_workspace: false }, "/repo", 0);
    assert_eq!(second.unwrap_err(), "no conversations");
}

struct AskedStore {
    asked: std::cell::RefCell<Vec<String>>,
}

impl ConversationStore for AskedStore {
    type Error = String;

    fn find_workspace_for_path(&self, repo_path: &str) -> Result<Option<Workspace>, String> {
        self.asked.borrow_mut().push(format!("workspace of {}", repo_path));
        Ok(Some(Workspace { id: 17, path: repo_path.to_string() }))
    }

    fn conversations_for_workspace(&self, workspace_id: i64) -> Result<Vec<Conversation>, String> {
        self.asked.borrow_mut().push(format!("conversations of {}", workspace_id));
        Ok(vec![Conversation { id: 1, workspace_id, started_at: 0, ended_at: None }])
    }
}

#[test]
fn the_catalogue_is_asked_for_the_workspace_it_named() {
    let store = AskedStore { asked: std::cell::RefCell::new(Vec::new()) };
    let kept = candidate_sessions(&store, "/repo", 5).unwrap();
    assert_eq!(kept, vec![Conversation { id: 1, workspace_id: 17, started_at: 0, ended_at: None }]);
    assert_eq!(
        *store.asked.borrow(),
        vec!["workspace of /repo".to_string(), "conversations of 17".to_string()]
    );
}
