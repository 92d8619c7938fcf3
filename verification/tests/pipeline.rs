use prv_core::cass::models::Message;
use prv_core::confidence::Confidence;
use prv_core::matcher::gates::Conversation;
use prv_core::matcher::step0::MatchResult;
use prv_core::matcher::step1::ConversationWithFiles;
use prv_core::matcher::step2::ConversationWithCode;
use prv_core::pipeline::{match_pipeline, step, Failure, LinkEvent, LinkState, Outcome};

fn conversation(id: i64) -> Conversation {
    Conversation { id, workspace_id: 1, started_at: 1000, ended_at: Some(2000) }
}

fn message(role: &str, content: &str) -> Message {
    Message {
        id: 1,
        conversation_id: 1,
        role: role.to_string(),
        content: content.to_string(),
        created_at: None,
    }
}

fn strings(all: &[&str]) -> Vec<String> {
    all.iter().map(|s| s.to_string()).collect()
}

fn run(events: Vec<LinkEvent>) -> LinkState {
    let mut state = LinkState::Resolve;
    for event in events {
        state = step(state, event);
    }
    state
}

fn resolved(sha: &str) -> LinkEvent {
    LinkEvent::CommitResolved { sha: sha.to_string(), author_time_seconds: 1_700_000_000 }
}

fn up_to_messages(candidates: Vec<Conversation>, files: &[&str], diff: &[&str]) -> Vec<LinkEvent> {
    vec![
        resolved("abc123"),
        LinkEvent::StoreChecked { exists: false },
        LinkEvent::CandidatesFound { candidates },
        LinkEvent::CommitRead { commit_files: strings(files), diff_lines: strings(diff) },
    ]
}

#[test]
fn a_single_candidate_is_linked_by_step_0() {
    let mut events = up_to_messages(vec![conversation(7)], &["src/main.rs"], &["x"]);
    let expected = MatchResult {
        conversation: conversation(7),
        confidence: Confidence { numerator: 9, denominator: 10 },
        step: 0,
    };
    assert_eq!(
        run(events.clone()),
        LinkState::Persist { sha: "abc123".to_string(), result: expected }
    );
    events.push(LinkEvent::Persisted);
    assert_eq!(
        run(events),
        LinkState::Done(Outcome::Linked { sha: "abc123".to_string(), result: expected })
    );
}

#[test]
fn the_states_follow_one_another() {
    let mut state = step(LinkState::Resolve, resolved("abc123"));
    assert_eq!(
        state,
        LinkState::CheckStore { sha: "abc123".to_string(), commit_time_ms: 1_700_000_000_000 }
    );
    state = step(state, LinkEvent::StoreChecked { exists: false });
    assert_eq!(
        state,
        LinkState::FindCandidates { sha: "abc123".to_string(), commit_time_ms: 1_700_000_000_000 }
    );
    let candidates = vec![conversation(1), conversation(2)];
    state = step(state, LinkEvent::CandidatesFound { candidates: candidates.clone() });
    assert_eq!(
        state,
        LinkState::ReadCommit { sha: "abc123".to_string(), candidates: candidates.clone() }
    );
    state = step(
        state,
        LinkEvent::CommitRead { commit_files: strings(&["a.rs"]), diff_lines: strings(&["x"]) },
    );
    assert_eq!(
        state,
        LinkState::ReadMessages {
            sha: "abc123".to_string(),
            candidates,
            commit_files: strings(&["a.rs"]),
            diff_lines: strings(&["x"]),
        }
    );
}

#[test]
fn a_mention_of_the_changed_file_decides_between_two_candidates() {
    let mut events = up_to_messages(vec![conversation(1), conversation(2)], &["src/main.rs"], &[]);
    events.push(LinkEvent::MessagesRead {
        messages: vec![
            Some(vec![message("user", "what about `other.rs`?")]),
            Some(vec![message("user", "hello"), message("assistant", "I changed `src/main.rs` for you")]),
        ],
    });
    let expected = MatchResult {
        conversation: conversation(2),
        confidence: Confidence { numerator: 18, denominator: 20 },
        step: 1,
    };
    assert_eq!(
        run(events),
        LinkState::Persist { sha: "abc123".to_string(), result: expected }
    );
}

#[test]
fn shared_code_lines_decide_where_no_file_is_mentioned() {
    let diff = ["L1", "L2", "L3", "L4", "L5"];
    let mut events = up_to_messages(vec![conversation(1), conversation(2)], &["src/main.rs"], &diff);
    events.push(LinkEvent::MessagesRead {
        messages: vec![
            Some(vec![message("assistant", "```\nnothing\nalike\n```")]),
            Some(vec![
                message("user", "```\nL5\n```"),
                message("assistant", "```rust\n  L1\nL2  \nL3\n```\nand then\n```\nL4\nother\n```"),
            ]),
        ],
    });
    let expected = MatchResult {
        conversation: conversation(2),
        confidence: Confidence { numerator: 24, denominator: 25 },
        step: 2,
    };
    assert_eq!(
        run(events),
        LinkState::Persist { sha: "abc123".to_string(), result: expected }
    );
}

#[test]
fn step_1_comes_before_step_2() {
    let mut events = up_to_messages(vec![conversation(1), conversation(2)], &["a.rs"], &["L1"]);
    events.push(LinkEvent::MessagesRead {
        messages: vec![
            Some(vec![message("assistant", "```\nL1\n```")]),
            Some(vec![message("assistant", "see `a.rs`")]),
        ],
    });
    match run(events) {
        LinkState::Persist { result, .. } => {
            assert_eq!(result.conversation.id, 2);
            assert_eq!(result.step, 1);
        }
        other => panic!("not stored: {:?}", other),
    }
}

#[test]
fn a_commit_outside_every_window_has_no_candidate() {
    let events = vec![
        resolved("abc123"),
        LinkEvent::StoreChecked { exists: false },
        LinkEvent::CandidatesFound { candidates: vec![] },
    ];
    assert_eq!(run(events), LinkState::Done(Outcome::NoCandidate { sha: "abc123".to_string() }));
}

#[test]
fn a_linked_commit_is_not_matched_again() {
    let events = vec![resolved("abc123"), LinkEvent::StoreChecked { exists: true }];
    let done = LinkState::Done(Outcome::AlreadyLinked { sha: "abc123".to_string() });
    assert_eq!(run(events.clone()), done);
    let mut more = events;
    more.push(LinkEvent::CandidatesFound { candidates: vec![conversation(1)] });
    more.push(LinkEvent::Persisted);
    more.push(LinkEvent::Failed { reason: "late".to_string() });
    assert_eq!(run(more), done);
}

#[test]
fn no_confident_step_is_no_match() {
    let mut events = up_to_messages(vec![conversation(1), conversation(2), conversation(3)], &["a.rs"], &["L1", "L2"]);
    events.push(LinkEvent::MessagesRead {
        messages: vec![
            Some(vec![message("assistant", "```\nL1\n```")]),
            Some(vec![]),
            None,
        ],
    });
    assert_eq!(
        run(events),
        LinkState::Done(Outcome::NoMatch { sha: "abc123".to_string(), candidates: 3 })
    );
}

#[test]
fn messages_are_not_read_for_a_commit_that_changes_nothing() {
    let events = up_to_messages(vec![conversation(1), conversation(2)], &[], &[]);
    assert_eq!(
        run(events),
        LinkState::Done(Outcome::NoMatch { sha: "abc123".to_string(), candidates: 2 })
    );
}

#[test]
fn a_candidate_whose_messages_could_not_be_read_takes_no_part() {
    let mut events = up_to_messages(vec![conversation(1), conversation(2)], &["a.rs"], &[]);
    events.push(LinkEvent::MessagesRead {
        messages: vec![None, Some(vec![message("user", "`a.rs`")])],
    });
    match run(events) {
        LinkState::Persist { result, .. } => assert_eq!(result.conversation.id, 2),
        other => panic!("not stored: {:?}", other),
    }
}

#[test]
fn a_reported_failure_ends_the_request() {
    let failed = LinkState::Done(Outcome::Failed(Failure::Reported("no repository".to_string())));
    assert_eq!(run(vec![LinkEvent::Failed { reason: "no repository".to_string() }]), failed);
    let mut events = up_to_messages(vec![conversation(1)], &["a.rs"], &[]);
    events.push(LinkEvent::Failed { reason: "disk full".to_string() });
    assert_eq!(
        run(events),
        LinkState::Done(Outcome::Failed(Failure::Reported("disk full".to_string())))
    );
}

#[test]
fn what_was_not_awaited_ends_the_request() {
    let unexpected = LinkState::Done(Outcome::Failed(Failure::Unexpected));
    assert_eq!(run(vec![LinkEvent::Persisted]), unexpected);
    assert_eq!(run(vec![resolved("a"), resolved("a")]), unexpected);
    let mut events = up_to_messages(vec![conversation(1), conversation(2)], &["a.rs"], &[]);
    events.push(LinkEvent::MessagesRead { messages: vec![None] });
    assert_eq!(run(events), unexpected);
}

#[test]
fn the_time_of_the_commit_must_fit_in_milliseconds() {
    let late = LinkEvent::CommitResolved { sha: "a".to_string(), author_time_seconds: i64::MAX };
    assert_eq!(run(vec![late]), LinkState::Done(Outcome::Failed(Failure::TimeOutOfRange)));
    let early = LinkEvent::CommitResolved { sha: "a".to_string(), author_time_seconds: -9_223_372_036_854_776 };
    assert_eq!(run(vec![early]), LinkState::Done(Outcome::Failed(Failure::TimeOutOfRange)));
    let last = LinkEvent::CommitResolved { sha: "a".to_string(), author_time_seconds: 9_223_372_036_854_775 };
    assert_eq!(
        run(vec![last]),
        LinkState::CheckStore { sha: "a".to_string(), commit_time_ms: 9_223_372_036_854_775_000 }
    );
}

#[test]
fn the_steps_are_tried_in_turn() {
    let with_files = vec![
        ConversationWithFiles { conversation: conversation(1), mentioned_files: strings(&["x.rs"]) },
        ConversationWithFiles { conversation: conversation(2), mentioned_files: strings(&["a.rs"]) },
    ];
    let with_code = vec![
        ConversationWithCode { conversation: conversation(1), code_lines: strings(&["L1"]) },
        ConversationWithCode { conversation: conversation(2), code_lines: strings(&[]) },
    ];
    let two = [conversation(1), conversation(2)];
    let by_step0 = match_pipeline(&[conversation(1)], &with_files, &strings(&["a.rs"]), &with_code, &strings(&["L1"])).unwrap();
    assert_eq!((by_step0.step, by_step0.conversation.id), (0, 1));
    let by_step1 = match_pipeline(&two, &with_files, &strings(&["a.rs"]), &with_code, &strings(&["L1"])).unwrap();
    assert_eq!((by_step1.step, by_step1.conversation.id), (1, 2));
    let by_step2 = match_pipeline(&two, &with_files, &strings(&["b.rs"]), &with_code, &strings(&["L1"])).unwrap();
    assert_eq!((by_step2.step, by_step2.conversation.id), (2, 1));
    assert_eq!(by_step2.confidence, Confidence { numerator: 5, denominator: 5 });
    assert!(match_pipeline(&two, &with_files, &strings(&["b.rs"]), &with_code, &strings(&["L2"])).is_none());
    assert!(match_pipeline(&[], &[], &[], &[], &[]).is_none());
}
