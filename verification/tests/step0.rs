use prv_core::confidence::Confidence;
use prv_core::matcher::gates::Conversation;
use prv_core::matcher::step0::match_step0;

fn step0_value(c: Confidence) -> f64 {
    c.numerator as f64 / c.denominator as f64
}

fn mock_conversation(id: i64) -> Conversation {
    Conversation { id, workspace_id: 1, started_at: 1000, ended_at: Some(2000) }
}

#[test]
fn test_single_candidate_high_confidence() {
    let candidates = vec![mock_conversation(42)];
    let result = match_step0(&candidates);

    assert!(result.is_some(), "Single candidate should match");
    let r = result.unwrap();
    assert_eq!(step0_value(r.confidence), 0.9, "Confidence should be 0.9");
    assert_eq!(r.step, 0, "Step should be 0");
    assert_eq!(r.conversation.id, 42, "Should return the candidate");
}

#[test]
fn test_no_candidates_returns_none() {
    let candidates: Vec<Conversation> = vec![];
    let result = match_step0(&candidates);

    assert!(result.is_none(), "No candidates should return None");
}

#[test]
fn test_multiple_candidates_returns_none() {
    let candidates = vec![mock_conversation(1), mock_conversation(2)];
    let result = match_step0(&candidates);

    assert!(result.is_none(), "Multiple candidates should return None (escalate to Step 1)");
}

#[test]
fn test_result_contains_correct_conversation() {
    let candidates = vec![mock_conversation(99)];
    let result = match_step0(&candidates).unwrap();

    assert_eq!(result.conversation.id, 99);
    assert_eq!(result.conversation.workspace_id, 1);
}

#[test]
fn the_single_candidate_is_returned_whole_with_nine_tenths() {
    let only = Conversation { id: 5, workspace_id: 3, started_at: -7, ended_at: None };
    let r = match_step0(&[only]).unwrap();
    assert_eq!(r.conversation, only);
    assert_eq!(r.confidence, Confidence { numerator: 9, denominator: 10 });
}
