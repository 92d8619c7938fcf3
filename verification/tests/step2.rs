use prv_core::confidence::Confidence;
use prv_core::matcher::gates::Conversation;
use prv_core::matcher::step2::{
    distinct, hash_lines, hash_normalized, match_overlaps, match_step2, CodeBlockLines,
    ConversationWithCode,
};
use prv_core::text::normalize;

fn step2_value(c: Confidence) -> f64 {
    c.numerator as f64 / c.denominator as f64
}

fn mock_conversation(id: i64) -> Conversation {
    Conversation { id, workspace_id: 1, started_at: 1000, ended_at: Some(2000) }
}

fn mock_with_code(id: i64, lines: Vec<&str>) -> ConversationWithCode {
    ConversationWithCode {
        conversation: mock_conversation(id),
        code_lines: lines.into_iter().map(String::from).collect(),
    }
}

fn lines(all: &[&str]) -> Vec<String> {
    all.iter().map(|l| l.to_string()).collect()
}

#[test]
fn test_hash_normalized_strips_whitespace() {
    assert_eq!(hash_normalized("  let x = 1;  "), hash_normalized("let x = 1;"));
}

#[test]
fn test_hash_normalized_collapses_internal_whitespace() {
    assert_eq!(hash_normalized("let   x   =   1;"), hash_normalized("let x = 1;"));
}

#[test]
fn test_high_overlap_matches() {
    let candidates = vec![mock_with_code(1, vec!["line1", "line2", "line3", "line4", "other"])];
    let diff_lines: Vec<String> =
        vec!["line1", "line2", "line3", "line4", "line5"].into_iter().map(String::from).collect();

    let result = match_step2(&candidates, &diff_lines);

    assert!(result.is_some(), "80% overlap should match");
    let r = result.unwrap();
    assert!(step2_value(r.confidence) > 0.9, "High overlap should have high confidence");
    assert_eq!(r.step, 2);
}

#[test]
fn test_low_overlap_no_match() {
    let candidates = vec![mock_with_code(1, vec!["line1", "other1", "other2"])];
    let diff_lines: Vec<String> =
        vec!["line1", "line2", "line3", "line4", "line5"].into_iter().map(String::from).collect();

    let result = match_step2(&candidates, &diff_lines);

    assert!(result.is_none(), "20% overlap should not match");
}

#[test]
fn test_exactly_50_percent_no_match() {
    let candidates = vec![mock_with_code(1, vec!["line1", "line2"])];
    let diff_lines: Vec<String> =
        vec!["line1", "line2", "line3", "line4"].into_iter().map(String::from).collect();

    let result = match_step2(&candidates, &diff_lines);

    assert!(result.is_none(), "Exactly 50% should not match (need >50%)");
}

#[test]
fn test_best_match_selected() {
    let candidates = vec![
        mock_with_code(1, vec!["line1", "line2"]),
        mock_with_code(2, vec!["line1", "line2", "line3", "line4"]),
        mock_with_code(3, vec!["line1", "line2", "line3"]),
    ];
    let diff_lines: Vec<String> =
        vec!["line1", "line2", "line3", "line4", "line5"].into_iter().map(String::from).collect();

    let result = match_step2(&candidates, &diff_lines).unwrap();

    assert_eq!(result.conversation.id, 2, "Highest overlap should win");
}

#[test]
fn test_empty_diff_returns_none() {
    let candidates = vec![mock_with_code(1, vec!["line1"])];
    let diff_lines: Vec<String> = vec![];

    let result = match_step2(&candidates, &diff_lines);

    assert!(result.is_none(), "Empty diff should return None");
}

#[test]
fn step2_test_empty_candidates_returns_none() {
    let candidates: Vec<ConversationWithCode> = vec![];
    let diff_lines: Vec<String> = vec!["line1".to_string()];

    let result = match_step2(&candidates, &diff_lines);

    assert!(result.is_none(), "Empty candidates should return None");
}

#[test]
fn test_confidence_calculation() {
    let candidates = vec![mock_with_code(1, vec!["a", "b", "c"])];
    let diff_lines: Vec<String> = vec!["a", "b", "c"].into_iter().map(String::from).collect();

    let result = match_step2(&candidates, &diff_lines).unwrap();

    assert!(
        (step2_value(result.confidence) - 1.0).abs() < 0.001,
        "100% overlap should give confidence 1.0"
    );
}

#[test]
fn test_whitespace_normalization_in_matching() {
    let candidates = vec![mock_with_code(1, vec!["  let x = 1;  ", "   let  y  =  2;   "])];
    let diff_lines: Vec<String> = vec!["let x = 1;".to_string(), "let y = 2;".to_string()];

    let result = match_step2(&candidates, &diff_lines);

    assert!(result.is_some(), "Whitespace-normalized lines should match");
}

#[test]
fn four_of_five_lines_give_ninety_six_hundredths() {
    let candidates = vec![
        mock_with_code(1, vec!["nothing", "alike"]),
        mock_with_code(2, vec!["L1", "L2", "L3", "L4", "other"]),
    ];
    let r = match_step2(&candidates, &lines(&["L1", "L2", "L3", "L4", "L5"])).unwrap();
    assert_eq!(r.conversation.id, 2);
    assert_eq!(r.step, 2);
    assert_eq!(r.confidence, Confidence { numerator: 24, denominator: 25 });
    assert!((step2_value(r.confidence) - 0.96).abs() < 1e-6);
}

#[test]
fn white_space_makes_no_difference_to_the_overlap() {
    let candidates = vec![mock_with_code(1, vec!["  let   x = 1;  "])];
    let r = match_step2(&candidates, &lines(&["let x = 1;"])).unwrap();
    assert_eq!(r.confidence, Confidence { numerator: 5, denominator: 5 });
}

#[test]
fn lines_are_counted_once_however_often_they_occur() {
    // the diff has two distinct lines; the candidate holds one of them, many times
    let candidates = vec![mock_with_code(1, vec!["a", "a", "a", " a "])];
    assert!(match_step2(&candidates, &lines(&["a", "a", "a", "b"])).is_none());
    let both = vec![mock_with_code(1, vec!["a", "b", "b"])];
    let r = match_step2(&both, &lines(&["a", "a", "a", "b"])).unwrap();
    assert_eq!(r.confidence, Confidence { numerator: 10, denominator: 10 });
}

#[test]
fn of_equal_candidates_the_first_wins() {
    let candidates = vec![
        mock_with_code(1, vec!["a", "b"]),
        mock_with_code(2, vec!["a", "b", "c"]),
        mock_with_code(3, vec!["c", "b", "a"]),
    ];
    let r = match_step2(&candidates, &lines(&["a", "b", "c"])).unwrap();
    assert_eq!(r.conversation.id, 2);
    assert_eq!(r.confidence, Confidence { numerator: 15, denominator: 15 });
}

#[test]
fn just_over_half_is_enough() {
    let candidates = vec![mock_with_code(1, vec!["a", "b"])];
    let r = match_step2(&candidates, &lines(&["a", "b", "c"])).unwrap();
    assert_eq!(r.confidence, Confidence { numerator: 14, denominator: 15 });
    assert!(step2_value(r.confidence) > 0.9);
}

#[test]
fn lines_are_normalised_before_they_are_hashed() {
    assert_eq!(normalize("  let   x\t=\n1;  "), "let x = 1;");
    assert_eq!(normalize(""), "");
    assert_eq!(normalize(" \t "), "");
    assert_eq!(normalize("a"), "a");
    assert_eq!(normalize("a\u{a0}b\u{3000}c"), "a b c");
    assert_ne!(hash_normalized("let x = 1;"), hash_normalized("letx = 1;"));
    assert_ne!(hash_normalized("a"), hash_normalized("b"));
    assert_ne!(hash_normalized("a"), hash_normalized(""));
}

#[test]
fn a_candidate_hands_out_its_code_lines() {
    let c = mock_with_code(1, vec!["a", "b"]);
    assert_eq!(c.code_block_lines(), lines(&["a", "b"]));
}

#[test]
fn the_first_of_the_candidates_that_share_most_wins() {
    let rated = vec![
        (mock_conversation(1), 2),
        (mock_conversation(2), 4),
        (mock_conversation(3), 3),
        (mock_conversation(4), 4),
    ];
    let r = match_overlaps(&rated, 5).unwrap();
    assert_eq!(r.conversation.id, 2);
    assert_eq!(r.confidence, Confidence { numerator: 24, denominator: 25 });
    assert_eq!(r.step, 2);
    assert!(match_overlaps(&rated[..1], 5).is_none());
    assert!(match_overlaps(&rated, 8).is_none());
    assert_eq!(match_overlaps(&rated, 7).unwrap().confidence, Confidence { numerator: 32, denominator: 35 });
    assert!(match_overlaps(&[], 1).is_none());
}

#[test]
fn hashes_are_counted_as_sets() {
    assert_eq!(distinct(&[3, 1, 3, 2, 1]), vec![3, 1, 2]);
    assert!(distinct(&[]).is_empty());
}

#[test]
fn lines_are_hashed_one_by_one() {
    let hashed = hash_lines(&lines(&["a", " a ", "b"]));
    assert_eq!(hashed.len(), 3);
    assert_eq!(hashed[0], hashed[1]);
    assert_ne!(hashed[0], hashed[2]);
    assert_eq!(hashed[2], hash_normalized("b"));
}

#[test]
fn the_hash_is_the_fx_hash_of_the_normalised_line() {
    assert_eq!(hash_normalized("  let   x = 1; "), fxhash::hash64(&"let x = 1;".to_string()));
    assert_eq!(hash_normalized(""), fxhash::hash64(&String::new()));
}
