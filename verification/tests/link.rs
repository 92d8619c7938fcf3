use prv_core::confidence::Confidence;
use prv_core::link::{Link, Timestamp};

fn ratio(numerator: u128, denominator: u128) -> Confidence {
    Confidence::new(numerator, denominator).unwrap()
}

fn link_value(c: Confidence) -> f64 {
    c.numerator as f64 / c.denominator as f64
}

#[test]
fn test_link_new() {
    let link = Link::new("abc123", 42, ratio(9, 10), 0);
    assert_eq!(link.commit_sha, "abc123");
    assert_eq!(link.session_id, 42);
    assert_eq!(link_value(link.confidence), 0.9);
    assert_eq!(link.match_step, 0);
}

#[test]
fn test_link_clone() {
    let link = Link::new("abc123", 42, ratio(9, 10), 0);
    let cloned = link.clone();

    assert_eq!(link.commit_sha, cloned.commit_sha);
    assert_eq!(link.session_id, cloned.session_id);
    assert_eq!(link.confidence, cloned.confidence);
    assert_eq!(link.match_step, cloned.match_step);
    assert_eq!(link.created_at, cloned.created_at);
}

#[test]
fn test_link_equality_same_timestamp() {
    let now = chrono::Utc::now();
    let timestamp = Timestamp { seconds: now.timestamp(), nanos: now.timestamp_subsec_nanos() };
    let a = Link {
        commit_sha: "abc".to_string(),
        session_id: 1,
        confidence: ratio(9, 10),
        match_step: 0,
        created_at: timestamp,
    };
    let b = Link {
        commit_sha: "abc".to_string(),
        session_id: 1,
        confidence: ratio(9, 10),
        match_step: 0,
        created_at: timestamp,
    };
    assert_eq!(a, b);
}

#[test]
fn test_link_debug_format() {
    let link = Link::new("abc123", 42, ratio(9, 10), 0);
    let debug = format!("{:?}", link);

    assert!(debug.contains("Link"));
    assert!(debug.contains("abc123"));
    assert!(debug.contains("42"));
}

#[test]
fn links_differ_when_any_field_differs() {
    let at = Timestamp { seconds: 1_700_000_000, nanos: 5 };
    let base = Link::at("abc", 1, ratio(9, 10), 0, at);
    assert_eq!(base, Link::at("abc", 1, ratio(9, 10), 0, at));
    assert_ne!(base, Link::at("abd", 1, ratio(9, 10), 0, at));
    assert_ne!(base, Link::at("abc", 2, ratio(9, 10), 0, at));
    assert_ne!(base, Link::at("abc", 1, ratio(19, 20), 0, at));
    assert_ne!(base, Link::at("abc", 1, ratio(9, 10), 1, at));
    assert_ne!(base, Link::at("abc", 1, ratio(9, 10), 0, Timestamp { seconds: 1_700_000_000, nanos: 6 }));
}

#[test]
fn a_new_link_is_stamped_with_the_present() {
    let before = chrono::Utc::now().timestamp();
    let link = Link::new("abc", 1, ratio(1, 1), 2);
    let after = chrono::Utc::now().timestamp();
    assert!(before <= link.created_at.seconds && link.created_at.seconds <= after);
    assert!(before > 1_600_000_000);
}

#[test]
fn a_confidence_is_a_fraction_between_zero_and_one() {
    assert_eq!(Confidence::new(9, 10), Some(Confidence { numerator: 9, denominator: 10 }));
    assert_eq!(Confidence::new(0, 1), Some(Confidence { numerator: 0, denominator: 1 }));
    assert_eq!(Confidence::new(5, 5), Some(Confidence { numerator: 5, denominator: 5 }));
    assert_eq!(Confidence::new(1, 0), None);
    assert_eq!(Confidence::new(0, 0), None);
    assert_eq!(Confidence::new(11, 10), None);
}

#[test]
fn confidences_are_equal_when_they_are_the_same_number() {
    assert_eq!(ratio(9, 10), ratio(18, 20));
    assert_eq!(ratio(9, 10), ratio(900_000_000_000, 1_000_000_000_000));
    assert_eq!(ratio(5, 5), ratio(20, 20));
    assert_eq!(ratio(0, 1), ratio(0, 7));
    assert_ne!(ratio(9, 10), ratio(19, 20));
    assert_ne!(ratio(1, 3), ratio(333_333_333_333, 1_000_000_000_000));
    assert_eq!(ratio(1, 3), ratio(u128::MAX / 3, u128::MAX));
    assert_ne!(ratio(u128::MAX - 1, u128::MAX), ratio(u128::MAX - 2, u128::MAX - 1));
    assert_eq!(ratio(u128::MAX, u128::MAX), ratio(1, 1));
    let at = Timestamp { seconds: 0, nanos: 0 };
    assert_eq!(Link::at("abc", 1, ratio(9, 10), 0, at), Link::at("abc", 1, ratio(18, 20), 0, at));
    let odd = Confidence { numerator: 1, denominator: 0 };
    assert_eq!(odd, odd);
    assert_ne!(odd, Confidence { numerator: 2, denominator: 0 });
    assert_ne!(odd, ratio(0, 1));
}
