use prv_core::confidence::Confidence;
use prv_core::link::Link;
use prv_core::link_index::LinkIndex;

fn link(sha: &str, session: i64, numerator: u128, denominator: u128, step: u8) -> Link {
    Link::new(sha, session, Confidence::new(numerator, denominator).unwrap(), step)
}

#[test]
fn test_new_is_empty() {
    let index = LinkIndex::new();
    assert!(index.is_empty());
    assert_eq!(index.len(), 0);
}

#[test]
fn test_insert_and_get() {
    let mut index = LinkIndex::new();
    let link = link("abc123", 42, 9, 10, 0);
    index.insert(&link);

    assert_eq!(index.get("abc123"), Some(42));
    assert_eq!(index.len(), 1);
    assert!(!index.is_empty());
}

#[test]
fn test_get_nonexistent() {
    let index = LinkIndex::new();
    assert_eq!(index.get("nonexistent"), None);
}

#[test]
fn test_contains() {
    let mut index = LinkIndex::new();
    let link = link("abc123", 42, 9, 10, 0);

    assert!(!index.contains("abc123"));
    index.insert(&link);
    assert!(index.contains("abc123"));
}

#[test]
fn test_remove() {
    let mut index = LinkIndex::new();
    let link = link("abc123", 42, 9, 10, 0);
    index.insert(&link);

    assert_eq!(index.remove("abc123"), Some(42));
    assert!(!index.contains("abc123"));
    assert_eq!(index.remove("abc123"), None);
}

#[test]
fn test_multiple_inserts_same_key() {
    let mut index = LinkIndex::new();
    index.insert(&link("abc", 1, 9, 10, 0));
    index.insert(&link("abc", 2, 8, 10, 1));

    assert_eq!(index.get("abc"), Some(2));
    assert_eq!(index.len(), 1);
}

#[test]
fn test_iter() {
    let mut index = LinkIndex::new();
    index.insert(&link("aaa", 1, 9, 10, 0));
    index.insert(&link("bbb", 2, 9, 10, 0));
    index.insert(&link("ccc", 3, 9, 10, 0));

    let entries: Vec<_> = index.iter();
    assert_eq!(entries.len(), 3);
}

#[test]
fn test_default() {
    let index = LinkIndex::default();
    assert!(index.is_empty());
}

#[test]
fn removing_one_commit_leaves_the_others() {
    let mut index = LinkIndex::new();
    index.insert(&link("aaa", 1, 9, 10, 0));
    index.insert(&link("bbb", 2, 9, 10, 0));
    index.insert(&link("ccc", 3, 9, 10, 0));
    assert_eq!(index.remove("bbb"), Some(2));
    assert_eq!(index.len(), 2);
    assert_eq!(index.get("aaa"), Some(1));
    assert_eq!(index.get("bbb"), None);
    assert_eq!(index.get("ccc"), Some(3));
    let mut entries = index.iter();
    entries.sort();
    assert_eq!(entries, vec![("aaa".to_string(), 1), ("ccc".to_string(), 3)]);
}

#[test]
fn entering_a_link_again_changes_only_its_own_entry() {
    let mut index = LinkIndex::new();
    index.insert(&link("aaa", 1, 9, 10, 0));
    index.insert(&link("bbb", 2, 9, 10, 0));
    index.insert(&link("aaa", 7, 1, 1, 1));
    assert_eq!(index.get("aaa"), Some(7));
    assert_eq!(index.get("bbb"), Some(2));
    assert_eq!(index.len(), 2);
}

#[test]
fn an_index_is_written_as_one_json_object() {
    let mut index = LinkIndex::new();
    index.insert(&link("def", 2, 8, 10, 1));
    index.insert(&link("abc", 1, 9, 10, 0));
    assert_eq!(index.to_json().unwrap(), "{\"abc\":1,\"def\":2}");
    assert_eq!(LinkIndex::new().to_json().unwrap(), "{}");
}

#[test]
fn an_index_is_read_from_a_json_object() {
    let index = LinkIndex::from_json("{ \"abc\": 1, \"def\": -2 }").unwrap();
    assert_eq!(index.get("abc"), Some(1));
    assert_eq!(index.get("def"), Some(-2));
    assert_eq!(index.len(), 2);
    assert!(LinkIndex::from_json("{}").unwrap().is_empty());
    let twice = LinkIndex::from_json("{\"a\":1,\"a\":2}").unwrap();
    assert_eq!((twice.len(), twice.get("a")), (1, Some(2)));
}

#[test]
fn what_is_no_index_is_an_error() {
    for text in ["", "not json", "[1,2]", "{\"a\":\"x\"}", "{\"a\":1.5}", "{\"a\":1", "7"] {
        let error = LinkIndex::from_json(text).err().unwrap();
        assert!(!error.message.is_empty());
    }
}

#[test]
fn an_index_written_and_read_is_the_same_index() {
    let mut index = LinkIndex::new();
    index.insert(&link("abc", 1, 9, 10, 0));
    index.insert(&link("def", 2, 8, 10, 1));
    index.insert(&link("we\"ird\\key\n", i64::MIN, 8, 10, 1));
    let loaded = LinkIndex::from_json(&index.to_json().unwrap()).unwrap();
    assert_eq!(loaded.get("abc"), Some(1));
    assert_eq!(loaded.get("def"), Some(2));
    assert_eq!(loaded.get("we\"ird\\key\n"), Some(i64::MIN));
    assert_eq!(loaded.len(), 3);
    let mut a = index.iter();
    let mut b = loaded.iter();
    a.sort();
    b.sort();
    assert_eq!(a, b);
}

#[test]
fn the_index_leads_to_the_session_of_the_link_entered() {
    let mut index = LinkIndex::new();
    let stored = link("abc123", 42, 19, 20, 1);
    index.insert(&stored);
    assert_eq!(index.get(&stored.commit_sha), Some(stored.session_id));
}
