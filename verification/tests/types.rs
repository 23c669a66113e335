//! Identifiers and values.

use halter_goals::types::{
    CanonicalJson, Duration, GoalNodeId, MemoryId, SessionId, Sha256, SubtreeHash, Timestamp,
    ToolName,
};

#[test]
fn string_newtypes_convert_from_str_and_string() {
    let from_str = ToolName::from("read_file");
    let from_string = ToolName::from(String::from("read_file"));
    assert_eq!(from_str, from_string);
    assert_eq!(from_str.to_string(), "read_file");
}

#[test]
fn timestamp_add_duration_saturates() {
    let base = Timestamp(10);
    assert_eq!(base.plus(Duration(5)), Timestamp(15));
    assert_eq!(Timestamp(u64::MAX).plus(Duration(1)), Timestamp(u64::MAX));
}

#[test]
fn canonical_json_exposes_bytes() {
    let c = CanonicalJson("{\"a\":1}".to_owned());
    assert_eq!(c.as_bytes(), b"{\"a\":1}");
}

#[test]
fn subtree_hash_shows_its_digest() {
    let h = SubtreeHash(Sha256::from("abc123"));
    assert_eq!(h.to_string(), "abc123");
}

/// The form that a random identifier has.
fn is_random(id: &str) -> bool {
    id.len() == 36
        && id.char_indices().all(|(i, c)| match i {
            8 | 13 | 18 | 23 => c == '-',
            14 => c == '4',
            _ => c.is_ascii_digit() || ('a'..='f').contains(&c),
        })
}

#[test]
fn generated_ids_are_distinct_and_well_formed() {
    let a = GoalNodeId::new();
    let b = GoalNodeId::default();
    assert_ne!(a, b, "freshly generated ids must be distinct");
    assert!(is_random(&a.0), "{}", a.0);
    assert!(is_random(&b.0), "{}", b.0);
    assert!(is_random(&MemoryId::new().0));
    assert!(is_random(&SessionId::new().0));
    assert_ne!(MemoryId::new(), MemoryId::new());
    assert_ne!(SessionId::new(), SessionId::new());
}
