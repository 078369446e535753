use archerdndsys::identity::{local_token, split_path, IdentityMap, SyncError};

#[test]
fn record_then_resolve_returns_the_server_id() {
    let mut map = IdentityMap::new();
    map.record("17".to_string(), "S9".to_string()).unwrap();
    assert_eq!(map.resolve(&"17".to_string()), Some("S9".to_string()));
}

#[test]
fn resolve_unknown_is_none() {
    let map = IdentityMap::new();
    assert_eq!(map.resolve(&"17".to_string()), None);
}

#[test]
fn recording_the_same_pair_twice_is_a_no_op() {
    let mut map = IdentityMap::new();
    map.record("17".to_string(), "S9".to_string()).unwrap();
    map.record("17".to_string(), "S9".to_string()).unwrap();
    assert_eq!(map.resolve(&"17".to_string()), Some("S9".to_string()));
}

#[test]
fn remapping_a_local_id_is_a_consistency_violation() {
    let mut map = IdentityMap::new();
    map.record("17".to_string(), "S9".to_string()).unwrap();
    match map.record("17".to_string(), "S10".to_string()) {
        Err(SyncError::ConsistencyViolation { local }) => assert_eq!(local, "17"),
        _ => panic!("expected a consistency violation"),
    }
    assert_eq!(map.resolve(&"17".to_string()), Some("S9".to_string()));
}

#[test]
fn rewrite_substitutes_bound_local_tokens() {
    let mut map = IdentityMap::new();
    map.record("17".to_string(), "abc9".to_string()).unwrap();
    let (rewritten, unresolved) = map.rewrite("/api/items/17/sub");
    assert_eq!(rewritten, "/api/items/abc9/sub");
    assert!(unresolved.is_empty());
}

#[test]
fn rewrite_reports_unbound_local_tokens() {
    let map = IdentityMap::new();
    let (rewritten, unresolved) = map.rewrite("/api/items/42");
    assert_eq!(rewritten, "/api/items/42");
    assert_eq!(unresolved, vec!["42".to_string()]);
}

#[test]
fn rewrite_leaves_ordinary_segments_alone() {
    let mut map = IdentityMap::new();
    map.record("2".to_string(), "z".to_string()).unwrap();
    let (rewritten, unresolved) = map.rewrite("/a1/2");
    assert_eq!(rewritten, "/a1/z");
    assert!(unresolved.is_empty());
}

#[test]
fn local_tokens_are_nonempty_digit_runs() {
    assert!(local_token("123"));
    assert!(local_token("7"));
    assert!(!local_token(""));
    assert!(!local_token("12a"));
    assert!(!local_token("abc9"));
}

#[test]
fn split_path_segments() {
    assert_eq!(
        split_path("/a/b"),
        vec!["".to_string(), "a".to_string(), "b".to_string()]
    );
    assert_eq!(split_path("a"), vec!["a".to_string()]);
}
