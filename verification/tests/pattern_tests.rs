use tagger::pattern::Pattern;

#[test]
fn anchored_query_rejects_longer_label() {
    let query = Pattern::new("^tag$").unwrap();
    assert!(query.is_match("tag"));
    assert!(!query.is_match("tag-extra"));
}

#[test]
fn unanchored_query_matches_inside_label() {
    let query = Pattern::new("tag").unwrap();
    assert!(query.is_match("tag-extra"));
    assert!(query.is_match("my-tag"));
    assert!(!query.is_match("other"));
}

#[test]
fn pattern_that_does_not_compile_is_refused() {
    let refused = Pattern::new("foo(bar").unwrap_err();
    assert_eq!(refused.pattern, "foo(bar");
    assert!(!refused.message.is_empty());
}

#[test]
fn pattern_remembers_its_text() {
    let p = Pattern::new("readme\\.txt").unwrap();
    assert_eq!(p.as_str(), "readme\\.txt");
}
