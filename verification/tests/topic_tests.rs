use roker::topic::TopicMatcher;

#[test]
fn test_exact_match() {
    let matcher = TopicMatcher::new("/images/png");
    assert!(matcher.matches("/images/png"));
    assert!(!matcher.matches("/images/jpg"));
}

#[test]
fn test_single_level_wildcard() {
    let matcher = TopicMatcher::new("/images/*");
    assert!(matcher.matches("/images/png"));
    assert!(matcher.matches("/images/jpg"));
    assert!(!matcher.matches("/images/png/large"));
}

#[test]
fn test_multi_level_wildcard() {
    let matcher = TopicMatcher::new("/images/#");
    assert!(matcher.matches("/images/png"));
    assert!(matcher.matches("/images/jpg"));
    assert!(matcher.matches("/images/png/large"));
    assert!(matcher.matches("/images/png/large/thumbnail"));
}

#[test]
fn test_complex_pattern() {
    let matcher = TopicMatcher::new("/images/*/size/#");
    assert!(matcher.matches("/images/png/size/large"));
    assert!(matcher.matches("/images/jpg/size/small/thumbnail"));
    assert!(!matcher.matches("/images/png"));
    assert!(!matcher.matches("/images/png/width"));
}

#[test]
fn readme_pattern_examples() {
    assert!(TopicMatcher::new("/sensors/*/temperature").matches("/sensors/room1/temperature"));
    assert!(!TopicMatcher::new("/sensors/*/temperature").matches("/sensors/room1/humidity"));
    assert!(TopicMatcher::new("/sensors/#").matches("/sensors/room1/temperature"));
    assert!(TopicMatcher::new("/sensors/#").matches("/sensors/temperature"));
    assert!(!TopicMatcher::new("/sensors/#").matches("/actuators/fan"));
}

#[test]
fn hash_matches_the_level_itself() {
    // "#" also matches no further level at all
    assert!(TopicMatcher::new("/images/#").matches("/images"));
    assert!(TopicMatcher::new("#").matches("/anything/at/all"));
    assert!(TopicMatcher::new("#").matches(""));
}

#[test]
fn empty_levels_do_not_count() {
    assert!(TopicMatcher::new("images//png/").matches("/images/png"));
    assert!(TopicMatcher::new("/a/b").matches("a/b/"));
    assert!(!TopicMatcher::new("/a/b").matches("/a"));
    assert!(TopicMatcher::new("").matches("///"));
}

#[test]
fn star_matches_exactly_one_level() {
    let matcher = TopicMatcher::new("/*");
    assert!(matcher.matches("/x"));
    assert!(!matcher.matches("/"));
    assert!(!matcher.matches("/x/y"));
}

#[test]
fn levels_after_hash_are_ignored() {
    // matching stops at the first "#"
    let matcher = TopicMatcher::new("/a/#/b");
    assert!(matcher.matches("/a/x"));
    assert!(matcher.matches("/a"));
    assert!(!matcher.matches("/z/b"));
}

#[test]
fn topic_matches_itself() {
    for t in ["/images/png", "/a/b/c", "x", "/sensors/room1/temperature", "/a/*", "/a/#/b", "#", "", "//"] {
        assert!(TopicMatcher::new(t).matches(t));
    }
}

#[test]
fn matcher_keeps_its_pattern() {
    let matcher = TopicMatcher::new("/images/*");
    assert_eq!(matcher.pattern(), "/images/*");
    assert!(matcher.has_pattern(&"/images/*".to_string()));
    assert!(!matcher.has_pattern(&"/images/#".to_string()));
}

#[test]
fn matchers_are_equal_when_their_patterns_are() {
    assert!(TopicMatcher::new("/a/*") == TopicMatcher::new("/a/*"));
    assert!(TopicMatcher::new("/a/*") != TopicMatcher::new("/a/#"));
    assert!(TopicMatcher::new("/a/b") != TopicMatcher::new("/a//b"));
}
