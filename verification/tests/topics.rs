use ciqadamq::topic::{has_wildcard, topic_matches};

#[test]
fn plain_filter_matches_only_itself() {
    assert!(topic_matches("chat/u1/m/all", "chat/u1/m/all"));
    assert!(!topic_matches("chat/u1/m/all", "chat/u1/m"));
    assert!(!topic_matches("chat/u1/m", "chat/u1/m/all"));
    assert!(topic_matches("", ""));
    assert!(!topic_matches("a", ""));
    assert!(!topic_matches("/", ""));
}

#[test]
fn single_wildcard_stands_for_one_segment() {
    assert!(topic_matches("chat/u1/m", "chat/+/m"));
    assert!(topic_matches("chat//m", "chat/+/m"));
    assert!(!topic_matches("chat/u1/x/m", "chat/+/m"));
    assert!(topic_matches("abc", "+"));
    assert!(!topic_matches("a/b", "+"));
    assert!(topic_matches("a/b", "+/+"));
}

#[test]
fn multi_wildcard_stands_for_the_rest() {
    assert!(topic_matches("a/b/c", "#"));
    assert!(topic_matches("", "#"));
    assert!(topic_matches("fanout/all", "fanout/#"));
    assert!(topic_matches("fanout", "fanout/#"));
    assert!(!topic_matches("fanouts/all", "fanout/#"));
    assert!(topic_matches("x/y", "#/ignored"));
}

#[test]
fn own_topics_have_the_user_id_second() {
    assert!(topic_matches("chat/u1001/m/all", "+/u1001/#"));
    assert!(topic_matches("update/u1001", "+/u1001/#"));
    assert!(!topic_matches("chat/u9999/m/all", "+/u1001/#"));
    assert!(!topic_matches("chat", "+/u1001/#"));
}

#[test]
fn wildcards_inside_segments_are_plain_text() {
    assert!(!topic_matches("ab", "a+"));
    assert!(topic_matches("a+", "a+"));
    assert!(!topic_matches("ab", "a#"));
}

#[test]
fn wildcards_are_found() {
    assert!(has_wildcard("a/+/b"));
    assert!(has_wildcard("a/#"));
    assert!(has_wildcard("a+b"));
    assert!(!has_wildcard("a/b"));
    assert!(!has_wildcard(""));
}
