use usher::matcher::{DynamicMatcher, Matcher, StaticMatcher};

#[test]
fn static_matching() {
    let matcher = StaticMatcher::new("value");

    assert!(matcher.is_match("value"));
    assert!(!matcher.is_match("not-value"));

    assert_eq!(matcher.capture("value"), None);
    assert_eq!(matcher.capture("not-value"), None);
}

#[test]
fn dynamic_matching() {
    let matcher = DynamicMatcher::new("field");

    assert!(matcher.is_match("value"));
    assert!(matcher.is_match("not-value"));

    assert_eq!(matcher.capture("value"), Some(("field", (0, 5))));
    assert_eq!(matcher.capture("not-value"), Some(("field", (0, 9))));
}

#[test]
fn static_matching_is_exact() {
    let matcher = StaticMatcher::new("value");
    assert!(!matcher.is_match("valu"));
    assert!(!matcher.is_match("values"));
    assert!(!matcher.is_match("Value"));
    assert!(!matcher.is_match(""));
}

#[test]
fn dynamic_capture_spans_bytes() {
    let matcher = DynamicMatcher::new("name");
    assert_eq!(matcher.capture("\u{e9}t\u{e9}"), Some(("name", (0, 5))));
}
