use usher::matcher::Matcher;
use usher::parser::{parse_segment, DynamicParser, Parser, StaticParser};

#[test]
fn static_parsing() {
    assert!(StaticParser.parse("anything").is_some());
}

#[test]
fn dynamic_parsing() {
    assert!(DynamicParser.parse("nah").is_none());
    assert!(DynamicParser.parse(":id").is_some());
}

#[test]
fn dynamic_parsing_needs_a_name() {
    assert!(DynamicParser.parse(":").is_none());
    assert!(DynamicParser.parse("").is_none());
    assert!(DynamicParser.parse("\u{e9}").is_none());
}

#[test]
fn dynamic_parsing_names_the_capture() {
    let matcher = DynamicParser.parse(":id").unwrap();
    assert!(matcher.is_match("anything"));
    assert_eq!(matcher.capture("42"), Some(("id", (0, 2))));
}

#[test]
fn static_parsing_matches_the_literal() {
    let matcher = StaticParser.parse("users").unwrap();
    assert!(matcher.is_match("users"));
    assert!(!matcher.is_match("user"));
    assert_eq!(matcher.capture("users"), None);
}

#[test]
fn cascade_takes_first_parser_that_accepts() {
    let parsers: Vec<Box<dyn Parser>> = vec![Box::new(DynamicParser), Box::new(StaticParser)];
    let dynamic = parse_segment(&parsers, ":id").unwrap();
    assert_eq!(dynamic.capture("7"), Some(("id", (0, 1))));
    let literal = parse_segment(&parsers, "users").unwrap();
    assert!(literal.is_match("users"));
    assert!(!literal.is_match("other"));
}

#[test]
fn cascade_without_a_taker_fails() {
    let parsers: Vec<Box<dyn Parser>> = vec![Box::new(DynamicParser)];
    assert!(parse_segment(&parsers, "users").is_none());
    let none: Vec<Box<dyn Parser>> = vec![];
    assert!(parse_segment(&none, "users").is_none());
}
