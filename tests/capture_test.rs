use usher::capture::find_capture;

#[test]
fn finding_captures() {
    let path = "/api/v1/user/123";
    let captures = vec![("vsn", (5, 7)), ("type", (8, 12)), ("id", (13, 16))];

    let id = find_capture(path, &captures, "id");
    assert_eq!(id, Some("123"));

    let object = find_capture(path, &captures, "type");
    assert_eq!(object, Some("user"));

    let version = find_capture(path, &captures, "vsn");
    assert_eq!(version, Some("v1"));

    let missing = find_capture(path, &captures, "missing");
    assert_eq!(missing, None);
}

#[test]
fn finding_captures_takes_first_of_duplicate_names() {
    let path = "/a/b";
    let captures = vec![("x", (1, 2)), ("x", (3, 4))];
    assert_eq!(find_capture(path, &captures, "x"), Some("a"));
}

#[test]
fn finding_captures_in_empty_list() {
    let captures: Vec<(&str, (usize, usize))> = vec![];
    assert_eq!(find_capture("/a", &captures, "a"), None);
}

#[test]
fn finding_captures_of_multibyte_text() {
    let path = "/\u{e9}t\u{e9}/x";
    let captures = vec![("w", (1, 6))];
    assert_eq!(find_capture(path, &captures, "w"), Some("\u{e9}t\u{e9}"));
}
