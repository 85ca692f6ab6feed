use usher::segment::{segment_spans, segment_str};

#[test]
fn spans_skip_empty_segments() {
    assert_eq!(segment_spans("/a//bc/"), vec![(1, 2), (4, 6)]);
    assert_eq!(segment_spans("a/b"), vec![(0, 1), (2, 3)]);
    assert_eq!(segment_spans("/"), vec![]);
    assert_eq!(segment_spans(""), vec![]);
    assert_eq!(segment_spans("///"), vec![]);
}

#[test]
fn segment_text_is_cut_from_the_path() {
    let path = "/api/\u{e9}t\u{e9}/x";
    let spans = segment_spans(path);
    assert_eq!(spans, vec![(1, 4), (5, 10), (11, 12)]);
    assert_eq!(segment_str(path, 5, 10), "\u{e9}t\u{e9}");
    assert_eq!(segment_str(path, 11, 12), "x");
}
