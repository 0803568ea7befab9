use pyrs_yaml_core::comment::{
    compute_line_offsets, extract_anchors, extract_comments, extract_comments_and_anchors,
    scan_yaml, CommentAnchorTracker,
};

#[test]
fn test_extract_inline_comment() {
    let yaml = "key: value  # comment";
    let comments = extract_comments(yaml);
    assert_eq!(comments.len(), 1);
    assert_eq!(comments[0].text.as_str(), "comment");
    assert!(!comments[0].standalone);
    assert_eq!(comments[0].line, 0);
}

#[test]
fn test_extract_standalone_comment() {
    let yaml = "# standalone\nkey: value";
    let comments = extract_comments(yaml);
    assert_eq!(comments.len(), 1);
    assert_eq!(comments[0].text.as_str(), "standalone");
    assert!(comments[0].standalone);
    assert_eq!(comments[0].line, 0);
}

#[test]
fn test_comment_in_string_ignored() {
    let yaml = "key: 'has # inside'";
    let comments = extract_comments(yaml);
    assert!(comments.is_empty());
}

#[test]
fn test_comment_in_double_quoted_string_ignored() {
    let yaml = r#"key: "has # inside""#;
    let comments = extract_comments(yaml);
    assert!(comments.is_empty());
}

#[test]
fn test_extract_anchors() {
    let yaml = "defaults: &defaults\n  key: value";
    let anchors = extract_anchors(yaml);
    assert_eq!(anchors.len(), 1);
    assert_eq!(anchors[0].name, "defaults");
    assert_eq!(anchors[0].line, 0);
}

#[test]
fn test_extract_multiple_anchors() {
    let yaml = "a: &foo 1\nb: &bar 2";
    let anchors = extract_anchors(yaml);
    assert_eq!(anchors.len(), 2);
    assert_eq!(anchors[0].name, "foo");
    assert_eq!(anchors[1].name, "bar");
}

#[test]
fn test_extract_anchor_with_dot() {
    let yaml = "key: &anchor.name value";
    let anchors = extract_anchors(yaml);
    assert_eq!(anchors.len(), 1);
    assert_eq!(anchors[0].name, "anchor.name");
}

#[test]
fn test_extract_quoted_anchor() {
    let yaml = r#"key: &"quoted anchor" value"#;
    let anchors = extract_anchors(yaml);
    assert_eq!(anchors.len(), 1);
    assert_eq!(anchors[0].name, "quoted anchor");
}

#[test]
fn test_extract_anchor_with_colon() {
    let yaml = "key: &anchor:name value";
    let anchors = extract_anchors(yaml);
    assert_eq!(anchors.len(), 1);
    assert_eq!(anchors[0].name, "anchor:name");
}

#[test]
fn test_extract_anchor_with_hash() {
    let yaml = "key: &anchor#name value";
    let anchors = extract_anchors(yaml);
    assert_eq!(anchors.len(), 1);
    assert_eq!(anchors[0].name, "anchor#name");
}

#[test]
fn test_extract_anchor_stops_at_flow_indicator() {
    let yaml = "key: &anchor{sub}";
    let anchors = extract_anchors(yaml);
    assert_eq!(anchors.len(), 1);
    assert_eq!(anchors[0].name, "anchor");
}

#[test]
fn test_extract_anchor_stops_at_comma() {
    let yaml = "key: &anchor, next";
    let anchors = extract_anchors(yaml);
    assert_eq!(anchors.len(), 1);
    assert_eq!(anchors[0].name, "anchor");
}

#[test]
fn comment_columns_are_byte_offsets() {
    let yaml = "é: 1 # x\r\n  # y\n";
    let comments = extract_comments(yaml);
    assert_eq!(comments.len(), 2);
    assert_eq!(comments[0].col, 6);
    assert_eq!(comments[0].text.as_str(), "x");
    assert_eq!(comments[1].line, 1);
    assert_eq!(comments[1].col, 2);
    assert!(comments[1].standalone);
}

#[test]
fn anchor_after_comment_is_ignored() {
    let (comments, anchors) = extract_comments_and_anchors("a: 1 # &not\nb: &yes 2");
    assert_eq!(comments.len(), 1);
    assert_eq!(anchors.len(), 1);
    assert_eq!(anchors[0].name, "yes");
    assert_eq!(anchors[0].line, 1);
    assert_eq!(anchors[0].col, 3);
}

#[test]
fn scan_reports_markers_and_offsets() {
    let scan = scan_yaml("a: &x 1\n# c\nb: é\n");
    assert_eq!(scan.line_offsets, vec![0, 8, 12, 18]);
    assert!(scan.has_hash);
    assert!(scan.has_amp);
    assert!(!scan.is_ascii);
    let plain = scan_yaml("a: 1");
    assert!(!plain.has_hash && !plain.has_amp && plain.is_ascii);
    assert_eq!(compute_line_offsets(""), vec![0]);
}

#[test]
fn tracker_walks_comments_in_order() {
    let yaml = "# top\na: 1  # one\n# mid\nb: 2\n";
    let (comments, anchors) = extract_comments_and_anchors(yaml);
    let mut t = CommentAnchorTracker::new(comments, anchors);
    let top = t.find_standalone_before_line(1).unwrap();
    assert_eq!(top.text, "top");
    assert!(top.standalone);
    let inline = t.find_inline_comment(1, 4).unwrap();
    assert_eq!(inline.text, "one");
    assert!(t.find_inline_comment(3, 0).is_none());
    let mid = t.find_standalone_before_line(3).unwrap();
    assert_eq!(mid.text, "mid");
    assert!(t.next_anchor_name().is_none());
}

#[test]
fn tracker_hands_out_anchor_names() {
    let (comments, anchors) = extract_comments_and_anchors("a: &x 1\nb: &y 2\n");
    let mut t = CommentAnchorTracker::new(comments, anchors);
    assert_eq!(t.next_anchor_name().as_deref(), Some("x"));
    assert_eq!(t.next_anchor_name().as_deref(), Some("y"));
    assert_eq!(t.next_anchor_name(), None);
}

#[test]
fn line_offsets_end_past_the_last_character() {
    assert_eq!(compute_line_offsets("a\nb"), vec![0, 2, 3]);
    assert_eq!(compute_line_offsets("a\n"), vec![0, 2]);
    assert_eq!(compute_line_offsets("ab"), vec![0, 2]);
}
