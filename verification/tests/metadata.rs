use pyrs_yaml_core::ast::{Chomping, CustomNode, NodeMeta, ScalarStyle, Tag};
use pyrs_yaml_core::metadata::{needs_quoting, with_metadata_from};

#[test]
fn test_needs_quoting_empty() {
    assert!(needs_quoting(""));
}

#[test]
fn test_needs_quoting_whitespace() {
    assert!(needs_quoting("hello world"));
}

#[test]
fn test_needs_quoting_special_chars() {
    assert!(needs_quoting("a:b"));
    assert!(needs_quoting("{a}"));
}

#[test]
fn test_needs_quoting_plain() {
    assert!(!needs_quoting("hello"));
    assert!(!needs_quoting("42"));
}

#[test]
fn test_with_metadata_from_copies_anchor() {
    let target = CustomNode::plain_scalar("val");
    let src = CustomNode::Scalar {
        value: "".into(),
        style: ScalarStyle::Plain,
        chomping: Chomping::Clip,
        meta: NodeMeta { anchor: Some("myanchor".into()), ..Default::default() },
    };
    let result = with_metadata_from(&target, &src);
    match result {
        CustomNode::Scalar { value, meta, .. } => {
            assert_eq!(value.as_str(), "val");
            assert_eq!(meta.anchor, Some("myanchor".into()));
        }
        _ => panic!("expected Scalar"),
    }
}

#[test]
fn test_with_metadata_from_copies_tag() {
    let target = CustomNode::plain_scalar("val");
    let src = CustomNode::Scalar {
        value: "".into(),
        style: ScalarStyle::Plain,
        chomping: Chomping::Clip,
        meta: NodeMeta { tag: Some(Tag::local("custom")), ..Default::default() },
    };
    let result = with_metadata_from(&target, &src);
    match result {
        CustomNode::Scalar { meta, .. } => {
            assert_eq!(meta.tag, Some(Tag::local("custom")));
        }
        _ => panic!("expected Scalar"),
    }
}

#[test]
fn test_with_metadata_from_preserves_target_value() {
    let target = CustomNode::plain_scalar("newval");
    let src = CustomNode::plain_scalar("oldval");
    let result = with_metadata_from(&target, &src);
    match result {
        CustomNode::Scalar { value, .. } => {
            assert_eq!(value.as_str(), "newval");
        }
        _ => panic!("expected Scalar"),
    }
}

#[test]
fn with_metadata_keeps_quoted_style_unless_quoting_needed() {
    let src = CustomNode::quoted_scalar("old");
    match with_metadata_from(&CustomNode::plain_scalar("new"), &src) {
        CustomNode::Scalar { style, .. } => assert_eq!(style, ScalarStyle::SingleQuoted),
        _ => panic!("expected Scalar"),
    }
    match with_metadata_from(&CustomNode::plain_scalar("a b"), &src) {
        CustomNode::Scalar { style, .. } => assert_eq!(style, ScalarStyle::Plain),
        _ => panic!("expected Scalar"),
    }
}

#[test]
fn with_metadata_drops_source_range_and_mixes_kinds() {
    let mut src = CustomNode::plain_null();
    src.set_source_range(0..4);
    src.set_anchor("n");
    match with_metadata_from(&CustomNode::plain_null(), &src) {
        CustomNode::Null { meta } => {
            assert_eq!(meta.anchor.as_deref(), Some("n"));
            assert_eq!(meta.source_range, None);
        }
        _ => panic!("expected Null"),
    }
    match with_metadata_from(&CustomNode::plain_scalar("x"), &src) {
        CustomNode::Scalar { value, meta, .. } => {
            assert_eq!(value, "x");
            assert_eq!(meta.anchor, None);
        }
        _ => panic!("expected Scalar"),
    }
}
