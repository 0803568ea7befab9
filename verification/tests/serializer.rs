use pyrs_yaml_core::ast::{Chomping, Comment, CustomNode, NodeMeta, ScalarStyle, Tag};
use pyrs_yaml_core::error::SerializeError;
use pyrs_yaml_core::serializer::{
    is_compact_item, item_to_string, pair_to_string, to_yaml, to_yaml_with_options, SerializeOptions,
};

fn s(v: &str) -> CustomNode {
    CustomNode::plain_scalar(v)
}

fn map(pairs: Vec<(CustomNode, CustomNode)>) -> CustomNode {
    CustomNode::Mapping { pairs, flow_style: false, meta: NodeMeta::default() }
}

fn seq(items: Vec<CustomNode>) -> CustomNode {
    CustomNode::Sequence { items, flow_style: false, meta: NodeMeta::default() }
}

fn with_comment(mut n: CustomNode, text: &str, standalone: bool) -> CustomNode {
    n.set_comment(Comment { text: text.to_string(), standalone });
    n
}

// the tree of "a: 1\nb:\n  c: 2\n"
#[test]
fn test_pair_helper_matches_full_serialize() {
    let ast = map(vec![(s("a"), s("1")), (s("b"), map(vec![(s("c"), s("2"))]))]);
    let full = to_yaml(&ast);
    let mut out = String::new();
    if let CustomNode::Mapping { pairs, .. } = &ast {
        for (k, v) in pairs.iter() {
            out.push_str(&pair_to_string(k, v, 0, 0).unwrap());
        }
    }
    assert_eq!(full, out);
    assert_eq!(full, "a: 1\nb:\n  c: 2\n");
}

// the tree of "- a\n- b: c\n  d: 1\n- - 1\n  - 2\n"
#[test]
fn test_item_helper_matches_full_serialize() {
    let ast = seq(vec![s("a"), map(vec![(s("b"), s("c")), (s("d"), s("1"))]), seq(vec![s("1"), s("2")])]);
    let full = to_yaml(&ast);
    let mut out = String::new();
    if let CustomNode::Sequence { items, .. } = &ast {
        for item in items.iter() {
            out.push_str(&item_to_string(item, 0, 0).unwrap());
        }
    }
    assert_eq!(full, out);
}

// the tree of "- host: a\n"
#[test]
fn test_item_helper_preserves_compact_dash() {
    let item = map(vec![(s("host"), s("a"))]);
    assert!(is_compact_item(&item));
    assert_eq!(item_to_string(&item, 0, 0).unwrap(), "- host: a\n");
}

#[test]
fn test_serialize_plain_scalar() {
    let node = CustomNode::Scalar {
        value: "hello".to_string(),
        style: ScalarStyle::Plain,
        chomping: Chomping::Clip,
        meta: NodeMeta::default(),
    };
    assert_eq!(to_yaml(&node), "hello\n");
}

#[test]
fn test_serialize_scalar_with_comment() {
    let node = with_comment(s("value"), "a comment", false);
    assert_eq!(to_yaml(&node), "value  # a comment\n");
}

#[test]
fn test_serialize_scalar_with_tag() {
    let mut node = s("42");
    node.set_tag(Tag::primary("int"));
    assert_eq!(to_yaml(&node), "!!int 42\n");
}

#[test]
fn test_serialize_mapping() {
    assert_eq!(to_yaml(&map(vec![(s("key"), s("value"))])), "key: value\n");
}

#[test]
fn test_serialize_complex_key() {
    let node = map(vec![(seq(vec![s("key1"), s("key2")]), s("value"))]);
    let output = to_yaml(&node);
    assert!(output.contains("? "));
}

#[test]
fn test_serialize_max_depth_exceeded() {
    let mut current = s("leaf");
    for _ in 0..200 {
        current = CustomNode::plain_mapping(vec![(s("a"), current)]);
    }
    let options = SerializeOptions {
        indent_size: 2,
        explicit_start: false,
        explicit_end: false,
        sort_keys: false,
        max_depth: 50,
        ..SerializeOptions::default()
    };
    let result = to_yaml_with_options(&current, &options);
    assert!(result.is_err());
    assert!(matches!(result, Err(SerializeError::MaxDepthExceeded(50))));
}

#[test]
fn test_serialize_indent_mapping() {
    let node = map(vec![(s("a"), map(vec![(s("b"), s("1"))]))]);
    let options = SerializeOptions { indent_mapping: 4, ..SerializeOptions::default() };
    assert_eq!(to_yaml_with_options(&node, &options).unwrap(), "a:\n    b: 1\n");
}

#[test]
fn test_serialize_indent_sequence() {
    let node = seq(vec![seq(vec![s("1"), s("2")])]);
    let options = SerializeOptions { indent_sequence: 4, ..SerializeOptions::default() };
    assert_eq!(to_yaml_with_options(&node, &options).unwrap(), "- \n    - 1\n    - 2\n");
}

#[test]
fn test_serialize_indent_offset() {
    let node = map(vec![(s("a"), s("1"))]);
    let options = SerializeOptions { indent_offset: 2, ..SerializeOptions::default() };
    assert_eq!(to_yaml_with_options(&node, &options).unwrap(), "  a: 1\n");
}

// the tree of "a: 1\n# c1\nb: 2\n"
#[test]
fn test_standalone_comment_before_simple_key() {
    let ast = map(vec![(s("a"), s("1")), (with_comment(s("b"), "c1", true), s("2"))]);
    assert_eq!(to_yaml(&ast), "a: 1\n# c1\nb: 2\n");
}

// the tree of "top:\n  x: 1\n  # c2\n  y: 2\n"
#[test]
fn test_standalone_comment_before_nested_key() {
    let ast = map(vec![(s("top"), map(vec![(s("x"), s("1")), (with_comment(s("y"), "c2", true), s("2"))]))]);
    assert_eq!(to_yaml(&ast), "top:\n  x: 1\n  # c2\n  y: 2\n");
}

#[test]
fn serialize_explicit_markers_and_sorting() {
    let node = map(vec![(s("b"), s("2")), (s("a"), s("1"))]);
    let options = SerializeOptions { explicit_start: true, explicit_end: true, sort_keys: true, ..SerializeOptions::default() };
    assert_eq!(to_yaml_with_options(&node, &options).unwrap(), "---\na: 1\nb: 2\n...\n");
}

#[test]
fn serialize_quoted_styles() {
    assert_eq!(to_yaml(&CustomNode::quoted_scalar("it's")), "'it''s'\n");
    assert_eq!(to_yaml(&CustomNode::double_quoted_scalar("a\"b")), "\"a\\\"b\"\n");
    assert_eq!(to_yaml(&CustomNode::plain_null()), "null\n");
}

#[test]
fn empty_plain_scalar_is_quoted() {
    let mut out = String::new();
    pyrs_yaml_core::scalar_fmt::write_plain_scalar(&mut out, "", 0, 80);
    assert_eq!(out, "\"\"");
    let node = CustomNode::plain_mapping(vec![(CustomNode::plain_scalar("a"), CustomNode::plain_scalar(""))]);
    assert_eq!(to_yaml_with_options(&node, &Default::default()).unwrap(), "a: \"\"\n");
}
