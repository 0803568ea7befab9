use pyrs_yaml_core::ast::{scalars, walk, Chomping, Comment, CustomNode, NodeMeta, ScalarStyle, Tag};

#[test]
fn test_scalar_creation() {
    let node = CustomNode::Scalar {
        value: "hello".to_string(),
        style: ScalarStyle::Plain,
        chomping: Chomping::Clip,
        meta: NodeMeta::default(),
    };
    assert_eq!(node.comment(), None);
    assert_eq!(node.anchor(), None);
    assert_eq!(node.tag(), None);
}

#[test]
fn test_scalar_with_tag() {
    let node = CustomNode::Scalar {
        value: "42".to_string(),
        style: ScalarStyle::Plain,
        chomping: Chomping::Clip,
        meta: NodeMeta { tag: Some(Tag::primary("int")), ..NodeMeta::default() },
    };
    assert_eq!(node.tag().unwrap().suffix, "int");
}

#[test]
fn test_scalar_with_comment() {
    let node = CustomNode::Scalar {
        value: "world".to_string(),
        style: ScalarStyle::DoubleQuoted,
        chomping: Chomping::Clip,
        meta: NodeMeta {
            comment: Some(Comment { text: "a greeting".to_string(), standalone: false }),
            ..NodeMeta::default()
        },
    };
    assert_eq!(node.comment().unwrap().text.as_str(), "a greeting");
    assert!(!node.comment().unwrap().standalone);
}

#[test]
fn test_mapping_preserves_order() {
    let key1 = CustomNode::plain_scalar("b");
    let key2 = CustomNode::plain_scalar("a");
    let val = CustomNode::plain_scalar("1");
    let mapping = CustomNode::Mapping {
        pairs: vec![(key1.clone(), val.clone()), (key2.clone(), val.clone())],
        flow_style: false,
        meta: NodeMeta::default(),
    };
    if let CustomNode::Mapping { pairs, .. } = &mapping {
        let keys: Vec<&CustomNode> = pairs.iter().map(|(k, _)| k).collect();
        assert_eq!(keys[0].clone(), key1);
        assert_eq!(keys[1].clone(), key2);
    }
}

#[test]
fn test_tag_formatting() {
    assert_eq!(Tag::primary("str").to_tag_string(), "!!str");
    assert_eq!(Tag::local("custom").to_tag_string(), "!custom");
    assert_eq!(Tag { handle: "!".to_string(), suffix: "".to_string() }.to_tag_string(), "!");
    assert_eq!(Tag::verbatim("tag:yaml.org,2002:str").to_tag_string(), "!<tag:yaml.org,2002:str>");
    assert_eq!(Tag { handle: String::new(), suffix: "!".to_string() }.to_tag_string(), "!");
}

fn sample_tree() -> CustomNode {
    CustomNode::Mapping {
        pairs: vec![
            (CustomNode::plain_scalar("a"), CustomNode::plain_scalar("1")),
            (
                CustomNode::plain_scalar("b"),
                CustomNode::Sequence {
                    items: vec![CustomNode::plain_scalar("x"), CustomNode::plain_null()],
                    flow_style: false,
                    meta: NodeMeta::default(),
                },
            ),
        ],
        flow_style: false,
        meta: NodeMeta::default(),
    }
}

#[test]
fn walk_yields_every_node_in_preorder() {
    let tree = sample_tree();
    let paths = walk(&tree);
    assert_eq!(paths.len(), 5);
    assert!(paths.iter().all(|p| p.len() == 1));
    assert_eq!(*paths[0][0], tree);
    assert_eq!(*paths[1][0], CustomNode::plain_scalar("1"));
    assert!(matches!(paths[2][0], CustomNode::Sequence { .. }));
    assert_eq!(*paths[3][0], CustomNode::plain_scalar("x"));
    assert_eq!(*paths[4][0], CustomNode::plain_null());
}

#[test]
fn scalars_yields_leaves_only() {
    let tree = sample_tree();
    let paths = scalars(&tree);
    assert_eq!(paths.len(), 3);
    assert_eq!(*paths[0][0], CustomNode::plain_scalar("1"));
    assert_eq!(*paths[1][0], CustomNode::plain_scalar("x"));
    assert_eq!(*paths[2][0], CustomNode::plain_null());
    assert_eq!(walk(&CustomNode::plain_scalar("hello")).len(), 1);
    assert_eq!(scalars(&CustomNode::plain_scalar("hello")).len(), 1);
}

#[test]
fn node_equality_ignores_source_range_and_pair_order() {
    let mut a = CustomNode::plain_scalar("v");
    let b = CustomNode::plain_scalar("v");
    a.set_source_range(3..4);
    assert_eq!(a, b);
    let mut c = CustomNode::plain_scalar("v");
    c.set_anchor("x");
    assert_ne!(c, b);
    assert_ne!(CustomNode::plain_scalar("v"), CustomNode::quoted_scalar("v"));
    let m1 = CustomNode::Mapping {
        pairs: vec![
            (CustomNode::plain_scalar("a"), CustomNode::plain_scalar("1")),
            (CustomNode::plain_scalar("b"), CustomNode::plain_scalar("2")),
        ],
        flow_style: false,
        meta: NodeMeta::default(),
    };
    let m2 = CustomNode::Mapping {
        pairs: vec![
            (CustomNode::plain_scalar("b"), CustomNode::plain_scalar("2")),
            (CustomNode::plain_scalar("a"), CustomNode::plain_scalar("1")),
        ],
        flow_style: false,
        meta: NodeMeta::default(),
    };
    assert_eq!(m1, m2);
    let s1 = CustomNode::plain_sequence(vec![CustomNode::plain_scalar("a"), CustomNode::plain_scalar("b")]);
    let s2 = CustomNode::plain_sequence(vec![CustomNode::plain_scalar("b"), CustomNode::plain_scalar("a")]);
    assert_ne!(s1, s2);
}
