use pyrs_yaml_core::ast::{CustomNode, NodeMeta};
use pyrs_yaml_core::key_paths::{node_paths, scalar_paths, PathStep};

fn key(s: &str) -> PathStep {
    PathStep::Key(s.to_string())
}

fn sample() -> CustomNode {
    let inner = CustomNode::plain_mapping(vec![(CustomNode::plain_scalar("b"), CustomNode::plain_scalar("1"))]);
    let seq = CustomNode::plain_sequence(vec![CustomNode::plain_scalar("x"), inner]);
    let complex_key = CustomNode::plain_sequence(vec![CustomNode::plain_scalar("k")]);
    CustomNode::Mapping {
        pairs: vec![
            (CustomNode::plain_scalar("a"), seq),
            (complex_key, CustomNode::plain_scalar("v")),
            (CustomNode::quoted_scalar("c"), CustomNode::plain_null()),
        ],
        flow_style: false,
        meta: NodeMeta::default(),
    }
}

#[test]
fn node_paths_in_preorder_skipping_complex_keys() {
    let paths = node_paths(&sample());
    assert_eq!(
        paths,
        vec![
            vec![],
            vec![key("a")],
            vec![key("a"), PathStep::Index(0)],
            vec![key("a"), PathStep::Index(1)],
            vec![key("a"), PathStep::Index(1), key("b")],
            vec![key("c")],
        ]
    );
}

#[test]
fn scalar_paths_only_leaves() {
    let paths = scalar_paths(&sample());
    assert_eq!(
        paths,
        vec![
            vec![key("a"), PathStep::Index(0)],
            vec![key("a"), PathStep::Index(1), key("b")],
            vec![key("c")],
        ]
    );
}

#[test]
fn scalar_root_has_the_empty_path() {
    assert_eq!(node_paths(&CustomNode::plain_scalar("v")), vec![Vec::<PathStep>::new()]);
    assert_eq!(scalar_paths(&CustomNode::plain_scalar("v")), vec![Vec::<PathStep>::new()]);
    let empty = CustomNode::plain_sequence(vec![]);
    assert_eq!(node_paths(&empty), vec![Vec::<PathStep>::new()]);
    assert!(scalar_paths(&empty).is_empty());
}
