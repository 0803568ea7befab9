use pyrs_yaml_core::ast::{CustomNode, NodeMeta};
use pyrs_yaml_core::merge::{resolve_merge_keys, resolve_merge_keys_within};

fn make_scalar(value: &str) -> CustomNode {
    CustomNode::plain_scalar(value)
}

fn mapping(pairs: Vec<(CustomNode, CustomNode)>, anchor: Option<&str>) -> CustomNode {
    let mut node = CustomNode::Mapping { pairs, flow_style: false, meta: NodeMeta::default() };
    if let Some(a) = anchor {
        node.set_anchor(a);
    }
    node
}

fn alias(name: &str) -> CustomNode {
    CustomNode::Alias { name: name.to_string() }
}

fn get_mapping(node: &CustomNode) -> &Vec<(CustomNode, CustomNode)> {
    match node {
        CustomNode::Mapping { pairs, .. } => pairs,
        _ => panic!("expected Mapping"),
    }
}

fn get<'a>(pairs: &'a Vec<(CustomNode, CustomNode)>, key: &str) -> Option<&'a CustomNode> {
    let k = make_scalar(key);
    pairs.iter().find(|(pk, _)| *pk == k).map(|(_, v)| v)
}

fn get_scalar_value(node: &CustomNode) -> &str {
    match node {
        CustomNode::Scalar { value, .. } => value,
        _ => panic!("expected Scalar"),
    }
}

// defaults: &defaults\n  timeout: 30\nprod:\n  <<: *defaults\n  host: x
#[test]
fn test_single_merge() {
    let mut root = mapping(
        vec![
            (make_scalar("defaults"), mapping(vec![(make_scalar("timeout"), make_scalar("30"))], Some("defaults"))),
            (
                make_scalar("prod"),
                mapping(vec![(make_scalar("<<"), alias("defaults")), (make_scalar("host"), make_scalar("x"))], None),
            ),
        ],
        None,
    );
    resolve_merge_keys(&mut root);
    let pairs = get_mapping(&root);
    let prod = get(pairs, "prod").unwrap();
    let prod_pairs = get_mapping(prod);
    assert_eq!(get_scalar_value(get(prod_pairs, "timeout").unwrap()), "30");
    assert_eq!(get_scalar_value(get(prod_pairs, "host").unwrap()), "x");
    assert!(get(prod_pairs, "<<").is_none());
}

// base1: &b1\n  a: 1\nbase2: &b2\n  b: 2\ncurrent:\n  <<: [*b1, *b2]\n  c: 3
#[test]
fn test_multiple_merge() {
    let mut root = mapping(
        vec![
            (make_scalar("base1"), mapping(vec![(make_scalar("a"), make_scalar("1"))], Some("b1"))),
            (make_scalar("base2"), mapping(vec![(make_scalar("b"), make_scalar("2"))], Some("b2"))),
            (
                make_scalar("current"),
                mapping(
                    vec![
                        (
                            make_scalar("<<"),
                            CustomNode::Sequence { items: vec![alias("b1"), alias("b2")], flow_style: true, meta: NodeMeta::default() },
                        ),
                        (make_scalar("c"), make_scalar("3")),
                    ],
                    None,
                ),
            ),
        ],
        None,
    );
    resolve_merge_keys(&mut root);
    let pairs = get_mapping(&root);
    let current = get(pairs, "current").unwrap();
    let current_pairs = get_mapping(current);
    assert_eq!(get_scalar_value(get(current_pairs, "a").unwrap()), "1");
    assert_eq!(get_scalar_value(get(current_pairs, "b").unwrap()), "2");
    assert_eq!(get_scalar_value(get(current_pairs, "c").unwrap()), "3");
}

// base: &base\n  x: 1\n  y: 2\nderived:\n  <<: *base\n  y: 99
#[test]
fn test_merge_override_order() {
    let mut root = mapping(
        vec![
            (
                make_scalar("base"),
                mapping(vec![(make_scalar("x"), make_scalar("1")), (make_scalar("y"), make_scalar("2"))], Some("base")),
            ),
            (
                make_scalar("derived"),
                mapping(vec![(make_scalar("<<"), alias("base")), (make_scalar("y"), make_scalar("99"))], None),
            ),
        ],
        None,
    );
    resolve_merge_keys(&mut root);
    let pairs = get_mapping(&root);
    let derived = get(pairs, "derived").unwrap();
    let derived_pairs = get_mapping(derived);
    assert_eq!(get_scalar_value(get(derived_pairs, "x").unwrap()), "1");
    assert_eq!(get_scalar_value(get(derived_pairs, "y").unwrap()), "99");
    let keys: Vec<&CustomNode> = derived_pairs.iter().map(|(k, _)| k).collect();
    assert_eq!(get_scalar_value(keys[0]), "x");
    assert_eq!(get_scalar_value(keys[1]), "y");
}

#[test]
fn merge_earlier_alias_wins_and_ranges_cleared() {
    let mut inner = make_scalar("1");
    inner.set_source_range(10..11);
    let mut root = mapping(
        vec![
            (make_scalar("b1"), mapping(vec![(make_scalar("k"), inner)], Some("b1"))),
            (make_scalar("b2"), mapping(vec![(make_scalar("k"), make_scalar("2"))], Some("b2"))),
            (
                make_scalar("m"),
                mapping(
                    vec![(
                        make_scalar("<<"),
                        CustomNode::Sequence { items: vec![alias("b1"), alias("b2")], flow_style: true, meta: NodeMeta::default() },
                    )],
                    None,
                ),
            ),
        ],
        None,
    );
    resolve_merge_keys(&mut root);
    let m = get_mapping(get(get_mapping(&root), "m").unwrap());
    assert_eq!(m.len(), 1);
    assert_eq!(get_scalar_value(get(m, "k").unwrap()), "1");
    assert!(get(m, "k").unwrap().source_range().is_none());
    // the anchored mapping itself keeps its range
    let b1 = get_mapping(get(get_mapping(&root), "b1").unwrap());
    assert_eq!(b1[0].1.source_range().cloned(), Some(10..11));
}

#[test]
fn no_merge_key_leaves_tree_unchanged() {
    let original = mapping(vec![(make_scalar("a"), alias("zz"))], Some("t"));
    let mut root = original.clone();
    resolve_merge_keys(&mut root);
    assert_eq!(root, original);
}

#[test]
fn unknown_alias_merges_nothing() {
    let mut root = mapping(vec![(make_scalar("<<"), alias("missing")), (make_scalar("a"), make_scalar("1"))], None);
    resolve_merge_keys(&mut root);
    let pairs = get_mapping(&root);
    assert_eq!(pairs.len(), 2);
    assert!(get(pairs, "<<").is_some());
}

#[test]
fn merge_within_fuel_resolves_or_refuses_a_self_merge() {
    let inner = mapping(vec![(make_scalar("<<"), alias("a"))], None);
    let mut looping = mapping(vec![(make_scalar("x"), make_scalar("1")), (make_scalar("child"), inner)], Some("a"));
    assert!(!resolve_merge_keys_within(&mut looping, 50));
    assert!(get(get_mapping(&looping), "child").is_some());

    let base = mapping(vec![(make_scalar("timeout"), make_scalar("30"))], Some("d"));
    let prod = mapping(vec![(make_scalar("<<"), alias("d")), (make_scalar("host"), make_scalar("x"))], None);
    let mut root = mapping(vec![(make_scalar("defaults"), base), (make_scalar("prod"), prod)], None);
    assert!(resolve_merge_keys_within(&mut root, 10));
    let prod = get(get_mapping(&root), "prod").unwrap();
    assert_eq!(get_scalar_value(get(get_mapping(prod), "timeout").unwrap()), "30");
    let mut plain = mapping(vec![(make_scalar("k"), make_scalar("v"))], None);
    assert!(resolve_merge_keys_within(&mut plain, 0));
}
