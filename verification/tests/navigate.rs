use pyrs_yaml_core::ast::{CustomNode, NodeMeta};
use pyrs_yaml_core::navigate::{key_eq, mapping_key_index, navigate, normalize_index, parse_path_segments, Segment};
use pyrs_yaml_core::error::NavigateError;

fn mk_scalar(s: &str) -> CustomNode {
    CustomNode::plain_scalar(s)
}

fn mk_map(pairs: Vec<(&str, &str)>) -> CustomNode {
    CustomNode::Mapping {
        pairs: pairs.into_iter().map(|(k, v)| (mk_scalar(k), mk_scalar(v))).collect(),
        flow_style: false,
        meta: NodeMeta::default(),
    }
}

fn mk_seq(items: Vec<&str>) -> CustomNode {
    CustomNode::Sequence { items: items.into_iter().map(mk_scalar).collect(), flow_style: false, meta: NodeMeta::default() }
}

#[test]
fn test_key_eq_same_scalar() {
    assert!(key_eq(&mk_scalar("a"), &mk_scalar("a")));
}

#[test]
fn test_key_eq_different_scalar() {
    assert!(!key_eq(&mk_scalar("a"), &mk_scalar("b")));
}

#[test]
fn test_key_eq_same_mapping() {
    let a = mk_map(vec![("x", "1")]);
    let b = mk_map(vec![("x", "1")]);
    assert!(key_eq(&a, &b));
}

#[test]
fn test_key_eq_different_mapping() {
    let a = mk_map(vec![("x", "1")]);
    let b = mk_map(vec![("y", "2")]);
    assert!(!key_eq(&a, &b));
}

#[test]
fn test_mapping_key_index_found() {
    let pairs = vec![(mk_scalar("a"), mk_scalar("1")), (mk_scalar("b"), mk_scalar("2"))];
    assert_eq!(mapping_key_index(&pairs, &mk_scalar("a")), Some(0));
    assert_eq!(mapping_key_index(&pairs, &mk_scalar("b")), Some(1));
}

#[test]
fn test_mapping_key_index_not_found() {
    let pairs = vec![(mk_scalar("a"), mk_scalar("1"))];
    assert_eq!(mapping_key_index(&pairs, &mk_scalar("x")), None);
}

#[test]
fn test_navigate_mapping_key() {
    let node = mk_map(vec![("a", "1")]);
    let segs = [Segment::Key("a".to_string())];
    let result = navigate(&node, &segs).unwrap();
    assert!(key_eq(result, &mk_scalar("1")));
}

#[test]
fn test_navigate_missing_key() {
    let node = mk_map(vec![("a", "1")]);
    let segs = [Segment::Key("x".to_string())];
    assert!(matches!(navigate(&node, &segs), Err(NavigateError::Missing(_))));
}

#[test]
fn test_navigate_sequence_index() {
    let node = mk_seq(vec!["a", "b", "c"]);
    let segs = [Segment::Index(1)];
    let result = navigate(&node, &segs).unwrap();
    assert!(key_eq(result, &mk_scalar("b")));
}

#[test]
fn test_navigate_cannot_descend_scalar() {
    let node = mk_scalar("hello");
    let segs = [Segment::Key("x".to_string())];
    assert!(matches!(navigate(&node, &segs), Err(NavigateError::CannotDescend(_))));
}

#[test]
fn navigate_negative_index_counts_from_end() {
    let node = mk_seq(vec!["a", "b", "c"]);
    let result = navigate(&node, &[Segment::Index(-1)]).unwrap();
    assert!(key_eq(result, &mk_scalar("c")));
    assert_eq!(normalize_index(-1, 3), Some(2));
    assert_eq!(normalize_index(3, 3), None);
    assert_eq!(normalize_index(-4, 3), None);
}

#[test]
fn parse_path_segments_examples() {
    let segs = parse_path_segments("$.a[0].b").unwrap();
    assert_eq!(segs, vec![Segment::Key("a".to_string()), Segment::Index(0), Segment::Key("b".to_string())]);
    assert!(parse_path_segments("$..a").is_err());
    assert!(parse_path_segments("$.a[x]").is_err());
}

#[test]
fn navigate_mut_writes_through() {
    let mut node = mk_map(vec![("a", "1")]);
    let segs = [Segment::Key("a".to_string())];
    *pyrs_yaml_core::navigate::navigate_mut(&mut node, &segs).unwrap() = mk_scalar("9");
    assert!(key_eq(navigate(&node, &segs).unwrap(), &mk_scalar("9")));
}

#[test]
fn navigate_mut_errors_leave_tree_alone() {
    let mut node = mk_seq(vec!["a", "b"]);
    let before = node.clone();
    let r = pyrs_yaml_core::navigate::navigate_mut(&mut node, &[Segment::Index(5)]);
    assert!(matches!(r, Err(NavigateError::Missing(ref s)) if s == "5"));
    assert_eq!(node, before);
    let r = pyrs_yaml_core::navigate::navigate_mut(&mut node, &[Segment::Key("x".to_string())]);
    assert!(matches!(r, Err(NavigateError::CannotDescend(ref s)) if s == "x"));
}

#[test]
fn mapping_get_mut_finds_first_equal_key() {
    let mut pairs = vec![(mk_scalar("a"), mk_scalar("1")), (mk_scalar("b"), mk_scalar("2"))];
    if let Some(v) = pyrs_yaml_core::navigate::mapping_get_mut(&mut pairs, &mk_scalar("b")) {
        *v = mk_scalar("20");
    }
    assert!(key_eq(&pairs[1].1, &mk_scalar("20")));
    assert!(pyrs_yaml_core::navigate::mapping_get_mut(&mut pairs, &mk_scalar("z")).is_none());
}

#[test]
fn bracket_wildcard_is_refused_as_wildcard() {
    assert_eq!(
        parse_path_segments("$.a[*]").err(),
        Some(pyrs_yaml_core::error::PathError::WildcardOrDeepScan)
    );
    assert_eq!(
        parse_path_segments("$.a[x]").err(),
        Some(pyrs_yaml_core::error::PathError::InvalidIndex(String::new()))
    );
}
