use pyrs_yaml_core::ast::{Comment, CustomNode, NodeMeta};
use pyrs_yaml_core::dirty::{DirtyKind, DirtyUnit};
use pyrs_yaml_core::splice::SpliceState;
use pyrs_yaml_core::edit::{append_path, delete_path, insert_path, rename_path, set_path};
use pyrs_yaml_core::error::EditError;
use pyrs_yaml_core::navigate::{key_eq, navigate, Segment};
use pyrs_yaml_core::serializer::{to_yaml_with_options, SerializeOptions};

fn s(v: &str) -> CustomNode {
    CustomNode::plain_scalar(v)
}

fn map(pairs: Vec<(&str, CustomNode)>) -> CustomNode {
    CustomNode::plain_mapping(pairs.into_iter().map(|(k, v)| (s(k), v)).collect())
}

fn seq(items: Vec<&str>) -> CustomNode {
    CustomNode::plain_sequence(items.into_iter().map(s).collect())
}

fn key(k: &str) -> Segment {
    Segment::Key(k.to_string())
}

fn dump(n: &CustomNode) -> String {
    to_yaml_with_options(n, &SerializeOptions::default()).unwrap()
}

#[test]
fn set_replaces_an_existing_value_in_place() {
    let mut root = map(vec![("a", s("1")), ("b", s("2"))]);
    set_path(&mut root, &[key("a")], s("9"), false, "", None, false).unwrap();
    assert_eq!(dump(&root), "a: 9\nb: 2\n");
}

#[test]
fn set_adds_a_new_key_at_the_end() {
    let mut root = map(vec![("a", s("1"))]);
    set_path(&mut root, &[key("z")], s("3"), false, "", None, false).unwrap();
    assert_eq!(dump(&root), "a: 1\nz: 3\n");
}

#[test]
fn set_nested_value_and_sequence_item() {
    let mut root = map(vec![("a", map(vec![("b", seq(vec!["x", "y"]))]))]);
    set_path(&mut root, &[key("a"), key("b"), Segment::Index(-1)], s("z"), false, "", None, false).unwrap();
    assert_eq!(dump(&root), "a:\n  b:\n    - x\n    - z\n");
}

#[test]
fn set_index_out_of_range_leaves_the_tree() {
    let mut root = map(vec![("a", seq(vec!["x"]))]);
    let r = set_path(&mut root, &[key("a"), Segment::Index(5)], s("z"), false, "", None, false);
    assert!(matches!(r, Err(EditError::IndexOutOfRange)));
    assert_eq!(dump(&root), "a:\n  - x\n");
}

#[test]
fn set_below_a_scalar_needs_a_mapping() {
    let mut root = map(vec![("a", s("1"))]);
    let r = set_path(&mut root, &[key("a"), key("b")], s("2"), false, "", None, false);
    assert!(matches!(r, Err(EditError::CreateNeedsMapping)));
    assert_eq!(dump(&root), "a: 1\n");
}

#[test]
fn set_through_an_alias_is_refused() {
    let mut root = map(vec![("a", CustomNode::Alias { name: "x".to_string() })]);
    let r = set_path(&mut root, &[key("a"), key("b")], s("2"), false, "", None, false);
    assert!(matches!(r, Err(EditError::CannotEditAlias)));
}

#[test]
fn set_with_empty_path_replaces_the_root() {
    let mut root = map(vec![("a", s("1"))]);
    set_path(&mut root, &[], seq(vec!["q"]), false, "", None, false).unwrap();
    assert_eq!(dump(&root), "- q\n");
}

#[test]
fn set_on_null_root_makes_a_mapping() {
    let mut root = CustomNode::plain_null();
    set_path(&mut root, &[key("k")], s("v"), false, "", None, false).unwrap();
    assert_eq!(dump(&root), "k: v\n");
}

#[test]
fn set_on_null_root_with_deeper_path_reports_missing_key() {
    let mut root = CustomNode::plain_null();
    let r = set_path(&mut root, &[key("a"), key("b")], s("v"), false, "", None, false);
    match r {
        Err(EditError::MissingPath(k)) => assert_eq!(k, "a"),
        _ => panic!("expected a missing path"),
    }
    assert!(matches!(root, CustomNode::Mapping { ref pairs, .. } if pairs.is_empty()));
}

#[test]
fn set_creates_missing_mappings() {
    let mut root = map(vec![("x", s("1"))]);
    set_path(&mut root, &[key("a"), key("b"), key("c")], s("v"), false, "", None, true).unwrap();
    assert_eq!(dump(&root), "x: 1\na:\n  b:\n    c: v\n");
}

#[test]
fn set_creates_missing_mappings_below_an_existing_one() {
    let mut root = map(vec![("a", map(vec![("k", s("1"))]))]);
    set_path(&mut root, &[key("a"), key("b"), key("c")], s("v"), false, "", None, true).unwrap();
    assert_eq!(dump(&root), "a:\n  k: 1\n  b:\n    c: v\n");
}

#[test]
fn set_creates_missing_mappings_on_null_root() {
    let mut root = CustomNode::plain_null();
    set_path(&mut root, &[key("a"), key("b")], s("v"), false, "", None, true).unwrap();
    assert_eq!(dump(&root), "a:\n  b: v\n");
}

#[test]
fn creating_an_index_is_refused() {
    let mut root = map(vec![("x", s("1"))]);
    let r = set_path(&mut root, &[key("a"), Segment::Index(0), key("c")], s("v"), false, "", None, true);
    assert!(matches!(r, Err(EditError::CreateNeedsMapping)));
    assert_eq!(dump(&root), "x: 1\n");
}

#[test]
fn set_preserves_the_comment_of_the_replaced_value() {
    let mut old = s("1");
    if let CustomNode::Scalar { meta, .. } = &mut old {
        *meta = NodeMeta {
            comment: Some(Comment { text: "keep".to_string(), standalone: false }),
            anchor: None,
            tag: None,
            source_range: None,
        };
    }
    let mut root = map(vec![("a", old)]);
    set_path(&mut root, &[key("a")], s("2"), true, "", None, false).unwrap();
    match &root {
        CustomNode::Mapping { pairs, .. } => match &pairs[0].1 {
            CustomNode::Scalar { value, meta, .. } => {
                assert_eq!(value, "2");
                assert_eq!(meta.comment.as_ref().map(|c| c.text.clone()), Some("keep".to_string()));
            },
            _ => panic!("expected a scalar"),
        },
        _ => panic!("expected a mapping"),
    }
}

#[test]
fn delete_a_key_and_an_item() {
    let mut root = map(vec![("a", s("1")), ("b", seq(vec!["x", "y", "z"]))]);
    delete_path(&mut root, &[key("a")], "", None).unwrap();
    delete_path(&mut root, &[key("b"), Segment::Index(-2)], "", None).unwrap();
    assert_eq!(dump(&root), "b:\n  - x\n  - z\n");
}

#[test]
fn delete_errors() {
    let mut root = map(vec![("a", s("1"))]);
    assert!(matches!(delete_path(&mut root, &[], "", None), Err(EditError::Generic)));
    assert!(matches!(delete_path(&mut root, &[key("q")], "", None), Err(EditError::MissingKey)));
    assert!(matches!(delete_path(&mut root, &[key("q"), key("r")], "", None), Err(EditError::MissingPath(_))));
    assert_eq!(dump(&root), "a: 1\n");
}

#[test]
fn rename_keeps_value_and_position() {
    let mut root = map(vec![("a", s("1")), ("b", s("2"))]);
    rename_path(&mut root, &[key("a")], "c", "", None).unwrap();
    assert_eq!(dump(&root), "c: 1\nb: 2\n");
    rename_path(&mut root, &[key("c")], "c", "", None).unwrap();
    assert_eq!(dump(&root), "c: 1\nb: 2\n");
}

#[test]
fn rename_errors() {
    let mut root = map(vec![("a", s("1")), ("b", s("2"))]);
    assert!(matches!(rename_path(&mut root, &[], "x", "", None), Err(EditError::CannotRenameRoot)));
    assert!(matches!(rename_path(&mut root, &[key("a")], "b", "", None), Err(EditError::RenameKeyExists)));
    assert!(matches!(rename_path(&mut root, &[key("q")], "x", "", None), Err(EditError::MissingKey)));
    assert_eq!(dump(&root), "a: 1\nb: 2\n");
}

#[test]
fn insert_and_append_items() {
    let mut root = map(vec![("l", seq(vec!["b", "d"]))]);
    insert_path(&mut root, &[key("l")], 0, s("a"), "", None).unwrap();
    insert_path(&mut root, &[key("l")], -1, s("c"), "", None).unwrap();
    append_path(&mut root, &[key("l")], s("e"), "", None).unwrap();
    insert_path(&mut root, &[key("l")], 5, s("f"), "", None).unwrap();
    assert_eq!(dump(&root), "l:\n  - a\n  - b\n  - c\n  - d\n  - e\n  - f\n");
}

#[test]
fn insert_errors() {
    let mut root = map(vec![("l", seq(vec!["b"])), ("m", s("1"))]);
    assert!(matches!(insert_path(&mut root, &[key("l")], 3, s("x"), "", None), Err(EditError::IndexOutOfRange)));
    assert!(matches!(insert_path(&mut root, &[key("l")], -2, s("x"), "", None), Err(EditError::IndexOutOfRange)));
    assert!(matches!(append_path(&mut root, &[key("m")], s("x"), "", None), Err(EditError::NotASequence)));
    assert_eq!(dump(&root), "l:\n  - b\nm: 1\n");
}

#[test]
fn set_then_read_gives_the_value() {
    let mut root = map(vec![("x", s("1"))]);
    let path = [key("a"), key("b")];
    set_path(&mut root, &path, s("v"), false, "", None, true).unwrap();
    assert!(key_eq(navigate(&root, &path).unwrap(), &s("v")));
    set_path(&mut root, &[key("x")], s("2"), false, "", None, false).unwrap();
    assert!(key_eq(navigate(&root, &[key("x")]).unwrap(), &s("2")));
}

#[test]
fn append_then_read_last_item() {
    let mut root = map(vec![("l", seq(vec!["a"]))]);
    append_path(&mut root, &[key("l")], s("b"), "", None).unwrap();
    assert!(key_eq(navigate(&root, &[key("l"), Segment::Index(-1)]).unwrap(), &s("b")));
    insert_path(&mut root, &[key("l")], 1, s("m"), "", None).unwrap();
    assert!(key_eq(navigate(&root, &[key("l"), Segment::Index(1)]).unwrap(), &s("m")));
}

#[test]
fn rename_then_read_by_new_key() {
    let mut root = map(vec![("a", map(vec![("k", s("1")), ("q", s("2"))]))]);
    rename_path(&mut root, &[key("a"), key("q")], "r", "", None).unwrap();
    assert!(key_eq(navigate(&root, &[key("a"), key("r")]).unwrap(), &s("2")));
    assert!(navigate(&root, &[key("a"), key("q")]).is_err());
}

#[test]
fn delete_then_read_parent() {
    let mut root = map(vec![("b", seq(vec!["x", "y", "z"]))]);
    delete_path(&mut root, &[key("b"), Segment::Index(1)], "", None).unwrap();
    let parent = navigate(&root, &[key("b")]).unwrap();
    assert!(key_eq(parent, &seq(vec!["x", "z"])));
}

fn at(mut n: CustomNode, start: usize, end: usize) -> CustomNode {
    n.set_source_range(start..end);
    n
}

fn spliced(source: &str, unit: &DirtyUnit) -> Option<String> {
    let mut st = SpliceState::new(source.to_string());
    st.apply(unit).ok()?;
    st.materialize()
}

/// `a: 1\nb: 2\n` with its source ranges.
fn ab_tree() -> CustomNode {
    at(
        CustomNode::plain_mapping(vec![
            (at(s("a"), 0, 1), at(s("1"), 3, 4)),
            (at(s("b"), 5, 6), at(s("2"), 8, 9)),
        ]),
        0,
        10,
    )
}

#[test]
fn set_existing_key_gives_a_region_over_its_line() {
    let src = "a: 1\nb: 2\n";
    let mut root = ab_tree();
    let u = set_path(&mut root, &[key("a")], s("9"), false, src, None, false).unwrap();
    assert!(u.eligible);
    match &u.kind {
        DirtyKind::Region { range, indent, text } => {
            assert_eq!(range.clone(), 0..5);
            assert_eq!(*indent, 0);
            assert_eq!(text, "a: 9\n");
        },
        other => panic!("expected a region, got {:?}", other),
    }
    assert_eq!(spliced(src, &u), Some("a: 9\nb: 2\n".to_string()));
}

#[test]
fn set_new_key_inserts_after_the_last_pair() {
    let src = "a: 1\nb: 2\n";
    let mut root = ab_tree();
    let u = set_path(&mut root, &[key("c")], s("3"), false, src, None, false).unwrap();
    assert!(u.eligible);
    assert!(matches!(&u.kind, DirtyKind::Insert { at: 10, text } if text == "c: 3\n"));
    assert_eq!(spliced(src, &u), Some("a: 1\nb: 2\nc: 3\n".to_string()));
}

#[test]
fn delete_takes_the_comment_lines_above() {
    let src = "# note\na: 1\nb: 2\n";
    let mut root = at(
        CustomNode::plain_mapping(vec![
            (at(s("a"), 7, 8), at(s("1"), 10, 11)),
            (at(s("b"), 12, 13), at(s("2"), 15, 16)),
        ]),
        7,
        17,
    );
    let u = delete_path(&mut root, &[key("a")], src, None).unwrap();
    assert!(u.eligible);
    assert!(matches!(&u.kind, DirtyKind::Delete { range } if *range == (0..12)));
    assert_eq!(spliced(src, &u), Some("b: 2\n".to_string()));
}

#[test]
fn rename_rewrites_the_pair_line() {
    let src = "a: 1\nb: 2\n";
    let mut root = ab_tree();
    let u = rename_path(&mut root, &[key("b")], "c", src, None).unwrap();
    assert_eq!(spliced(src, &u), Some("a: 1\nc: 2\n".to_string()));
}

/// `l:\n  - x\n  - y\n` with its source ranges.
fn list_tree() -> CustomNode {
    let items = at(CustomNode::plain_sequence(vec![at(s("x"), 7, 8), at(s("y"), 13, 14)]), 5, 15);
    at(CustomNode::plain_mapping(vec![(at(s("l"), 0, 1), items)]), 0, 15)
}

#[test]
fn append_and_insert_items_in_place() {
    let src = "l:\n  - x\n  - y\n";
    let mut root = list_tree();
    let u = append_path(&mut root, &[key("l")], s("z"), src, None).unwrap();
    assert!(u.eligible);
    assert_eq!(spliced(src, &u), Some("l:\n  - x\n  - y\n  - z\n".to_string()));
    let mut root = list_tree();
    let u = insert_path(&mut root, &[key("l")], 0, s("w"), src, None).unwrap();
    assert_eq!(spliced(src, &u), Some("l:\n  - w\n  - x\n  - y\n".to_string()));
    let mut root = list_tree();
    let u = set_path(&mut root, &[key("l"), Segment::Index(1)], s("q"), false, src, None, false).unwrap();
    assert_eq!(spliced(src, &u), Some("l:\n  - x\n  - q\n".to_string()));
}

#[test]
fn units_without_source_ranges_or_in_flow_are_not_spliced() {
    let mut root = map(vec![("a", s("1"))]);
    let u = set_path(&mut root, &[key("a")], s("2"), false, "a: 1\n", None, false).unwrap();
    assert!(!u.eligible);
    let mut flow = ab_tree();
    if let CustomNode::Mapping { flow_style, .. } = &mut flow {
        *flow_style = true;
    }
    let u = set_path(&mut flow, &[key("a")], s("9"), false, "{a: 1, b: 2}", None, false).unwrap();
    assert!(!u.eligible);
}

#[test]
fn empty_path_replaces_the_whole_text() {
    let src = "a: 1\n";
    let mut root = ab_tree();
    let u = set_path(&mut root, &[], s("x"), false, src, None, false).unwrap();
    assert_eq!(spliced(src, &u), Some("x\n".to_string()));
}

#[test]
fn given_line_offsets_are_used() {
    let src = "a: 1\nb: 2\n";
    let mut root = ab_tree();
    let offs = [0usize, 5, 10];
    let u = set_path(&mut root, &[key("a")], s("9"), false, src, Some(&offs), false).unwrap();
    assert_eq!(spliced(src, &u), Some("a: 9\nb: 2\n".to_string()));
}

#[test]
fn edits_never_duplicate_a_key() {
    let mut root = map(vec![("a", s("1")), ("b", s("2"))]);
    set_path(&mut root, &[key("a")], s("3"), false, "", None, false).unwrap();
    set_path(&mut root, &[key("c")], s("4"), false, "", None, false).unwrap();
    assert!(rename_path(&mut root, &[key("c")], "a", "", None).is_err());
    assert_eq!(dump(&root), "a: 3\nb: 2\nc: 4\n");
}
