use pyrs_yaml_core::ast::{CustomNode, NodeMeta};
use pyrs_yaml_core::dirty::{DirtyKind, DirtyUnit};
use pyrs_yaml_core::document::{ItemError, ItemKey, YamlDocument};
use pyrs_yaml_core::serializer::to_yaml;

type Doc = YamlDocument<()>;

fn mapping(pairs: Vec<(CustomNode, CustomNode)>) -> CustomNode {
    CustomNode::Mapping { pairs, flow_style: false, meta: NodeMeta::default() }
}

fn sample() -> Doc {
    let ast = mapping(vec![
        (CustomNode::plain_scalar("a"), CustomNode::plain_scalar("1")),
        (CustomNode::quoted_scalar("b"), CustomNode::plain_scalar("2")),
    ]);
    Doc::from_ast(ast, "a: 1\n'b': 2\n".to_string())
}

fn region(range: std::ops::Range<usize>, text: &str) -> DirtyUnit {
    DirtyUnit { kind: DirtyKind::Region { range, indent: 0, text: text.to_string() }, eligible: true }
}

fn scalar_text(n: &CustomNode) -> String {
    match n {
        CustomNode::Scalar { value, .. } => value.clone(),
        _ => panic!("not a scalar"),
    }
}

fn with_value(doc: &Doc, v: &str) -> CustomNode {
    let mut ast = doc.ast().clone();
    if let CustomNode::Mapping { pairs, .. } = &mut ast {
        pairs[0].1 = CustomNode::plain_scalar(v);
    }
    ast
}

#[test]
fn fresh_document_state() {
    let doc = sample();
    assert_eq!(doc.root_type(), "mapping");
    assert_eq!(doc.len(), 2);
    assert_eq!(doc.version(), "1.2");
    assert_eq!(doc.revision(), 0);
    assert!(!doc.is_source_dirty());
    assert!(!doc.has_splice());
}

#[test]
fn lookup_uses_plain_keys() {
    let doc = sample();
    assert!(doc.contains_key("a"));
    assert_eq!(scalar_text(doc.get("a").unwrap()), "1");
    // The second key is quoted, so it is not the plain scalar `b`.
    assert!(!doc.contains_key("b"));
    assert!(doc.get("zz").is_none());
}

#[test]
fn subscripts() {
    let doc = sample();
    assert_eq!(scalar_text(doc.item(&ItemKey::Key("a".to_string())).unwrap()), "1");
    assert_eq!(doc.item(&ItemKey::Key("zz".to_string())).err(), Some(ItemError::KeyNotFound));
    assert_eq!(doc.item(&ItemKey::Index(0)).err(), Some(ItemError::KeyNotString));

    let seq = CustomNode::plain_sequence(vec![CustomNode::plain_scalar("x")]);
    let sdoc = Doc::from_ast(seq, "- x\n".to_string());
    assert_eq!(sdoc.root_type(), "sequence");
    assert_eq!(sdoc.len(), 1);
    assert_eq!(scalar_text(sdoc.item(&ItemKey::Index(0)).unwrap()), "x");
    assert_eq!(sdoc.item(&ItemKey::Index(1)).err(), Some(ItemError::IndexOutOfRange));
    assert_eq!(sdoc.item(&ItemKey::Key("x".to_string())).err(), Some(ItemError::IndexNotInteger));
    assert!(!sdoc.contains_key("x"));

    let scalar = Doc::from_ast(CustomNode::plain_scalar("v"), "v\n".to_string());
    assert_eq!(scalar.root_type(), "scalar");
    assert_eq!(scalar.len(), 0);
    assert_eq!(scalar.item(&ItemKey::Other).err(), Some(ItemError::NotSubscriptable));
    let null = Doc::from_ast(CustomNode::plain_null(), String::new());
    assert_eq!(null.root_type(), "null");
}

#[test]
fn spliced_edit_rewrites_only_its_region() {
    let mut doc = sample();
    doc.ensure_splice(true);
    assert!(doc.has_splice());
    let ast = with_value(&doc, "5");
    doc.apply_edit(ast, &region(3..4, "5"));
    assert_eq!(doc.revision(), 1);
    assert!(doc.is_source_dirty());
    assert_eq!(doc.source_text().unwrap(), "a: 5\n'b': 2\n");
    assert!(!doc.is_source_dirty());
    assert!(!doc.has_splice());
}

#[test]
fn unsplicable_edit_falls_back_to_serializing() {
    let mut doc = sample();
    doc.ensure_splice(true);
    let ast = with_value(&doc, "7");
    let expected = to_yaml(&ast);
    doc.apply_edit(ast, &DirtyUnit { kind: DirtyKind::Insert { at: 99, text: "x".to_string() }, eligible: true });
    assert!(!doc.has_splice());
    assert_eq!(doc.source_text().unwrap(), expected);
}

#[test]
fn splice_is_computed_once() {
    let mut doc = sample();
    doc.ensure_splice(false);
    assert!(!doc.has_splice());
    doc.ensure_splice(true);
    assert!(!doc.has_splice());
}

#[test]
fn failed_scope_rolls_back() {
    let mut doc = sample();
    doc.enter();
    let ast = with_value(&doc, "9");
    doc.apply_edit(ast, &region(3..4, "9"));
    assert_eq!(scalar_text(doc.get("a").unwrap()), "9");
    assert!(!doc.exit(true));
    assert_eq!(scalar_text(doc.get("a").unwrap()), "1");
    assert_eq!(doc.revision(), 0);
    assert!(!doc.is_source_dirty());
    assert_eq!(doc.source_text().unwrap(), "a: 1\n'b': 2\n");
}

#[test]
fn clean_scope_keeps_edits() {
    let mut doc = sample();
    doc.enter();
    let ast = with_value(&doc, "9");
    doc.apply_edit(ast, &region(3..4, "9"));
    assert!(!doc.exit(false));
    assert_eq!(scalar_text(doc.get("a").unwrap()), "9");
    assert_eq!(doc.revision(), 1);
}

#[test]
fn nested_scopes_restore_their_own_state() {
    let mut doc = sample();
    doc.enter();
    doc.apply_edit(with_value(&doc, "2"), &region(3..4, "2"));
    doc.enter();
    doc.apply_edit(with_value(&doc, "3"), &region(3..4, "3"));
    doc.exit(true);
    assert_eq!(scalar_text(doc.get("a").unwrap()), "2");
    doc.exit(true);
    assert_eq!(scalar_text(doc.get("a").unwrap()), "1");
    // No open scope: nothing to restore.
    doc.apply_edit(with_value(&doc, "4"), &region(3..4, "4"));
    doc.exit(true);
    assert_eq!(scalar_text(doc.get("a").unwrap()), "4");
}

#[test]
fn reparse_round_trip_of_state() {
    let mut doc = sample();
    doc.ensure_splice(true);
    doc.apply_edit(with_value(&doc, "6"), &region(3..4, "6"));
    let src = doc.source_for_reparse().unwrap();
    assert_eq!(src, Some("a: 6\n'b': 2\n".to_string()));
    let parsed = with_value(&doc, "6");
    doc.install_reparsed(parsed, pyrs_yaml_core::registry::Schema::Yaml1_1);
    assert!(!doc.has_splice());
    assert!(!doc.is_source_dirty());
    assert_eq!(doc.revision(), 1);
    // The splice state is computed afresh on the next edit.
    doc.ensure_splice(true);
    assert!(doc.has_splice());
}
