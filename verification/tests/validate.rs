use pyrs_yaml_core::ast::CustomNode;
use pyrs_yaml_core::registry::{CoreResolver, Schema};
use pyrs_yaml_core::schema::YamlType;
use pyrs_yaml_core::schema_language::{RuleResolver, YamlTypeKind};
use pyrs_yaml_core::validate::{
    mismatch_error, rule_path_to_segments, validate_violations, violation_error, violation_errors, MismatchContext,
    SchemaValidationError, ValidateKind, ValidateRule, Violation,
};
use pyrs_yaml_core::navigate::Segment;
use std::ops::Range;

fn s(v: &str) -> CustomNode {
    CustomNode::plain_scalar(v)
}

fn resolver(rules: Vec<ValidateRule>) -> RuleResolver<CoreResolver> {
    RuleResolver::with_validate_rules(Vec::new(), Some(Schema::Core), rules)
}

fn path_of(v: &Violation) -> &str {
    match v {
        Violation::RequiredMissing { path } => path,
        Violation::RequiredNull { path } => path,
        Violation::RequiredKindNull { path, .. } => path,
        Violation::TypeMismatch { path, .. } => path,
    }
}

fn tree() -> CustomNode {
    CustomNode::plain_mapping(vec![
        (s("a"), s("1")),
        (s("b"), CustomNode::plain_sequence(vec![s("x"), s("2")])),
        (s("c"), CustomNode::plain_null()),
    ])
}

#[test]
fn every_reported_path_exists() {
    let rr = resolver(vec![ValidateRule::new(None, ValidateKind::Type(YamlTypeKind::Str))]);
    let v = validate_violations(&tree(), &rr);
    let paths: Vec<&str> = v.iter().map(path_of).collect();
    assert_eq!(paths, vec!["$.a", "$.b[1]"]);
    let existing = ["$", "$.a", "$.b", "$.b[0]", "$.b[1]", "$.c"];
    assert!(paths.iter().all(|p| existing.contains(p)));
}

#[test]
fn type_mismatch_carries_resolution_and_context() {
    let rr = resolver(vec![ValidateRule::new(Some("$.b"), ValidateKind::SequenceOf(YamlTypeKind::Str))]);
    let v = validate_violations(&tree(), &rr);
    assert_eq!(v.len(), 1);
    match &v[0] {
        Violation::TypeMismatch { path, context, expected, resolved, range } => {
            assert_eq!(path, "$.b[1]");
            assert!(matches!(context, MismatchContext::SequenceElement));
            assert!(matches!(expected, YamlTypeKind::Str));
            assert_eq!(resolved, &YamlType::Int(2));
            assert!(range.is_none());
        }
        other => panic!("unexpected {:?}", other),
    }
}

#[test]
fn required_rules() {
    let rr = resolver(vec![
        ValidateRule::new(Some("$.zz"), ValidateKind::Required).with_required(true),
        ValidateRule::new(Some("$.c"), ValidateKind::Required),
    ]);
    let v = validate_violations(&tree(), &rr);
    assert!(matches!(&v[0], Violation::RequiredMissing { path } if path == "$.zz"));
    assert!(matches!(&v[1], Violation::RequiredKindNull { path, .. } if path == "$.c"));
    assert_eq!(v.len(), 2);
}

#[test]
fn rule_paths_and_readability() {
    assert_eq!(rule_path_to_segments("$.a[1].b").map(|v| v.len()), Some(3));
    assert!(rule_path_to_segments("$.a[*]").is_none());
    assert!(rule_path_to_segments("a.b").is_none());
    assert_eq!(rule_path_to_segments("$.é"), Some(vec![Segment::Key("é".to_string())]));
    assert_eq!(
        rule_path_to_segments("$.ключ[0]"),
        Some(vec![Segment::Key("ключ".to_string()), Segment::Index(0)])
    );
}

#[test]
fn required_rule_with_non_ascii_path() {
    let rr = resolver(vec![ValidateRule::new(Some("$.ключ"), ValidateKind::Required).with_required(true)]);
    let ast = CustomNode::plain_mapping(vec![(CustomNode::plain_scalar("ключ"), CustomNode::plain_scalar("1"))]);
    assert!(validate_violations(&ast, &rr).is_empty());
}

#[test]
fn errors_from_violations() {
    let v = Violation::RequiredNull { path: "$.a".to_string() };
    let e = violation_error(&v, "a:\n").unwrap();
    assert_eq!(e.path, "$.a");
    assert_eq!(e.message, "required value is null or missing");
    assert_eq!(e.line, None);
    let v = Violation::RequiredMissing { path: "$.z".to_string() };
    assert_eq!(violation_error(&v, "").unwrap().message, "required path is missing");
    let v = Violation::RequiredKindNull { path: "$.b".to_string(), range: Some(5..6) };
    let e = violation_error(&v, "a: 1\nb: ~\n").unwrap();
    assert_eq!(e.message, "required path is null or missing");
    assert_eq!((e.line, e.column), (Some(2), Some(1)));
    let e = mismatch_error("$.a", MismatchContext::SequenceElement, YamlTypeKind::Int, "Str(\"x\")", "", None);
    assert_eq!(e.message, "expected sequence element int but got Str(\"x\")");
    assert_eq!(e.path, "$.a");
}

#[test]
fn line_start_byte_is_on_its_line() {
    let e = SchemaValidationError::new("$.b", "m").with_location("a: 1\nb: x\n", Some(&(5..9)));
    assert_eq!((e.line, e.column), (Some(2), Some(1)));
    assert_eq!(e.path, "$.b");
    assert_eq!(e.message, "m");
    let e = SchemaValidationError::new("$.a", "m").with_location("a: 1\n", Some(&(0..1)));
    assert_eq!((e.line, e.column), (Some(1), Some(1)));
}

#[test]
fn error_location_from_byte_range() {
    let source = "a: 1\nb: xyz\n";
    let r: Range<usize> = 8..11;
    let e = SchemaValidationError::new("$.b", "bad").with_location(source, Some(&r));
    assert_eq!(e.line, Some(2));
    assert_eq!(e.column, Some(4));
    let e = SchemaValidationError::new("$.b", "bad").with_location(source, None);
    assert_eq!(e.line, None);
}

#[test]
fn display_text_of_errors() {
    let e = SchemaValidationError::new("$.a", "bad value");
    assert_eq!(e.to_display_string(), "$.a: bad value");
    let source = "a: 1\nb: xyz\n";
    let r: Range<usize> = 8..11;
    let e = SchemaValidationError::new("$.b", "bad").with_location(source, Some(&r));
    assert_eq!(e.to_display_string(), "2:4: bad");
}

#[derive(Debug, Clone, Copy)]
struct IntEverywhere;

impl pyrs_yaml_core::registry::SchemaResolver for IntEverywhere {
    fn resolve(&self, _value: &str) -> YamlType {
        YamlType::Int(0)
    }
}

#[test]
fn missing_required_paths_come_first_with_a_custom_fallback() {
    let rr = RuleResolver::with_validate_rules(
        Vec::new(),
        Some(Schema::Custom(IntEverywhere)),
        vec![
            ValidateRule::new(None, ValidateKind::Type(YamlTypeKind::Str)),
            ValidateRule::new(Some("$.zz"), ValidateKind::Required).with_required(true),
        ],
    );
    let v = validate_violations(&tree(), &rr);
    assert!(matches!(&v[0], Violation::RequiredMissing { path } if path == "$.zz"));
    assert!(v[1..].iter().all(|x| !matches!(x, Violation::RequiredMissing { .. })));
}

#[test]
fn all_errors_of_a_validation() {
    let ast = CustomNode::plain_mapping(vec![
        (s("a"), CustomNode::plain_null()),
        (s("n"), s("x")),
    ]);
    let rr = resolver(vec![
        ValidateRule::new(Some("$.a"), ValidateKind::Required).with_required(true),
        ValidateRule::new(Some("$.n"), ValidateKind::Type(YamlTypeKind::Int)),
    ]);
    let vs = validate_violations(&ast, &rr);
    assert_eq!(vs.len(), 2);
    let got = vec![String::new(), "Str(\"x\")".to_string()];
    let errors = violation_errors(&vs, &got, "a:\nn: x\n");
    assert_eq!(errors.len(), 2);
    assert_eq!(errors[0].path, "$.a");
    assert_eq!(errors[0].message, "required value is null or missing");
    assert_eq!(errors[1].path, "$.n");
    assert_eq!(errors[1].message, "expected int but got Str(\"x\")");
}

#[test]
fn custom_fallback_still_reports_nulls_and_rule_matched_mismatches() {
    let ast = CustomNode::plain_mapping(vec![
        (s("a"), CustomNode::plain_null()),
        (s("n"), s("x")),
    ]);
    let rr = RuleResolver::with_validate_rules(
        Vec::new(),
        Some(Schema::Custom(IntEverywhere)),
        vec![
            ValidateRule::new(Some("$.a"), ValidateKind::Required).with_required(true),
            ValidateRule::new(Some("$.n"), ValidateKind::Type(YamlTypeKind::Str)),
        ],
    );
    let vs = validate_violations(&ast, &rr);
    assert!(matches!(&vs[0], Violation::RequiredNull { path } if path == "$.a"));
    assert!(matches!(&vs[1], Violation::TypeMismatch { path, .. } if path == "$.n"));
    assert_eq!(vs.len(), 2);
}
