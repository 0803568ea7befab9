use pyrs_yaml_core::ast::CustomNode;
use pyrs_yaml_core::registry::{CoreResolver, SchemaRegistry, SchemaResolver};
use pyrs_yaml_core::schema::YamlType;
use pyrs_yaml_core::schema_language::{schema_from_node, RuleResolver};

fn s(v: &str) -> CustomNode {
    CustomNode::plain_scalar(v)
}

fn dq(v: &str) -> CustomNode {
    CustomNode::double_quoted_scalar(v)
}

fn rule(pattern: CustomNode, ty: &str) -> CustomNode {
    CustomNode::plain_mapping(vec![(s("pattern"), pattern), (s("type"), s(ty))])
}

fn schema(name: &str, extends: Option<&str>, rules: Vec<CustomNode>) -> CustomNode {
    let mut pairs = vec![(s("name"), s(name))];
    if let Some(e) = extends {
        pairs.push((s("extends"), s(e)));
    }
    pairs.push((s("rules"), CustomNode::plain_sequence(rules)));
    CustomNode::plain_mapping(pairs)
}

fn parse(ast: &CustomNode) -> Result<RuleResolver<CoreResolver>, pyrs_yaml_core::error::ParseError> {
    let registry: SchemaRegistry<CoreResolver> = SchemaRegistry::new();
    schema_from_node(ast, &registry)
}

fn resolve(r: &RuleResolver<CoreResolver>, v: &str) -> YamlType {
    r.resolve(v)
}

#[test]
fn test_hex_int_rule() {
    let resolver = parse(&schema("hex", Some("core"), vec![rule(dq("^0x[0-9a-fA-F]+$"), "int")])).expect("parse schema");
    assert_eq!(resolve(&resolver, "0x1F"), YamlType::Int(31));
    assert_eq!(resolve(&resolver, "0xFF"), YamlType::Int(255));
    assert_eq!(resolve(&resolver, "42"), YamlType::Int(42));
    assert_eq!(resolve(&resolver, "hello"), YamlType::Str("hello".into()));
}

#[test]
fn test_date_str_rule_overrides_core() {
    let resolver =
        parse(&schema("dates", Some("core"), vec![rule(dq("^\\d{4}-\\d{2}-\\d{2}$"), "str")])).expect("parse schema");
    assert_eq!(resolve(&resolver, "2026-08-11"), YamlType::Str("2026-08-11".into()));
}

#[test]
fn test_bool_lexemes() {
    let resolver =
        parse(&schema("bools", Some("failsafe"), vec![rule(dq("^(yes|no|Yes|No|YES|NO)$"), "bool")])).expect("parse schema");
    assert_eq!(resolve(&resolver, "yes"), YamlType::Bool(true));
    assert_eq!(resolve(&resolver, "no"), YamlType::Bool(false));
    assert_eq!(resolve(&resolver, "YES"), YamlType::Bool(true));
    assert_eq!(resolve(&resolver, "42"), YamlType::Str("42".into()));
}

#[test]
fn test_first_rule_wins() {
    let resolver = parse(&schema(
        "order",
        Some("core"),
        vec![rule(dq("^0x[0-9a-fA-F]+$"), "int"), rule(dq("^0x.*$"), "str")],
    ))
    .expect("parse schema");
    assert_eq!(resolve(&resolver, "0x1F"), YamlType::Int(31));
}

#[test]
fn test_invalid_type_rejected() {
    assert!(parse(&schema("bad", None, vec![rule(dq("^x$"), "datetime")])).is_err());
}

#[test]
fn test_invalid_regex_rejected() {
    assert!(parse(&schema("bad", None, vec![rule(dq("[unclosed"), "int")])).is_err());
}

#[test]
fn test_no_rules_falls_through() {
    let resolver = parse(&schema("empty", Some("core"), vec![])).expect("parse schema");
    assert_eq!(resolve(&resolver, "42"), YamlType::Int(42));
}

#[test]
fn test_invalid_extends() {
    let resolver = parse(&schema("bad", None, vec![rule(s("^x$"), "int")])).expect("parse schema");
    assert_eq!(resolve(&resolver, "hello"), YamlType::Str("hello".into()));
}

#[test]
fn schema_must_be_a_mapping() {
    assert!(parse(&s("just text")).is_err());
    let not_a_list = CustomNode::plain_mapping(vec![(s("rules"), s("x"))]);
    assert!(parse(&not_a_list).is_err());
}
