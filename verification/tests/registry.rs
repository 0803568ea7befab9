use pyrs_yaml_core::registry::{
    CoreResolver, Schema, SchemaRegistry, SchemaResolver, Yaml11Resolver,
};
use pyrs_yaml_core::schema::YamlType;

#[derive(Debug, Clone, Copy)]
struct UpperResolver;

impl SchemaResolver for UpperResolver {
    fn resolve(&self, value: &str) -> YamlType {
        YamlType::Str(value.to_uppercase())
    }
}

#[test]
fn test_builtins_registered() {
    let reg = SchemaRegistry::<UpperResolver>::new();
    assert!(reg.schema_exists("core"));
    assert!(reg.schema_exists("json"));
    assert!(reg.schema_exists("failsafe"));
    assert!(reg.schema_exists("yaml1.1"));
    assert!(!reg.schema_exists("nope"));
}

#[test]
fn test_register_custom() {
    let mut reg = SchemaRegistry::new();
    reg.register("test_upper", UpperResolver);
    let s = reg.get("test_upper").expect("registered");
    match s.resolve("hello") {
        YamlType::Str(v) => assert_eq!(v, "HELLO"),
        other => panic!("expected Str, got {other:?}"),
    }
}

#[test]
fn test_override_builtin() {
    let mut reg = SchemaRegistry::<UpperResolver>::new();
    reg.register("core", UpperResolver);
    assert!(reg.get("core").is_some());
    assert_eq!(reg.names().len(), 4);
}

#[test]
fn names_in_registration_order() {
    let mut reg = SchemaRegistry::<UpperResolver>::new();
    reg.register("extra", UpperResolver);
    assert_eq!(reg.names(), vec!["failsafe", "json", "core", "yaml1.1", "extra"]);
}

#[test]
fn builtin_schema_resolves_by_profile() {
    let reg = SchemaRegistry::<UpperResolver>::new();
    let core = reg.get("core").unwrap();
    assert_eq!(core.resolve("42"), YamlType::Int(42));
    let fs = reg.get("failsafe").unwrap();
    assert_eq!(fs.resolve("42"), YamlType::Str("42".to_string()));
    assert_eq!(Yaml11Resolver.resolve("yes"), YamlType::Bool(true));
    assert_eq!(CoreResolver.resolve("yes"), YamlType::Str("yes".to_string()));
}

#[test]
fn schema_names_parse_case_insensitively() {
    assert!(Schema::<UpperResolver>::from_name("CORE").is_some());
    assert!(Schema::<UpperResolver>::from_name("yaml.org,2002:json").is_some());
    assert!(Schema::<UpperResolver>::from_name("1.1").is_some());
    assert!(Schema::<UpperResolver>::from_name("strict").is_none());
    let a = Schema::<UpperResolver>::from_name("json").unwrap();
    let b = Schema::<UpperResolver>::from_name("JSON").unwrap();
    assert!(a.same_as(&b));
    let c = Schema::Custom(UpperResolver);
    assert!(!c.same_as(&c));
}
