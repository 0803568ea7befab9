use pyrs_yaml_core::config::{ConfigError, YamlConfig};
use pyrs_yaml_core::registry::{CoreResolver, SchemaRegistry};

fn registry() -> SchemaRegistry<CoreResolver> {
    SchemaRegistry::new()
}

#[test]
fn valid_configuration() {
    let reg = registry();
    let c = YamlConfig::new("rt", "core", 1000, false, &reg).unwrap();
    assert_eq!(c.yaml_type(), "rt");
    assert_eq!(c.schema(), "core");
    assert_eq!(c.max_depth(), 1000);
    assert!(!c.allow_duplicate_keys());
    assert!(c.resolve_merges());
    let s = YamlConfig::new("safe", "yaml1.1", 5, true, &reg).unwrap();
    assert!(!s.resolve_merges());
    assert!(s.allow_duplicate_keys());
    assert!(YamlConfig::new("full", "json", 1, false, &reg).unwrap().resolve_merges());
}

#[test]
fn invalid_mode() {
    let reg = registry();
    assert_eq!(
        YamlConfig::new("fast", "core", 1000, false, &reg).err(),
        Some(ConfigError::InvalidType("Invalid YAML type: 'fast'. Valid types: rt, safe, full".to_string()))
    );
}

#[test]
fn invalid_schema() {
    let reg = registry();
    assert_eq!(
        YamlConfig::new("rt", "nope", 1000, false, &reg).err(),
        Some(ConfigError::InvalidSchema(
            "Invalid schema: 'nope'. Valid schemas: core, yaml1.1, failsafe, json (plus any registered custom schemas)"
                .to_string()
        ))
    );
}
