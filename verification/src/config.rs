//! The settings of a configured YAML instance: the loading mode (`rt`,
//! `safe` or `full`), the schema name, the depth limit and the duplicate-key
//! policy.
use crate::registry::{entry_index, SchemaRegistry};
use crate::text::{str_equals, string_from};
use vstd::prelude::*;

verus! {

/// The loading modes.
pub open spec fn is_mode(t: Seq<char>) -> bool {
    t == "rt"@ || t == "safe"@ || t == "full"@
}

/// The message refusing loading mode `t`.
pub open spec fn invalid_mode_message(t: Seq<char>) -> Seq<char> {
    "Invalid YAML type: '"@ + t + "'. Valid types: rt, safe, full"@
}

/// The message refusing schema name `s`.
pub open spec fn invalid_schema_message(s: Seq<char>) -> Seq<char> {
    "Invalid schema: '"@ + s
        + "'. Valid schemas: core, yaml1.1, failsafe, json (plus any registered custom schemas)"@
}

/// Why a configuration was refused.
#[derive(Debug, PartialEq, Eq, Clone)]
pub enum ConfigError {
    /// The loading mode is not one of `rt`, `safe`, `full`.
    InvalidType(String),
    /// No schema of that name is registered.
    InvalidSchema(String),
}

/// A validated configuration.
pub struct YamlConfig {
    yaml_type: String,
    schema: String,
    max_depth: usize,
    allow_duplicate_keys: bool,
}

impl YamlConfig {
    pub closed spec fn mode(&self) -> Seq<char> {
        self.yaml_type@
    }

    pub closed spec fn schema_name(&self) -> Seq<char> {
        self.schema@
    }

    pub closed spec fn depth_limit(&self) -> usize {
        self.max_depth
    }

    pub closed spec fn duplicates_allowed(&self) -> bool {
        self.allow_duplicate_keys
    }

    /// Check the loading mode, then that the schema is registered.
    pub fn new<R: Clone>(
        typ: &str,
        schema: &str,
        max_depth: usize,
        allow_duplicate_keys: bool,
        registry: &SchemaRegistry<R>,
    ) -> (res: Result<Self, ConfigError>)
        requires
            registry.wf(),
        ensures
            !is_mode(typ@) ==> (res matches Err(ConfigError::InvalidType(m)) && m@ == invalid_mode_message(
                typ@,
            )),
            is_mode(typ@) && entry_index(registry.entries(), schema@) is None ==> (res matches Err(
                ConfigError::InvalidSchema(m),
            ) && m@ == invalid_schema_message(schema@)),
            is_mode(typ@) && entry_index(registry.entries(), schema@) is Some ==> (res matches Ok(c) && c.mode()
                == typ@ && c.schema_name() == schema@ && c.depth_limit() == max_depth && c.duplicates_allowed()
                == allow_duplicate_keys),
    {
        proof {
            reveal_strlit("rt");
            reveal_strlit("safe");
            reveal_strlit("full");
        }
        if !(str_equals(typ, "rt") || str_equals(typ, "safe") || str_equals(typ, "full")) {
            let mut m = string_from("Invalid YAML type: '");
            m.append(typ);
            m.append("'. Valid types: rt, safe, full");
            return Err(ConfigError::InvalidType(m));
        }
        if !registry.schema_exists(schema) {
            let mut m = string_from("Invalid schema: '");
            m.append(schema);
            m.append("'. Valid schemas: core, yaml1.1, failsafe, json (plus any registered custom schemas)");
            return Err(ConfigError::InvalidSchema(m));
        }
        Ok(YamlConfig { yaml_type: string_from(typ), schema: string_from(schema), max_depth, allow_duplicate_keys })
    }

    /// Whether loading resolves merge keys: in the `rt` and `full` modes.
    pub fn resolve_merges(&self) -> (res: bool)
        ensures
            res == (self.mode() == "rt"@ || self.mode() == "full"@),
    {
        proof {
            reveal_strlit("rt");
            reveal_strlit("full");
        }
        str_equals(self.yaml_type.as_str(), "rt") || str_equals(self.yaml_type.as_str(), "full")
    }

    /// The loading mode.
    pub fn yaml_type(&self) -> (res: &str)
        ensures
            res@ == self.mode(),
    {
        self.yaml_type.as_str()
    }

    /// The schema name.
    pub fn schema(&self) -> (res: &str)
        ensures
            res@ == self.schema_name(),
    {
        self.schema.as_str()
    }

    /// The depth limit.
    pub fn max_depth(&self) -> (res: usize)
        ensures
            res == self.depth_limit(),
    {
        self.max_depth
    }

    /// Whether duplicate keys are allowed (last value wins).
    pub fn allow_duplicate_keys(&self) -> (res: bool)
        ensures
            res == self.duplicates_allowed(),
    {
        self.allow_duplicate_keys
    }
}

} // verus!
