//! Named YAML schemas: the built-in schemas, custom resolvers supplied by
//! the user, and a registry that maps schema names to schemas.
//!
//! A registry starts with the four built-in schemas (`failsafe`, `json`,
//! `core`, `yaml1.1`); registering under a name that is present replaces
//! that entry.
use crate::schema::{
    eq_ignore_case, resolve_core_type, resolve_failsafe, resolve_json_type, resolve_spec,
    resolve_yaml11_type, YamlSchema, YamlType,
};
use crate::text::{chars_of, str_equals};
use vstd::prelude::*;

verus! {

/// Extension point for custom schema resolvers: called for each plain
/// scalar to determine its YAML type.
pub trait SchemaResolver {
    /// Resolve a plain scalar value to its YAML type.
    fn resolve(&self, value: &str) -> YamlType;
}

/// Resolver of the failsafe schema.
#[derive(Debug, Clone, Copy)]
pub struct FailsafeResolver;

/// Resolver of the JSON schema.
#[derive(Debug, Clone, Copy)]
pub struct JsonResolver;

/// Resolver of the YAML 1.2 core schema.
#[derive(Debug, Clone, Copy)]
pub struct CoreResolver;

/// Resolver of the YAML 1.1 schema.
#[derive(Debug, Clone, Copy)]
pub struct Yaml11Resolver;

impl SchemaResolver for FailsafeResolver {
    fn resolve(&self, value: &str) -> (res: YamlType)
        ensures
            res@ == resolve_spec(value@, YamlSchema::Failsafe),
    {
        resolve_failsafe(value)
    }
}

impl SchemaResolver for JsonResolver {
    fn resolve(&self, value: &str) -> (res: YamlType)
        ensures
            res@ == resolve_spec(value@, YamlSchema::Json),
    {
        resolve_json_type(value)
    }
}

impl SchemaResolver for CoreResolver {
    fn resolve(&self, value: &str) -> (res: YamlType)
        ensures
            res@ == resolve_spec(value@, YamlSchema::Core),
    {
        resolve_core_type(value)
    }
}

impl SchemaResolver for Yaml11Resolver {
    fn resolve(&self, value: &str) -> (res: YamlType)
        ensures
            res@ == resolve_spec(value@, YamlSchema::Yaml1_1),
    {
        resolve_yaml11_type(value)
    }
}

/// A resolved schema: a built-in one, or a custom resolver of type `R`.
pub enum Schema<R> {
    /// No implicit resolution: every plain scalar is a string.
    Failsafe,
    /// JSON-compatible subset (no inf, nan, 0x, 0o).
    Json,
    /// YAML 1.2 Core: the default.
    Core,
    /// YAML 1.1: adds legacy boolean lexemes.
    Yaml1_1,
    /// A custom resolver.
    Custom(R),
}

/// What kind of schema a [`Schema`] is.
#[derive(PartialEq, Eq, Structural, Clone, Copy)]
pub enum SchemaKind {
    Failsafe,
    Json,
    Core,
    Yaml1_1,
    Custom,
}

impl<R> Schema<R> {
    /// The kind of this schema.
    pub open spec fn kind(&self) -> SchemaKind {
        match self {
            Schema::Failsafe => SchemaKind::Failsafe,
            Schema::Json => SchemaKind::Json,
            Schema::Core => SchemaKind::Core,
            Schema::Yaml1_1 => SchemaKind::Yaml1_1,
            Schema::Custom(_) => SchemaKind::Custom,
        }
    }

    /// The built-in profile of a built-in kind.
    pub open spec fn builtin_profile(k: SchemaKind) -> YamlSchema {
        match k {
            SchemaKind::Failsafe => YamlSchema::Failsafe,
            SchemaKind::Json => YamlSchema::Json,
            SchemaKind::Core => YamlSchema::Core,
            _ => YamlSchema::Yaml1_1,
        }
    }

    /// The schema of a built-in profile.
    pub fn from_profile(s: YamlSchema) -> (res: Self)
        ensures
            res.kind() != SchemaKind::Custom,
            Self::builtin_profile(res.kind()) == s,
    {
        match s {
            YamlSchema::Failsafe => Schema::Failsafe,
            YamlSchema::Json => Schema::Json,
            YamlSchema::Core => Schema::Core,
            YamlSchema::Yaml1_1 => Schema::Yaml1_1,
        }
    }

    /// Equality as the schemas define it: built-in schemas of the same kind
    /// are equal; a custom schema equals no schema, itself included.
    pub fn same_as(&self, other: &Self) -> (res: bool)
        ensures
            res == (self.kind() == other.kind() && self.kind() != SchemaKind::Custom),
    {
        match (self, other) {
            (Schema::Failsafe, Schema::Failsafe) => true,
            (Schema::Json, Schema::Json) => true,
            (Schema::Core, Schema::Core) => true,
            (Schema::Yaml1_1, Schema::Yaml1_1) => true,
            _ => false,
        }
    }
}

/// A schema name (ASCII case-insensitive) and the kind it denotes: `core`,
/// `yaml.org,2002`, `yamlorg2002`; `json`, `yaml.org,2002:json`;
/// `failsafe`, `yaml.org,2002:failsafe`; `yaml1.1`, `1.1`,
/// `yaml.org,2002:yaml1.1`.
pub open spec fn kind_of_name(s: Seq<char>) -> Option<SchemaKind> {
    if eq_ignore_case(s, "core"@) || eq_ignore_case(s, "yaml.org,2002"@) || eq_ignore_case(
        s,
        "yamlorg2002"@,
    ) {
        Some(SchemaKind::Core)
    } else if eq_ignore_case(s, "json"@) || eq_ignore_case(s, "yaml.org,2002:json"@) {
        Some(SchemaKind::Json)
    } else if eq_ignore_case(s, "failsafe"@) || eq_ignore_case(s, "yaml.org,2002:failsafe"@) {
        Some(SchemaKind::Failsafe)
    } else if eq_ignore_case(s, "yaml1.1"@) || eq_ignore_case(s, "1.1"@) || eq_ignore_case(
        s,
        "yaml.org,2002:yaml1.1"@,
    ) {
        Some(SchemaKind::Yaml1_1)
    } else {
        None
    }
}

impl<R: SchemaResolver> Schema<R> {
    /// Resolve a plain scalar according to this schema.
    pub fn resolve(&self, value: &str) -> (res: YamlType)
        ensures
            self.kind() != SchemaKind::Custom ==> res@ == resolve_spec(
                value@,
                Self::builtin_profile(self.kind()),
            ),
    {
        match self {
            Schema::Custom(r) => r.resolve(value),
            Schema::Failsafe => resolve_failsafe(value),
            Schema::Json => resolve_json_type(value),
            Schema::Core => resolve_core_type(value),
            Schema::Yaml1_1 => resolve_yaml11_type(value),
        }
    }

    /// Parse a built-in schema name, ASCII case-insensitively (see
    /// `kind_of_name`).
    pub fn from_name(s: &str) -> (res: Option<Self>)
        ensures
            match kind_of_name(s@) {
                Some(k) => res is Some && res->0.kind() == k,
                None => res is None,
            },
    {
        let v = chars_of(s);
        let n = v.len();
        if crate::schema::eq_ignore_case_of(&v, 0, n, "core") || crate::schema::eq_ignore_case_of(
            &v,
            0,
            n,
            "yaml.org,2002",
        ) || crate::schema::eq_ignore_case_of(&v, 0, n, "yamlorg2002") {
            assert(v@.subrange(0, n as int) =~= s@);
            return Some(Schema::Core);
        }
        assert(v@.subrange(0, n as int) =~= s@);
        if crate::schema::eq_ignore_case_of(&v, 0, n, "json") || crate::schema::eq_ignore_case_of(
            &v,
            0,
            n,
            "yaml.org,2002:json",
        ) {
            return Some(Schema::Json);
        }
        if crate::schema::eq_ignore_case_of(&v, 0, n, "failsafe")
            || crate::schema::eq_ignore_case_of(&v, 0, n, "yaml.org,2002:failsafe") {
            return Some(Schema::Failsafe);
        }
        if crate::schema::eq_ignore_case_of(&v, 0, n, "yaml1.1") || crate::schema::eq_ignore_case_of(
            &v,
            0,
            n,
            "1.1",
        ) || crate::schema::eq_ignore_case_of(&v, 0, n, "yaml.org,2002:yaml1.1") {
            return Some(Schema::Yaml1_1);
        }
        None
    }
}

impl<R: Clone> Clone for Schema<R> {
    fn clone(&self) -> (res: Self)
        ensures
            res.kind() == self.kind(),
            self.kind() != SchemaKind::Custom ==> res == *self,
    {
        match self {
            Schema::Failsafe => Schema::Failsafe,
            Schema::Json => Schema::Json,
            Schema::Core => Schema::Core,
            Schema::Yaml1_1 => Schema::Yaml1_1,
            Schema::Custom(r) => Schema::Custom(r.clone()),
        }
    }
}

/// The names and schema kinds of the built-in schemas, in registration
/// order.
pub open spec fn builtin_entries() -> Seq<(Seq<char>, SchemaKind)> {
    seq![
        ("failsafe"@, SchemaKind::Failsafe),
        ("json"@, SchemaKind::Json),
        ("core"@, SchemaKind::Core),
        ("yaml1.1"@, SchemaKind::Yaml1_1),
    ]
}

/// No name occurs twice.
pub open spec fn names_unique<V>(e: Seq<(Seq<char>, V)>) -> bool {
    forall|i: int, j: int| 0 <= i < j < e.len() ==> e[i].0 != e[j].0
}

/// Index of `name` in the entries, if present.
pub open spec fn entry_index<V>(e: Seq<(Seq<char>, V)>, name: Seq<char>) -> Option<int> {
    if exists|i: int| 0 <= i < e.len() && e[i].0 == name {
        Some(choose|i: int| 0 <= i < e.len() && e[i].0 == name)
    } else {
        None
    }
}

/// The entries after registering `name` with kind `k`: the entry of that
/// name is replaced in place, or a new entry is appended.
pub open spec fn register_spec<V>(e: Seq<(Seq<char>, V)>, name: Seq<char>, k: V) -> Seq<(Seq<char>, V)> {
    match entry_index(e, name) {
        Some(i) => e.update(i, (name, k)),
        None => e.push((name, k)),
    }
}

/// A registry of named YAML schemas.
pub struct SchemaRegistry<R> {
    schemas: Vec<(String, Schema<R>)>,
}

impl<R> SchemaRegistry<R> {
    /// The registered names and schema kinds, in registration order.
    pub closed spec fn entries(&self) -> Seq<(Seq<char>, SchemaKind)> {
        self.schemas@.map_values(|p: (String, Schema<R>)| (p.0@, p.1.kind()))
    }

    /// Names are unique.
    pub open spec fn wf(&self) -> bool {
        names_unique(self.entries())
    }

    /// A fresh registry holding the built-in schemas.
    pub fn new() -> (res: Self)
        ensures
            res.entries() == builtin_entries(),
            res.wf(),
    {
        let mut schemas: Vec<(String, Schema<R>)> = Vec::new();
        schemas.push(("failsafe".to_string(), Schema::Failsafe));
        schemas.push(("json".to_string(), Schema::Json));
        schemas.push(("core".to_string(), Schema::Core));
        schemas.push(("yaml1.1".to_string(), Schema::Yaml1_1));
        let res = SchemaRegistry { schemas };
        proof {
            reveal_strlit("failsafe");
            reveal_strlit("json");
            reveal_strlit("core");
            reveal_strlit("yaml1.1");
            assert(res.entries() =~= builtin_entries());
            assert("failsafe"@.len() == 8 && "json"@.len() == 4 && "core"@.len() == 4);
            assert("yaml1.1"@.len() == 7);
            assert("json"@[0] != "core"@[0]);
            assert("failsafe"@ != "json"@ && "failsafe"@ != "core"@ && "failsafe"@ != "yaml1.1"@);
            assert("json"@ != "core"@ && "json"@ != "yaml1.1"@ && "core"@ != "yaml1.1"@);
        }
        res
    }

    /// Position of `name` among the entries.
    fn index_of(&self, name: &str) -> (res: Option<usize>)
        requires
            self.wf(),
        ensures
            match res {
                Some(i) => entry_index(self.entries(), name@) == Some(i as int),
                None => entry_index(self.entries(), name@) is None,
            },
    {
        let ghost e = self.entries();
        proof {
            lemma_entry_index_unique(e, name@);
        }
        let mut i: usize = 0;
        while i < self.schemas.len()
            invariant
                0 <= i <= self.schemas@.len(),
                e == self.entries(),
                e.len() == self.schemas@.len(),
                forall|j: int| 0 <= j < i ==> e[j].0 != name@,
                names_unique(e),
                forall|j: int| 0 <= j < e.len() && e[j].0 == name@ ==> entry_index(e, name@) == Some(j),
                entry_index(e, name@) is None <==> forall|j: int| 0 <= j < e.len() ==> e[j].0 != name@,
            decreases self.schemas@.len() - i,
        {
            assert(e[i as int].0 == self.schemas@[i as int].0@);
            if str_equals(self.schemas[i].0.as_str(), name) {
                return Some(i);
            }
            i = i + 1;
        }
        None
    }
}

impl<R: Clone> SchemaRegistry<R> {
    /// Look up a schema by name.
    pub fn get(&self, name: &str) -> (res: Option<Schema<R>>)
        requires
            self.wf(),
        ensures
            match entry_index(self.entries(), name@) {
                Some(i) => res is Some && res->0.kind() == self.entries()[i].1,
                None => res is None,
            },
    {
        match self.index_of(name) {
            Some(i) => {
                let s = self.schemas[i].1.clone();
                proof {
                    assert(self.entries()[i as int].1 == self.schemas@[i as int].1.kind());
                }
                Some(s)
            },
            None => None,
        }
    }

    /// Whether a schema of that name is registered.
    pub fn schema_exists(&self, name: &str) -> (res: bool)
        requires
            self.wf(),
        ensures
            res == entry_index(self.entries(), name@) is Some,
    {
        self.index_of(name).is_some()
    }

    /// All registered names, in registration order.
    pub fn names(&self) -> (res: Vec<String>)
        ensures
            res@.map_values(|s: String| s@) == self.entries().map_values(
                |p: (Seq<char>, SchemaKind)| p.0,
            ),
    {
        let mut out: Vec<String> = Vec::new();
        let mut i: usize = 0;
        while i < self.schemas.len()
            invariant
                0 <= i <= self.schemas@.len(),
                out@.len() == i,
                forall|j: int| 0 <= j < i ==> #[trigger] out@[j]@ == self.schemas@[j].0@,
            decreases self.schemas@.len() - i,
        {
            out.push(self.schemas[i].0.clone());
            i = i + 1;
        }
        assert(out@.map_values(|s: String| s@) =~= self.entries().map_values(
            |p: (Seq<char>, SchemaKind)| p.0,
        ));
        out
    }

    /// Register a schema under a name, replacing any entry of that name.
    fn register_schema(&mut self, name: &str, schema: Schema<R>)
        requires
            old(self).wf(),
        ensures
            final(self).wf(),
            final(self).entries() == register_spec(old(self).entries(), name@, schema.kind()),
    {
        let ghost e = self.entries();
        let ghost k = schema.kind();
        match self.index_of(name) {
            Some(i) => {
                self.schemas.set(i, (name.to_string(), schema));
                proof {
                    assert(self.entries() =~= e.update(i as int, (name@, k)));
                    assert forall|a: int, b: int| 0 <= a < b < self.entries().len() implies self.entries()[a].0
                        != self.entries()[b].0 by {
                        if a == i {
                            assert(e[i as int].0 == name@);
                        }
                        if b == i {
                            assert(e[i as int].0 == name@);
                        }
                    }
                }
            },
            None => {
                self.schemas.push((name.to_string(), schema));
                proof {
                    assert(self.entries() =~= e.push((name@, k)));
                    assert forall|a: int, b: int| 0 <= a < b < self.entries().len() implies self.entries()[a].0
                        != self.entries()[b].0 by {
                        if b == e.len() {
                            assert(!(0 <= a < e.len() && e[a].0 == name@));
                        }
                    }
                }
            },
        }
    }

    /// Register a custom resolver under a name; an existing entry of that
    /// name is replaced.
    pub fn register(&mut self, name: &str, resolver: R)
        requires
            old(self).wf(),
        ensures
            final(self).wf(),
            final(self).entries() == register_spec(old(self).entries(), name@, SchemaKind::Custom),
    {
        self.register_schema(name, Schema::Custom(resolver));
    }
}

/// A built-in schema is found by its name in a fresh registry.
pub proof fn law_builtins_registered<R>(reg: SchemaRegistry<R>)
    requires
        reg.entries() == builtin_entries(),
    ensures
        entry_index(reg.entries(), "core"@) is Some,
        entry_index(reg.entries(), "json"@) is Some,
        entry_index(reg.entries(), "failsafe"@) is Some,
        entry_index(reg.entries(), "yaml1.1"@) is Some,
{
    assert(reg.entries()[0].0 == "failsafe"@);
    assert(reg.entries()[1].0 == "json"@);
    assert(reg.entries()[2].0 == "core"@);
    assert(reg.entries()[3].0 == "yaml1.1"@);
}

/// After registering a name, looking it up finds what was registered, and
/// every other name finds what it found before.
pub proof fn law_register_then_lookup<V>(
    e: Seq<(Seq<char>, V)>,
    name: Seq<char>,
    k: V,
    other: Seq<char>,
)
    requires
        names_unique(e),
    ensures
        ({
            let e2 = register_spec(e, name, k);
            &&& names_unique(e2)
            &&& entry_index(e2, name) is Some
            &&& e2[entry_index(e2, name)->0].1 == k
            &&& other != name ==> match entry_index(e, other) {
                Some(i) => entry_index(e2, other) == Some(i) && e2[i].1 == e[i].1,
                None => entry_index(e2, other) is None,
            }
        }),
{
    let e2 = register_spec(e, name, k);
    lemma_entry_index_unique(e, name);
    lemma_entry_index_unique(e, other);
    match entry_index(e, name) {
        Some(i) => {
            assert(e2 == e.update(i, (name, k)));
            assert forall|a: int, b: int| 0 <= a < b < e2.len() implies e2[a].0 != e2[b].0 by {}
            assert(e2[i].0 == name);
            lemma_entry_index_unique(e2, name);
            lemma_entry_index_unique(e2, other);
            if other != name {
                match entry_index(e, other) {
                    Some(j) => {
                        assert(e2[j].0 == other);
                    },
                    None => {
                        assert forall|j: int| 0 <= j < e2.len() implies e2[j].0 != other by {
                            if j != i {
                                assert(e2[j] == e[j]);
                            }
                        }
                    },
                }
            }
        },
        None => {
            assert(e2 == e.push((name, k)));
            assert forall|a: int, b: int| 0 <= a < b < e2.len() implies e2[a].0 != e2[b].0 by {
                if b == e.len() {
                    assert(e2[a] == e[a]);
                }
            }
            assert(e2[e.len() as int].0 == name);
            lemma_entry_index_unique(e2, name);
            lemma_entry_index_unique(e2, other);
            if other != name {
                match entry_index(e, other) {
                    Some(j) => {
                        assert(e2[j].0 == other);
                    },
                    None => {
                        assert forall|j: int| 0 <= j < e2.len() implies e2[j].0 != other by {
                            if j < e.len() {
                                assert(e2[j] == e[j]);
                            }
                        }
                    },
                }
            }
        },
    }
}

/// With unique names, the index of a name is the position that holds it.
pub proof fn lemma_entry_index_unique<V>(e: Seq<(Seq<char>, V)>, name: Seq<char>)
    requires
        names_unique(e),
    ensures
        forall|i: int| 0 <= i < e.len() && e[i].0 == name ==> entry_index(e, name) == Some(i),
        entry_index(e, name) is None <==> forall|i: int| 0 <= i < e.len() ==> e[i].0 != name,
        match entry_index(e, name) {
            Some(i) => 0 <= i < e.len() && e[i].0 == name,
            None => true,
        },
{
    if exists|i: int| 0 <= i < e.len() && e[i].0 == name {
        let c = choose|i: int| 0 <= i < e.len() && e[i].0 == name;
        assert forall|i: int| 0 <= i < e.len() && e[i].0 == name implies entry_index(e, name) == Some(i) by {
            if i < c {
                assert(e[i].0 != e[c].0);
            } else if i > c {
                assert(e[c].0 != e[i].0);
            }
        }
    }
}

} // verus!
