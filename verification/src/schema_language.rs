//! User-defined schemas: rules that map scalars matching a pattern to a
//! YAML type, with a fallback schema for scalars that match no rule, and
//! structural validation rules checked against a document tree.
//!
//! Rules are checked in order; the first pattern that matches decides the
//! type. If no rule matches, resolution falls back to the `extends` schema.
use crate::ast::CustomNode;
use crate::error::ParseError;
use crate::registry::{Schema, SchemaKind, SchemaResolver};
use crate::validate::{ValidateKind, ValidateRule};
use crate::schema::{
    eq_ignore_case, eq_ignore_case_of, float_syntax, float_syntax_of, parse_i64_radix,
    parse_i64_spec, resolve_spec, FloatValue, FloatView, YamlType, YamlTypeView,
};
use crate::text::{chars_of, str_equals, string_from, string_of, trim, trim_bounds};
use vstd::prelude::*;
use vstd::string::*;

verus! {

/// The target YAML type a rule maps a matching scalar to.
#[derive(Debug, Clone, Copy, PartialEq, Eq, Structural)]
pub enum YamlTypeKind {
    Null,
    Bool,
    Int,
    Float,
    Str,
}

/// The type named by a schema file: `null`, `bool`/`boolean`,
/// `int`/`integer`, `float`/`double`, `str`/`string`.
pub open spec fn kind_named(name: Seq<char>) -> Option<YamlTypeKind> {
    if name == "null"@ {
        Some(YamlTypeKind::Null)
    } else if name == "bool"@ || name == "boolean"@ {
        Some(YamlTypeKind::Bool)
    } else if name == "int"@ || name == "integer"@ {
        Some(YamlTypeKind::Int)
    } else if name == "float"@ || name == "double"@ {
        Some(YamlTypeKind::Float)
    } else if name == "str"@ || name == "string"@ {
        Some(YamlTypeKind::Str)
    } else {
        None
    }
}

/// The name a kind is written with.
pub open spec fn kind_text(k: YamlTypeKind) -> Seq<char> {
    match k {
        YamlTypeKind::Null => "null"@,
        YamlTypeKind::Bool => "bool"@,
        YamlTypeKind::Int => "int"@,
        YamlTypeKind::Float => "float"@,
        YamlTypeKind::Str => "str"@,
    }
}

impl YamlTypeKind {
    /// The kind a type name denotes (see `kind_named`).
    pub fn from_name(name: &str) -> (res: Option<Self>)
        ensures
            res == kind_named(name@),
    {
        if str_equals(name, "null") {
            Some(YamlTypeKind::Null)
        } else if str_equals(name, "bool") || str_equals(name, "boolean") {
            Some(YamlTypeKind::Bool)
        } else if str_equals(name, "int") || str_equals(name, "integer") {
            Some(YamlTypeKind::Int)
        } else if str_equals(name, "float") || str_equals(name, "double") {
            Some(YamlTypeKind::Float)
        } else if str_equals(name, "str") || str_equals(name, "string") {
            Some(YamlTypeKind::Str)
        } else {
            None
        }
    }

    /// The name of the kind.
    pub fn name(&self) -> (res: &'static str)
        ensures
            res@ == kind_text(*self),
    {
        match self {
            YamlTypeKind::Null => "null",
            YamlTypeKind::Bool => "bool",
            YamlTypeKind::Int => "int",
            YamlTypeKind::Float => "float",
            YamlTypeKind::Str => "str",
        }
    }
}

/// The boolean a matched scalar spells: the 1.2 and the legacy lexemes.
pub open spec fn bool_lexeme(t: Seq<char>) -> Option<bool> {
    if t == "true"@ || t == "True"@ || t == "TRUE"@ || t == "yes"@ || t == "Yes"@ || t == "YES"@
        || t == "on"@ || t == "On"@ || t == "ON"@ || t == "y"@ || t == "Y"@ {
        Some(true)
    } else if t == "false"@ || t == "False"@ || t == "FALSE"@ || t == "no"@ || t == "No"@ || t
        == "NO"@ || t == "off"@ || t == "Off"@ || t == "OFF"@ || t == "n"@ || t == "N"@ {
        Some(false)
    } else {
        None
    }
}

/// `t` starts with `0` and then `lower` or `upper`.
pub open spec fn radix_prefix(t: Seq<char>, lower: char, upper: char) -> bool {
    t.len() >= 2 && t[0] == '0' && (t[1] == lower || t[1] == upper)
}

/// An integer with an optional `0x`, `0o` or `0b` prefix, else decimal
/// (`i64` syntax: optional sign, digits, in range).
pub open spec fn int_lexeme(t: Seq<char>) -> Option<int> {
    if radix_prefix(t, 'x', 'X') && parse_i64_spec(t.skip(2), 16) is Some {
        parse_i64_spec(t.skip(2), 16)
    } else if radix_prefix(t, 'o', 'O') && parse_i64_spec(t.skip(2), 8) is Some {
        parse_i64_spec(t.skip(2), 8)
    } else if radix_prefix(t, 'b', 'B') && parse_i64_spec(t.skip(2), 2) is Some {
        parse_i64_spec(t.skip(2), 2)
    } else {
        parse_i64_spec(t, 10)
    }
}

/// The float a text spells, as `f64::from_str` reads it: an infinity, NaN,
/// or a decimal number kept as text.
pub open spec fn float_lexeme(t: Seq<char>) -> Option<FloatView> {
    if !float_syntax(t) {
        None
    } else {
        let signed = t.len() > 0 && (t[0] == '+' || t[0] == '-');
        let body = if signed {
            t.drop_first()
        } else {
            t
        };
        if eq_ignore_case(body, "inf"@) || eq_ignore_case(body, "infinity"@) {
            if t.len() > 0 && t[0] == '-' {
                Some(FloatView::NegInfinity)
            } else {
                Some(FloatView::Infinity)
            }
        } else if eq_ignore_case(body, "nan"@) {
            Some(FloatView::NaN)
        } else {
            Some(FloatView::Decimal(t))
        }
    }
}

/// What a rule of kind `k` makes of scalar `value` whose trimmed text is
/// `t`: the kind's value when `t` spells one, else the original string.
pub open spec fn kind_resolve(k: YamlTypeKind, value: Seq<char>, t: Seq<char>) -> YamlTypeView {
    match k {
        YamlTypeKind::Null => YamlTypeView::Null,
        YamlTypeKind::Str => YamlTypeView::Str(value),
        YamlTypeKind::Bool => match bool_lexeme(t) {
            Some(b) => YamlTypeView::Bool(b),
            None => YamlTypeView::Str(value),
        },
        YamlTypeKind::Int => match int_lexeme(t) {
            Some(n) => YamlTypeView::Int(n),
            None => YamlTypeView::Str(value),
        },
        YamlTypeKind::Float => match float_lexeme(t) {
            Some(f) => YamlTypeView::Float(f),
            None => YamlTypeView::Str(value),
        },
    }
}

/// Whether `v[a..b]` is one of the true lexemes.
fn is_true_lexeme(v: &Vec<char>, a: usize, b: usize) -> (res: bool)
    requires
        a <= b <= v@.len(),
    ensures
        res == (bool_lexeme(v@.subrange(a as int, b as int)) == Some(true)),
{
    crate::schema::one_of(v, a, b, "true", "True", "TRUE") || crate::schema::one_of(
        v,
        a,
        b,
        "yes",
        "Yes",
        "YES",
    ) || crate::schema::one_of(v, a, b, "on", "On", "ON") || crate::schema::slice_is(v, a, b, "y")
        || crate::schema::slice_is(v, a, b, "Y")
}

/// Whether `v[a..b]` is one of the false lexemes.
fn is_false_lexeme(v: &Vec<char>, a: usize, b: usize) -> (res: bool)
    requires
        a <= b <= v@.len(),
        !(bool_lexeme(v@.subrange(a as int, b as int)) == Some(true)),
    ensures
        res == (bool_lexeme(v@.subrange(a as int, b as int)) == Some(false)),
{
    crate::schema::one_of(v, a, b, "false", "False", "FALSE") || crate::schema::one_of(
        v,
        a,
        b,
        "no",
        "No",
        "NO",
    ) || crate::schema::one_of(v, a, b, "off", "Off", "OFF") || crate::schema::slice_is(
        v,
        a,
        b,
        "n",
    ) || crate::schema::slice_is(v, a, b, "N")
}

/// Parse `v[a..b]` as an integer with an optional `0x`, `0o` or `0b`
/// prefix.
pub fn parse_int(v: &Vec<char>, a: usize, b: usize) -> (res: Option<i64>)
    requires
        a <= b <= v@.len(),
    ensures
        match int_lexeme(v@.subrange(a as int, b as int)) {
            Some(n) => res == Some(n as i64),
            None => res is None,
        },
{
    let ghost t = v@.subrange(a as int, b as int);
    let two = b - a >= 2;
    proof {
        if two {
            assert(t[0] == v@[a as int]);
            assert(t[1] == v@[a + 1]);
            assert(t.skip(2) =~= v@.subrange(a + 2, b as int));
        }
    }
    if two && v[a] == '0' && (v[a + 1] == 'x' || v[a + 1] == 'X') {
        if let Some(n) = parse_i64_radix(v, a + 2, b, 16) {
            return Some(n);
        }
    }
    if two && v[a] == '0' && (v[a + 1] == 'o' || v[a + 1] == 'O') {
        if let Some(n) = parse_i64_radix(v, a + 2, b, 8) {
            return Some(n);
        }
    }
    if two && v[a] == '0' && (v[a + 1] == 'b' || v[a + 1] == 'B') {
        if let Some(n) = parse_i64_radix(v, a + 2, b, 2) {
            return Some(n);
        }
    }
    parse_i64_radix(v, a, b, 10)
}

/// The float `v[a..b]` spells, if any.
fn parse_float(v: &Vec<char>, a: usize, b: usize) -> (res: Option<FloatValue>)
    requires
        a <= b <= v@.len(),
    ensures
        match float_lexeme(v@.subrange(a as int, b as int)) {
            Some(f) => res matches Some(x) && YamlType::Float(x)@ == YamlTypeView::Float(f),
            None => res is None,
        },
{
    let ghost t = v@.subrange(a as int, b as int);
    if !float_syntax_of(v, a, b) {
        return None;
    }
    let signed = a < b && (v[a] == '+' || v[a] == '-');
    let st = if signed {
        a + 1
    } else {
        a
    };
    proof {
        if a < b {
            assert(t[0] == v@[a as int]);
        }
        if signed {
            assert(v@.subrange(st as int, b as int) =~= t.drop_first());
        } else {
            assert(v@.subrange(st as int, b as int) =~= t);
        }
    }
    if eq_ignore_case_of(v, st, b, "inf") || eq_ignore_case_of(v, st, b, "infinity") {
        if a < b && v[a] == '-' {
            return Some(FloatValue::NegInfinity);
        }
        return Some(FloatValue::Infinity);
    }
    if eq_ignore_case_of(v, st, b, "nan") {
        return Some(FloatValue::NaN);
    }
    Some(FloatValue::Decimal(string_of(v, a, b)))
}

/// What a rule of kind `k` makes of `value`, whose trimmed text is
/// `v[a..b]`.
fn resolve_kind(k: YamlTypeKind, value: &str, v: &Vec<char>, a: usize, b: usize) -> (res: YamlType)
    requires
        a <= b <= v@.len(),
    ensures
        res@ == kind_resolve(k, value@, v@.subrange(a as int, b as int)),
{
    match k {
        YamlTypeKind::Null => YamlType::Null,
        YamlTypeKind::Str => YamlType::Str(string_from(value)),
        YamlTypeKind::Bool => {
            if is_true_lexeme(v, a, b) {
                YamlType::Bool(true)
            } else if is_false_lexeme(v, a, b) {
                YamlType::Bool(false)
            } else {
                YamlType::Str(string_from(value))
            }
        },
        YamlTypeKind::Int => match parse_int(v, a, b) {
            Some(n) => YamlType::Int(n),
            None => YamlType::Str(string_from(value)),
        },
        YamlTypeKind::Float => match parse_float(v, a, b) {
            Some(f) => YamlType::Float(f),
            None => YamlType::Str(string_from(value)),
        },
    }
}

/// A compiled regular expression (`regex::Regex`).
#[verifier::external_type_specification]
#[verifier::external_body]
pub struct ExRegex(regex::Regex);

/// What `regex::Regex::new` says of a pattern: `None` when it compiles,
/// else the text of its error.
pub uninterp spec fn regex_new_error(pattern: Seq<char>) -> Option<Seq<char>>;

/// Whether the regex compiled from `pattern` matches somewhere in `text`
/// (`regex::Regex::is_match`).
pub uninterp spec fn regex_matches(pattern: Seq<char>, text: Seq<char>) -> bool;

/// `regex::Regex::new`: compiles the pattern, or gives the text of the
/// error (its `Display`). The contract ties the outcome to the pattern by
/// the name `regex_new_error`.
#[verifier::external_body]
fn compile_regex(pattern: &str) -> (res: Result<regex::Regex, String>)
    ensures
        match regex_new_error(pattern@) {
            None => res is Ok,
            Some(m) => res is Err && res->Err_0@ == m,
        },
{
    match regex::Regex::new(pattern) {
        Ok(r) => Ok(r),
        Err(e) => Err(e.to_string()),
    }
}

/// A single schema rule: a compiled pattern and the type a match gets.
pub struct Rule {
    pattern: String,
    regex: regex::Regex,
    kind: YamlTypeKind,
}

impl Rule {
    /// The pattern's source text.
    pub closed spec fn pattern_text(&self) -> Seq<char> {
        self.pattern@
    }

    /// The type a matching scalar gets.
    pub closed spec fn target(&self) -> YamlTypeKind {
        self.kind
    }

    /// Build a rule from a raw pattern and a type; a pattern that does not
    /// compile gives a syntax error naming it.
    pub fn new(pattern: &str, target: YamlTypeKind) -> (res: Result<Self, ParseError>)
        ensures
            match regex_new_error(pattern@) {
                None => res matches Ok(r) && r.pattern_text() == pattern@ && r.target() == target,
                Some(m) => res matches Err(ParseError::Syntax { message, line, col }) && message@
                    == "invalid schema pattern '"@ + pattern@ + "': "@ + m && line == 0 && col
                    == 0,
            },
    {
        match compile_regex(pattern) {
            Ok(re) => Ok(Rule { pattern: string_from(pattern), regex: re, kind: target }),
            Err(e) => {
                let mut message = string_from("invalid schema pattern '");
                message.append(pattern);
                message.append("': ");
                message.append(e.as_str());
                Err(ParseError::Syntax { message, line: 0, col: 0 })
            },
        }
    }
}

/// `regex::Regex::is_match` on a rule's compiled pattern. A rule's regex is
/// only ever compiled from its pattern text (see `Rule::new`), so the
/// result is named over that text.
#[verifier::external_body]
fn rule_is_match(rule: &Rule, text: &str) -> (res: bool)
    ensures
        res == regex_matches(rule.pattern_text(), text@),
{
    rule.regex.is_match(text)
}

/// The kind of the first rule whose pattern matches `t`.
pub open spec fn first_match(rules: Seq<(Seq<char>, YamlTypeKind)>, t: Seq<char>) -> Option<YamlTypeKind>
    decreases rules.len(),
{
    if rules.len() == 0 {
        None
    } else if regex_matches(rules[0].0, t) {
        Some(rules[0].1)
    } else {
        first_match(rules.drop_first(), t)
    }
}

/// A schema resolver built from rules, an optional fallback schema for
/// scalars that match no rule, and validation rules.
pub struct RuleResolver<R> {
    rules: Vec<Rule>,
    fallback: Option<Schema<R>>,
    validate_rules: Vec<crate::validate::ValidateRule>,
}

impl<R> RuleResolver<R> {
    /// The rules as (pattern, kind), in order.
    pub closed spec fn rule_views(&self) -> Seq<(Seq<char>, YamlTypeKind)> {
        self.rules@.map_values(|r: Rule| (r.pattern_text(), r.target()))
    }

    /// The kind of the fallback schema, if there is one.
    pub closed spec fn fallback_kind(&self) -> Option<SchemaKind> {
        match self.fallback {
            Some(s) => Some(s.kind()),
            None => None,
        }
    }

    /// The validation rules, in order.
    pub closed spec fn validate_views(&self) -> Seq<crate::validate::ValidateRule> {
        self.validate_rules@
    }

    /// What this resolver makes of a scalar, where that does not depend on
    /// a custom fallback schema: the first matching rule decides; with no
    /// match, the built-in fallback resolves, or the scalar stays a string
    /// when there is no fallback.
    pub open spec fn resolves_to(&self, value: Seq<char>) -> Option<YamlTypeView> {
        match first_match(self.rule_views(), trim(value)) {
            Some(k) => Some(kind_resolve(k, value, trim(value))),
            None => match self.fallback_kind() {
                None => Some(YamlTypeView::Str(value)),
                Some(SchemaKind::Custom) => None,
                Some(k) => Some(resolve_spec(value, Schema::<R>::builtin_profile(k))),
            },
        }
    }

    /// Build a resolver from rules and an optional fallback schema.
    pub fn new(rules: Vec<Rule>, fallback: Option<Schema<R>>) -> (res: Self)
        ensures
            res.rule_views() == rules@.map_values(|r: Rule| (r.pattern_text(), r.target())),
            res.fallback_kind() == match fallback {
                Some(s) => Some(s.kind()),
                None => None,
            },
            res.validate_views().len() == 0,
    {
        RuleResolver { rules, fallback, validate_rules: Vec::new() }
    }

    /// Build a resolver with both resolve rules and validation rules.
    pub fn with_validate_rules(
        rules: Vec<Rule>,
        fallback: Option<Schema<R>>,
        validate_rules: Vec<crate::validate::ValidateRule>,
    ) -> (res: Self)
        ensures
            res.rule_views() == rules@.map_values(|r: Rule| (r.pattern_text(), r.target())),
            res.fallback_kind() == match fallback {
                Some(s) => Some(s.kind()),
                None => None,
            },
            res.validate_views() == validate_rules@,
    {
        RuleResolver { rules, fallback, validate_rules }
    }

    /// The validation rules.
    pub fn validate_rules(&self) -> (res: &[crate::validate::ValidateRule])
        ensures
            res@ == self.validate_views(),
    {
        self.validate_rules.as_slice()
    }
}

impl<R: SchemaResolver> RuleResolver<R> {
    /// Resolve a plain scalar: the first rule whose pattern matches the
    /// trimmed text decides; otherwise the fallback schema, or a string.
    pub fn resolve_value(&self, value: &str) -> (res: YamlType)
        ensures
            self.resolves_to(value@) matches Some(t) ==> res@ == t,
    {
        let v = chars_of(value);
        let (a, b) = trim_bounds(&v, 0, v.len());
        assert(v@.subrange(0, v@.len() as int) =~= value@);
        let t = string_of(&v, a, b);
        let ghost rv = self.rule_views();
        let mut i: usize = 0;
        assert(rv.skip(0) =~= rv);
        while i < self.rules.len()
            invariant
                0 <= i <= self.rules@.len(),
                rv == self.rule_views(),
                rv.len() == self.rules@.len(),
                t@ == trim(value@),
                v@ == value@,
                a <= b <= v@.len(),
                v@.subrange(a as int, b as int) == trim(value@),
                first_match(rv, t@) == first_match(rv.skip(i as int), t@),
            decreases self.rules@.len() - i,
        {
            proof {
                assert(rv.skip(i as int)[0] == rv[i as int]);
                assert(rv[i as int] == (self.rules@[i as int].pattern_text(), self.rules@[i as int].target()));
                assert(rv.skip(i as int).drop_first() =~= rv.skip(i + 1));
            }
            if rule_is_match(&self.rules[i], t.as_str()) {
                return resolve_kind(self.rules[i].kind, value, &v, a, b);
            }
            i = i + 1;
        }
        match &self.fallback {
            Some(schema) => schema.resolve(value),
            None => YamlType::Str(string_from(value)),
        }
    }
}

impl<R: SchemaResolver> SchemaResolver for RuleResolver<R> {
    fn resolve(&self, value: &str) -> (res: YamlType)
        ensures
            self.resolves_to(value@) matches Some(t) ==> res@ == t,
    {
        self.resolve_value(value)
    }
}

/// The text of a scalar node, nothing for a null node, an error for a
/// container.
pub open spec fn scalar_text_of(n: CustomNode) -> Result<Option<Seq<char>>, ()> {
    match n {
        CustomNode::Scalar { value, .. } => Ok(Some(value@)),
        CustomNode::Null { .. } => Ok(None),
        _ => Err(()),
    }
}

/// The error text for a container where a scalar was expected.
pub open spec fn expected_scalar() -> Seq<char> {
    "expected scalar"@
}

/// The text of a scalar node (see `scalar_text_of`).
fn scalar_str(node: &CustomNode) -> (res: Result<Option<&str>, ParseError>)
    ensures
        match scalar_text_of(*node) {
            Ok(Some(t)) => res matches Ok(Some(s)) && s@ == t,
            Ok(None) => res matches Ok(None),
            Err(_) => res matches Err(ParseError::Syntax { message, line, col }) && message@
                == expected_scalar() && line == 0 && col == 0,
        },
{
    match node {
        CustomNode::Scalar { value, .. } => Ok(Some(value.as_str())),
        CustomNode::Null { .. } => Ok(None),
        _ => Err(ParseError::Syntax { message: string_from("expected scalar"), line: 0, col: 0 }),
    }
}

/// A syntax error with the given message at position 0:0.
pub open spec fn syntax_error(e: ParseError, m: Seq<char>) -> bool {
    e matches ParseError::Syntax { message, line, col } && message@ == m && line == 0 && col == 0
}

fn syntax(m: &str) -> (res: ParseError)
    ensures
        syntax_error(res, m@),
{
    ParseError::Syntax { message: string_from(m), line: 0, col: 0 }
}

/// The text of a key for field matching: a scalar's text, empty for null.
pub open spec fn field_name(n: CustomNode) -> Result<Seq<char>, Seq<char>> {
    match scalar_text_of(n) {
        Ok(Some(t)) => Ok(t),
        Ok(None) => Ok(seq![]),
        Err(_) => Err(expected_scalar()),
    }
}

/// The error for a type name that is not a kind, after its lead text.
pub open spec fn invalid_type_message(lead: Seq<char>, ty: Seq<char>) -> Seq<char> {
    lead + ty + "'. Valid: null, bool, int, float, str"@
}

/// The field name of a key node (see `field_name`).
fn field_name_of(node: &CustomNode) -> (res: Result<String, ParseError>)
    ensures
        match field_name(*node) {
            Ok(t) => res matches Ok(s) && s@ == t,
            Err(m) => res matches Err(e) && syntax_error(e, m),
        },
{
    match node {
        CustomNode::Scalar { value, .. } => Ok(value.clone()),
        CustomNode::Null { .. } => Ok(String::new()),
        _ => Err(syntax("expected scalar")),
    }
}

/// The message for an invalid type name.
fn invalid_type_error(lead: &str, ty: &str) -> (res: ParseError)
    ensures
        syntax_error(res, invalid_type_message(lead@, ty@)),
{
    let mut message = string_from(lead);
    message.append(ty);
    message.append("'. Valid: null, bool, int, float, str");
    ParseError::Syntax { message, line: 0, col: 0 }
}

/// The fields of a rule mapping from pair `i` on, given the pattern and
/// type seen so far; an error text where a field is malformed.
pub open spec fn rule_fields(
    ps: Seq<(CustomNode, CustomNode)>,
    i: int,
    pattern: Option<Seq<char>>,
    target: Option<YamlTypeKind>,
) -> Result<(Option<Seq<char>>, Option<YamlTypeKind>), Seq<char>>
    decreases ps.len() - i,
{
    if i < 0 || i >= ps.len() {
        Ok((pattern, target))
    } else {
        match field_name(ps[i].0) {
            Err(m) => Err(m),
            Ok(k) => if k == "pattern"@ {
                match scalar_text_of(ps[i].1) {
                    Err(_) => Err(expected_scalar()),
                    Ok(p) => rule_fields(ps, i + 1, p, target),
                }
            } else if k == "type"@ {
                match field_name(ps[i].1) {
                    Err(m) => Err(m),
                    Ok(ty) => match kind_named(ty) {
                        None => Err(invalid_type_message("invalid schema type '"@, ty)),
                        Some(kd) => rule_fields(ps, i + 1, pattern, Some(kd)),
                    },
                }
            } else {
                rule_fields(ps, i + 1, pattern, target)
            },
        }
    }
}

/// The pattern and type of a rule node, or the error text.
pub open spec fn rule_spec(n: CustomNode) -> Result<(Seq<char>, YamlTypeKind), Seq<char>> {
    match n {
        CustomNode::Mapping { pairs, .. } => match rule_fields(pairs@, 0, None, None) {
            Err(m) => Err(m),
            Ok((None, _)) => Err("rule missing 'pattern'"@),
            Ok((Some(_), None)) => Err("rule missing 'type'"@),
            Ok((Some(p), Some(k))) => match regex_new_error(p) {
                None => Ok((p, k)),
                Some(e) => Err("invalid schema pattern '"@ + p + "': "@ + e),
            },
        },
        _ => Err("each rule must be a mapping with 'pattern' and 'type'"@),
    }
}

/// Build a rule from a `{pattern, type}` mapping node.
fn rule_from_node(node: &CustomNode) -> (res: Result<Rule, ParseError>)
    ensures
        match rule_spec(*node) {
            Ok((p, k)) => res matches Ok(r) && r.pattern_text() == p && r.target() == k,
            Err(m) => res matches Err(e) && syntax_error(e, m),
        },
{
    let pairs = match node {
        CustomNode::Mapping { pairs, .. } => pairs,
        _ => {
            return Err(syntax("each rule must be a mapping with 'pattern' and 'type'"));
        },
    };
    let mut pattern: Option<String> = None;
    let mut target: Option<YamlTypeKind> = None;
    let mut i: usize = 0;
    while i < pairs.len()
        invariant
            0 <= i <= pairs@.len(),
            *node matches CustomNode::Mapping { pairs: ps, .. } && ps@ == pairs@,
            rule_fields(pairs@, 0, None, None) == rule_fields(
                pairs@,
                i as int,
                match pattern {
                    Some(p) => Some(p@),
                    None => None,
                },
                target,
            ),
        decreases pairs@.len() - i,
    {
        let key = match field_name_of(&pairs[i].0) {
            Ok(k) => k,
            Err(e) => {
                return Err(e);
            },
        };
        let key_str = key.as_str();
        if str_equals(key_str, "pattern") {
            match scalar_str(&pairs[i].1) {
                Ok(Some(p)) => {
                    pattern = Some(string_from(p));
                },
                Ok(None) => {
                    pattern = None;
                },
                Err(e) => {
                    return Err(e);
                },
            }
        } else if str_equals(key_str, "type") {
            let ty = match field_name_of(&pairs[i].1) {
                Ok(t) => t,
                Err(e) => {
                    return Err(e);
                },
            };
            match YamlTypeKind::from_name(ty.as_str()) {
                Some(k) => {
                    target = Some(k);
                },
                None => {
                    return Err(invalid_type_error("invalid schema type '", ty.as_str()));
                },
            }
        }
        i = i + 1;
    }
    let p = match pattern {
        Some(p) => p,
        None => {
            return Err(syntax("rule missing 'pattern'"));
        },
    };
    let k = match target {
        Some(k) => k,
        None => {
            return Err(syntax("rule missing 'type'"));
        },
    };
    Rule::new(p.as_str(), k)
}

/// A validation rule as (path, kind, required).
pub open spec fn vrule_view(r: ValidateRule) -> (Option<Seq<char>>, ValidateKind, bool) {
    (
        match r.path {
            Some(p) => Some(p@),
            None => None,
        },
        r.kind,
        r.required,
    )
}

/// The true spellings of a `required` field.
pub open spec fn is_true_text(t: Seq<char>) -> bool {
    t == "true"@ || t == "True"@ || t == "TRUE"@
}

/// The fields of a validation rule mapping from pair `i` on, given the
/// path, kind and `required` seen so far; an error text where a field is
/// malformed.
pub open spec fn validate_fields(
    ps: Seq<(CustomNode, CustomNode)>,
    i: int,
    path: Option<Seq<char>>,
    kind: Option<ValidateKind>,
    required: bool,
) -> Result<(Option<Seq<char>>, Option<ValidateKind>, bool), Seq<char>>
    decreases ps.len() - i,
{
    if i < 0 || i >= ps.len() {
        Ok((path, kind, required))
    } else {
        match field_name(ps[i].0) {
            Err(m) => Err(m),
            Ok(k) => if k == "path"@ {
                match scalar_text_of(ps[i].1) {
                    Err(_) => Err(expected_scalar()),
                    Ok(p) => validate_fields(ps, i + 1, p, kind, required),
                }
            } else if k == "type"@ || k == "sequence_of"@ || k == "mapping_of"@ {
                match field_name(ps[i].1) {
                    Err(m) => Err(m),
                    Ok(ty) => match kind_named(ty) {
                        None => Err(
                            invalid_type_message(
                                if k == "type"@ {
                                    "invalid validate type '"@
                                } else if k == "sequence_of"@ {
                                    "invalid sequence_of type '"@
                                } else {
                                    "invalid mapping_of type '"@
                                },
                                ty,
                            ),
                        ),
                        Some(kd) => validate_fields(
                            ps,
                            i + 1,
                            path,
                            Some(
                                if k == "type"@ {
                                    ValidateKind::Type(kd)
                                } else if k == "sequence_of"@ {
                                    ValidateKind::SequenceOf(kd)
                                } else {
                                    ValidateKind::MappingOf(kd)
                                },
                            ),
                            required,
                        ),
                    },
                }
            } else if k == "required"@ {
                let is_true = match ps[i].1 {
                    CustomNode::Scalar { value, .. } => is_true_text(value@),
                    _ => true,
                };
                validate_fields(ps, i + 1, path, kind, is_true)
            } else {
                validate_fields(ps, i + 1, path, kind, required)
            },
        }
    }
}

/// The validation rule a node describes, or the error text.
pub open spec fn validate_rule_spec(n: CustomNode) -> Result<(Option<Seq<char>>, ValidateKind, bool), Seq<char>> {
    match n {
        CustomNode::Mapping { pairs, .. } => match validate_fields(pairs@, 0, None, None, false) {
            Err(m) => Err(m),
            Ok((p, Some(k), r)) => Ok((p, k, r)),
            Ok((p, None, r)) => if r {
                Ok((p, ValidateKind::Required, r))
            } else {
                Err("validate rule missing one of: type, sequence_of, mapping_of, required"@)
            },
        },
        _ => Err("each validate rule must be a mapping"@),
    }
}

/// Whether a `required` field's value is true: a scalar spelling true, or
/// any non-scalar.
fn required_value(node: &CustomNode) -> (res: bool)
    ensures
        res == match *node {
            CustomNode::Scalar { value, .. } => is_true_text(value@),
            _ => true,
        },
{
    match node {
        CustomNode::Scalar { value, .. } => {
            let v = value.as_str();
            str_equals(v, "true") || str_equals(v, "True") || str_equals(v, "TRUE")
        },
        _ => true,
    }
}

/// Build a validation rule from a `{path, type|sequence_of|mapping_of|required}`
/// mapping node.
fn validate_rule_from_node(node: &CustomNode) -> (res: Result<ValidateRule, ParseError>)
    ensures
        match validate_rule_spec(*node) {
            Ok(v) => res matches Ok(r) && vrule_view(r) == v,
            Err(m) => res matches Err(e) && syntax_error(e, m),
        },
{
    let pairs = match node {
        CustomNode::Mapping { pairs, .. } => pairs,
        _ => {
            return Err(syntax("each validate rule must be a mapping"));
        },
    };
    let mut path: Option<String> = None;
    let mut kind: Option<ValidateKind> = None;
    let mut required = false;
    let mut i: usize = 0;
    while i < pairs.len()
        invariant
            0 <= i <= pairs@.len(),
            *node matches CustomNode::Mapping { pairs: ps, .. } && ps@ == pairs@,
            validate_fields(pairs@, 0, None, None, false) == validate_fields(
                pairs@,
                i as int,
                match path {
                    Some(p) => Some(p@),
                    None => None,
                },
                kind,
                required,
            ),
        decreases pairs@.len() - i,
    {
        let key = match field_name_of(&pairs[i].0) {
            Ok(k) => k,
            Err(e) => {
                return Err(e);
            },
        };
        let key_str = key.as_str();
        if str_equals(key_str, "path") {
            match scalar_str(&pairs[i].1) {
                Ok(Some(p)) => {
                    path = Some(string_from(p));
                },
                Ok(None) => {
                    path = None;
                },
                Err(e) => {
                    return Err(e);
                },
            }
        } else if str_equals(key_str, "type") || str_equals(key_str, "sequence_of") || str_equals(
            key_str,
            "mapping_of",
        ) {
            let ty = match field_name_of(&pairs[i].1) {
                Ok(t) => t,
                Err(e) => {
                    return Err(e);
                },
            };
            match YamlTypeKind::from_name(ty.as_str()) {
                Some(k) => {
                    if str_equals(key_str, "type") {
                        kind = Some(ValidateKind::Type(k));
                    } else if str_equals(key_str, "sequence_of") {
                        kind = Some(ValidateKind::SequenceOf(k));
                    } else {
                        kind = Some(ValidateKind::MappingOf(k));
                    }
                },
                None => {
                    if str_equals(key_str, "type") {
                        return Err(invalid_type_error("invalid validate type '", ty.as_str()));
                    } else if str_equals(key_str, "sequence_of") {
                        return Err(invalid_type_error("invalid sequence_of type '", ty.as_str()));
                    } else {
                        return Err(invalid_type_error("invalid mapping_of type '", ty.as_str()));
                    }
                },
            }
        } else if str_equals(key_str, "required") {
            required = required_value(&pairs[i].1);
        }
        i = i + 1;
    }
    let k = match kind {
        Some(k) => k,
        None => {
            if required {
                ValidateKind::Required
            } else {
                return Err(
                    syntax("validate rule missing one of: type, sequence_of, mapping_of, required"),
                );
            }
        },
    };
    let r = match &path {
        Some(p) => ValidateRule::new(Some(p.as_str()), k),
        None => ValidateRule::new(None, k),
    };
    Ok(r.with_required(required))
}

/// `a` before the list in `r`, or the error of `r`.
pub open spec fn prepend_ok<T>(a: Seq<T>, r: Result<Seq<T>, Seq<char>>) -> Result<Seq<T>, Seq<char>> {
    match r {
        Ok(x) => Ok(a + x),
        Err(m) => Err(m),
    }
}

/// The rules described by `items[j..]`, or the first error text.
pub open spec fn rules_of(items: Seq<CustomNode>, j: int) -> Result<Seq<(Seq<char>, YamlTypeKind)>, Seq<char>>
    decreases items.len() - j,
{
    if j < 0 || j >= items.len() {
        Ok(seq![])
    } else {
        match rule_spec(items[j]) {
            Err(m) => Err(m),
            Ok(r) => prepend_ok(seq![r], rules_of(items, j + 1)),
        }
    }
}

/// The validation rules described by `items[j..]`, or the first error
/// text.
pub open spec fn vrules_of(items: Seq<CustomNode>, j: int) -> Result<Seq<(Option<Seq<char>>, ValidateKind, bool)>, Seq<char>>
    decreases items.len() - j,
{
    if j < 0 || j >= items.len() {
        Ok(seq![])
    } else {
        match validate_rule_spec(items[j]) {
            Err(m) => Err(m),
            Ok(r) => prepend_ok(seq![r], vrules_of(items, j + 1)),
        }
    }
}

/// The schema an `extends` name denotes, compared in lowercase: a built-in
/// schema (`yaml11` also names 1.1), else the registered schema of that
/// name, if any.
pub open spec fn extends_kind(name: Seq<char>, entries: Seq<(Seq<char>, SchemaKind)>) -> Option<SchemaKind> {
    let l = crate::text::lowercase(name);
    if l == "failsafe"@ {
        Some(SchemaKind::Failsafe)
    } else if l == "json"@ {
        Some(SchemaKind::Json)
    } else if l == "core"@ {
        Some(SchemaKind::Core)
    } else if l == "yaml1.1"@ || l == "yaml11"@ {
        Some(SchemaKind::Yaml1_1)
    } else {
        match crate::registry::entry_index(entries, l) {
            Some(i) => Some(entries[i].1),
            None => None,
        }
    }
}

/// What the top-level fields of a schema mapping from pair `i` on add to
/// the rules, fallback and validation rules seen so far.
pub open spec fn schema_fields(
    ps: Seq<(CustomNode, CustomNode)>,
    i: int,
    rules: Seq<(Seq<char>, YamlTypeKind)>,
    ext: Option<SchemaKind>,
    vrules: Seq<(Option<Seq<char>>, ValidateKind, bool)>,
    entries: Seq<(Seq<char>, SchemaKind)>,
) -> Result<(Seq<(Seq<char>, YamlTypeKind)>, Option<SchemaKind>, Seq<(Option<Seq<char>>, ValidateKind, bool)>), Seq<char>>
    decreases ps.len() - i,
{
    if i < 0 || i >= ps.len() {
        Ok((rules, ext, vrules))
    } else {
        match field_name(ps[i].0) {
            Err(m) => Err(m),
            Ok(k) => if k == "extends"@ {
                match scalar_text_of(ps[i].1) {
                    Err(_) => Err(expected_scalar()),
                    Ok(o) => {
                        let name = match o {
                            Some(t) => t,
                            None => "core"@,
                        };
                        schema_fields(ps, i + 1, rules, extends_kind(name, entries), vrules, entries)
                    },
                }
            } else if k == "rules"@ {
                match ps[i].1 {
                    CustomNode::Sequence { items, .. } => match rules_of(items@, 0) {
                        Err(m) => Err(m),
                        Ok(rs) => schema_fields(ps, i + 1, rules + rs, ext, vrules, entries),
                    },
                    _ => Err("'rules' must be a sequence"@),
                }
            } else if k == "validate"@ {
                match ps[i].1 {
                    CustomNode::Sequence { items, .. } => match vrules_of(items@, 0) {
                        Err(m) => Err(m),
                        Ok(vs) => schema_fields(ps, i + 1, rules, ext, vrules + vs, entries),
                    },
                    _ => Err("'validate' must be a sequence"@),
                }
            } else {
                schema_fields(ps, i + 1, rules, ext, vrules, entries)
            },
        }
    }
}

/// The resolver a schema document's tree describes: its rules, its
/// `extends` fallback and its validation rules, or the first error text.
pub open spec fn schema_spec(n: CustomNode, entries: Seq<(Seq<char>, SchemaKind)>) -> Result<(Seq<(Seq<char>, YamlTypeKind)>, Option<SchemaKind>, Seq<(Option<Seq<char>>, ValidateKind, bool)>), Seq<char>> {
    match n {
        CustomNode::Mapping { pairs, .. } => schema_fields(pairs@, 0, seq![], None, seq![], entries),
        _ => Err("schema must be a mapping"@),
    }
}

/// The views of a list of rules.
pub open spec fn rule_list_views(v: Seq<Rule>) -> Seq<(Seq<char>, YamlTypeKind)> {
    v.map_values(|r: Rule| (r.pattern_text(), r.target()))
}

/// The views of a list of validation rules.
pub open spec fn vrule_list_views(v: Seq<ValidateRule>) -> Seq<(Option<Seq<char>>, ValidateKind, bool)> {
    v.map_values(|r: ValidateRule| vrule_view(r))
}

/// The schema an `extends` name denotes (see `extends_kind`).
fn parse_extends<R: Clone>(name: &str, registry: &crate::registry::SchemaRegistry<R>) -> (res: Option<Schema<R>>)
    requires
        registry.wf(),
    ensures
        match extends_kind(name@, registry.entries()) {
            Some(k) => res matches Some(s) && s.kind() == k,
            None => res is None,
        },
{
    let lower = crate::text::to_lowercase(name);
    let l = lower.as_str();
    if str_equals(l, "failsafe") {
        Some(Schema::Failsafe)
    } else if str_equals(l, "json") {
        Some(Schema::Json)
    } else if str_equals(l, "core") {
        Some(Schema::Core)
    } else if str_equals(l, "yaml1.1") || str_equals(l, "yaml11") {
        Some(Schema::Yaml1_1)
    } else {
        registry.get(l)
    }
}

/// The rules of a `rules` sequence, appended to `rules`.
fn push_rules(items: &Vec<CustomNode>, rules: &mut Vec<Rule>) -> (res: Result<(), ParseError>)
    ensures
        match rules_of(items@, 0) {
            Ok(rs) => res is Ok && rule_list_views(final(rules)@) == rule_list_views(old(rules)@) + rs,
            Err(m) => res matches Err(e) && syntax_error(e, m),
        },
{
    let ghost start = rule_list_views(rules@);
    let mut j: usize = 0;
    assert(rule_list_views(rules@) =~= start + Seq::<(Seq<char>, YamlTypeKind)>::empty());
    while j < items.len()
        invariant
            0 <= j <= items@.len(),
            start == rule_list_views(old(rules)@),
            rule_list_views(rules@).len() >= start.len(),
            rule_list_views(rules@) == start + rule_list_views(rules@).skip(start.len() as int),
            rules_of(items@, 0) == prepend_ok(rule_list_views(rules@).skip(start.len() as int), rules_of(items@, j as int)),
        decreases items@.len() - j,
    {
        let ghost acc = rule_list_views(rules@).skip(start.len() as int);
        let ghost before = rules@;
        match rule_from_node(&items[j]) {
            Ok(r) => {
                let ghost rv = (r.pattern_text(), r.target());
                rules.push(r);
                proof {
                    assert(rule_list_views(rules@) =~= rule_list_views(before).push(rv));
                    assert(rule_list_views(rules@).skip(start.len() as int) =~= acc + seq![rv]);
                    lemma_prepend_ok(acc, seq![rv], rules_of(items@, j + 1));
                }
            },
            Err(e) => {
                return Err(e);
            },
        }
        j = j + 1;
    }
    proof {
        let acc = rule_list_views(rules@).skip(start.len() as int);
        assert(acc + Seq::<(Seq<char>, YamlTypeKind)>::empty() =~= acc);
    }
    Ok(())
}

pub proof fn lemma_prepend_ok<T>(a: Seq<T>, b: Seq<T>, r: Result<Seq<T>, Seq<char>>)
    ensures
        prepend_ok(a, prepend_ok(b, r)) == prepend_ok(a + b, r),
{
    match r {
        Ok(x) => {
            assert(a + (b + x) =~= a + b + x);
        },
        Err(_) => {},
    }
}

/// The validation rules of a `validate` sequence, appended to `vrules`.
fn push_vrules(items: &Vec<CustomNode>, vrules: &mut Vec<ValidateRule>) -> (res: Result<(), ParseError>)
    ensures
        match vrules_of(items@, 0) {
            Ok(vs) => res is Ok && vrule_list_views(final(vrules)@) == vrule_list_views(old(vrules)@) + vs,
            Err(m) => res matches Err(e) && syntax_error(e, m),
        },
{
    let ghost start = vrule_list_views(vrules@);
    let mut j: usize = 0;
    assert(vrule_list_views(vrules@) =~= start + Seq::<(Option<Seq<char>>, ValidateKind, bool)>::empty());
    while j < items.len()
        invariant
            0 <= j <= items@.len(),
            start == vrule_list_views(old(vrules)@),
            vrule_list_views(vrules@).len() >= start.len(),
            vrule_list_views(vrules@) == start + vrule_list_views(vrules@).skip(start.len() as int),
            vrules_of(items@, 0) == prepend_ok(vrule_list_views(vrules@).skip(start.len() as int), vrules_of(items@, j as int)),
        decreases items@.len() - j,
    {
        let ghost acc = vrule_list_views(vrules@).skip(start.len() as int);
        let ghost before = vrules@;
        match validate_rule_from_node(&items[j]) {
            Ok(r) => {
                let ghost rv = vrule_view(r);
                vrules.push(r);
                proof {
                    assert(vrule_list_views(vrules@) =~= vrule_list_views(before).push(rv));
                    assert(vrule_list_views(vrules@).skip(start.len() as int) =~= acc + seq![rv]);
                    lemma_prepend_ok(acc, seq![rv], vrules_of(items@, j + 1));
                }
            },
            Err(e) => {
                return Err(e);
            },
        }
        j = j + 1;
    }
    proof {
        let acc = vrule_list_views(vrules@).skip(start.len() as int);
        assert(acc + Seq::<(Option<Seq<char>>, ValidateKind, bool)>::empty() =~= acc);
    }
    Ok(())
}

/// Build a rule resolver from a schema document's tree (a mapping with
/// `extends`, `rules` and `validate`; other keys are ignored). An
/// `extends` name that is not built in is looked up in `registry`.
pub fn schema_from_node<R: Clone>(ast: &CustomNode, registry: &crate::registry::SchemaRegistry<R>) -> (res: Result<RuleResolver<R>, ParseError>)
    requires
        registry.wf(),
    ensures
        match schema_spec(*ast, registry.entries()) {
            Ok((rs, ext, vs)) => res matches Ok(r) && r.rule_views() == rs && r.fallback_kind() == ext
                && vrule_list_views(r.validate_views()) == vs,
            Err(m) => res matches Err(e) && syntax_error(e, m),
        },
{
    let pairs = match ast {
        CustomNode::Mapping { pairs, .. } => pairs,
        _ => {
            return Err(syntax("schema must be a mapping"));
        },
    };
    let ghost entries = registry.entries();
    let mut extends: Option<Schema<R>> = None;
    let mut rules: Vec<Rule> = Vec::new();
    let mut validate_rules: Vec<ValidateRule> = Vec::new();
    let mut i: usize = 0;
    assert(rule_list_views(rules@) =~= Seq::<(Seq<char>, YamlTypeKind)>::empty());
    assert(vrule_list_views(validate_rules@) =~= Seq::<(Option<Seq<char>>, ValidateKind, bool)>::empty());
    while i < pairs.len()
        invariant
            0 <= i <= pairs@.len(),
            *ast matches CustomNode::Mapping { pairs: ps, .. } && ps@ == pairs@,
            registry.wf(),
            entries == registry.entries(),
            schema_fields(pairs@, 0, seq![], None, seq![], entries) == schema_fields(
                pairs@,
                i as int,
                rule_list_views(rules@),
                match extends {
                    Some(s) => Some(s.kind()),
                    None => None,
                },
                vrule_list_views(validate_rules@),
                entries,
            ),
        decreases pairs@.len() - i,
    {
        let key = match field_name_of(&pairs[i].0) {
            Ok(k) => k,
            Err(e) => {
                return Err(e);
            },
        };
        let key_str = key.as_str();
        if str_equals(key_str, "extends") {
            match scalar_str(&pairs[i].1) {
                Ok(Some(name)) => {
                    extends = parse_extends(name, registry);
                },
                Ok(None) => {
                    extends = parse_extends("core", registry);
                },
                Err(e) => {
                    return Err(e);
                },
            }
        } else if str_equals(key_str, "rules") {
            match &pairs[i].1 {
                CustomNode::Sequence { items, .. } => {
                    match push_rules(items, &mut rules) {
                        Ok(()) => {},
                        Err(e) => {
                            return Err(e);
                        },
                    }
                },
                _ => {
                    return Err(syntax("'rules' must be a sequence"));
                },
            }
        } else if str_equals(key_str, "validate") {
            match &pairs[i].1 {
                CustomNode::Sequence { items, .. } => {
                    match push_vrules(items, &mut validate_rules) {
                        Ok(()) => {},
                        Err(e) => {
                            return Err(e);
                        },
                    }
                },
                _ => {
                    return Err(syntax("'validate' must be a sequence"));
                },
            }
        }
        i = i + 1;
    }
    Ok(RuleResolver::with_validate_rules(rules, extends, validate_rules))
}

} // verus!
