//! Implicit type resolution of plain scalars under the YAML schemas
//! (failsafe, JSON, 1.2 core, 1.1).
//!
//! A float is resolved to its kind (infinity, NaN) or to its decimal text;
//! turning that text into a binary float is left to the caller.
use crate::text::{chars_of, decimal, digit_char, is_control, is_ctrl, signed_decimal, string_of, trim, trim_bounds};
use vstd::prelude::*;

verus! {

/// YAML schema profile controlling implicit type resolution.
#[derive(Debug, Clone, Copy, PartialEq, Eq, Structural)]
pub enum YamlSchema {
    /// No implicit resolution: every plain scalar is a string.
    Failsafe,
    /// JSON-compatible subset (no inf, nan, 0x, 0o).
    Json,
    /// YAML 1.2 Core: the default.
    Core,
    /// YAML 1.1: adds legacy boolean lexemes (yes/no, on/off, y/n).
    Yaml1_1,
}

/// A resolved float.
#[derive(Debug, Clone, PartialEq)]
pub enum FloatValue {
    Infinity,
    NegInfinity,
    NaN,
    /// Finite (or overflowing) decimal text, valid float syntax.
    Decimal(String),
}

/// The YAML type of a plain scalar.
#[derive(Debug, Clone, PartialEq)]
pub enum YamlType {
    Null,
    Bool(bool),
    /// Integer value (decimal, octal, hex)
    Int(i64),
    Float(FloatValue),
    /// String value: the original scalar text
    Str(String),
}

impl YamlType {
    /// Whether this is the NaN float.
    pub fn is_nan_value(&self) -> (res: bool)
        ensures
            res == (*self matches YamlType::Float(FloatValue::NaN)),
    {
        match self {
            YamlType::Float(FloatValue::NaN) => true,
            _ => false,
        }
    }
}

/// What a resolved float denotes.
pub enum FloatView {
    Infinity,
    NegInfinity,
    NaN,
    Decimal(Seq<char>),
}

/// What a resolved type denotes.
pub enum YamlTypeView {
    Null,
    Bool(bool),
    Int(int),
    Float(FloatView),
    Str(Seq<char>),
}

impl View for YamlType {
    type V = YamlTypeView;

    open spec fn view(&self) -> YamlTypeView {
        match self {
            YamlType::Null => YamlTypeView::Null,
            YamlType::Bool(b) => YamlTypeView::Bool(*b),
            YamlType::Int(i) => YamlTypeView::Int(*i as int),
            YamlType::Float(f) => YamlTypeView::Float(
                match f {
                    FloatValue::Infinity => FloatView::Infinity,
                    FloatValue::NegInfinity => FloatView::NegInfinity,
                    FloatValue::NaN => FloatView::NaN,
                    FloatValue::Decimal(s) => FloatView::Decimal(s@),
                },
            ),
            YamlType::Str(s) => YamlTypeView::Str(s@),
        }
    }
}

/// Value of `c` as a digit in `radix` (2, 8, 10 or 16).
pub open spec fn digit_value(c: char, radix: int) -> Option<int> {
    let v = if '0' <= c && c <= '9' {
        c as int - '0' as int
    } else if 'a' <= c && c <= 'z' {
        c as int - 'a' as int + 10
    } else if 'A' <= c && c <= 'Z' {
        c as int - 'A' as int + 10
    } else {
        99
    };
    if v < radix {
        Some(v)
    } else {
        None
    }
}

/// All characters of `s` are digits in `radix`.
pub open spec fn all_digits(s: Seq<char>, radix: int) -> bool {
    forall|i: int| 0 <= i < s.len() ==> #[trigger] digit_value(s[i], radix) is Some
}

/// Numeric value of a digit string in `radix`.
pub open spec fn radix_value(s: Seq<char>, radix: int) -> int
    decreases s.len(),
{
    if s.len() == 0 {
        0
    } else {
        radix_value(s.drop_last(), radix) * radix + digit_value(s.last(), radix).unwrap_or(0)
    }
}

/// Parse of `s` as an `i64` in `radix`, as `i64::from_str_radix` does: an
/// optional `+` or `-`, then at least one digit, the value within range.
pub open spec fn parse_i64_spec(s: Seq<char>, radix: int) -> Option<int> {
    let neg = s.len() > 0 && s[0] == '-';
    let body = if s.len() > 0 && (s[0] == '+' || s[0] == '-') {
        s.drop_first()
    } else {
        s
    };
    let value = if neg {
        -radix_value(body, radix)
    } else {
        radix_value(body, radix)
    };
    if body.len() == 0 || !all_digits(body, radix) || value < i64::MIN || value > i64::MAX {
        None
    } else {
        Some(value)
    }
}

/// ASCII case-insensitive equality of `s` with the lowercase word `w`.
pub open spec fn eq_ignore_case(s: Seq<char>, w: Seq<char>) -> bool {
    s.len() == w.len() && forall|i: int| 0 <= i < s.len() ==> #[trigger] ascii_lower(s[i]) == w[i] as u32
}

/// ASCII lowercase of one character.
pub open spec fn ascii_lower(c: char) -> u32 {
    if 'A' <= c && c <= 'Z' {
        (c as u32 + 32) as u32
    } else {
        c as u32
    }
}

/// Number of leading ASCII digits of `s`.
pub open spec fn dec_run(s: Seq<char>) -> nat
    decreases s.len(),
{
    if s.len() > 0 && '0' <= s[0] && s[0] <= '9' {
        1 + dec_run(s.drop_first())
    } else {
        0
    }
}

/// `s` is an exponent part without its `e`: an optional sign, then digits.
pub open spec fn exp_digits_ok(s: Seq<char>) -> bool {
    let body = if s.len() > 0 && (s[0] == '+' || s[0] == '-') {
        s.drop_first()
    } else {
        s
    };
    body.len() > 0 && dec_run(body) == body.len()
}

/// `s` is a decimal number: digits with an optional fraction (at least one
/// digit on either side of the point), then an optional exponent.
pub open spec fn number_ok(s: Seq<char>) -> bool {
    let d1 = dec_run(s);
    let r1 = s.skip(d1 as int);
    let (d2, r2) = if r1.len() > 0 && r1[0] == '.' {
        let f = r1.drop_first();
        (dec_run(f), f.skip(dec_run(f) as int))
    } else {
        (0nat, r1)
    };
    &&& d1 + d2 > 0
    &&& (r2.len() == 0 || ((r2[0] == 'e' || r2[0] == 'E') && exp_digits_ok(r2.drop_first())))
}

/// `s` is accepted by `f64::from_str`: an optional sign, then `inf`,
/// `infinity` or `nan` in any case, or a decimal number.
pub open spec fn float_syntax(s: Seq<char>) -> bool {
    let body = if s.len() > 0 && (s[0] == '+' || s[0] == '-') {
        s.drop_first()
    } else {
        s
    };
    eq_ignore_case(body, "inf"@) || eq_ignore_case(body, "infinity"@) || eq_ignore_case(
        body,
        "nan"@,
    ) || number_ok(body)
}

/// `s` contains a `.`, `e` or `E`.
pub open spec fn has_float_marker(s: Seq<char>) -> bool {
    exists|i: int| 0 <= i < s.len() && (s[i] == '.' || s[i] == 'e' || s[i] == 'E')
}

/// A first character that can start a non-string core lexeme.
pub open spec fn core_lead(c: char) -> bool {
    c == '~' || c == 'n' || c == 'N' || c == 't' || c == 'T' || c == 'f' || c == 'F' || c == 'i'
        || c == 'I' || c == '.' || c == '-' || c == '+' || ('0' <= c && c <= '9')
}

/// `s` is one of the given spellings.
pub open spec fn one_of3(s: Seq<char>, a: Seq<char>, b: Seq<char>, c: Seq<char>) -> bool {
    s == a || s == b || s == c
}

/// The null spellings `null`, `Null`, `NULL`.
pub open spec fn is_null_word(t: Seq<char>) -> bool {
    one_of3(t, "null"@, "Null"@, "NULL"@)
}

/// The spellings of `true`.
pub open spec fn is_true_word(t: Seq<char>) -> bool {
    one_of3(t, "true"@, "True"@, "TRUE"@)
}

/// The spellings of `false`.
pub open spec fn is_false_word(t: Seq<char>) -> bool {
    one_of3(t, "false"@, "False"@, "FALSE"@)
}

/// Positive infinity spellings.
pub open spec fn is_pos_inf(t: Seq<char>) -> bool {
    one_of3(t, ".inf"@, ".Inf"@, ".INF"@) || one_of3(t, "inf"@, "Inf"@, "INF"@)
}

/// Negative infinity spellings.
pub open spec fn is_neg_inf(t: Seq<char>) -> bool {
    one_of3(t, "-.inf"@, "-.Inf"@, "-.INF"@) || one_of3(t, "-inf"@, "-Inf"@, "-INF"@)
}

/// NaN spellings.
pub open spec fn is_nan_word(t: Seq<char>) -> bool {
    one_of3(t, ".nan"@, ".NaN"@, ".NAN"@) || one_of3(t, "nan"@, "NaN"@, "NAN"@)
}

/// Starts with `0o`/`0O`.
pub open spec fn octal_prefix(t: Seq<char>) -> bool {
    t.len() >= 2 && t[0] == '0' && (t[1] == 'o' || t[1] == 'O')
}

/// Starts with `0x`/`0X`.
pub open spec fn hex_prefix(t: Seq<char>) -> bool {
    t.len() >= 2 && t[0] == '0' && (t[1] == 'x' || t[1] == 'X')
}

/// The numeric part of core resolution, after null and booleans: infinities
/// and NaN, `0o` octal, `0x` hex, floats (with `.`, `e` or `E`), decimal
/// integers, otherwise the original text as a string.
pub open spec fn core_numeric(v: Seq<char>, t: Seq<char>) -> YamlTypeView {
    if is_pos_inf(t) {
        YamlTypeView::Float(FloatView::Infinity)
    } else if is_neg_inf(t) {
        YamlTypeView::Float(FloatView::NegInfinity)
    } else if is_nan_word(t) {
        YamlTypeView::Float(FloatView::NaN)
    } else if octal_prefix(t) && parse_i64_spec(t.skip(2), 8) is Some {
        YamlTypeView::Int(parse_i64_spec(t.skip(2), 8)->0)
    } else if hex_prefix(t) && parse_i64_spec(t.skip(2), 16) is Some {
        YamlTypeView::Int(parse_i64_spec(t.skip(2), 16)->0)
    } else if has_float_marker(t) && float_syntax(t) {
        YamlTypeView::Float(FloatView::Decimal(t))
    } else if parse_i64_spec(t, 10) is Some {
        YamlTypeView::Int(parse_i64_spec(t, 10)->0)
    } else {
        YamlTypeView::Str(v)
    }
}

/// YAML 1.2 core resolution of plain scalar `v` (judged on its trimmed
/// text): empty or `~` is null; a first character that cannot start a
/// non-string lexeme gives a string at once; then null, booleans and the
/// numeric forms of `core_numeric`.
pub open spec fn resolve_core_spec(v: Seq<char>) -> YamlTypeView {
    let t = trim(v);
    if t.len() == 0 || t == "~"@ {
        YamlTypeView::Null
    } else if !core_lead(t[0]) {
        YamlTypeView::Str(v)
    } else if is_null_word(t) {
        YamlTypeView::Null
    } else if is_true_word(t) {
        YamlTypeView::Bool(true)
    } else if is_false_word(t) {
        YamlTypeView::Bool(false)
    } else {
        core_numeric(v, t)
    }
}

/// Null for JSON and YAML 1.1: empty, a null spelling or `~`.
pub open spec fn is_null_lexeme(t: Seq<char>) -> bool {
    t.len() == 0 || is_null_word(t) || t == "~"@
}

/// JSON resolution: as core, except that infinities, NaN, octal and hex are
/// strings, and there is no first-character shortcut.
pub open spec fn resolve_json_spec(v: Seq<char>) -> YamlTypeView {
    let t = trim(v);
    if is_null_lexeme(t) {
        YamlTypeView::Null
    } else if is_true_word(t) {
        YamlTypeView::Bool(true)
    } else if is_false_word(t) {
        YamlTypeView::Bool(false)
    } else if is_pos_inf(t) || is_neg_inf(t) || is_nan_word(t) {
        YamlTypeView::Str(v)
    } else if octal_prefix(t) || hex_prefix(t) {
        YamlTypeView::Str(v)
    } else if has_float_marker(t) && float_syntax(t) {
        YamlTypeView::Float(FloatView::Decimal(t))
    } else if parse_i64_spec(t, 10) is Some {
        YamlTypeView::Int(parse_i64_spec(t, 10)->0)
    } else {
        YamlTypeView::Str(v)
    }
}

/// YAML 1.1 legacy true spellings.
pub open spec fn is_legacy_true(t: Seq<char>) -> bool {
    one_of3(t, "yes"@, "Yes"@, "YES"@) || t == "y"@ || t == "Y"@ || one_of3(t, "on"@, "On"@, "ON"@)
}

/// YAML 1.1 legacy false spellings.
pub open spec fn is_legacy_false(t: Seq<char>) -> bool {
    one_of3(t, "no"@, "No"@, "NO"@) || t == "n"@ || t == "N"@ || one_of3(t, "off"@, "Off"@, "OFF"@)
}

/// YAML 1.1 resolution: null and the 1.2 and legacy booleans first, then core.
pub open spec fn resolve_yaml11_spec(v: Seq<char>) -> YamlTypeView {
    let t = trim(v);
    if is_null_lexeme(t) {
        YamlTypeView::Null
    } else if is_true_word(t) || is_legacy_true(t) {
        YamlTypeView::Bool(true)
    } else if is_false_word(t) || is_legacy_false(t) {
        YamlTypeView::Bool(false)
    } else {
        resolve_core_spec(v)
    }
}

/// Resolution under a schema.
pub open spec fn resolve_spec(v: Seq<char>, schema: YamlSchema) -> YamlTypeView {
    match schema {
        YamlSchema::Failsafe => YamlTypeView::Str(v),
        YamlSchema::Json => resolve_json_spec(v),
        YamlSchema::Core => resolve_core_spec(v),
        YamlSchema::Yaml1_1 => resolve_yaml11_spec(v),
    }
}

/// Whether `v[a..b]` spells `lit`.
pub fn slice_is(v: &Vec<char>, a: usize, b: usize, lit: &str) -> (res: bool)
    requires
        a <= b <= v@.len(),
    ensures
        res == (v@.subrange(a as int, b as int) == lit@),
{
    let w = chars_of(lit);
    if b - a != w.len() {
        return false;
    }
    let mut i: usize = 0;
    while i < w.len()
        invariant
            a <= b <= v@.len(),
            w@ == lit@,
            b - a == w@.len(),
            0 <= i <= w@.len(),
            forall|j: int| 0 <= j < i ==> v@[a + j] == w@[j],
        decreases w@.len() - i,
    {
        if v[a + i] != w[i] {
            assert(v@.subrange(a as int, b as int)[i as int] != lit@[i as int]);
            return false;
        }
        i = i + 1;
    }
    assert(v@.subrange(a as int, b as int) =~= lit@);
    true
}

pub(crate) fn one_of(v: &Vec<char>, a: usize, b: usize, x: &str, y: &str, z: &str) -> (res: bool)
    requires
        a <= b <= v@.len(),
    ensures
        res == one_of3(v@.subrange(a as int, b as int), x@, y@, z@),
{
    slice_is(v, a, b, x) || slice_is(v, a, b, y) || slice_is(v, a, b, z)
}

/// Value of one digit in `radix`.
fn digit_value_of(c: char, radix: u32) -> (res: Option<u32>)
    requires
        radix <= 36,
    ensures
        match digit_value(c, radix as int) {
            Some(d) => res == Some(d as u32),
            None => res is None,
        },
{
    let v: u32 = if '0' <= c && c <= '9' {
        c as u32 - '0' as u32
    } else if 'a' <= c && c <= 'z' {
        c as u32 - 'a' as u32 + 10
    } else if 'A' <= c && c <= 'Z' {
        c as u32 - 'A' as u32 + 10
    } else {
        99
    };
    if v < radix {
        Some(v)
    } else {
        None
    }
}

proof fn lemma_radix_value_mono(s: Seq<char>, radix: int, k: int)
    requires
        2 <= radix,
        0 <= k <= s.len(),
        all_digits(s, radix),
    ensures
        0 <= radix_value(s.take(k), radix) <= radix_value(s, radix),
    decreases s.len() - k,
{
    if k < s.len() {
        lemma_radix_value_mono(s, radix, k + 1);
        assert(s.take(k + 1).drop_last() =~= s.take(k));
        assert(digit_value(s[k], radix) is Some);
        lemma_radix_value_nonneg(s.take(k), radix);
        let p = radix_value(s.take(k), radix);
        assert(p * radix >= p) by (nonlinear_arith)
            requires
                p >= 0,
                radix >= 2,
        ;
    } else {
        assert(s.take(k) =~= s);
        lemma_radix_value_nonneg(s, radix);
    }
}

proof fn lemma_radix_value_nonneg(s: Seq<char>, radix: int)
    requires
        2 <= radix,
        all_digits(s, radix),
    ensures
        radix_value(s, radix) >= 0,
    decreases s.len(),
{
    if s.len() > 0 {
        assert(all_digits(s.drop_last(), radix)) by {
            assert forall|i: int| 0 <= i < s.drop_last().len() implies #[trigger] digit_value(
                s.drop_last()[i],
                radix,
            ) is Some by {
                assert(s.drop_last()[i] == s[i]);
            }
        }
        lemma_radix_value_nonneg(s.drop_last(), radix);
        assert(digit_value(s[s.len() - 1], radix) is Some);
        let p = radix_value(s.drop_last(), radix);
        assert(p * radix >= 0) by (nonlinear_arith)
            requires
                p >= 0,
                radix >= 2,
        ;
    }
}

/// Parse `v[a..b]` as an `i64` in `radix` (`i64::from_str_radix`).
pub fn parse_i64_radix(v: &Vec<char>, a: usize, b: usize, radix: u32) -> (res: Option<i64>)
    requires
        a <= b <= v@.len(),
        2 <= radix <= 16,
    ensures
        match parse_i64_spec(v@.subrange(a as int, b as int), radix as int) {
            Some(x) => res == Some(x as i64),
            None => res is None,
        },
{
    let ghost s = v@.subrange(a as int, b as int);
    if a == b {
        return None;
    }
    let neg = v[a] == '-';
    let signed = v[a] == '+' || v[a] == '-';
    let start = if signed { a + 1 } else { a };
    let ghost body = v@.subrange(start as int, b as int);
    proof {
        assert(s[0] == v@[a as int]);
        if signed {
            assert(body =~= s.drop_first());
        } else {
            assert(body =~= s);
        }
    }
    if start == b {
        return None;
    }
    let limit: u64 = if neg { 9223372036854775808u64 } else { 9223372036854775807u64 };
    let mut acc: u64 = 0;
    let mut i = start;
    let mut overflow = false;
    while i < b
        invariant
            a <= start <= i <= b <= v@.len(),
            2 <= radix <= 16,
            body == v@.subrange(start as int, b as int),
            s == v@.subrange(a as int, b as int),
            s.len() > 0,
            neg == (s[0] == '-'),
            signed == (s[0] == '+' || s[0] == '-'),
            signed ==> body == s.drop_first(),
            !signed ==> body == s,
            limit == if neg { 9223372036854775808u64 } else { 9223372036854775807u64 },
            forall|j: int| start <= j < i ==> #[trigger] digit_value(v@[j], radix as int) is Some,
            !overflow ==> acc == radix_value(v@.subrange(start as int, i as int), radix as int),
            !overflow ==> acc <= limit,
            overflow ==> radix_value(v@.subrange(start as int, i as int), radix as int) > limit,
        decreases b - i,
    {
        let d = digit_value_of(v[i], radix);
        match d {
            None => {
                assert(!all_digits(body, radix as int)) by {
                    assert(body[i - start] == v@[i as int]);
                }
                return None;
            },
            Some(dv) => {
                proof {
                    assert(v@.subrange(start as int, i + 1).drop_last() =~= v@.subrange(
                        start as int,
                        i as int,
                    ));
                    assert(v@.subrange(start as int, i + 1).last() == v@[i as int]);
                }
                if overflow {
                    proof {
                        let sub = v@.subrange(start as int, i as int);
                        assert forall|j: int| 0 <= j < sub.len() implies #[trigger] digit_value(sub[j], radix as int) is Some by {
                            assert(sub[j] == v@[start + j]);
                        }
                        lemma_radix_value_nonneg(sub, radix as int);
                        let p = radix_value(sub, radix as int);
                        assert(p * radix + dv > limit) by (nonlinear_arith)
                            requires
                                p > limit,
                                radix >= 2,
                                dv >= 0,
                        ;
                    }
                } else if acc > (limit - dv as u64) / (radix as u64) {
                    overflow = true;
                    proof {
                        let r: int = radix as int;
                        let d: int = dv as int;
                        let lim: int = limit as int;
                        assert(acc * r + d > lim) by (nonlinear_arith)
                            requires
                                acc > (lim - d) / r,
                                0 <= d,
                                d <= lim,
                                r >= 2,
                                d < r,
                                lim >= 16,
                        ;
                    }
                } else {
                    proof {
                        let r: int = radix as int;
                        let d: int = dv as int;
                        let lim: int = limit as int;
                        assert(acc * r + d <= lim) by (nonlinear_arith)
                            requires
                                acc <= (lim - d) / r,
                                0 <= d,
                                d <= lim,
                                r >= 2,
                                d < r,
                                lim >= 16,
                        ;
                    }
                    acc = acc * (radix as u64) + dv as u64;
                }
            },
        }
        i = i + 1;
    }
    assert(all_digits(body, radix as int)) by {
        assert forall|j: int| 0 <= j < body.len() implies #[trigger] digit_value(body[j], radix as int) is Some by {
            assert(body[j] == v@[start + j]);
        }
    }
    if overflow {
        return None;
    }
    if neg {
        if acc == 9223372036854775808u64 {
            Some(i64::MIN)
        } else {
            Some(-(acc as i64))
        }
    } else {
        Some(acc as i64)
    }
}

/// Number of leading ASCII digits of `v[a..b]`.
fn dec_run_of(v: &Vec<char>, a: usize, b: usize) -> (res: usize)
    requires
        a <= b <= v@.len(),
    ensures
        res == dec_run(v@.subrange(a as int, b as int)),
        res <= b - a,
{
    let mut i = a;
    while i < b && '0' <= v[i] && v[i] <= '9'
        invariant
            a <= i <= b <= v@.len(),
            dec_run(v@.subrange(a as int, b as int)) == (i - a) + dec_run(v@.subrange(i as int, b as int)),
        decreases b - i,
    {
        proof {
            assert(v@.subrange(i as int, b as int).drop_first() =~= v@.subrange(i + 1, b as int));
        }
        i = i + 1;
    }
    proof {
        if i < b {
            assert(v@.subrange(i as int, b as int)[0] == v@[i as int]);
        }
    }
    i - a
}

/// Case-insensitive match of `v[a..b]` against a lowercase ASCII word.
pub(crate) fn eq_ignore_case_of(v: &Vec<char>, a: usize, b: usize, w: &str) -> (res: bool)
    requires
        a <= b <= v@.len(),
    ensures
        res == eq_ignore_case(v@.subrange(a as int, b as int), w@),
{
    let wc = chars_of(w);
    if b - a != wc.len() {
        return false;
    }
    let mut i: usize = 0;
    while i < wc.len()
        invariant
            a <= b <= v@.len(),
            wc@ == w@,
            b - a == wc@.len(),
            0 <= i <= wc@.len(),
            forall|j: int| 0 <= j < i ==> #[trigger] ascii_lower(v@[a + j]) == wc@[j] as u32,
        decreases wc@.len() - i,
    {
        let c = v[a + i];
        let cu = c as u32;
        let lc: u32 = if 'A' <= c && c <= 'Z' {
            cu + 32
        } else {
            cu
        };
        if lc != wc[i] as u32 {
            assert(ascii_lower(v@.subrange(a as int, b as int)[i as int]) != w@[i as int] as u32);
            return false;
        }
        i = i + 1;
    }
    assert forall|j: int| 0 <= j < b - a implies #[trigger] ascii_lower(v@.subrange(a as int, b as int)[j]) == w@[j] as u32 by {
        assert(v@.subrange(a as int, b as int)[j] == v@[a + j]);
    }
    true
}

/// Whether `v[a..b]` is accepted by `f64::from_str`.
pub(crate) fn float_syntax_of(v: &Vec<char>, a: usize, b: usize) -> (res: bool)
    requires
        a <= b <= v@.len(),
    ensures
        res == float_syntax(v@.subrange(a as int, b as int)),
{
    let ghost s = v@.subrange(a as int, b as int);
    let signed = a < b && (v[a] == '+' || v[a] == '-');
    let st = if signed { a + 1 } else { a };
    proof {
        if a < b {
            assert(s[0] == v@[a as int]);
        }
        if signed {
            assert(v@.subrange(st as int, b as int) =~= s.drop_first());
        } else {
            assert(v@.subrange(st as int, b as int) =~= s);
        }
    }
    if eq_ignore_case_of(v, st, b, "inf") || eq_ignore_case_of(v, st, b, "infinity")
        || eq_ignore_case_of(v, st, b, "nan") {
        return true;
    }
    number_ok_of(v, st, b)
}

/// Whether `v[a..b]` is a decimal number (see `number_ok`).
fn number_ok_of(v: &Vec<char>, st: usize, b: usize) -> (res: bool)
    requires
        st <= b <= v@.len(),
    ensures
        res == number_ok(v@.subrange(st as int, b as int)),
{
    let ghost body = v@.subrange(st as int, b as int);
    let d1 = dec_run_of(v, st, b);
    let p1 = st + d1;
    proof {
        assert(body.skip(d1 as int) =~= v@.subrange(p1 as int, b as int));
    }
    let mut d2: usize = 0;
    let mut p2 = p1;
    if p1 < b && v[p1] == '.' {
        d2 = dec_run_of(v, p1 + 1, b);
        p2 = p1 + 1 + d2;
        proof {
            let r1 = body.skip(d1 as int);
            assert(r1[0] == v@[p1 as int]);
            assert(r1.drop_first() =~= v@.subrange(p1 + 1, b as int));
            assert(r1.drop_first().skip(d2 as int) =~= v@.subrange(p2 as int, b as int));
        }
    } else {
        proof {
            let r1 = body.skip(d1 as int);
            if p1 < b {
                assert(r1[0] == v@[p1 as int]);
            }
        }
    }
    if d1 + d2 == 0 {
        return false;
    }
    if p2 == b {
        return true;
    }
    let ghost r2 = v@.subrange(p2 as int, b as int);
    assert(r2[0] == v@[p2 as int]);
    if v[p2] != 'e' && v[p2] != 'E' {
        return false;
    }
    let e = p2 + 1;
    let esigned = e < b && (v[e] == '+' || v[e] == '-');
    let es = if esigned { e + 1 } else { e };
    proof {
        let x = r2.drop_first();
        assert(x =~= v@.subrange(e as int, b as int));
        if e < b {
            assert(x[0] == v@[e as int]);
        }
        if esigned {
            assert(x.drop_first() =~= v@.subrange(es as int, b as int));
        } else {
            assert(x =~= v@.subrange(es as int, b as int));
        }
    }
    let d3 = dec_run_of(v, es, b);
    es < b && d3 == b - es
}

/// Core resolution of the numeric forms, given `t = v[a..b]` trimmed.
fn core_numeric_of(value: &str, v: &Vec<char>, a: usize, b: usize) -> (res: YamlType)
    requires
        v@ == value@,
        a <= b <= v@.len(),
    ensures
        res@ == core_numeric(value@, v@.subrange(a as int, b as int)),
{
    let ghost t = v@.subrange(a as int, b as int);
    if one_of(v, a, b, ".inf", ".Inf", ".INF") || one_of(v, a, b, "inf", "Inf", "INF") {
        return YamlType::Float(FloatValue::Infinity);
    }
    if one_of(v, a, b, "-.inf", "-.Inf", "-.INF") || one_of(v, a, b, "-inf", "-Inf", "-INF") {
        return YamlType::Float(FloatValue::NegInfinity);
    }
    if one_of(v, a, b, ".nan", ".NaN", ".NAN") || one_of(v, a, b, "nan", "NaN", "NAN") {
        return YamlType::Float(FloatValue::NaN);
    }
    let two = b - a >= 2;
    proof {
        if two {
            assert(t[0] == v@[a as int]);
            assert(t[1] == v@[a + 1]);
            assert(t.skip(2) =~= v@.subrange(a + 2, b as int));
        }
    }
    if two && v[a] == '0' && (v[a + 1] == 'o' || v[a + 1] == 'O') {
        if let Some(n) = parse_i64_radix(v, a + 2, b, 8) {
            return YamlType::Int(n);
        }
    }
    if two && v[a] == '0' && (v[a + 1] == 'x' || v[a + 1] == 'X') {
        if let Some(n) = parse_i64_radix(v, a + 2, b, 16) {
            return YamlType::Int(n);
        }
    }
    let mut marker = false;
    let mut i = a;
    while i < b
        invariant
            a <= i <= b <= v@.len(),
            t == v@.subrange(a as int, b as int),
            marker == exists|j: int| 0 <= j < i - a && (t[j] == '.' || t[j] == 'e' || t[j] == 'E'),
        decreases b - i,
    {
        assert(t[i - a] == v@[i as int]);
        if v[i] == '.' || v[i] == 'e' || v[i] == 'E' {
            marker = true;
        }
        i = i + 1;
    }
    if marker && float_syntax_of(v, a, b) {
        return YamlType::Float(FloatValue::Decimal(string_of(v, a, b)));
    }
    if let Some(n) = parse_i64_radix(v, a, b, 10) {
        return YamlType::Int(n);
    }
    YamlType::Str(value.to_string())
}

/// Resolve a plain scalar with zero implicit resolution: always a string.
pub fn resolve_failsafe(value: &str) -> (res: YamlType)
    ensures
        res@ == YamlTypeView::Str(value@),
{
    YamlType::Str(value.to_string())
}

/// Resolve a plain scalar as YAML 1.2 core (see `resolve_core_spec`).
pub fn resolve_core_type(value: &str) -> (res: YamlType)
    ensures
        res@ == resolve_core_spec(value@),
{
    let v = chars_of(value);
    let (a, b) = trim_bounds(&v, 0, v.len());
    assert(v@.subrange(0, v@.len() as int) =~= value@);
    if a == b || slice_is(&v, a, b, "~") {
        return YamlType::Null;
    }
    let first = v[a];
    assert(trim(value@)[0] == first);
    if !(first == '~' || first == 'n' || first == 'N' || first == 't' || first == 'T' || first
        == 'f' || first == 'F' || first == 'i' || first == 'I' || first == '.' || first == '-'
        || first == '+' || ('0' <= first && first <= '9')) {
        return YamlType::Str(value.to_string());
    }
    if one_of(&v, a, b, "null", "Null", "NULL") {
        return YamlType::Null;
    }
    if one_of(&v, a, b, "true", "True", "TRUE") {
        return YamlType::Bool(true);
    }
    if one_of(&v, a, b, "false", "False", "FALSE") {
        return YamlType::Bool(false);
    }
    core_numeric_of(value, &v, a, b)
}

/// Resolve a plain scalar as JSON-compatible YAML (see `resolve_json_spec`).
pub fn resolve_json_type(value: &str) -> (res: YamlType)
    ensures
        res@ == resolve_json_spec(value@),
{
    let v = chars_of(value);
    let (a, b) = trim_bounds(&v, 0, v.len());
    assert(v@.subrange(0, v@.len() as int) =~= value@);
    let ghost t = v@.subrange(a as int, b as int);
    if a == b || one_of(&v, a, b, "null", "Null", "NULL") || slice_is(&v, a, b, "~") {
        return YamlType::Null;
    }
    if one_of(&v, a, b, "true", "True", "TRUE") {
        return YamlType::Bool(true);
    }
    if one_of(&v, a, b, "false", "False", "FALSE") {
        return YamlType::Bool(false);
    }
    if is_inf_or_nan(&v, a, b) {
        return YamlType::Str(value.to_string());
    }
    if is_octal(&v, a, b) || is_hex(&v, a, b) {
        return YamlType::Str(value.to_string());
    }
    let mut marker = false;
    let mut i = a;
    while i < b
        invariant
            a <= i <= b <= v@.len(),
            t == v@.subrange(a as int, b as int),
            marker == exists|j: int| 0 <= j < i - a && (t[j] == '.' || t[j] == 'e' || t[j] == 'E'),
        decreases b - i,
    {
        assert(t[i - a] == v@[i as int]);
        if v[i] == '.' || v[i] == 'e' || v[i] == 'E' {
            marker = true;
        }
        i = i + 1;
    }
    if marker && float_syntax_of(&v, a, b) {
        return YamlType::Float(FloatValue::Decimal(string_of(&v, a, b)));
    }
    if let Some(n) = parse_i64_radix(&v, a, b, 10) {
        return YamlType::Int(n);
    }
    YamlType::Str(value.to_string())
}

/// Resolve a plain scalar as YAML 1.1 (see `resolve_yaml11_spec`).
pub fn resolve_yaml11_type(value: &str) -> (res: YamlType)
    ensures
        res@ == resolve_yaml11_spec(value@),
{
    let v = chars_of(value);
    let (a, b) = trim_bounds(&v, 0, v.len());
    assert(v@.subrange(0, v@.len() as int) =~= value@);
    if a == b || one_of(&v, a, b, "null", "Null", "NULL") || slice_is(&v, a, b, "~") {
        return YamlType::Null;
    }
    if one_of(&v, a, b, "true", "True", "TRUE") {
        return YamlType::Bool(true);
    }
    if one_of(&v, a, b, "false", "False", "FALSE") {
        proof {
            reveal_strlit("false");
            reveal_strlit("False");
            reveal_strlit("FALSE");
            reveal_strlit("yes");
            reveal_strlit("Yes");
            reveal_strlit("YES");
            reveal_strlit("y");
            reveal_strlit("Y");
            reveal_strlit("on");
            reveal_strlit("On");
            reveal_strlit("ON");
        }
        return YamlType::Bool(false);
    }
    if one_of(&v, a, b, "yes", "Yes", "YES") || slice_is(&v, a, b, "y") || slice_is(&v, a, b, "Y")
        || one_of(&v, a, b, "on", "On", "ON") {
        return YamlType::Bool(true);
    }
    if one_of(&v, a, b, "no", "No", "NO") || slice_is(&v, a, b, "n") || slice_is(&v, a, b, "N")
        || one_of(&v, a, b, "off", "Off", "OFF") {
        return YamlType::Bool(false);
    }
    resolve_core_type(value)
}

/// Resolve a plain scalar according to `schema`.
pub fn resolve_yaml_type(value: &str, schema: YamlSchema) -> (res: YamlType)
    ensures
        res@ == resolve_spec(value@, schema),
{
    match schema {
        YamlSchema::Failsafe => resolve_failsafe(value),
        YamlSchema::Json => resolve_json_type(value),
        YamlSchema::Core => resolve_core_type(value),
        YamlSchema::Yaml1_1 => resolve_yaml11_type(value),
    }
}

/// Whether `v[a..b]` spells an infinity or NaN.
fn is_inf_or_nan(v: &Vec<char>, a: usize, b: usize) -> (res: bool)
    requires
        a <= b <= v@.len(),
    ensures
        res == ({
            let t = v@.subrange(a as int, b as int);
            is_pos_inf(t) || is_neg_inf(t) || is_nan_word(t)
        }),
{
    one_of(v, a, b, ".inf", ".Inf", ".INF") || one_of(v, a, b, "inf", "Inf", "INF") || one_of(
        v,
        a,
        b,
        "-.inf",
        "-.Inf",
        "-.INF",
    ) || one_of(v, a, b, "-inf", "-Inf", "-INF") || one_of(v, a, b, ".nan", ".NaN", ".NAN")
        || one_of(v, a, b, "nan", "NaN", "NAN")
}

/// Whether `v[a..b]` starts with `0o`/`0O`.
fn is_octal(v: &Vec<char>, a: usize, b: usize) -> (res: bool)
    requires
        a <= b <= v@.len(),
    ensures
        res == octal_prefix(v@.subrange(a as int, b as int)),
{
    let r = b - a >= 2 && v[a] == '0' && (v[a + 1] == 'o' || v[a + 1] == 'O');
    proof {
        if b - a >= 2 {
            assert(v@.subrange(a as int, b as int)[0] == v@[a as int]);
            assert(v@.subrange(a as int, b as int)[1] == v@[a + 1]);
        }
    }
    r
}

/// Whether `v[a..b]` starts with `0x`/`0X`.
fn is_hex(v: &Vec<char>, a: usize, b: usize) -> (res: bool)
    requires
        a <= b <= v@.len(),
    ensures
        res == hex_prefix(v@.subrange(a as int, b as int)),
{
    let r = b - a >= 2 && v[a] == '0' && (v[a + 1] == 'x' || v[a + 1] == 'X');
    proof {
        if b - a >= 2 {
            assert(v@.subrange(a as int, b as int)[0] == v@[a as int]);
            assert(v@.subrange(a as int, b as int)[1] == v@[a + 1]);
        }
    }
    r
}

/// The string would be misread if emitted as an unquoted plain scalar: it
/// resolves to a non-string type under the core schema, has a leading or
/// trailing space, or holds a control character.
pub open spec fn needs_quotes_spec(v: Seq<char>) -> bool {
    !(resolve_core_spec(v) is Str) || (v.len() > 0 && (v[0] == ' ' || v.last() == ' ')) || exists|
        i: int,
    | 0 <= i < v.len() && is_ctrl(#[trigger] v[i])
}

/// Whether a string value must be quoted to round-trip as a string.
pub fn needs_quotes(value: &str) -> (res: bool)
    ensures
        res == needs_quotes_spec(value@),
{
    match resolve_core_type(value) {
        YamlType::Str(_) => {},
        _ => {
            return true;
        },
    }
    let v = chars_of(value);
    if v.len() > 0 && (v[0] == ' ' || v[v.len() - 1] == ' ') {
        return true;
    }
    let mut i: usize = 0;
    while i < v.len()
        invariant
            v@ == value@,
            0 <= i <= v@.len(),
            forall|j: int| 0 <= j < i ==> !is_ctrl(#[trigger] v@[j]),
        decreases v@.len() - i,
    {
        if is_control(v[i]) {
            assert(is_ctrl(value@[i as int]));
            return true;
        }
        i = i + 1;
    }
    false
}

/// The string resolves to a non-string type under the core schema.
pub fn core_type_is_non_string(value: &str) -> (res: bool)
    ensures
        res == !(resolve_core_spec(value@) is Str),
{
    match resolve_core_type(value) {
        YamlType::Str(_) => false,
        _ => true,
    }
}

proof fn lemma_digit_char(d: nat)
    requires
        d < 10,
    ensures
        '0' <= digit_char(d) <= '9',
        digit_value(digit_char(d), 10) == Some(d as int),
{
}

/// The decimal digits of `n` are digits, at least one, worth `n`.
pub proof fn lemma_decimal_digits(n: nat)
    ensures
        decimal(n).len() >= 1,
        forall|i: int| 0 <= i < decimal(n).len() ==> '0' <= #[trigger] decimal(n)[i] <= '9',
        all_digits(decimal(n), 10),
        radix_value(decimal(n), 10) == n,
    decreases n,
{
    lemma_digit_char(n % 10);
    if n < 10 {
        let d = decimal(n);
        assert(d.drop_last() =~= Seq::<char>::empty());
        assert(radix_value(d.drop_last(), 10) == 0);
    } else {
        lemma_decimal_digits(n / 10);
        let d = decimal(n);
        let e = decimal(n / 10);
        assert(d.drop_last() =~= e);
        assert forall|i: int| 0 <= i < d.len() implies '0' <= #[trigger] d[i] <= '9' by {
            if i < e.len() {
                assert(d[i] == e[i]);
            }
        }
        assert forall|i: int| 0 <= i < d.len() implies #[trigger] digit_value(d[i], 10) is Some by {
            if i < e.len() {
                assert(d[i] == e[i]);
                assert(digit_value(e[i], 10) is Some);
            }
        }
        vstd::arithmetic::div_mod::lemma_fundamental_div_mod(n as int, 10);
    }
}

/// Under the JSON schema, a text that is, after trimming, the decimal
/// spelling of an `i64` (a `-` before the digits of a negative one) resolves
/// to that integer.
pub proof fn law_json_integers(v: Seq<char>, n: int)
    requires
        i64::MIN <= n <= i64::MAX,
        trim(v) == signed_decimal(n),
    ensures
        resolve_json_spec(v) == YamlTypeView::Int(n),
{
    let t = trim(v);
    let m: nat = if n < 0 { (-n) as nat } else { n as nat };
    let d = decimal(m);
    lemma_decimal_digits(m);
    assert(forall|i: int| 1 <= i < t.len() ==> '0' <= #[trigger] t[i] <= '9') by {
        assert forall|i: int| 1 <= i < t.len() implies '0' <= #[trigger] t[i] <= '9' by {
            if n < 0 {
                assert(t[i] == d[i - 1]);
            } else {
                assert(t[i] == d[i]);
            }
        }
    }
    assert(t.len() >= 1);
    assert(t[0] == '-' || ('0' <= t[0] <= '9'));
    assert(n < 0 ==> t[0] == '-' && t.len() >= 2);
    reveal_strlit("null");
    reveal_strlit("Null");
    reveal_strlit("NULL");
    reveal_strlit("~");
    reveal_strlit("true");
    reveal_strlit("True");
    reveal_strlit("TRUE");
    reveal_strlit("false");
    reveal_strlit("False");
    reveal_strlit("FALSE");
    reveal_strlit(".inf");
    reveal_strlit(".Inf");
    reveal_strlit(".INF");
    reveal_strlit("inf");
    reveal_strlit("Inf");
    reveal_strlit("INF");
    reveal_strlit("-.inf");
    reveal_strlit("-.Inf");
    reveal_strlit("-.INF");
    reveal_strlit("-inf");
    reveal_strlit("-Inf");
    reveal_strlit("-INF");
    reveal_strlit(".nan");
    reveal_strlit(".NaN");
    reveal_strlit(".NAN");
    reveal_strlit("nan");
    reveal_strlit("NaN");
    reveal_strlit("NAN");
    assert(!is_null_lexeme(t));
    assert(!is_true_word(t));
    assert(!is_false_word(t));
    assert(!is_pos_inf(t));
    assert(!is_neg_inf(t)) by {
        if t.len() >= 2 {
            assert('0' <= t[1] <= '9');
        }
    }
    assert(!is_nan_word(t));
    assert(!octal_prefix(t) && !hex_prefix(t)) by {
        if t.len() >= 2 {
            assert('0' <= t[1] <= '9');
        }
    }
    assert(!has_float_marker(t)) by {
        if has_float_marker(t) {
            let i = choose|i: int| 0 <= i < t.len() && (t[i] == '.' || t[i] == 'e' || t[i] == 'E');
            if i >= 1 {
                assert('0' <= t[i] <= '9');
            }
        }
    }
    if n < 0 {
        assert(t.drop_first() =~= d);
    } else {
        assert(t =~= d);
    }
    assert(parse_i64_spec(t, 10) == Some(n));
}

/// `z` zero digits.
pub open spec fn zeros(z: nat) -> Seq<char> {
    Seq::new(z, |i: int| '0')
}

proof fn lemma_zeros_value(z: nat, d: Seq<char>)
    ensures
        radix_value(zeros(z) + d, 10) == radix_value(d, 10),
    decreases d.len(), z,
{
    if d.len() == 0 {
        assert(zeros(z) + d =~= zeros(z));
        if z > 0 {
            assert(zeros(z).drop_last() =~= zeros((z - 1) as nat));
            lemma_zeros_value((z - 1) as nat, d);
            assert(zeros((z - 1) as nat) + d =~= zeros((z - 1) as nat));
            assert(digit_value('0', 10) == Some(0int));
        }
    } else {
        assert((zeros(z) + d).drop_last() =~= zeros(z) + d.drop_last());
        assert((zeros(z) + d).last() == d.last());
        lemma_zeros_value(z, d.drop_last());
    }
}

/// Under the JSON schema, a text that is, after trimming, an optional `+`
/// or `-`, any number of leading zeros and the decimal digits of a number
/// within the `i64` range, resolves to that integer (negated after `-`), as
/// `i64::from_str` reads it.
pub proof fn law_json_integer_spellings(v: Seq<char>, sign: int, z: nat, m: nat)
    requires
        -1 <= sign <= 1,
        sign < 0 ==> m <= 0x8000_0000_0000_0000,
        sign >= 0 ==> m <= 0x7fff_ffff_ffff_ffff,
        trim(v) == (if sign < 0 {
            seq!['-']
        } else if sign > 0 {
            seq!['+']
        } else {
            Seq::<char>::empty()
        }) + zeros(z) + decimal(m),
    ensures
        resolve_json_spec(v) == YamlTypeView::Int(if sign < 0 { -m } else { m as int }),
{
    let t = trim(v);
    let pre = if sign < 0 { seq!['-'] } else if sign > 0 { seq!['+'] } else { Seq::<char>::empty() };
    let d = decimal(m);
    let body = zeros(z) + d;
    lemma_decimal_digits(m);
    lemma_zeros_value(z, d);
    assert(t == pre + body);
    assert forall|i: int| 0 <= i < body.len() implies '0' <= #[trigger] body[i] <= '9' by {
        if i >= z {
            assert(body[i] == d[i - z]);
        }
    }
    assert forall|i: int| pre.len() <= i < t.len() implies '0' <= #[trigger] t[i] <= '9' by {
        assert(t[i] == body[i - pre.len()]);
    }
    assert(body.len() >= 1);
    assert(t.len() >= pre.len() + 1);
    assert(pre.len() == 1 ==> (t[0] == '-' || t[0] == '+') && '0' <= t[1] <= '9');
    assert(pre.len() == 0 ==> '0' <= t[0] <= '9');
    reveal_strlit("null");
    reveal_strlit("Null");
    reveal_strlit("NULL");
    reveal_strlit("~");
    reveal_strlit("true");
    reveal_strlit("True");
    reveal_strlit("TRUE");
    reveal_strlit("false");
    reveal_strlit("False");
    reveal_strlit("FALSE");
    reveal_strlit(".inf");
    reveal_strlit(".Inf");
    reveal_strlit(".INF");
    reveal_strlit("inf");
    reveal_strlit("Inf");
    reveal_strlit("INF");
    reveal_strlit("-.inf");
    reveal_strlit("-.Inf");
    reveal_strlit("-.INF");
    reveal_strlit("-inf");
    reveal_strlit("-Inf");
    reveal_strlit("-INF");
    reveal_strlit(".nan");
    reveal_strlit(".NaN");
    reveal_strlit(".NAN");
    reveal_strlit("nan");
    reveal_strlit("NaN");
    reveal_strlit("NAN");
    assert(!is_null_lexeme(t));
    assert(!is_true_word(t));
    assert(!is_false_word(t));
    assert(!is_pos_inf(t));
    assert(!is_neg_inf(t)) by {
        if t.len() >= 2 {
            assert('0' <= t[1] <= '9');
        }
    }
    assert(!is_nan_word(t));
    assert(!octal_prefix(t) && !hex_prefix(t)) by {
        if t.len() >= 2 {
            assert('0' <= t[1] <= '9');
        }
    }
    assert(!has_float_marker(t)) by {
        if has_float_marker(t) {
            let i = choose|i: int| 0 <= i < t.len() && (t[i] == '.' || t[i] == 'e' || t[i] == 'E');
            if i >= pre.len() {
                assert('0' <= t[i] <= '9');
            }
        }
    }
    assert(all_digits(body, 10)) by {
        assert forall|i: int| 0 <= i < body.len() implies #[trigger] digit_value(body[i], 10) is Some by {
            assert('0' <= body[i] <= '9');
        }
    }
    if pre.len() == 1 {
        assert(t.drop_first() =~= body);
    } else {
        assert(t =~= body);
    }
    assert(parse_i64_spec(t, 10) == Some(if sign < 0 { -m } else { m as int }));
}

} // verus!
