use pyrs_yaml_core::schema::{
    resolve_core_type, resolve_failsafe, resolve_json_type, resolve_yaml11_type, resolve_yaml_type,
    FloatValue, YamlSchema, YamlType,
};

fn s(v: &str) -> YamlType {
    YamlType::Str(v.to_string())
}

fn float_of(t: &YamlType) -> Option<f64> {
    match t {
        YamlType::Float(FloatValue::Infinity) => Some(f64::INFINITY),
        YamlType::Float(FloatValue::NegInfinity) => Some(f64::NEG_INFINITY),
        YamlType::Float(FloatValue::NaN) => Some(f64::NAN),
        YamlType::Float(FloatValue::Decimal(d)) => d.parse::<f64>().ok(),
        _ => None,
    }
}

fn is_nan_value(t: &YamlType) -> bool {
    matches!(t, YamlType::Float(FloatValue::NaN))
}

#[test]
fn test_failsafe_returns_str() {
    assert_eq!(resolve_failsafe("42"), s("42"));
    assert_eq!(resolve_failsafe("null"), s("null"));
    assert_eq!(resolve_failsafe("true"), s("true"));
    assert_eq!(resolve_failsafe("3.14"), s("3.14"));
    assert_eq!(resolve_failsafe(".inf"), s(".inf"));
    assert_eq!(resolve_failsafe("0x1F"), s("0x1F"));
}

#[test]
fn test_core_null() {
    assert_eq!(resolve_core_type(""), YamlType::Null);
    assert_eq!(resolve_core_type("null"), YamlType::Null);
    assert_eq!(resolve_core_type("~"), YamlType::Null);
}

#[test]
fn test_core_bool() {
    assert_eq!(resolve_core_type("true"), YamlType::Bool(true));
    assert_eq!(resolve_core_type("TRUE"), YamlType::Bool(true));
    assert_eq!(resolve_core_type("false"), YamlType::Bool(false));
}

#[test]
fn test_core_numbers() {
    assert_eq!(resolve_core_type("42"), YamlType::Int(42));
    assert_eq!(resolve_core_type("-10"), YamlType::Int(-10));
    assert_eq!(resolve_core_type("0x1F"), YamlType::Int(31));
    assert_eq!(resolve_core_type("0o17"), YamlType::Int(15));
    let v = float_of(&resolve_core_type("3.14")).expect("expected Float");
    assert!((v - 3.14).abs() < 1e-10);
    assert_eq!(resolve_core_type(".inf"), YamlType::Float(FloatValue::Infinity));
    assert_eq!(resolve_core_type("-.inf"), YamlType::Float(FloatValue::NegInfinity));
    assert!(is_nan_value(&resolve_core_type(".nan")));
}

#[test]
fn test_core_string() {
    assert_eq!(resolve_core_type("hello"), s("hello"));
}

#[test]
fn test_core_first_char_fast_path() {
    assert_eq!(resolve_core_type("_foo"), s("_foo"));
    assert_eq!(resolve_core_type("-foo"), s("-foo"));
    assert_eq!(resolve_core_type("123abc"), s("123abc"));
    assert_eq!(resolve_core_type("0b101"), s("0b101"));
    assert_eq!(resolve_core_type("~x"), s("~x"));
    assert_eq!(resolve_core_type("."), s("."));
    assert_eq!(resolve_core_type("-"), s("-"));
    assert_eq!(resolve_core_type("你好"), s("你好"));
    assert_eq!(resolve_core_type("quote\"d"), s("quote\"d"));
    assert_eq!(resolve_core_type("@tag"), s("@tag"));
    assert_eq!(resolve_core_type("a1"), s("a1"));
    assert_eq!(resolve_core_type(" hello"), s(" hello"));
    assert_eq!(resolve_core_type(" null"), YamlType::Null);
    assert_eq!(resolve_core_type(" 42"), YamlType::Int(42));
}

#[test]
fn test_core_first_char_keep_set() {
    assert_eq!(resolve_core_type("+5"), YamlType::Int(5));
    assert_eq!(resolve_core_type("05"), YamlType::Int(5));
    assert_eq!(resolve_core_type("~"), YamlType::Null);
    assert_eq!(resolve_core_type("true"), YamlType::Bool(true));
    assert_eq!(resolve_core_type("false"), YamlType::Bool(false));
    assert_eq!(resolve_core_type("null"), YamlType::Null);
    assert_eq!(resolve_core_type("inf"), YamlType::Float(FloatValue::Infinity));
    assert!(is_nan_value(&resolve_core_type(".nan")));
    assert_eq!(resolve_core_type("0x1F"), YamlType::Int(31));
    assert_eq!(float_of(&resolve_core_type("3.14")), Some(3.14));
    assert_eq!(resolve_core_type("n"), s("n"));
    assert_eq!(resolve_core_type("t"), s("t"));
}

#[test]
fn test_json_inf_nan_are_strings() {
    assert_eq!(resolve_json_type(".inf"), s(".inf"));
    assert_eq!(resolve_json_type(".INF"), s(".INF"));
    assert_eq!(resolve_json_type("-inf"), s("-inf"));
    assert_eq!(resolve_json_type(".nan"), s(".nan"));
    assert_eq!(resolve_json_type(".NaN"), s(".NaN"));
}

#[test]
fn test_json_octal_hex_are_strings() {
    assert_eq!(resolve_json_type("0x1F"), s("0x1F"));
    assert_eq!(resolve_json_type("0o17"), s("0o17"));
}

#[test]
fn test_json_resolves_normal_types() {
    assert_eq!(resolve_json_type("null"), YamlType::Null);
    assert_eq!(resolve_json_type("true"), YamlType::Bool(true));
    assert_eq!(resolve_json_type("false"), YamlType::Bool(false));
    assert_eq!(resolve_json_type("42"), YamlType::Int(42));
    let v = float_of(&resolve_json_type("3.14")).expect("expected Float");
    assert!((v - 3.14).abs() < 1e-10);
    assert_eq!(resolve_json_type("hello"), s("hello"));
}

#[test]
fn test_yaml11_legacy_bool() {
    for t in ["yes", "Yes", "YES", "y", "Y", "on", "On", "ON"] {
        assert_eq!(resolve_yaml11_type(t), YamlType::Bool(true));
    }
    for f in ["no", "No", "NO", "n", "N", "off", "Off", "OFF"] {
        assert_eq!(resolve_yaml11_type(f), YamlType::Bool(false));
    }
}

#[test]
fn test_yaml11_keeps_tilde_as_null() {
    assert_eq!(resolve_yaml11_type("~"), YamlType::Null);
}

#[test]
fn test_yaml11_inherits_core_for_numbers() {
    assert_eq!(resolve_yaml11_type("42"), YamlType::Int(42));
    assert_eq!(resolve_yaml11_type("0x1F"), YamlType::Int(31));
    assert_eq!(resolve_yaml11_type(".inf"), YamlType::Float(FloatValue::Infinity));
}

#[test]
fn test_resolve_yaml_type_dispatcher() {
    assert_eq!(resolve_yaml_type("42", YamlSchema::Failsafe), s("42"));
    assert_eq!(resolve_yaml_type("0x1F", YamlSchema::Json), s("0x1F"));
    assert_eq!(resolve_yaml_type("0x1F", YamlSchema::Core), YamlType::Int(31));
    assert_eq!(resolve_yaml_type("yes", YamlSchema::Yaml1_1), YamlType::Bool(true));
    assert_eq!(resolve_yaml_type("yes", YamlSchema::Core), s("yes"));
}

fn format_yaml_type(ty: &YamlType) -> String {
    match ty {
        YamlType::Null => "null".to_string(),
        YamlType::Bool(true) => "true".to_string(),
        YamlType::Bool(false) => "false".to_string(),
        YamlType::Int(val) => val.to_string(),
        YamlType::Float(_) => {
            let val = float_of(ty).unwrap();
            if val.is_infinite() {
                if val > 0.0 {
                    ".inf".to_string()
                } else {
                    "-.inf".to_string()
                }
            } else if val.is_nan() {
                ".nan".to_string()
            } else if val == val.floor() && val.abs() < 1e15 {
                format!("{}", val as i64)
            } else {
                val.to_string()
            }
        }
        YamlType::Str(v) => v.to_string(),
    }
}

#[test]
fn test_resolve_null_variants() {
    for v in ["", "null", "Null", "NULL", "~"] {
        assert_eq!(resolve_yaml_type(v, YamlSchema::Core), YamlType::Null);
    }
}

#[test]
fn test_resolve_bool() {
    for v in ["true", "True", "TRUE"] {
        assert_eq!(resolve_yaml_type(v, YamlSchema::Core), YamlType::Bool(true));
    }
    for v in ["false", "False", "FALSE"] {
        assert_eq!(resolve_yaml_type(v, YamlSchema::Core), YamlType::Bool(false));
    }
}

#[test]
fn test_resolve_int_decimal() {
    assert_eq!(resolve_yaml_type("42", YamlSchema::Core), YamlType::Int(42));
    assert_eq!(resolve_yaml_type("-10", YamlSchema::Core), YamlType::Int(-10));
    assert_eq!(resolve_yaml_type("0", YamlSchema::Core), YamlType::Int(0));
}

#[test]
fn test_resolve_int_octal() {
    assert_eq!(resolve_yaml_type("0o10", YamlSchema::Core), YamlType::Int(8));
    assert_eq!(resolve_yaml_type("0O77", YamlSchema::Core), YamlType::Int(63));
}

#[test]
fn test_resolve_int_hex() {
    assert_eq!(resolve_yaml_type("0xFF", YamlSchema::Core), YamlType::Int(255));
    assert_eq!(resolve_yaml_type("0X0A", YamlSchema::Core), YamlType::Int(10));
}

#[test]
fn test_resolve_float() {
    let v = float_of(&resolve_yaml_type("3.14", YamlSchema::Core)).expect("expected Float");
    assert!((v - 3.14).abs() < 1e-10);
    let v = float_of(&resolve_yaml_type("1e10", YamlSchema::Core)).expect("expected Float");
    assert!((v - 1e10).abs() < 1.0);
    let v = float_of(&resolve_yaml_type("-1.5E-3", YamlSchema::Core)).expect("expected Float");
    assert!((v - (-1.5e-3)).abs() < 1e-10);
}

#[test]
fn test_resolve_infinity_nan() {
    assert_eq!(resolve_yaml_type(".inf", YamlSchema::Core), YamlType::Float(FloatValue::Infinity));
    assert_eq!(resolve_yaml_type("-.inf", YamlSchema::Core), YamlType::Float(FloatValue::NegInfinity));
    assert!(is_nan_value(&resolve_yaml_type(".nan", YamlSchema::Core)));
    assert!(is_nan_value(&resolve_yaml_type("nan", YamlSchema::Core)));
}

#[test]
fn test_resolve_string() {
    assert_eq!(resolve_yaml_type("hello", YamlSchema::Core), s("hello"));
    assert_eq!(resolve_yaml_type("12abc", YamlSchema::Core), s("12abc"));
}

#[test]
fn test_format_roundtrip() {
    let cases = vec!["null", "true", "false", "42", "-10", "3.14", ".inf", "-.inf", ".nan"];
    for input in cases {
        let resolved = resolve_yaml_type(input, YamlSchema::Core);
        let formatted = format_yaml_type(&resolved);
        let re_resolved = resolve_yaml_type(&formatted, YamlSchema::Core);
        assert_eq!(format!("{:?}", resolved), format!("{:?}", re_resolved), "roundtrip failed for {:?}", input);
    }
}

#[test]
fn needs_quotes_and_non_string_examples() {
    assert!(pyrs_yaml_core::schema::needs_quotes("true"));
    assert!(pyrs_yaml_core::schema::needs_quotes("42"));
    assert!(!pyrs_yaml_core::schema::needs_quotes("hello"));
    assert!(pyrs_yaml_core::schema::core_type_is_non_string("~"));
    assert!(!pyrs_yaml_core::schema::core_type_is_non_string("hello"));
}

#[test]
fn is_nan_value_only_for_nan() {
    assert!(resolve_core_type(".nan").is_nan_value());
    assert!(!resolve_core_type(".inf").is_nan_value());
    assert!(!resolve_core_type("1").is_nan_value());
}
