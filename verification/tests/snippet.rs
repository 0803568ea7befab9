use pyrs_yaml_core::error::ParseError;
use pyrs_yaml_core::snippet::{format_source_snippet, parse_error_report, ParseReport};

#[test]
fn snippet_marks_error_column() {
    let out = format_source_snippet("a: 1\nkey: value: extra\n", 2, 10, "unexpected mapping value");
    assert_eq!(
        out,
        "YAML parse error at line 2, col 10: unexpected mapping value\n    |\n   2 | key: value: extra\n    |           ^^^^^ unexpected mapping value\n"
    );
}

#[test]
fn snippet_caret_shrinks_near_line_end() {
    let out = format_source_snippet("abc: de\n", 1, 5, "m");
    assert_eq!(out, "YAML parse error at line 1, col 5: m\n    |\n   1 | abc: de\n    |      ^^ m\n");
}

#[test]
fn snippet_line_past_end_quotes_nothing() {
    let out = format_source_snippet("a: 1\n", 7, 0, "eof");
    assert_eq!(out, "YAML parse error at line 7, col 0: eof\n    |\n   7 | \n    | eof\n");
}

#[test]
fn snippet_line_zero_quotes_first_line() {
    let out = format_source_snippet("x: y\r\nz: w\n", 0, 0, "bad");
    assert_eq!(out, "YAML parse error at line 0, col 0: bad\n    |\n   0 | x: y\n    | ^^^^ bad\n");
}

#[test]
fn snippet_pads_wide_line_numbers() {
    let mut src = String::new();
    for _ in 0..1234 {
        src.push_str("k: v\n");
    }
    let out = format_source_snippet(&src, 1234, 1, "m");
    assert_eq!(out, "YAML parse error at line 1234, col 1: m\n    |\n1234 | k: v\n    |  ^^^ m\n");
}

#[test]
fn parse_error_reports() {
    let src = "a: 1\nb: : 2\n";
    assert_eq!(
        parse_error_report(&ParseError::DuplicateKey("a".to_string()), src, 10),
        ParseReport::DuplicateKey("a".to_string())
    );
    assert_eq!(parse_error_report(&ParseError::MaxDepthExceeded(3), src, 500), ParseReport::MaxDepth(500));
    assert_eq!(
        parse_error_report(&ParseError::Syntax { message: "bad".to_string(), line: 0, col: 4 }, src, 10),
        ParseReport::Syntax("bad".to_string())
    );
    assert_eq!(
        parse_error_report(&ParseError::Syntax { message: "bad".to_string(), line: 2, col: 3 }, src, 10),
        ParseReport::Snippet(
            "YAML parse error at line 2, col 3: bad\n    |\n   2 | b: : 2\n    |    ^^^ bad\n".to_string()
        )
    );
}
