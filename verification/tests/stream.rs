use pyrs_yaml_core::ast::{ScalarStyle, Tag};
use std::collections::HashMap;
use pyrs_yaml_core::stream::{
    event_record, event_to_stream_event, is_blank, parse_failure, parse_stream, stream_from_events, ParserEvent,
    StreamEvent, StreamEventType,
};
fn count(events: &[StreamEvent], f: impl Fn(&StreamEventType) -> bool) -> usize {
    events.iter().filter(|e| f(&e.event_type)).count()
}

fn scalars(events: &[StreamEvent]) -> Vec<&StreamEvent> {
    events.iter().filter(|e| matches!(&e.event_type, StreamEventType::Scalar { .. })).collect()
}

#[test]
fn test_stream_start_and_end() {
    let events = parse_stream("hello").unwrap();
    assert!(!events.is_empty());
    assert!(matches!(&events[0].event_type, StreamEventType::StreamStart));
    assert!(matches!(events.last().unwrap().event_type, StreamEventType::StreamEnd));
}

#[test]
fn test_stream_simple_scalar() {
    let events = parse_stream("hello").unwrap();
    let scalar = events.iter().find(|e| matches!(&e.event_type, StreamEventType::Scalar { .. }));
    assert!(scalar.is_some());
    if let StreamEventType::Scalar { value, style, anchor, tag } = &scalar.unwrap().event_type {
        assert_eq!(value, "hello");
        assert_eq!(style, &ScalarStyle::Plain);
        assert!(anchor.is_none());
        assert!(tag.is_none());
    }
}

#[test]
fn test_stream_mapping() {
    let events = parse_stream("key: value").unwrap();
    assert_eq!(count(&events, |t| matches!(t, StreamEventType::MappingStart { .. })), 1);
    assert_eq!(count(&events, |t| matches!(t, StreamEventType::MappingEnd)), 1);
}

#[test]
fn test_stream_sequence() {
    let events = parse_stream("- item1\n- item2").unwrap();
    assert_eq!(count(&events, |t| matches!(t, StreamEventType::SequenceStart { .. })), 1);
    assert_eq!(count(&events, |t| matches!(t, StreamEventType::SequenceEnd)), 1);
}

#[test]
fn test_stream_scalar_with_anchor() {
    let events = parse_stream("key: &anchor value").unwrap();
    let sc = scalars(&events);
    assert!(sc.len() >= 2);
    if let StreamEventType::Scalar { anchor, .. } = &sc[1].event_type {
        assert!(anchor.is_some());
        assert_eq!(anchor.as_deref(), Some("anchor"));
    }
}

#[test]
fn test_stream_scalar_with_tag() {
    let events = parse_stream("key: !!str value").unwrap();
    let sc = scalars(&events);
    assert!(sc.len() >= 2);
    if let StreamEventType::Scalar { tag, .. } = &sc[1].event_type {
        assert!(tag.is_some());
        assert_eq!(tag.as_ref().unwrap().suffix, "str");
    }
}

#[test]
fn test_stream_alias() {
    let events = parse_stream("a: &x 1\nb: *x").unwrap();
    let aliases: Vec<&StreamEvent> = events.iter().filter(|e| matches!(&e.event_type, StreamEventType::Alias { .. })).collect();
    assert_eq!(aliases.len(), 1);
    if let StreamEventType::Alias { name } = &aliases[0].event_type {
        assert_eq!(name, "x");
    }
}

#[test]
fn test_stream_standalone_comment() {
    let events = parse_stream("# standalone comment\nkey: value").unwrap();
    let comments: Vec<&StreamEvent> = events.iter().filter(|e| matches!(&e.event_type, StreamEventType::Comment { .. })).collect();
    assert!(!comments.is_empty());
    if let StreamEventType::Comment { text, standalone } = &comments[0].event_type {
        assert_eq!(text.as_str(), "standalone comment");
        assert!(*standalone);
    }
}

#[test]
fn test_stream_inline_comment() {
    let events = parse_stream("key: value  # inline comment").unwrap();
    let comments: Vec<&StreamEvent> = events.iter().filter(|e| matches!(&e.event_type, StreamEventType::Comment { .. })).collect();
    assert!(!comments.is_empty());
    if let StreamEventType::Comment { text, standalone } = &comments[0].event_type {
        assert_eq!(text.as_str(), "inline comment");
        assert!(!*standalone);
    }
}

#[test]
fn test_stream_empty_yaml() {
    let events = parse_stream("").unwrap();
    assert!(events.is_empty());
}

#[test]
fn test_stream_multiple_documents() {
    let events = parse_stream("---\nkey1: val1\n---\nkey2: val2").unwrap();
    assert_eq!(count(&events, |t| matches!(t, StreamEventType::DocumentStart)), 2);
}

#[test]
fn test_stream_single_quoted_scalar() {
    let events = parse_stream("key: 'value'").unwrap();
    let sc = scalars(&events);
    assert!(sc.len() >= 2);
    if let StreamEventType::Scalar { style, .. } = &sc[1].event_type {
        assert_eq!(style, &ScalarStyle::SingleQuoted);
    }
}

#[test]
fn test_stream_double_quoted_scalar() {
    let events = parse_stream(r#"key: "value""#).unwrap();
    let sc = scalars(&events);
    assert!(sc.len() >= 2);
    if let StreamEventType::Scalar { value, style, .. } = &sc[1].event_type {
        assert_eq!(style, &ScalarStyle::DoubleQuoted);
        assert_eq!(value, "value");
    }
}

#[test]
fn test_stream_literal_scalar() {
    let events = parse_stream("key: |\n  line1\n  line2").unwrap();
    let sc = scalars(&events);
    assert!(sc.len() >= 2);
    if let StreamEventType::Scalar { style, .. } = &sc[1].event_type {
        assert_eq!(style, &ScalarStyle::Literal);
    }
}

#[test]
fn test_stream_folded_scalar() {
    let events = parse_stream("key: >\n  line1\n  line2").unwrap();
    let sc = scalars(&events);
    assert!(sc.len() >= 2);
    if let StreamEventType::Scalar { style, .. } = &sc[1].event_type {
        assert_eq!(style, &ScalarStyle::Folded);
    }
}

#[test]
fn test_stream_nested_mapping() {
    let events = parse_stream("a:\n  b: 1\n  c: 2").unwrap();
    assert_eq!(count(&events, |t| matches!(t, StreamEventType::MappingStart { .. })), 2);
}

#[test]
fn test_stream_nested_sequence() {
    let events = parse_stream("- - a\n  - b\n- c").unwrap();
    assert_eq!(count(&events, |t| matches!(t, StreamEventType::SequenceStart { .. })), 2);
}

#[test]
fn test_stream_line_column() {
    let events = parse_stream("key: value").unwrap();
    for event in &events {
        assert!(event.line < 100);
    }
}

#[test]
fn event_to_stream_event_plain_scalar_passthrough() {
    let mut anchor_map = HashMap::new();
    let event = ParserEvent::Scalar { value: "hello".to_string(), style: ScalarStyle::Plain, anchor_id: 0, tag: None };
    let ev = event_to_stream_event(event, 2, 4, &mut anchor_map, None).unwrap();
    match ev.event_type {
        StreamEventType::Scalar { value, style, .. } => {
            assert_eq!(value, "hello");
            assert_eq!(style, ScalarStyle::Plain);
        }
        other => panic!("wrong variant: {:?}", other),
    }
    assert_eq!((ev.line, ev.column), (1, 4));
}

#[test]
fn event_to_stream_event_anchor_resolves_and_registers() {
    let mut anchor_map = HashMap::new();
    let event = ParserEvent::Scalar { value: "v".to_string(), style: ScalarStyle::Plain, anchor_id: 7, tag: None };
    let ev = event_to_stream_event(event, 1, 0, &mut anchor_map, Some(format!("anchor_{}", 7))).unwrap();
    match ev.event_type {
        StreamEventType::Scalar { anchor: Some(name), .. } => {
            assert_eq!(name, "anchor_7");
            assert_eq!(anchor_map.get(&7), Some(&"anchor_7".to_string()));
        }
        other => panic!("wrong variant: {:?}", other),
    }
}

#[test]
fn event_to_stream_event_alias_lookup_and_fallback() {
    let mut anchor_map = HashMap::new();
    let ev = event_to_stream_event(ParserEvent::Alias { anchor_id: 3 }, 1, 0, &mut anchor_map, None).unwrap();
    assert!(matches!(ev.event_type, StreamEventType::Alias { name } if name == "alias_3"));
    let mut anchor_map = HashMap::new();
    anchor_map.insert(3, "real".to_string());
    let ev = event_to_stream_event(ParserEvent::Alias { anchor_id: 3 }, 1, 0, &mut anchor_map, None).unwrap();
    assert!(matches!(ev.event_type, StreamEventType::Alias { name } if name == "real"));
}

#[test]
fn event_to_stream_event_nothing_is_none() {
    let mut anchor_map = HashMap::new();
    assert!(event_to_stream_event(ParserEvent::Nothing, 1, 0, &mut anchor_map, None).is_none());
}

#[test]
fn standalone_comment_comes_right_before_the_mapping() {
    let events = parse_stream("# top\nkey: value\n").unwrap();
    let kinds: Vec<String> = events.iter().map(|e| format!("{:?}", e.event_type)).collect();
    let c = kinds.iter().position(|k| k.starts_with("Comment")).unwrap();
    let m = kinds.iter().position(|k| k.starts_with("MappingStart")).unwrap();
    assert_eq!(c + 1, m, "{:?}", kinds);
}

#[test]
fn blank_inputs() {
    assert!(is_blank(""));
    assert!(is_blank("  \n\t"));
    assert!(!is_blank(" a "));
}

#[test]
fn event_records_name_types_and_styles() {
    let scalar = StreamEvent {
        event_type: StreamEventType::Scalar {
            value: "v".to_string(),
            style: ScalarStyle::SingleQuoted,
            anchor: Some("a".to_string()),
            tag: Some(Tag { handle: "!!".to_string(), suffix: "str".to_string() }),
        },
        line: 2,
        column: 4,
    };
    let r = event_record(&scalar);
    assert_eq!(r.event_type, "scalar");
    assert_eq!(r.value.as_deref(), Some("v"));
    assert_eq!(r.style.as_deref(), Some("single_quoted"));
    assert_eq!(r.anchor.as_deref(), Some("a"));
    assert_eq!(r.tag.as_deref(), Some("!!str"));
    assert_eq!((r.line, r.column), (2, 4));
    let comment = StreamEvent {
        event_type: StreamEventType::Comment { text: "note".to_string(), standalone: false },
        line: 0,
        column: 7,
    };
    let c = event_record(&comment);
    assert_eq!(c.event_type, "comment");
    assert_eq!(c.value.as_deref(), Some("note"));
    assert_eq!(c.style.as_deref(), Some("inline"));
    assert_eq!(c.tag, None);
    let end = event_record(&StreamEvent { event_type: StreamEventType::MappingEnd, line: 1, column: 0 });
    assert_eq!(end.event_type, "mapping_end");
    assert_eq!(end.value, None);
}

#[test]
fn a_parser_error_is_reported_at_line_zero() {
    let err = parse_stream("key: [unclosed").unwrap_err();
    assert!(err.message.starts_with("YAML parse error: "));
    assert!(err.message.len() > "YAML parse error: ".len());
    assert_eq!(err.line, 0);
    assert_eq!(err.col, 0);
}

#[test]
fn blank_text_gives_no_events() {
    assert!(parse_stream("  \n\t ").unwrap().is_empty());
}

#[test]
fn events_carry_start_lines_of_the_parser() {
    let events = parse_stream("a: 1\nb: 2\n").unwrap();
    let lines: Vec<usize> = scalars(&events).iter().map(|e| e.line).collect();
    assert_eq!(lines, vec![0, 0, 1, 1]);
}
