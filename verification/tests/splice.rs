use pyrs_yaml_core::dirty::{DirtyKind, DirtyUnit};
use pyrs_yaml_core::splice::{SourceSegment, SpliceState};
use std::ops::Range;

fn unit(kind: DirtyKind, eligible: bool) -> DirtyUnit {
    DirtyUnit { kind, eligible }
}

fn region(base: &str, range: Range<usize>, text: &str) -> SpliceState {
    let mut s = SpliceState::new(String::from(base));
    s.apply(&unit(DirtyKind::Region { range, indent: 0, text: text.to_string() }, true))
        .unwrap();
    s
}

fn assert_materialize_eq(s: &SpliceState, expected: &str) {
    assert_eq!(s.materialize(), Some(expected.to_string()));
}

#[test]
fn set_splices_only_region() {
    let s = region("a: 1\nb: 2\n", 5..10, "b: 9\n");
    assert_materialize_eq(&s, "a: 1\nb: 9\n");
}

#[test]
fn insert_shifts_tail_bytes() {
    let mut s = SpliceState::new(String::from("- a\n- b\n"));
    s.apply(&unit(DirtyKind::Insert { at: 4, text: "- z\n".to_string() }, true)).unwrap();
    assert_materialize_eq(&s, "- a\n- z\n- b\n");
}

#[test]
fn insert_at_eof_appends() {
    let mut s = SpliceState::new(String::from("- a\n- b\n"));
    s.apply(&unit(DirtyKind::Insert { at: 8, text: "- c\n".to_string() }, true)).unwrap();
    assert_materialize_eq(&s, "- a\n- b\n- c\n");
}

#[test]
fn delete_removes_region() {
    let mut s = SpliceState::new(String::from("- a\n- b\n- c\n"));
    s.apply(&unit(DirtyKind::Delete { range: 4..8 }, true)).unwrap();
    assert_materialize_eq(&s, "- a\n- c\n");
}

#[test]
fn materialize_is_identity_on_empty_ops() {
    let s = SpliceState::new(String::from("a: 1\nb: 2\n"));
    assert_materialize_eq(&s, "a: 1\nb: 2\n");
}

#[test]
fn ineligible_unit_rejected() {
    let mut s = SpliceState::new(String::from("a: 1\n"));
    assert!(s
        .apply(&unit(DirtyKind::Insert { at: 0, text: "x\n".to_string() }, false))
        .is_err());
    assert_materialize_eq(&s, "a: 1\n");
}

#[test]
fn delete_all_segments_yields_none() {
    let mut s = SpliceState::new(String::from("a: 1\n"));
    s.apply(&unit(DirtyKind::Delete { range: 0..5 }, true)).unwrap();
    assert_eq!(s.materialize(), None);
}

#[test]
fn owned_replaced_by_covering_region() {
    let mut s = region("a: 1\nb: 2\nc: 3\n", 5..10, "b: 9\n");
    s.apply(&unit(
        DirtyKind::Region { range: 5..15, indent: 0, text: "b: 9\nc: 3\n".to_string() },
        true,
    ))
    .unwrap();
    let out = s.materialize().unwrap();
    assert!(out.starts_with("a: 1\n"));
    assert!(out.ends_with("c: 3\n"));
    assert!(out.contains('b'));
}

#[test]
fn insert_inside_owned_rejected() {
    let mut s = region("a: 1\nb: 2\nc: 3\n", 5..10, "b: 9\n");
    assert!(s
        .apply(&unit(DirtyKind::Insert { at: 6, text: "x\n".to_string() }, true))
        .is_err());
}

#[test]
fn same_region_twice_replaces_owned() {
    let mut s = region("a: 1\nb: 2\nc: 3\n", 5..10, "b: 9\n");
    s.apply(&unit(DirtyKind::Region { range: 5..10, indent: 0, text: "b: 9\n".to_string() }, true))
        .unwrap();
    assert_materialize_eq(&s, "a: 1\nb: 9\nc: 3\n");
}

#[test]
fn two_inserts_at_same_point_both_materialize() {
    let mut s = SpliceState::new(String::from("a: 1\nb: 2\n"));
    for _ in 0..2 {
        s.apply(&unit(DirtyKind::Insert { at: 5, text: "x\n".to_string() }, true)).unwrap();
    }
    assert_materialize_eq(&s, "a: 1\nx\nx\nb: 2\n");
}

#[test]
fn sequential_regions_after_insert() {
    let mut s = SpliceState::new(String::from("a: 1\nb: 2\nc: 3\n"));
    s.apply(&unit(DirtyKind::Insert { at: 5, text: "x\n".to_string() }, true)).unwrap();
    s.apply(&unit(DirtyKind::Region { range: 10..15, indent: 0, text: "c: 8\n".to_string() }, true))
        .unwrap();
    assert_materialize_eq(&s, "a: 1\nx\nb: 2\nc: 8\n");
}

#[test]
fn root_scalar_replacement_splices_correctly() {
    let mut s = SpliceState::new(String::from("hello\n"));
    let unit = DirtyUnit {
        kind: DirtyKind::Region { range: 0..6, indent: 0, text: "world\n".into() },
        eligible: true,
    };
    s.apply(&unit).unwrap();
    assert_materialize_eq(&s, "world\n");
}

#[test]
fn insert_past_end_rejected_and_state_kept() {
    let mut s = SpliceState::new(String::from("a\n"));
    assert!(s.apply(&unit(DirtyKind::Insert { at: 3, text: "x".to_string() }, true)).is_err());
    assert_eq!(s.segments, vec![SourceSegment::Borrowed { start: 0, end: 2 }]);
}

#[test]
fn region_cutting_owned_interior_rejected() {
    let mut s = region("a: 1\nb: 2\nc: 3\n", 5..10, "b: 9\n");
    let before = s.segments.clone();
    assert!(s
        .apply(&unit(DirtyKind::Region { range: 7..12, indent: 0, text: "q".to_string() }, true))
        .is_err());
    assert_eq!(s.segments, before);
}

#[test]
fn zero_width_region_inside_base_lands_at_its_offset() {
    let s = region("abcd", 2..2, "X");
    assert_materialize_eq(&s, "abXcd");
    let s = region("ab", 1..1, "X");
    assert_materialize_eq(&s, "aXb");
    assert_eq!(
        s.segments,
        vec![
            SourceSegment::Borrowed { start: 0, end: 1 },
            SourceSegment::Owned { start: 1, end: 1, text: "X".to_string() },
            SourceSegment::Borrowed { start: 1, end: 2 },
        ]
    );
}

#[test]
fn cached_line_offsets_are_returned_as_held() {
    let mut s = SpliceState::new(String::from("a\nb"));
    assert_eq!(s.line_offsets().to_vec(), vec![0, 2, 3]);
    s.offsets = Some(vec![7]);
    assert_eq!(s.line_offsets().to_vec(), vec![7]);
}

#[test]
fn line_offsets_are_computed_once_over_base() {
    let mut s = SpliceState::new(String::from("a: 1\nb: 2\n"));
    assert_eq!(s.line_offsets().to_vec(), vec![0, 5, 10]);
    s.apply(&unit(DirtyKind::Insert { at: 5, text: "x\n".to_string() }, true)).unwrap();
    assert_eq!(s.line_offsets().to_vec(), vec![0, 5, 10]);
}

#[test]
fn multibyte_region_keeps_characters() {
    let s = region("é: 1\nü: 2\n", 6..12, "ü: 3\n");
    assert_materialize_eq(&s, "é: 1\nü: 3\n");
}

#[test]
fn zero_width_region_at_either_end_and_empty_delete() {
    assert_materialize_eq(&region("ab", 0..0, "X"), "Xab");
    assert_materialize_eq(&region("ab", 2..2, "X"), "abX");
    assert_materialize_eq(&region("", 0..0, "X"), "X");
    let mut s = SpliceState::new(String::from("ab"));
    s.apply(&unit(DirtyKind::Delete { range: 1..1 }, true)).unwrap();
    assert_materialize_eq(&s, "ab");
}
