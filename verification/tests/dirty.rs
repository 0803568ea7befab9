use pyrs_yaml_core::dirty::{DirtyKind, DirtyUnit};

#[test]
fn test_dirty_kind_insert() {
    let kind = DirtyKind::Insert { at: 5, text: "hello".into() };
    match kind {
        DirtyKind::Insert { at, text } => {
            assert_eq!(at, 5);
            assert_eq!(text, "hello");
        }
        _ => panic!("expected Insert"),
    }
}

#[test]
fn test_dirty_kind_delete() {
    let kind = DirtyKind::Delete { range: 3..7 };
    match kind {
        DirtyKind::Delete { range } => {
            assert_eq!(range, 3..7);
        }
        _ => panic!("expected Delete"),
    }
}

#[test]
fn test_dirty_kind_region() {
    let kind = DirtyKind::Region { range: 0..5, indent: 2, text: "abc".into() };
    match kind {
        DirtyKind::Region { range, indent, text } => {
            assert_eq!(range, 0..5);
            assert_eq!(indent, 2);
            assert_eq!(text, "abc");
        }
        _ => panic!("expected Region"),
    }
}

#[test]
fn test_dirty_unit_eligible() {
    let unit = DirtyUnit { kind: DirtyKind::Insert { at: 0, text: "".into() }, eligible: true };
    assert!(unit.eligible);
}

#[test]
fn test_dirty_unit_ineligible() {
    let unit = DirtyUnit { kind: DirtyKind::Delete { range: 0..1 }, eligible: false };
    assert!(!unit.eligible);
}

#[test]
fn dirty_kind_clone_is_equal() {
    let kind = DirtyKind::Region { range: 2..9, indent: 4, text: "x: 1\n".into() };
    assert_eq!(kind.clone(), kind);
}
