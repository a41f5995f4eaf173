//! The replay engine against concrete trees: the five operations, their
//! error cases, and the boundary behaviour of insertion.

use coedit::history::{ASTHistoryEntry, ASTHistoryEntryInner};
use coedit::replay::{apply_entry, ReplayErrorKind};
use coedit::tree::{AST, ASTInner};

fn int_node(id: &str, editor: &str, v: i64) -> AST {
    AST {
        uuid: id.to_string(),
        changed_by: editor.to_string(),
        value: ASTInner::Integer { value: v },
    }
}

fn list_node(id: &str, editor: &str, items: Vec<AST>) -> AST {
    AST { uuid: id.to_string(), changed_by: editor.to_string(), value: ASTInner::Add { items } }
}

fn entry(peer: &str, value: ASTHistoryEntryInner) -> ASTHistoryEntry {
    ASTHistoryEntry { previous: vec![], peer: peer.to_string(), value }
}

fn child_uuids(t: &AST) -> Vec<String> {
    match &t.value {
        ASTInner::Add { items } => items.iter().map(|c| c.uuid.clone()).collect(),
        ASTInner::Integer { .. } => panic!("expected a list"),
    }
}

fn int_value(t: &AST) -> i64 {
    match &t.value {
        ASTInner::Integer { value } => *value,
        ASTInner::Add { .. } => panic!("expected an integer"),
    }
}

#[test]
fn initialize_then_set_integer() {
    let mut doc: Option<AST> = None;
    let init = entry(
        "1",
        ASTHistoryEntryInner::Initial { ast: int_node("A", "1", 42) },
    );
    assert!(apply_entry(&mut doc, &init).is_ok());
    let set = entry(
        "2",
        ASTHistoryEntryInner::SetInteger { uuid: "A".to_string(), value: 43 },
    );
    assert!(apply_entry(&mut doc, &set).is_ok());
    let t = doc.as_ref().unwrap();
    assert_eq!(t.uuid, "A");
    assert_eq!(int_value(t), 43);
    assert_eq!(t.changed_by, "2");
    assert!(t.validate());
}

#[test]
fn double_initialization_is_refused() {
    let mut doc: Option<AST> = None;
    let init = entry(
        "1",
        ASTHistoryEntryInner::Initial { ast: int_node("A", "1", 42) },
    );
    assert!(apply_entry(&mut doc, &init).is_ok());
    let again = entry(
        "1",
        ASTHistoryEntryInner::Initial { ast: int_node("B", "1", 7) },
    );
    let e = apply_entry(&mut doc, &again).unwrap_err();
    assert_eq!(e.kind, ReplayErrorKind::DoubleInitialization);
    assert_eq!(doc.as_ref().unwrap().uuid, "A");
}

#[test]
fn operations_on_empty_replica_are_refused() {
    let mut doc: Option<AST> = None;
    let set = entry(
        "1",
        ASTHistoryEntryInner::SetInteger { uuid: "A".to_string(), value: 1 },
    );
    let e = apply_entry(&mut doc, &set).unwrap_err();
    assert_eq!(e.kind, ReplayErrorKind::MissingTarget);
    assert!(doc.is_none());
}

#[test]
fn set_integer_on_missing_target_is_refused() {
    let mut doc = Some(int_node("A", "1", 42));
    let set = entry(
        "2",
        ASTHistoryEntryInner::SetInteger { uuid: "Z".to_string(), value: 1 },
    );
    let e = apply_entry(&mut doc, &set).unwrap_err();
    assert_eq!(e.kind, ReplayErrorKind::MissingTarget);
    assert_eq!(int_value(doc.as_ref().unwrap()), 42);
}

#[test]
fn set_integer_on_list_is_refused() {
    let mut doc = Some(list_node("L", "1", vec![int_node("A", "1", 1)]));
    let set = entry(
        "2",
        ASTHistoryEntryInner::SetInteger { uuid: "L".to_string(), value: 1 },
    );
    let e = apply_entry(&mut doc, &set).unwrap_err();
    assert_eq!(e.kind, ReplayErrorKind::NotAnInteger);
}

#[test]
fn wrap_in_add_moves_original_under_new_list() {
    let mut doc = Some(int_node("A", "1", 42));
    let wrap = entry(
        "2",
        ASTHistoryEntryInner::WrapIntegerInAdd {
            uuid: "A".to_string(),
            wrapping_uuid: "B".to_string(),
        },
    );
    assert!(apply_entry(&mut doc, &wrap).is_ok());
    let t = doc.as_ref().unwrap();
    assert_eq!(t.uuid, "B");
    assert_eq!(t.changed_by, "2");
    match &t.value {
        ASTInner::Add { items } => {
            assert_eq!(items.len(), 1);
            assert_eq!(items[0].uuid, "A");
            assert_eq!(int_value(&items[0]), 42);
        }
        ASTInner::Integer { .. } => panic!("expected a list at the root"),
    }
    assert!(t.validate());
}

#[test]
fn wrap_missing_target_is_refused() {
    let mut doc = Some(int_node("A", "1", 42));
    let wrap = entry(
        "2",
        ASTHistoryEntryInner::WrapIntegerInAdd {
            uuid: "Z".to_string(),
            wrapping_uuid: "B".to_string(),
        },
    );
    let e = apply_entry(&mut doc, &wrap).unwrap_err();
    assert_eq!(e.kind, ReplayErrorKind::MissingTarget);
}

#[test]
fn insert_at_index_shifts_children_right() {
    let mut doc = Some(list_node(
        "L",
        "1",
        vec![int_node("A", "1", 1), int_node("B", "1", 2)],
    ));
    let ins = entry(
        "2",
        ASTHistoryEntryInner::InsertAtIndex {
            uuid: "L".to_string(),
            index: 1,
            ast: int_node("C", "2", 9),
        },
    );
    assert!(apply_entry(&mut doc, &ins).is_ok());
    assert_eq!(child_uuids(doc.as_ref().unwrap()), vec!["A", "C", "B"]);
    assert!(doc.as_ref().unwrap().validate());
}

#[test]
fn insert_at_length_appends() {
    let mut doc = Some(list_node("L", "1", vec![int_node("A", "1", 1)]));
    let ins = entry(
        "2",
        ASTHistoryEntryInner::InsertAtIndex {
            uuid: "L".to_string(),
            index: 1,
            ast: int_node("B", "2", 5),
        },
    );
    assert!(apply_entry(&mut doc, &ins).is_ok());
    assert_eq!(child_uuids(doc.as_ref().unwrap()), vec!["A", "B"]);
}

#[test]
fn insert_past_length_is_refused() {
    let mut doc = Some(list_node("L", "1", vec![int_node("A", "1", 1)]));
    let ins = entry(
        "2",
        ASTHistoryEntryInner::InsertAtIndex {
            uuid: "L".to_string(),
            index: 2,
            ast: int_node("B", "2", 5),
        },
    );
    let e = apply_entry(&mut doc, &ins).unwrap_err();
    assert_eq!(e.kind, ReplayErrorKind::IndexOutOfBounds);
    assert_eq!(child_uuids(doc.as_ref().unwrap()), vec!["A"]);
}

#[test]
fn insert_into_integer_is_refused() {
    let mut doc = Some(int_node("A", "1", 1));
    let ins = entry(
        "2",
        ASTHistoryEntryInner::InsertAtIndex {
            uuid: "A".to_string(),
            index: 0,
            ast: int_node("B", "2", 5),
        },
    );
    let e = apply_entry(&mut doc, &ins).unwrap_err();
    assert_eq!(e.kind, ReplayErrorKind::NotAList);
}

#[test]
fn delete_removes_child_from_parent() {
    let mut doc = Some(list_node(
        "L",
        "1",
        vec![int_node("A", "1", 1), int_node("B", "1", 2)],
    ));
    let del = entry("2", ASTHistoryEntryInner::Delete { uuid: "A".to_string() });
    assert!(apply_entry(&mut doc, &del).is_ok());
    assert_eq!(child_uuids(doc.as_ref().unwrap()), vec!["B"]);
}

#[test]
fn delete_root_is_refused() {
    let mut doc = Some(int_node("A", "1", 1));
    let del = entry("2", ASTHistoryEntryInner::Delete { uuid: "A".to_string() });
    let e = apply_entry(&mut doc, &del).unwrap_err();
    assert_eq!(e.kind, ReplayErrorKind::CannotDeleteRoot);
}

#[test]
fn delete_missing_target_is_refused() {
    let mut doc = Some(int_node("A", "1", 1));
    let del = entry("2", ASTHistoryEntryInner::Delete { uuid: "Z".to_string() });
    let e = apply_entry(&mut doc, &del).unwrap_err();
    assert_eq!(e.kind, ReplayErrorKind::MissingTarget);
}

#[test]
fn insert_then_delete_restores_children() {
    let original = vec![int_node("A", "1", 1), int_node("B", "1", 2)];
    let mut doc = Some(list_node("L", "1", original));
    let before = child_uuids(doc.as_ref().unwrap());
    let ins = entry(
        "2",
        ASTHistoryEntryInner::InsertAtIndex {
            uuid: "L".to_string(),
            index: 1,
            ast: int_node("X", "2", 9),
        },
    );
    assert!(apply_entry(&mut doc, &ins).is_ok());
    let del = entry("2", ASTHistoryEntryInner::Delete { uuid: "X".to_string() });
    assert!(apply_entry(&mut doc, &del).is_ok());
    assert_eq!(child_uuids(doc.as_ref().unwrap()), before);
    assert!(doc.as_ref().unwrap().validate());
}

#[test]
fn validate_detects_duplicate_identifiers() {
    let good = list_node("L", "1", vec![int_node("A", "1", 1), int_node("B", "1", 2)]);
    assert!(good.validate());
    let dup_sibling = list_node("L", "1", vec![int_node("A", "1", 1), int_node("A", "1", 2)]);
    assert!(!dup_sibling.validate());
    let dup_parent = list_node("L", "1", vec![int_node("L", "1", 1)]);
    assert!(!dup_parent.validate());
    let nested = list_node(
        "L",
        "1",
        vec![list_node("M", "1", vec![int_node("A", "1", 1)]), int_node("A", "1", 2)],
    );
    assert!(!nested.validate());
}

#[test]
fn contains_and_views() {
    let tree = list_node("L", "1", vec![int_node("A", "1", 7)]);
    assert!(tree.contains_uuid(&"L".to_string()));
    assert!(tree.contains_uuid(&"A".to_string()));
    assert!(!tree.contains_uuid(&"Z".to_string()));
    match tree.view_of(&"A".to_string()) {
        Some(coedit::tree::NodeView::IntLeaf { value }) => assert_eq!(value, 7),
        _ => panic!("expected an integer leaf view"),
    }
    match tree.view_of(&"L".to_string()) {
        Some(coedit::tree::NodeView::ListNode { first_child, len }) => {
            assert_eq!(first_child.as_deref(), Some("A"));
            assert_eq!(len, 1);
        }
        _ => panic!("expected a list view"),
    }
    let (pid, ids, idx) = tree.siblings_of(&"A".to_string()).unwrap();
    assert_eq!(pid, "L");
    assert_eq!(ids, vec!["A"]);
    assert_eq!(idx, 0);
    assert!(tree.siblings_of(&"L".to_string()).is_none());
}
