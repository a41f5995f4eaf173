//! The operation log's content hash, the client sync engine's deduplication
//! and causal buffering, and the relay's ordering and fan-out.

use coedit::history::{ASTHistoryEntry, ASTHistoryEntryInner};
use coedit::relay::{RelayLog, SendCursor};
use coedit::sync::App;
use coedit::tree::{AST, ASTInner};

fn int_node(id: &str, editor: &str, v: i64) -> AST {
    AST {
        uuid: id.to_string(),
        changed_by: editor.to_string(),
        value: ASTInner::Integer { value: v },
    }
}

fn entry(peer: &str, prev: Vec<&str>, value: ASTHistoryEntryInner) -> ASTHistoryEntry {
    ASTHistoryEntry {
        previous: prev.into_iter().map(|s| s.to_string()).collect(),
        peer: peer.to_string(),
        value,
    }
}

fn int_value(t: &AST) -> i64 {
    match &t.value {
        ASTInner::Integer { value } => *value,
        ASTInner::Add { .. } => panic!("expected an integer"),
    }
}

#[test]
fn hash_is_a_pure_function_of_the_entry() {
    let e = entry(
        "peer-x",
        vec!["abc"],
        ASTHistoryEntryInner::SetInteger { uuid: "A".to_string(), value: 5 },
    );
    let h1 = e.hash();
    let h2 = e.hash();
    assert_eq!(h1, h2);
    let again = entry(
        "peer-x",
        vec!["abc"],
        ASTHistoryEntryInner::SetInteger { uuid: "A".to_string(), value: 5 },
    );
    assert_eq!(h1, again.hash());
    assert_eq!(h1.len(), 128);
    assert!(h1.chars().all(|c| c.is_ascii_hexdigit() && !c.is_ascii_uppercase()));
}

#[test]
fn changing_any_field_changes_the_hash() {
    let base = entry(
        "peer-x",
        vec!["abc"],
        ASTHistoryEntryInner::SetInteger { uuid: "A".to_string(), value: 5 },
    );
    let other_peer = entry(
        "peer-y",
        vec!["abc"],
        ASTHistoryEntryInner::SetInteger { uuid: "A".to_string(), value: 5 },
    );
    let other_prev = entry(
        "peer-x",
        vec!["abd"],
        ASTHistoryEntryInner::SetInteger { uuid: "A".to_string(), value: 5 },
    );
    let other_op = entry(
        "peer-x",
        vec!["abc"],
        ASTHistoryEntryInner::SetInteger { uuid: "A".to_string(), value: 6 },
    );
    let other_kind = entry(
        "peer-x",
        vec!["abc"],
        ASTHistoryEntryInner::Delete { uuid: "A".to_string() },
    );
    let h = base.hash();
    assert_ne!(h, other_peer.hash());
    assert_ne!(h, other_prev.hash());
    assert_ne!(h, other_op.hash());
    assert_ne!(h, other_kind.hash());
}

#[test]
fn replaying_equal_sequences_gives_equal_trees() {
    let init = entry(
        "1",
        vec![],
        ASTHistoryEntryInner::Initial { ast: int_node("A", "1", 42) },
    );
    let set = entry(
        "2",
        vec![],
        ASTHistoryEntryInner::SetInteger { uuid: "A".to_string(), value: 43 },
    );
    let wrap = entry(
        "2",
        vec![],
        ASTHistoryEntryInner::WrapIntegerInAdd {
            uuid: "A".to_string(),
            wrapping_uuid: "B".to_string(),
        },
    );
    let mut doc1: Option<AST> = None;
    let mut doc2: Option<AST> = None;
    let entries = vec![init, set, wrap];
    let errs1 = coedit::replay::replay_all(&mut doc1, &entries);
    let errs2 = coedit::replay::replay_all(&mut doc2, &entries);
    assert!(errs1.is_empty());
    assert!(errs2.is_empty());
    let t1 = doc1.unwrap();
    let t2 = doc2.unwrap();
    assert_eq!(t1.uuid, t2.uuid);
    match (&t1.value, &t2.value) {
        (ASTInner::Add { items: i1 }, ASTInner::Add { items: i2 }) => {
            assert_eq!(i1.len(), i2.len());
            assert_eq!(i1[0].uuid, i2[0].uuid);
            assert_eq!(int_value(&i1[0]), int_value(&i2[0]));
        }
        _ => panic!("expected lists at both roots"),
    }
}

#[test]
fn duplicate_delivery_is_detected_and_ignored() {
    let mut app = App::new();
    let init = entry(
        "1",
        vec![],
        ASTHistoryEntryInner::Initial { ast: int_node("A", "1", 42) },
    );
    let errs = app.receive_remote(&init);
    assert!(errs.is_empty());
    assert_eq!(app.applied.len(), 1);
    assert_eq!(int_value(app.ast.as_ref().unwrap()), 42);
    // the same entry again: recognised by content hash, applied exactly once
    let errs2 = app.receive_remote(&init);
    assert!(errs2.is_empty());
    assert_eq!(app.applied.len(), 1);
    assert_eq!(int_value(app.ast.as_ref().unwrap()), 42);
}

#[test]
fn out_of_order_delivery_is_buffered_until_predecessors_arrive() {
    let init = entry(
        "1",
        vec![],
        ASTHistoryEntryInner::Initial { ast: int_node("A", "1", 42) },
    );
    let h1 = init.hash();
    let set = entry(
        "2",
        vec![h1.as_str()],
        ASTHistoryEntryInner::SetInteger { uuid: "A".to_string(), value: 43 },
    );
    let mut app = App::new();
    // the dependent entry arrives first: nothing can be applied yet
    let errs = app.receive_remote(&set);
    assert!(errs.is_empty());
    assert!(app.ast.is_none());
    assert_eq!(app.pending.len(), 1);
    // once its predecessor arrives, both apply, in causal order
    let errs2 = app.receive_remote(&init);
    assert!(errs2.is_empty());
    assert!(app.pending.is_empty());
    assert_eq!(app.applied.len(), 2);
    assert_eq!(int_value(app.ast.as_ref().unwrap()), 43);
}

#[test]
fn commit_local_applies_and_queues() {
    let mut app = App::new();
    let init = entry(
        "1",
        vec![],
        ASTHistoryEntryInner::Initial { ast: int_node("A", "1", 42) },
    );
    assert!(app.commit_local(init).is_ok());
    assert_eq!(app.outbox.len(), 1);
    assert_eq!(app.applied.len(), 1);
    assert_eq!(int_value(app.ast.as_ref().unwrap()), 42);
    let sent = app.take_outbox();
    assert_eq!(sent.len(), 1);
    assert!(app.outbox.is_empty());
    // a failed operation changes nothing and is not queued
    let bad = entry(
        "1",
        vec![],
        ASTHistoryEntryInner::SetInteger { uuid: "Z".to_string(), value: 1 },
    );
    assert!(app.commit_local(bad).is_err());
    assert!(app.outbox.is_empty());
    assert_eq!(app.applied.len(), 1);
}

#[test]
fn relay_totally_orders_and_never_echoes() {
    let mut log = RelayLog::new();
    let e1 = vec![1u8, 1, 1];
    let e2 = vec![2u8, 2];
    log.append(e1.clone(), 0);
    log.append(e2.clone(), 1);
    // a third client connecting afterwards receives exactly [E1, E2] in order
    let mut c2 = SendCursor::new(2);
    assert_eq!(c2.poll(&log), vec![e1.clone(), e2.clone()]);
    // the submitter of E1 never receives E1 back
    let mut c0 = SendCursor::new(0);
    assert_eq!(c0.poll(&log), vec![e2.clone()]);
    // polling again delivers nothing new
    assert_eq!(c2.poll(&log), Vec::<Vec<u8>>::new());
    // a later append reaches an existing cursor exactly once, after the rest
    let e3 = vec![3u8];
    log.append(e3.clone(), 0);
    assert_eq!(c2.poll(&log), vec![e3.clone()]);
    assert_eq!(c0.poll(&log), Vec::<Vec<u8>>::new());
    assert_eq!(log.len(), 3);
    assert_eq!(log.get(0).0, e1);
    assert_eq!(log.get(1), (e2.clone(), 1));
}
