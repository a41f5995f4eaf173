//! Decimal text, wire framing, rendering, and the cursor-model commands.

use coedit::commands::{EditKind, NavDir};
use coedit::render::{parse_i64_chars, styled_fragments, to_decimal, MySpan};
use coedit::selection::Selection;
use coedit::sync::App;
use coedit::tree::{AST, ASTInner};
use coedit::wire::{frame, frame_header_len, u64_from_be};

fn int_node(id: &str, editor: &str, v: i64) -> AST {
    AST {
        uuid: id.to_string(),
        changed_by: editor.to_string(),
        value: ASTInner::Integer { value: v },
    }
}

fn list_node(id: &str, editor: &str, items: Vec<AST>) -> AST {
    AST { uuid: id.to_string(), changed_by: editor.to_string(), value: ASTInner::Add { items } }
}

fn select(pairs: Vec<(&str, Option<usize>)>) -> Selection {
    Selection { items: pairs.into_iter().map(|(s, o)| (s.to_string(), o)).collect() }
}

fn int_value(t: &AST) -> i64 {
    match &t.value {
        ASTInner::Integer { value } => *value,
        ASTInner::Add { .. } => panic!("expected an integer"),
    }
}

#[test]
fn decimal_rendering() {
    assert_eq!(to_decimal(0), "0");
    assert_eq!(to_decimal(42), "42");
    assert_eq!(to_decimal(-7), "-7");
    assert_eq!(to_decimal(i64::MAX), "9223372036854775807");
    assert_eq!(to_decimal(i64::MIN), "-9223372036854775808");
}

#[test]
fn decimal_parsing() {
    let chars = |s: &str| s.chars().collect::<Vec<char>>();
    assert_eq!(parse_i64_chars(&chars("42")), Some(42));
    assert_eq!(parse_i64_chars(&chars("-7")), Some(-7));
    assert_eq!(parse_i64_chars(&chars("0")), Some(0));
    assert_eq!(parse_i64_chars(&chars("")), None);
    assert_eq!(parse_i64_chars(&chars("-")), None);
    assert_eq!(parse_i64_chars(&chars("1a")), None);
    assert_eq!(parse_i64_chars(&chars("9223372036854775807")), Some(i64::MAX));
    assert_eq!(parse_i64_chars(&chars("9223372036854775808")), None);
    assert_eq!(parse_i64_chars(&chars("-9223372036854775808")), Some(i64::MIN));
    assert_eq!(parse_i64_chars(&chars("-9223372036854775809")), None);
}

#[test]
fn framing_round_trip() {
    let payload = vec![9u8, 8, 7];
    let framed = frame(&payload);
    assert_eq!(framed.len(), 11);
    assert_eq!(&framed[..8], &[0, 0, 0, 0, 0, 0, 0, 3]);
    assert_eq!(&framed[8..], &payload[..]);
    let header: Vec<u8> = framed[..8].to_vec();
    assert_eq!(frame_header_len(&header), 3);
    assert_eq!(u64_from_be(&vec![0, 0, 0, 0, 0, 0, 1, 0]), 256);
}

#[test]
fn uuid_shape_and_freshness() {
    let a = coedit::digest::generate_uuid();
    let b = coedit::digest::generate_uuid();
    assert_eq!(a.len(), 128);
    assert!(a.chars().all(|c| c.is_ascii_hexdigit() && !c.is_ascii_uppercase()));
    assert_ne!(a, b);
}

#[test]
fn hash_matches_an_independent_digest() {
    let entry = coedit::history::ASTHistoryEntry {
        previous: vec!["aa".to_string()],
        peer: "p".to_string(),
        value: coedit::history::ASTHistoryEntryInner::Delete { uuid: "A".to_string() },
    };
    let digest = <sha3::Sha3_512 as sha3::Digest>::digest(entry.hash_input_bytes());
    let expected = base16ct::lower::encode_string(&digest);
    assert_eq!(entry.hash(), expected);
}

fn texts(spans: &[MySpan]) -> String {
    let mut out = String::new();
    for s in spans {
        match s {
            MySpan::Text(t, _) => out.push_str(t),
            MySpan::Cursor => out.push('|'),
        }
    }
    out
}

#[test]
fn render_unselected_integer() {
    let tree = int_node("A", "1", 42);
    let sel = select(vec![]);
    let spans = tree.render(&sel);
    assert_eq!(spans.len(), 1);
    match &spans[0] {
        MySpan::Text(t, emphasized) => {
            assert_eq!(t, "42");
            assert!(!emphasized);
        }
        MySpan::Cursor => panic!("no cursor expected"),
    }
}

#[test]
fn render_selected_list_with_caret() {
    let tree = list_node("L", "1", vec![int_node("A", "1", 42), int_node("B", "1", 7)]);
    let sel = select(vec![("L", None), ("A", Some(1))]);
    let spans = tree.render(&sel);
    assert_eq!(texts(&spans), "(+ 4|2 7)");
}

#[test]
fn styled_fragments_resolve_cursors() {
    let tree = list_node("L", "1", vec![int_node("A", "1", 42)]);
    let sel = select(vec![("A", Some(1))]);
    let spans = tree.render(&sel);
    let frags = styled_fragments(&spans);
    // the cursor emphasizes the first character of what follows it
    let joined: String = frags.iter().map(|(t, _)| t.clone()).collect();
    assert_eq!(joined, "(+ 42)");
    let emphasized: Vec<&str> =
        frags.iter().filter(|(_, e)| *e).map(|(t, _)| t.as_str()).collect();
    assert_eq!(emphasized, vec!["2"]);
}

#[test]
fn styled_fragments_trailing_cursor_becomes_space() {
    let spans = vec![
        MySpan::Text("1".to_string(), false),
        MySpan::Cursor,
    ];
    let frags = styled_fragments(&spans);
    assert_eq!(frags, vec![("1".to_string(), false), (" ".to_string(), true)]);
}

fn app_with(tree: AST, sel: Selection) -> App {
    let mut app = App::new();
    app.ast = Some(tree);
    app.selected = sel;
    app
}

#[test]
fn navigation_moves_the_selection() {
    let tree = list_node("L", "1", vec![int_node("A", "1", 1), int_node("B", "1", 2)]);
    let mut app = app_with(tree, select(vec![("L", None)]));
    app.navigate(NavDir::Down);
    assert_eq!(app.selected.items, vec![("A".to_string(), None)]);
    app.navigate(NavDir::Right);
    assert_eq!(app.selected.items, vec![("B".to_string(), None)]);
    app.navigate(NavDir::Right);
    assert_eq!(app.selected.items, vec![("B".to_string(), None)]);
    app.navigate(NavDir::Left);
    assert_eq!(app.selected.items, vec![("A".to_string(), None)]);
    app.navigate(NavDir::Up);
    assert_eq!(app.selected.items, vec![("L".to_string(), None)]);
    app.navigate(NavDir::Down);
    app.navigate(NavDir::Down);
    assert_eq!(app.selected.items, vec![("A".to_string(), Some(0))]);
    app.navigate(NavDir::Right);
    assert_eq!(app.selected.items, vec![("A".to_string(), Some(1))]);
    app.navigate(NavDir::Up);
    assert_eq!(app.selected.items, vec![("A".to_string(), None)]);
}

#[test]
fn digit_entry_edits_each_selected_leaf() {
    let tree = list_node("L", "1", vec![int_node("A", "1", 1), int_node("B", "1", 2)]);
    let mut app = app_with(tree, select(vec![("A", Some(1)), ("B", Some(0))]));
    app.edit_selected(&"me".to_string(), EditKind::Digit('7'));
    let t = app.ast.as_ref().unwrap();
    match &t.value {
        ASTInner::Add { items } => {
            assert_eq!(int_value(&items[0]), 17);
            assert_eq!(int_value(&items[1]), 72);
        }
        _ => panic!("expected a list"),
    }
    // both carets advanced past the inserted digit
    assert_eq!(app.selected.items, vec![
        ("A".to_string(), Some(2)),
        ("B".to_string(), Some(1)),
    ]);
    // one entry per edited node was queued
    assert_eq!(app.outbox.len(), 2);
    assert_eq!(app.applied.len(), 2);
}

#[test]
fn backspace_removes_digit_or_deletes_node() {
    let tree = list_node("L", "1", vec![int_node("A", "1", 42), int_node("B", "1", 7)]);
    let mut app = app_with(tree, select(vec![("A", Some(0))]));
    app.edit_selected(&"me".to_string(), EditKind::Backspace);
    assert_eq!(
        int_value(&match &app.ast.as_ref().unwrap().value {
            ASTInner::Add { items } => items[0].clone(),
            _ => panic!(),
        }),
        2
    );
    let mut app2 = app_with(
        list_node("L", "1", vec![int_node("A", "1", 1), int_node("B", "1", 2)]),
        select(vec![("B", None)]),
    );
    app2.edit_selected(&"me".to_string(), EditKind::Backspace);
    match &app2.ast.as_ref().unwrap().value {
        ASTInner::Add { items } => {
            assert_eq!(items.len(), 1);
            assert_eq!(items[0].uuid, "A");
        }
        _ => panic!(),
    }
}

#[test]
fn digit_entry_on_a_list_is_a_status_reported_no_op() {
    let tree = list_node("L", "1", vec![int_node("A", "1", 1)]);
    let mut app = app_with(tree, select(vec![("L", None)]));
    app.edit_selected(&"me".to_string(), EditKind::Digit('5'));
    assert_eq!(app.status, "can't edit a +");
    assert!(app.outbox.is_empty());
    match &app.ast.as_ref().unwrap().value {
        ASTInner::Add { items } => assert_eq!(int_value(&items[0]), 1),
        _ => panic!("expected a list"),
    }
}

#[test]
fn wrap_command_wraps_leaves_and_refuses_lists() {
    let tree = int_node("A", "1", 42);
    let mut app = app_with(tree, select(vec![("A", None)]));
    app.wrap_selected(&"me".to_string());
    let t = app.ast.as_ref().unwrap();
    match &t.value {
        ASTInner::Add { items } => {
            assert_eq!(items.len(), 1);
            assert_eq!(items[0].uuid, "A");
        }
        _ => panic!("expected the leaf to be wrapped"),
    }
    assert_ne!(t.uuid, "A");
    assert!(app.status.is_empty());
    // wrapping a list is a status-reported no-op
    let before_len = app.outbox.len();
    let root_id = t.uuid.clone();
    app.selected = select(vec![]);
    app.selected.insert(root_id, None);
    app.wrap_selected(&"me".to_string());
    assert_eq!(app.status, "can't wrap + into +");
    assert_eq!(app.outbox.len(), before_len);
}

#[test]
fn prune_selection_drops_missing_nodes_and_falls_back_to_root() {
    let tree = list_node("L", "1", vec![int_node("A", "1", 1)]);
    let mut app = app_with(tree, select(vec![("A", Some(1)), ("Z", None)]));
    app.prune_selection();
    assert_eq!(app.selected.items, vec![("A".to_string(), Some(1))]);
    let mut app2 = app_with(
        list_node("L", "1", vec![int_node("A", "1", 1)]),
        select(vec![("Z", None)]),
    );
    app2.prune_selection();
    assert_eq!(app2.selected.items, vec![("L".to_string(), None)]);
}

#[test]
fn insert_sibling_adds_a_fresh_leaf() {
    let tree = list_node("L", "1", vec![int_node("A", "1", 5)]);
    let mut app = app_with(tree, select(vec![("A", None)]));
    app.insert_sibling(&"me".to_string(), true);
    match &app.ast.as_ref().unwrap().value {
        ASTInner::Add { items } => {
            assert_eq!(items.len(), 2);
            assert_eq!(items[0].uuid, "A");
            assert_eq!(int_value(&items[1]), 1);
            // the new node takes over the anchor's place in the selection
            assert_eq!(app.selected.items.len(), 1);
            assert_eq!(app.selected.items[0].0, items[1].uuid);
        }
        _ => panic!("expected a list"),
    }
    let mut app2 = app_with(
        list_node("L", "1", vec![int_node("A", "1", 5)]),
        select(vec![("A", None)]),
    );
    app2.insert_sibling(&"me".to_string(), false);
    match &app2.ast.as_ref().unwrap().value {
        ASTInner::Add { items } => {
            assert_eq!(items.len(), 2);
            assert_eq!(int_value(&items[0]), 1);
            assert_eq!(items[1].uuid, "A");
        }
        _ => panic!("expected a list"),
    }
    assert_eq!(app2.selected.items, vec![("A".to_string(), None)]);
}
