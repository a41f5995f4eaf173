//! The s-expression reader on concrete inputs.

use coedit::sexpr::{parse, parse_toplevel, NodeInner};

#[test]
fn parse_symbol_leaves_remainder() {
    let (rest, node) = parse("abc def").unwrap();
    assert_eq!(rest, " def");
    assert_eq!(node.slice, "abc");
    match &node.inner {
        NodeInner::Symbol(s) => assert_eq!(s, "abc"),
        NodeInner::List(_) => panic!("expected a symbol"),
    }
}

#[test]
fn parse_list_keeps_source_slice() {
    let (rest, node) = parse("  (a (b c) d) tail").unwrap();
    assert_eq!(rest, " tail");
    assert_eq!(node.slice, "(a (b c) d)");
    match &node.inner {
        NodeInner::List(items) => {
            assert_eq!(items.len(), 3);
            match &items[1].inner {
                NodeInner::List(inner) => {
                    assert_eq!(inner.len(), 2);
                    assert_eq!(inner[0].slice, "b");
                }
                NodeInner::Symbol(_) => panic!("expected a nested list"),
            }
        }
        NodeInner::Symbol(_) => panic!("expected a list"),
    }
}

#[test]
fn parse_rejects_malformed_input() {
    assert!(parse("").is_none());
    assert!(parse("   ").is_none());
    assert!(parse("(a b").is_none());
    assert!(parse(")").is_none());
}

#[test]
fn parse_toplevel_reads_every_node() {
    let nodes = parse_toplevel(" a (b c)  d ").unwrap();
    assert_eq!(nodes.len(), 3);
    assert_eq!(nodes[0].slice, "a");
    assert_eq!(nodes[1].slice, "(b c)");
    assert_eq!(nodes[2].slice, "d");
    assert_eq!(parse_toplevel("").unwrap().len(), 0);
    assert!(parse_toplevel("a (b").is_none());
}

#[test]
fn parse_empty_list() {
    let (rest, node) = parse("()").unwrap();
    assert_eq!(rest, "");
    assert_eq!(node.slice, "()");
    match &node.inner {
        NodeInner::List(items) => assert_eq!(items.len(), 0),
        NodeInner::Symbol(_) => panic!("expected a list"),
    }
}
