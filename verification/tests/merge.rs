use binfmt_dispatcher::merge::merge;
use binfmt_dispatcher::tree::{lookup, Node};

fn text(s: &str) -> Node {
    Node::Text(s.to_string())
}

fn table(entries: Vec<(&str, Node)>) -> Node {
    Node::Table(entries.into_iter().map(|(k, v)| (k.to_string(), v)).collect())
}

fn entries(node: &Node) -> &Vec<(String, Node)> {
    match node {
        Node::Table(entries) => entries,
        _ => panic!("no table"),
    }
}

#[test]
fn later_leaf_wins() {
    let base = table(vec![("level", text("info"))]);
    let over = table(vec![("level", text("debug"))]);
    assert_eq!(merge(&base, &over), table(vec![("level", text("debug"))]));
}

#[test]
fn different_keys_are_both_kept() {
    let base = table(vec![("qemu", table(vec![("path", text("/usr/bin/qemu"))]))]);
    let over = table(vec![("box64", table(vec![("path", text("/usr/bin/box64"))]))]);
    let merged = merge(&base, &over);
    assert_eq!(
        merged,
        table(vec![
            ("qemu", table(vec![("path", text("/usr/bin/qemu"))])),
            ("box64", table(vec![("path", text("/usr/bin/box64"))])),
        ])
    );
}

#[test]
fn tables_merge_at_every_depth() {
    let base = table(vec![(
        "interpreters",
        table(vec![("qemu", table(vec![("path", text("/a")), ("name", text("Q"))]))]),
    )]);
    let over = table(vec![(
        "interpreters",
        table(vec![
            ("qemu", table(vec![("path", text("/b")), ("use_muvm", Node::Boolean(true))])),
            ("fex", table(vec![("path", text("/c"))])),
        ]),
    )]);
    let merged = merge(&base, &over);
    let interpreters = entries(lookup(entries(&merged), "interpreters").unwrap());
    assert_eq!(interpreters.len(), 2);
    let qemu = entries(lookup(interpreters, "qemu").unwrap());
    assert_eq!(qemu.len(), 3);
    assert_eq!(lookup(qemu, "path"), Some(&text("/b")));
    assert_eq!(lookup(qemu, "name"), Some(&text("Q")));
    assert_eq!(lookup(qemu, "use_muvm"), Some(&Node::Boolean(true)));
    let fex = entries(lookup(interpreters, "fex").unwrap());
    assert_eq!(lookup(fex, "path"), Some(&text("/c")));
    assert!(merged.is_wf());
}

#[test]
fn arrays_are_replaced_whole() {
    let base = table(vec![("paths", Node::Array(vec![text("/a"), text("/b")]))]);
    let over = table(vec![("paths", Node::Array(vec![text("/c")]))]);
    assert_eq!(merge(&base, &over), table(vec![("paths", Node::Array(vec![text("/c")]))]));
}

#[test]
fn a_leaf_replaces_a_table_and_a_table_a_leaf() {
    let leaf = table(vec![("x", Node::I64(5))]);
    let nested = table(vec![("x", table(vec![("y", Node::I64(6))]))]);
    assert_eq!(merge(&nested, &leaf), table(vec![("x", Node::I64(5))]));
    assert_eq!(merge(&leaf, &nested), table(vec![("x", table(vec![("y", Node::I64(6))]))]));
}

#[test]
fn an_empty_table_adds_nothing_to_a_table() {
    let base = table(vec![("muvm", table(vec![("path", text("/usr/bin/muvm"))]))]);
    let over = table(vec![("muvm", table(vec![]))]);
    assert_eq!(merge(&base, &over), table(vec![("muvm", table(vec![("path", text("/usr/bin/muvm"))]))]));
    assert_eq!(merge(&base, &table(vec![])), base);
    assert_eq!(merge(&table(vec![]), &base), base);
}

#[test]
fn keys_differ_by_case() {
    let base = table(vec![("qemu", text("lower"))]);
    let over = table(vec![("QEMU", text("upper"))]);
    assert_eq!(merge(&base, &over), table(vec![("qemu", text("lower")), ("QEMU", text("upper"))]));
}

#[test]
fn what_is_no_table_is_replaced() {
    assert_eq!(merge(&text("a"), &text("b")), text("b"));
    assert_eq!(merge(&table(vec![("k", Node::Nil)]), &Node::I64(3)), Node::I64(3));
    assert_eq!(merge(&Node::I64(3), &table(vec![("k", Node::Nil)])), table(vec![("k", Node::Nil)]));
    assert_eq!(merge(&text("a"), &Node::Nil), Node::Nil);
}
