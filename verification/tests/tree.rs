use binfmt_dispatcher::assoc::find;
use binfmt_dispatcher::tree::{lookup, Node};

fn text(s: &str) -> Node {
    Node::Text(s.to_string())
}

fn table(entries: Vec<(&str, Node)>) -> Node {
    Node::Table(entries.into_iter().map(|(k, v)| (k.to_string(), v)).collect())
}

#[test]
fn find_gives_the_place_of_a_key() {
    let entries = vec![("a".to_string(), 1), ("b".to_string(), 2), ("c".to_string(), 3)];
    assert_eq!(find(&entries, &"a".to_string()), Some(0));
    assert_eq!(find(&entries, &"c".to_string()), Some(2));
    assert_eq!(find(&entries, &"d".to_string()), None);
    assert_eq!(find(&entries, &"A".to_string()), None);
    let none: Vec<(String, i32)> = Vec::new();
    assert_eq!(find(&none, &"a".to_string()), None);
}

#[test]
fn find_gives_the_first_of_two_places() {
    let entries = vec![("a".to_string(), 1), ("b".to_string(), 2), ("a".to_string(), 3)];
    assert_eq!(find(&entries, &"a".to_string()), Some(0));
}

#[test]
fn lookup_finds_the_child_under_a_key() {
    let entries = vec![("path".to_string(), text("/bin/x")), ("flag".to_string(), Node::Boolean(true))];
    assert_eq!(lookup(&entries, "path"), Some(&text("/bin/x")));
    assert_eq!(lookup(&entries, "flag"), Some(&Node::Boolean(true)));
    assert_eq!(lookup(&entries, "Path"), None);
    assert_eq!(lookup(&entries, ""), None);
}

#[test]
fn duplicate_copies_every_level() {
    let node = table(vec![
        ("a", text("x")),
        ("b", Node::Array(vec![Node::I64(1), Node::Float(2.5f64.to_bits()), Node::Nil])),
        ("c", table(vec![("d", Node::Boolean(false)), ("e", table(vec![]))])),
        ("f", Node::U64(7)),
        ("g", Node::I128(-8)),
        ("h", Node::U128(9)),
    ]);
    assert_eq!(node.duplicate(), node);
}

#[test]
fn well_formed_nodes() {
    assert!(Node::Nil.is_wf());
    assert!(text("x").is_wf());
    assert!(table(vec![]).is_wf());
    assert!(table(vec![("a", text("x")), ("b", text("x")), ("A", text("x"))]).is_wf());
    assert!(Node::Array(vec![table(vec![("a", Node::Nil)]), table(vec![("a", Node::Nil)])]).is_wf());
}

#[test]
fn a_key_twice_is_not_well_formed() {
    assert!(!table(vec![("a", text("x")), ("b", text("y")), ("a", text("z"))]).is_wf());
    assert!(!table(vec![("a", text("x")), ("a", text("x"))]).is_wf());
}

#[test]
fn a_key_twice_below_is_not_well_formed() {
    let inner = table(vec![("k", Node::Nil), ("k", Node::Nil)]);
    assert!(!table(vec![("a", inner)]).is_wf());
    let inner = table(vec![("k", Node::Nil), ("k", Node::Nil)]);
    assert!(!Node::Array(vec![Node::Nil, inner]).is_wf());
}
