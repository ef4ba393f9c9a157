//! Reading one configuration source.
//!
//! The text of a source is parsed by the `config` crate. What it returns is
//! taken apart, level by level, into a [`Node`] of this library.

use crate::assoc::{
    distinct_firsts, distinct_keys, lemma_pairs_map_entry, lemma_pairs_map_finite,
    lemma_pairs_map_reversed, pairs_map,
};
use crate::tree::{entry_views, item_views, Node, Tree};
use vstd::prelude::*;

verus! {

/// `config::Value`, a parsed configuration value. The proofs see nothing
/// inside it.
#[verifier::external_type_specification]
#[verifier::external_body]
pub struct ExValue(config::Value);

/// `config::ConfigError`, the error of the `config` crate. It is carried
/// through to the caller, who may print it.
#[verifier::external_type_specification]
#[verifier::external_body]
pub struct ExConfigError(config::ConfigError);

/// The tree that a value of the `config` crate holds: its kind, its scalar,
/// and under each key of a table or at each place of an array the tree of
/// the value that stands there.
pub uninterp spec fn value_tree(value: config::Value) -> Tree;

/// The tree that `text` denotes when read as a TOML document, or `None`
/// where `text` is no TOML document.
pub uninterp spec fn toml_document(text: Seq<char>) -> Option<Tree>;

/// One level of a value of the `config` crate: a scalar, or the values that
/// a table or an array holds.
enum Shape {
    Nil,
    Boolean(bool),
    I64(i64),
    I128(i128),
    U64(u64),
    U128(u128),
    Float(u64),
    Text(String),
    Table(Vec<(String, config::Value)>),
    Array(Vec<config::Value>),
}

/// The keys of a table's entries with the trees of the values under them.
spec fn shape_pairs(entries: Seq<(String, config::Value)>) -> Seq<(Seq<char>, Tree)> {
    Seq::new(entries.len(), |i: int| (entries[i].0@, value_tree(entries[i].1)))
}

/// The trees of an array's values.
spec fn shape_items(items: Seq<config::Value>) -> Seq<Tree> {
    Seq::new(items.len(), |i: int| value_tree(items[i]))
}

/// The tree that one opened level stands for.
spec fn shape_tree(shape: Shape) -> Tree {
    match shape {
        Shape::Nil => Tree::Nil,
        Shape::Boolean(b) => Tree::Boolean(b),
        Shape::I64(n) => Tree::I64(n),
        Shape::I128(n) => Tree::I128(n),
        Shape::U64(n) => Tree::U64(n),
        Shape::U128(n) => Tree::U128(n),
        Shape::Float(bits) => Tree::Float(bits),
        Shape::Text(s) => Tree::Text(s@),
        Shape::Table(entries) => Tree::Table(pairs_map(shape_pairs(entries@))),
        Shape::Array(items) => Tree::Array(shape_items(items@)),
    }
}

/// Parses `text` as a TOML document with `config::File::from_str` and
/// `config::Source::collect`. The contract names the outcome: the call
/// succeeds exactly where `text` is a TOML document, and the value it
/// returns is then a table that holds the document's tree.
#[verifier::external_body]
fn read_toml(text: &str) -> (read: Result<config::Value, config::ConfigError>)
    ensures
        match read {
            Ok(value) => toml_document(text@) == Some(value_tree(value)) && value_tree(
                value,
            ) is Table,
            Err(_) => toml_document(text@) is None,
        },
{
    let file = config::File::from_str(text, config::FileFormat::Toml);
    config::Source::collect(&file).map(config::Value::from)
}

/// Opens one level of a `config::Value` by matching on its public field
/// `kind`. The contract says that the tree of the value is made of what the
/// level shows: the same scalar, or the trees of the values moved out of the
/// table or array; and that a table, being a map, hands out each key once.
#[verifier::external_body]
fn open_value(value: config::Value) -> (shape: Shape)
    ensures
        shape_tree(shape) == value_tree(value),
        shape matches Shape::Table(entries) ==> distinct_keys(entries@),
{
    match value.kind {
        config::ValueKind::Nil => Shape::Nil,
        config::ValueKind::Boolean(b) => Shape::Boolean(b),
        config::ValueKind::I64(n) => Shape::I64(n),
        config::ValueKind::I128(n) => Shape::I128(n),
        config::ValueKind::U64(n) => Shape::U64(n),
        config::ValueKind::U128(n) => Shape::U128(n),
        config::ValueKind::Float(x) => Shape::Float(x.to_bits()),
        config::ValueKind::String(s) => Shape::Text(s),
        config::ValueKind::Table(t) => Shape::Table(t.into_iter().collect()),
        config::ValueKind::Array(a) => Shape::Array(a),
    }
}

/// Takes a value of the `config` crate apart into a node of this library.
pub fn import(value: config::Value) -> (node: Node)
    ensures
        node@ == value_tree(value),
        node.wf(),
    decreases value_tree(value),
{
    let ghost whole = value_tree(value);
    match open_value(value) {
        Shape::Nil => Node::Nil,
        Shape::Boolean(b) => Node::Boolean(b),
        Shape::I64(n) => Node::I64(n),
        Shape::I128(n) => Node::I128(n),
        Shape::U64(n) => Node::U64(n),
        Shape::U128(n) => Node::U128(n),
        Shape::Float(bits) => Node::Float(bits),
        Shape::Text(s) => Node::Text(s),
        Shape::Table(entries) => {
            let mut entries = entries;
            let ghost all = entries@;
            let ghost total = all.len() as int;
            let mut out: Vec<(String, Node)> = Vec::new();
            proof {
                assert(distinct_firsts(shape_pairs(all))) by {
                    assert forall|i: int, j: int|
                        0 <= i < j < shape_pairs(all).len() implies (#[trigger] shape_pairs(
                        all,
                    )[i]).0 != (#[trigger] shape_pairs(all)[j]).0 by {
                        assert(all[i].0@ != all[j].0@);
                    }
                }
                lemma_pairs_map_finite(shape_pairs(all));
            }
            while entries.len() > 0
                invariant
                    whole == value_tree(value),
                    whole == Tree::Table(pairs_map(shape_pairs(all))),
                    distinct_firsts(shape_pairs(all)),
                    pairs_map(shape_pairs(all)).dom().finite(),
                    total == all.len(),
                    entries@.len() <= total,
                    entries@ == all.take(entries@.len() as int),
                    out@.len() == total - entries@.len(),
                    forall|t: int|
                        0 <= t < out@.len() ==> {
                            &&& (#[trigger] out@[t]).0@ == all[total - 1 - t].0@
                            &&& out@[t].1@ == value_tree(all[total - 1 - t].1)
                            &&& out@[t].1.wf()
                        },
                decreases entries@.len(),
            {
                let ghost at = entries@.len() - 1;
                let last = entries.pop();
                match last {
                    Some((key, child)) => {
                        proof {
                            assert(child == all[at].1);
                            let pairs = shape_pairs(all);
                            lemma_pairs_map_entry(pairs, at);
                            assert(pairs[at].1 == value_tree(child));
                            assert(decreases_to!(whole => whole->Table_0));
                            assert(decreases_to!(whole->Table_0 => whole->Table_0[pairs[at].0]));
                        }
                        let node = import(child);
                        out.push((key, node));
                    },
                    None => {},
                }
            }
            proof {
                let a = shape_pairs(all);
                let b = entry_views(out@);
                assert forall|i: int| 0 <= i < b.len() implies #[trigger] b[i] == a[a.len() - 1
                    - i] by {
                    assert(out@[i].0@ == all[total - 1 - i].0@);
                }
                lemma_pairs_map_reversed(a, b);
                assert forall|i: int, j: int| 0 <= i < j < out@.len() implies (
                #[trigger] out@[i]).0@ != (#[trigger] out@[j]).0@ by {
                    assert(b[i].0 != b[j].0);
                }
            }
            Node::Table(out)
        },
        Shape::Array(items) => {
            let mut items = items;
            let ghost all = items@;
            let ghost total = all.len() as int;
            let mut back: Vec<Node> = Vec::new();
            while items.len() > 0
                invariant
                    whole == value_tree(value),
                    whole == Tree::Array(shape_items(all)),
                    total == all.len(),
                    items@.len() <= total,
                    items@ == all.take(items@.len() as int),
                    back@.len() == total - items@.len(),
                    forall|t: int|
                        0 <= t < back@.len() ==> {
                            &&& (#[trigger] back@[t])@ == value_tree(all[total - 1 - t])
                            &&& back@[t].wf()
                        },
                decreases items@.len(),
            {
                let ghost at = items@.len() - 1;
                let last = items.pop();
                match last {
                    Some(child) => {
                        proof {
                            assert(child == all[at]);
                            assert(shape_items(all)[at] == value_tree(child));
                            assert(decreases_to!(whole => whole->Array_0));
                            assert(decreases_to!(whole->Array_0 => whole->Array_0[at]));
                        }
                        let node = import(child);
                        back.push(node);
                    },
                    None => {},
                }
            }
            let ghost turned = back@;
            let mut out: Vec<Node> = Vec::new();
            while back.len() > 0
                invariant
                    turned.len() == total,
                    back@.len() <= total,
                    back@ == turned.take(back@.len() as int),
                    out@.len() == total - back@.len(),
                    forall|t: int|
                        0 <= t < out@.len() ==> (#[trigger] out@[t]) == turned[total - 1 - t],
                decreases back@.len(),
            {
                let last = back.pop();
                match last {
                    Some(node) => {
                        out.push(node);
                    },
                    None => {},
                }
            }
            proof {
                assert forall|i: int| 0 <= i < out@.len() implies (#[trigger] out@[i])@
                    == value_tree(all[i]) && out@[i].wf() by {
                    assert(out@[i] == turned[total - 1 - i]);
                }
                assert(item_views(out@) =~= shape_items(all));
            }
            Node::Array(out)
        },
    }
}

/// Parses the text of one source.
///
/// Returns the tree of the document where `text` is a TOML document, and
/// the parser's error where it is not.
pub fn parse_source(text: &str) -> (parsed: Result<Node, config::ConfigError>)
    ensures
        match parsed {
            Ok(node) => toml_document(text@) == Some(node@) && node@ is Table && node.wf(),
            Err(_) => toml_document(text@) is None,
        },
{
    match read_toml(text) {
        Ok(value) => Ok(import(value)),
        Err(cause) => Err(cause),
    }
}

} // verus!
