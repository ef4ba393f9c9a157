//! Decoding a merged tree into typed settings.
//!
//! The tree must have the shape of the settings: a table with the sections
//! `defaults`, `muvm`, `interpreters` and `binaries`, each field of the
//! expected kind. A text is expected as a text and a flag as a boolean;
//! nothing is converted. Keys that the settings do not know are ignored.

use crate::assoc::{distinct_keys, lemma_pairs_map_key, pairs_map};
use crate::settings::{
    binary_pairs, interpreter_pairs, lemma_binary_entry, lemma_interpreter_entry, texts,
    Binaries, BinariesView, ConfigFile, ConfigView, Defaults, DefaultsView, Interpreter,
    InterpreterView, MuVM, MuVMView,
};
use crate::tree::{
    item_views, lemma_table_entry, lemma_table_key, lookup, table_view, Node, Tree,
};
use vstd::prelude::*;

verus! {

/// The part of the tree that does not have the shape of the settings.
#[derive(Debug, Clone, Copy, PartialEq, Eq, Structural)]
pub enum Section {
    /// The tree is no table.
    Root,
    Defaults,
    Muvm,
    Interpreters,
    Binaries,
}

/// What stands under `key` in `table`; `Nil` where nothing does.
pub open spec fn child(table: Map<Seq<char>, Tree>, key: Seq<char>) -> Tree {
    if table.contains_key(key) {
        table[key]
    } else {
        Tree::Nil
    }
}

/// The text under `key`, which the shape requires.
pub open spec fn required_text(table: Map<Seq<char>, Tree>, key: Seq<char>) -> Option<Seq<char>> {
    match child(table, key) {
        Tree::Text(text) => Some(text),
        _ => None,
    }
}

/// A list of texts.
pub open spec fn decode_texts(tree: Tree) -> Option<Seq<Seq<char>>> {
    match tree {
        Tree::Array(items) => if forall|i: int| 0 <= i < items.len() ==> #[trigger] items[i] is Text {
            Some(Seq::new(items.len(), |i: int| items[i]->Text_0))
        } else {
            None
        },
        _ => None,
    }
}

pub open spec fn decode_defaults(tree: Tree) -> Option<DefaultsView> {
    match tree {
        Tree::Table(table) => match (
            required_text(table, "interpreter"@),
            required_text(table, "log_level"@),
        ) {
            (Some(interpreter), Some(log_level)) => Some(
                DefaultsView { interpreter, log_level },
            ),
            _ => None,
        },
        _ => None,
    }
}

pub open spec fn decode_muvm(tree: Tree) -> Option<MuVMView> {
    match tree {
        Tree::Table(table) => match required_text(table, "path"@) {
            Some(path) => Some(MuVMView { path }),
            None => None,
        },
        _ => None,
    }
}

pub open spec fn decode_binary(tree: Tree) -> Option<BinariesView> {
    match tree {
        Tree::Table(table) => match (
            required_text(table, "path"@),
            required_text(table, "interpreter"@),
        ) {
            (Some(path), Some(interpreter)) => Some(BinariesView { path, interpreter }),
            _ => None,
        },
        _ => None,
    }
}

/// An optional text: absent, or a text. The outer `None` says that what
/// stands there is neither.
pub open spec fn optional_text(tree: Tree) -> Option<Option<Seq<char>>> {
    match tree {
        Tree::Nil => Some(None),
        Tree::Text(text) => Some(Some(text)),
        _ => None,
    }
}

/// An optional flag: absent, or a boolean.
pub open spec fn optional_flag(tree: Tree) -> Option<Option<bool>> {
    match tree {
        Tree::Nil => Some(None),
        Tree::Boolean(flag) => Some(Some(flag)),
        _ => None,
    }
}

/// An optional list of texts: absent, or an array of texts.
pub open spec fn optional_texts(tree: Tree) -> Option<Option<Seq<Seq<char>>>> {
    match tree {
        Tree::Nil => Some(None),
        _ => match decode_texts(tree) {
            Some(list) => Some(Some(list)),
            None => None,
        },
    }
}

pub open spec fn decode_interpreter(tree: Tree) -> Option<InterpreterView> {
    match tree {
        Tree::Table(table) => match (
            optional_text(child(table, "name"@)),
            required_text(table, "path"@),
            optional_texts(child(table, "required_paths"@)),
            optional_flag(child(table, "use_muvm"@)),
        ) {
            (Some(name), Some(path), Some(required_paths), Some(use_muvm)) => Some(
                InterpreterView { name, path, required_paths, use_muvm },
            ),
            _ => None,
        },
        _ => None,
    }
}

/// The mapping of interpreters: a table whose every entry is an interpreter.
pub open spec fn decode_interpreters(tree: Tree) -> Option<Map<Seq<char>, InterpreterView>> {
    match tree {
        Tree::Table(table) => if forall|id: Seq<char>| #[trigger]
            table.contains_key(id) ==> decode_interpreter(table[id]) is Some {
            Some(
                Map::new(
                    |id: Seq<char>| table.contains_key(id),
                    |id: Seq<char>| decode_interpreter(table[id])->0,
                ),
            )
        } else {
            None
        },
        _ => None,
    }
}

/// The mapping of binaries: a table whose every entry is a binary.
pub open spec fn decode_binaries(tree: Tree) -> Option<Map<Seq<char>, BinariesView>> {
    match tree {
        Tree::Table(table) => if forall|id: Seq<char>| #[trigger]
            table.contains_key(id) ==> decode_binary(table[id]) is Some {
            Some(
                Map::new(
                    |id: Seq<char>| table.contains_key(id),
                    |id: Seq<char>| decode_binary(table[id])->0,
                ),
            )
        } else {
            None
        },
        _ => None,
    }
}

/// The settings that `root` holds, or the first section, in the order
/// `defaults`, `muvm`, `interpreters`, `binaries`, that lacks the shape.
pub open spec fn decode_settings(root: Tree) -> Result<ConfigView, Section> {
    match root {
        Tree::Table(table) => match decode_defaults(child(table, "defaults"@)) {
            None => Err(Section::Defaults),
            Some(defaults) => match decode_muvm(child(table, "muvm"@)) {
                None => Err(Section::Muvm),
                Some(muvm) => match decode_interpreters(child(table, "interpreters"@)) {
                    None => Err(Section::Interpreters),
                    Some(interpreters) => match decode_binaries(child(table, "binaries"@)) {
                        None => Err(Section::Binaries),
                        Some(binaries) => Ok(
                            ConfigView { defaults, muvm, interpreters, binaries },
                        ),
                    },
                },
            },
        },
        _ => Err(Section::Root),
    }
}

/// What an outcome of decoding stands for.
pub open spec fn decoded_view(decoded: Result<ConfigFile, Section>) -> Result<ConfigView, Section> {
    match decoded {
        Ok(settings) => Ok(settings@),
        Err(section) => Err(section),
    }
}

/// The children of a well-formed table are well-formed.
spec fn children_wf(entries: Seq<(String, Node)>) -> bool {
    forall|i: int| 0 <= i < entries.len() ==> (#[trigger] entries[i]).1.wf()
}

/// What stands under `key`, if anything does.
fn child_of<'a>(entries: &'a Vec<(String, Node)>, key: &str) -> (found: Option<&'a Node>)
    requires
        distinct_keys(entries@),
        children_wf(entries@),
    ensures
        match found {
            Some(node) => node@ == child(table_view(entries@), key@) && node.wf(),
            None => child(table_view(entries@), key@) == Tree::Nil,
        },
{
    lookup(entries, key)
}

fn text_under(entries: &Vec<(String, Node)>, key: &str) -> (found: Option<String>)
    requires
        distinct_keys(entries@),
        children_wf(entries@),
    ensures
        match found {
            Some(text) => required_text(table_view(entries@), key@) == Some(text@),
            None => required_text(table_view(entries@), key@) is None,
        },
{
    match child_of(entries, key) {
        Some(Node::Text(text)) => Some(text.clone()),
        _ => None,
    }
}

fn texts_of(node: &Node) -> (found: Option<Vec<String>>)
    ensures
        match found {
            Some(list) => decode_texts(node@) == Some(texts(list@)),
            None => decode_texts(node@) is None,
        },
{
    match node {
        Node::Array(items) => {
            let mut list: Vec<String> = Vec::new();
            let mut i: usize = 0;
            while i < items.len()
                invariant
                    *node == Node::Array(*items),
                    i <= items.len(),
                    list.len() == i,
                    forall|k: int|
                        0 <= k < i ==> (#[trigger] item_views(items@)[k]) == Tree::Text(list[k]@),
                decreases items.len() - i,
            {
                match &items[i] {
                    Node::Text(text) => {
                        list.push(text.clone());
                    },
                    _ => {
                        assert(!(item_views(items@)[i as int] is Text));
                        return None;
                    },
                }
                i = i + 1;
            }
            proof {
                let views = item_views(items@);
                assert forall|k: int| 0 <= k < views.len() implies #[trigger] views[k] is Text by {
                    assert(views[k] == Tree::Text(list[k]@));
                }
                assert(texts(list@) =~= Seq::new(views.len(), |k: int| views[k]->Text_0));
            }
            Some(list)
        },
        _ => None,
    }
}

fn defaults_of(node: &Node) -> (found: Option<Defaults>)
    requires
        node.wf(),
    ensures
        match found {
            Some(defaults) => decode_defaults(node@) == Some(defaults@),
            None => decode_defaults(node@) is None,
        },
{
    match node {
        Node::Table(entries) => {
            let interpreter = text_under(entries, "interpreter");
            let log_level = text_under(entries, "log_level");
            match (interpreter, log_level) {
                (Some(interpreter), Some(log_level)) => Some(Defaults { interpreter, log_level }),
                _ => None,
            }
        },
        _ => None,
    }
}

fn muvm_of(node: &Node) -> (found: Option<MuVM>)
    requires
        node.wf(),
    ensures
        match found {
            Some(muvm) => decode_muvm(node@) == Some(muvm@),
            None => decode_muvm(node@) is None,
        },
{
    match node {
        Node::Table(entries) => match text_under(entries, "path") {
            Some(path) => Some(MuVM { path }),
            None => None,
        },
        _ => None,
    }
}

fn binary_of(node: &Node) -> (found: Option<Binaries>)
    requires
        node.wf(),
    ensures
        match found {
            Some(binary) => decode_binary(node@) == Some(binary@),
            None => decode_binary(node@) is None,
        },
{
    match node {
        Node::Table(entries) => {
            let path = text_under(entries, "path");
            let interpreter = text_under(entries, "interpreter");
            match (path, interpreter) {
                (Some(path), Some(interpreter)) => Some(Binaries { path, interpreter }),
                _ => None,
            }
        },
        _ => None,
    }
}

fn interpreter_of(node: &Node) -> (found: Option<Interpreter>)
    requires
        node.wf(),
    ensures
        match found {
            Some(entry) => decode_interpreter(node@) == Some(entry@),
            None => decode_interpreter(node@) is None,
        },
{
    match node {
        Node::Table(entries) => {
            let name = match child_of(entries, "name") {
                None => None,
                Some(Node::Nil) => None,
                Some(Node::Text(text)) => Some(text.clone()),
                Some(_) => {
                    return None;
                },
            };
            let path = match text_under(entries, "path") {
                Some(path) => path,
                None => {
                    return None;
                },
            };
            let required_paths = match child_of(entries, "required_paths") {
                None => None,
                Some(Node::Nil) => None,
                Some(list) => match texts_of(list) {
                    Some(list) => Some(list),
                    None => {
                        return None;
                    },
                },
            };
            let use_muvm = match child_of(entries, "use_muvm") {
                None => None,
                Some(Node::Nil) => None,
                Some(Node::Boolean(flag)) => Some(*flag),
                Some(_) => {
                    return None;
                },
            };
            Some(Interpreter { name, path, required_paths, use_muvm })
        },
        _ => None,
    }
}

fn interpreters_of(node: &Node) -> (found: Option<Vec<(String, Interpreter)>>)
    requires
        node.wf(),
    ensures
        match found {
            Some(entries) => distinct_keys(entries@) && decode_interpreters(node@) == Some(
                pairs_map(interpreter_pairs(entries@)),
            ),
            None => decode_interpreters(node@) is None,
        },
{
    match node {
        Node::Table(entries) => {
            let mut out: Vec<(String, Interpreter)> = Vec::new();
            let mut i: usize = 0;
            while i < entries.len()
                invariant
                    *node == Node::Table(*entries),
                    distinct_keys(entries@),
                    children_wf(entries@),
                    i <= entries.len(),
                    out.len() == i,
                    forall|k: int|
                        0 <= k < i ==> (#[trigger] out[k]).0@ == entries[k].0@
                            && decode_interpreter(entries[k].1@) == Some(out[k].1@),
                decreases entries.len() - i,
            {
                assert(entries@[i as int].1.wf());
                match interpreter_of(&entries[i].1) {
                    Some(entry) => {
                        out.push((entries[i].0.clone(), entry));
                    },
                    None => {
                        proof {
                            lemma_table_entry(entries@, i as int);
                        }
                        return None;
                    },
                }
                i = i + 1;
            }
            proof {
                let table = table_view(entries@);
                assert forall|a: int, b: int| 0 <= a < b < out@.len() implies (
                #[trigger] out@[a]).0@ != (#[trigger] out@[b]).0@ by {
                    assert(entries@[a].0@ != entries@[b].0@);
                }
                assert forall|id: Seq<char>| #[trigger]
                    table.contains_key(id) implies decode_interpreter(table[id]) is Some by {
                    let k = lemma_table_key(entries@, id);
                    lemma_table_entry(entries@, k);
                    assert(out@[k].0@ == entries@[k].0@);
                }
                let want = decode_interpreters(node@)->0;
                let got = pairs_map(interpreter_pairs(out@));
                assert forall|id: Seq<char>| #[trigger] got.contains_key(id) implies want.contains_key(
                    id,
                ) && want[id] == got[id] by {
                    let k = lemma_pairs_map_key(interpreter_pairs(out@), id);
                    lemma_interpreter_entry(out@, k);
                    lemma_table_entry(entries@, k);
                }
                assert forall|id: Seq<char>| #[trigger] want.contains_key(id) implies got.contains_key(
                    id,
                ) by {
                    let k = lemma_table_key(entries@, id);
                    lemma_interpreter_entry(out@, k);
                }
                assert(got =~= want);
            }
            Some(out)
        },
        _ => None,
    }
}

fn binaries_of(node: &Node) -> (found: Option<Vec<(String, Binaries)>>)
    requires
        node.wf(),
    ensures
        match found {
            Some(entries) => distinct_keys(entries@) && decode_binaries(node@) == Some(
                pairs_map(binary_pairs(entries@)),
            ),
            None => decode_binaries(node@) is None,
        },
{
    match node {
        Node::Table(entries) => {
            let mut out: Vec<(String, Binaries)> = Vec::new();
            let mut i: usize = 0;
            while i < entries.len()
                invariant
                    *node == Node::Table(*entries),
                    distinct_keys(entries@),
                    children_wf(entries@),
                    i <= entries.len(),
                    out.len() == i,
                    forall|k: int|
                        0 <= k < i ==> (#[trigger] out[k]).0@ == entries[k].0@ && decode_binary(
                            entries[k].1@,
                        ) == Some(out[k].1@),
                decreases entries.len() - i,
            {
                assert(entries@[i as int].1.wf());
                match binary_of(&entries[i].1) {
                    Some(entry) => {
                        out.push((entries[i].0.clone(), entry));
                    },
                    None => {
                        proof {
                            lemma_table_entry(entries@, i as int);
                        }
                        return None;
                    },
                }
                i = i + 1;
            }
            proof {
                let table = table_view(entries@);
                assert forall|a: int, b: int| 0 <= a < b < out@.len() implies (
                #[trigger] out@[a]).0@ != (#[trigger] out@[b]).0@ by {
                    assert(entries@[a].0@ != entries@[b].0@);
                }
                assert forall|id: Seq<char>| #[trigger]
                    table.contains_key(id) implies decode_binary(table[id]) is Some by {
                    let k = lemma_table_key(entries@, id);
                    lemma_table_entry(entries@, k);
                    assert(out@[k].0@ == entries@[k].0@);
                }
                let want = decode_binaries(node@)->0;
                let got = pairs_map(binary_pairs(out@));
                assert forall|id: Seq<char>| #[trigger] got.contains_key(id) implies want.contains_key(
                    id,
                ) && want[id] == got[id] by {
                    let k = lemma_pairs_map_key(binary_pairs(out@), id);
                    lemma_binary_entry(out@, k);
                    lemma_table_entry(entries@, k);
                }
                assert forall|id: Seq<char>| #[trigger] want.contains_key(id) implies got.contains_key(
                    id,
                ) by {
                    let k = lemma_table_key(entries@, id);
                    lemma_binary_entry(out@, k);
                }
                assert(got =~= want);
            }
            Some(out)
        },
        _ => None,
    }
}

/// Decodes a merged tree into settings, as the merge left them: no entry is
/// completed yet.
pub fn decode(root: &Node) -> (decoded: Result<ConfigFile, Section>)
    requires
        root.wf(),
    ensures
        decoded_view(decoded) == decode_settings(root@),
        decoded matches Ok(settings) ==> settings.wf(),
{
    match root {
        Node::Table(entries) => {
            let nil = Node::Nil;
            let defaults = match child_of(entries, "defaults") {
                Some(node) => defaults_of(node),
                None => defaults_of(&nil),
            };
            let defaults = match defaults {
                Some(defaults) => defaults,
                None => {
                    return Err(Section::Defaults);
                },
            };
            let muvm = match child_of(entries, "muvm") {
                Some(node) => muvm_of(node),
                None => muvm_of(&nil),
            };
            let muvm = match muvm {
                Some(muvm) => muvm,
                None => {
                    return Err(Section::Muvm);
                },
            };
            let interpreters = match child_of(entries, "interpreters") {
                Some(node) => interpreters_of(node),
                None => interpreters_of(&nil),
            };
            let interpreters = match interpreters {
                Some(interpreters) => interpreters,
                None => {
                    return Err(Section::Interpreters);
                },
            };
            let binaries = match child_of(entries, "binaries") {
                Some(node) => binaries_of(node),
                None => binaries_of(&nil),
            };
            let binaries = match binaries {
                Some(binaries) => binaries,
                None => {
                    return Err(Section::Binaries);
                },
            };
            Ok(ConfigFile { defaults, muvm, interpreters, binaries })
        },
        _ => Err(Section::Root),
    }
}

} // verus!
