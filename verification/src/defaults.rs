//! The built-in defaults: what the settings hold where no source says otherwise.

use crate::tree::{lemma_table_empty, lemma_table_push, Node, Tree};
use vstd::prelude::*;

verus! {

/// The built-in defaults as a tree.
pub open spec fn default_tree() -> Tree {
    Tree::Table(
        map![
            "defaults"@ => Tree::Table(
                map![
                    "interpreter"@ => Tree::Text("qemu"@),
                    "log_level"@ => Tree::Text("info"@),
                ],
            ),
            "muvm"@ => Tree::Table(map!["path"@ => Tree::Text("/usr/bin/muvm"@)]),
            "interpreters"@ => Tree::Table(
                map![
                    "qemu"@ => Tree::Table(map!["path"@ => Tree::Text("/usr/bin/qemu-x86_64"@)]),
                ],
            ),
            "binaries"@ => Tree::Table(Map::empty()),
        ],
    )
}

/// A table with the one entry `key`, under which `child` stands.
fn table_of(key: &str, child: Node) -> (table: Node)
    requires
        child.wf(),
    ensures
        table.wf(),
        table@ == Tree::Table(map![key@ => child@]),
{
    let mut entries: Vec<(String, Node)> = Vec::new();
    let entry = (key.to_owned(), child);
    proof {
        lemma_table_empty(entries@);
        lemma_table_push(entries@, entry);
    }
    entries.push(entry);
    assert(entries@[0].1.wf());
    Node::Table(entries)
}

/// The built-in defaults.
pub fn default_node() -> (node: Node)
    ensures
        node.wf(),
        node@ == default_tree(),
{
    let mut defaults: Vec<(String, Node)> = Vec::new();
    proof {
        reveal_strlit("interpreter");
        reveal_strlit("log_level");
        lemma_table_empty(defaults@);
    }
    let interpreter = ("interpreter".to_owned(), Node::Text("qemu".to_owned()));
    proof {
        lemma_table_push(defaults@, interpreter);
    }
    defaults.push(interpreter);
    let log_level = ("log_level".to_owned(), Node::Text("info".to_owned()));
    proof {
        assert("interpreter"@.len() == 11);
        assert("log_level"@.len() == 9);
        assert(defaults@[0].0@ == "interpreter"@);
        lemma_table_push(defaults@, log_level);
    }
    defaults.push(log_level);
    assert(defaults@[0].1.wf() && defaults@[1].1.wf());
    let defaults = Node::Table(defaults);

    let muvm = table_of("path", Node::Text("/usr/bin/muvm".to_owned()));
    let qemu = table_of("path", Node::Text("/usr/bin/qemu-x86_64".to_owned()));
    let interpreters = table_of("qemu", qemu);
    let empty: Vec<(String, Node)> = Vec::new();
    proof {
        lemma_table_empty(empty@);
    }
    let binaries = Node::Table(empty);

    let mut root: Vec<(String, Node)> = Vec::new();
    proof {
        reveal_strlit("defaults");
        reveal_strlit("muvm");
        reveal_strlit("interpreters");
        reveal_strlit("binaries");
        assert("defaults"@[0] != "binaries"@[0]);
        lemma_table_empty(root@);
    }
    let first = ("defaults".to_owned(), defaults);
    proof {
        lemma_table_push(root@, first);
    }
    root.push(first);
    let second = ("muvm".to_owned(), muvm);
    proof {
        lemma_table_push(root@, second);
    }
    root.push(second);
    let third = ("interpreters".to_owned(), interpreters);
    proof {
        assert("interpreters"@.len() == 12);
        assert("defaults"@.len() == 8);
        assert("muvm"@.len() == 4);
        assert(root@[0].0@ == "defaults"@);
        assert(root@[1].0@ == "muvm"@);
        lemma_table_push(root@, third);
    }
    root.push(third);
    let fourth = ("binaries".to_owned(), binaries);
    proof {
        lemma_table_push(root@, fourth);
    }
    root.push(fourth);
    assert(root@[0].1.wf() && root@[1].1.wf() && root@[2].1.wf() && root@[3].1.wf());
    Node::Table(root)
}

} // verus!
