//! Merging configuration trees by precedence.
//!
//! A source of higher precedence is laid over what the sources below it
//! gave. Where both hold a table under one key the two tables are merged,
//! entry by entry; anywhere else the value of the higher source stands.

use crate::assoc::{distinct_keys, find, lacks_key};
use crate::tree::{lemma_table_entry, lemma_table_key, table_view, Node, Tree};
use vstd::prelude::*;

verus! {

/// `over` laid over `base`.
pub open spec fn merge_trees(base: Tree, over: Tree) -> Tree
    decreases over,
{
    match (base, over) {
        (Tree::Table(b), Tree::Table(o)) => Tree::Table(
            Map::new(
                |k: Seq<char>| b.contains_key(k) || o.contains_key(k),
                |k: Seq<char>|
                    if o.contains_key(k) {
                        if b.contains_key(k) {
                            merge_trees(b[k], o[k])
                        } else {
                            o[k]
                        }
                    } else {
                        b[k]
                    },
            ),
        ),
        (_, o) => o,
    }
}

/// The sources `layers`, lowest precedence first, laid over `base` one after another.
pub open spec fn merge_all(base: Tree, layers: Seq<Tree>) -> Tree
    decreases layers.len(),
{
    if layers.len() == 0 {
        base
    } else {
        merge_trees(merge_all(base, layers.drop_last()), layers.last())
    }
}

/// The child that the merged table holds for the entry at `i` of the lower table.
spec fn merged_child(b: Seq<(String, Node)>, o: Seq<(String, Node)>, i: int) -> Tree {
    let key = b[i].0@;
    if table_view(o).contains_key(key) {
        merge_trees(b[i].1@, table_view(o)[key])
    } else {
        b[i].1@
    }
}

/// Lays `over` over `base`.
pub fn merge(base: &Node, over: &Node) -> (merged: Node)
    requires
        base.wf(),
        over.wf(),
    ensures
        merged.wf(),
        merged@ == merge_trees(base@, over@),
    decreases over,
{
    match (base, over) {
        (Node::Table(b), Node::Table(o)) => {
            let mut out: Vec<(String, Node)> = Vec::new();
            let mut i: usize = 0;
            while i < b.len()
                invariant
                    *over == Node::Table(*o),
                    distinct_keys(b@),
                    distinct_keys(o@),
                    forall|k: int| 0 <= k < b@.len() ==> (#[trigger] b@[k]).1.wf(),
                    forall|k: int| 0 <= k < o@.len() ==> (#[trigger] o@[k]).1.wf(),
                    i <= b.len(),
                    out.len() == i,
                    forall|k: int|
                        0 <= k < i ==> {
                            &&& (#[trigger] out[k]).0@ == b[k].0@
                            &&& out[k].1.wf()
                            &&& out[k].1@ == merged_child(b@, o@, k)
                        },
                decreases b.len() - i,
            {
                let key = b[i].0.clone();
                let child = match find(o, &b[i].0) {
                    Some(j) => {
                        proof {
                            lemma_table_entry(o@, j as int);
                            assert(decreases_to!(*over => over->Table_0));
                            assert(decreases_to!(*o => o[j as int]));
                            assert(decreases_to!(o[j as int] => o[j as int].1));
                            assert(b@[i as int].1.wf());
                            assert(o@[j as int].1.wf());
                        }
                        merge(&b[i].1, &o[j].1)
                    },
                    None => {
                        proof {
                            if table_view(o@).contains_key(b@[i as int].0@) {
                                let j = lemma_table_key(o@, b@[i as int].0@);
                                assert(o@[j].0@ == b@[i as int].0@);
                            }
                            assert(b@[i as int].1.wf());
                        }
                        b[i].1.duplicate()
                    },
                };
                out.push((key, child));
                i = i + 1;
            }
            let ghost origin: Seq<int> = Seq::empty();
            let mut j: usize = 0;
            while j < o.len()
                invariant
                    distinct_keys(b@),
                    distinct_keys(o@),
                    forall|k: int| 0 <= k < o@.len() ==> (#[trigger] o@[k]).1.wf(),
                    j <= o.len(),
                    out.len() == b.len() + origin.len(),
                    forall|k: int|
                        0 <= k < b.len() ==> {
                            &&& (#[trigger] out[k]).0@ == b[k].0@
                            &&& out[k].1.wf()
                            &&& out[k].1@ == merged_child(b@, o@, k)
                        },
                    forall|t: int|
                        0 <= t < origin.len() ==> {
                            &&& 0 <= (#[trigger] origin[t]) < j
                            &&& lacks_key(b@, o[origin[t]].0@)
                            &&& out[b.len() + t].0@ == o[origin[t]].0@
                            &&& out[b.len() + t].1@ == o[origin[t]].1@
                            &&& out[b.len() + t].1.wf()
                        },
                    forall|s: int, t: int|
                        0 <= s < t < origin.len() ==> (#[trigger] origin[s]) < (#[trigger] origin[t]),
                    forall|k: int|
                        0 <= k < j && lacks_key(b@, (#[trigger] o[k]).0@) ==> exists|t: int|
                            0 <= t < origin.len() && #[trigger] origin[t] == k,
                decreases o.len() - j,
            {
                match find(b, &o[j].0) {
                    Some(_) => {},
                    None => {
                        let key = o[j].0.clone();
                        proof {
                            assert(o@[j as int].1.wf());
                        }
                        let child = o[j].1.duplicate();
                        out.push((key, child));
                        proof {
                            let extended = origin.push(j as int);
                            assert(extended[origin.len() as int] == j);
                            assert forall|k: int|
                                0 <= k <= j && lacks_key(
                                    b@,
                                    (#[trigger] o[k]).0@,
                                ) implies exists|t: int|
                                0 <= t < extended.len() && #[trigger] extended[t] == k by {
                                if k < j {
                                    let t = choose|t: int|
                                        0 <= t < origin.len() && #[trigger] origin[t] == k;
                                    assert(extended[t] == k);
                                } else {
                                    assert(extended[origin.len() as int] == k);
                                }
                            }
                            origin = extended;
                        }
                    },
                }
                j = j + 1;
            }
            proof {
                lemma_merged_table(b@, o@, out@, origin);
            }
            Node::Table(out)
        },
        (_, o) => {
            o.duplicate()
        },
    }
}

/// What the two loops of `merge` built is the merged table.
proof fn lemma_merged_table(
    b: Seq<(String, Node)>,
    o: Seq<(String, Node)>,
    out: Seq<(String, Node)>,
    origin: Seq<int>,
)
    requires
        distinct_keys(b),
        distinct_keys(o),
        out.len() == b.len() + origin.len(),
        forall|k: int|
            0 <= k < b.len() ==> {
                &&& (#[trigger] out[k]).0@ == b[k].0@
                &&& out[k].1.wf()
                &&& out[k].1@ == merged_child(b, o, k)
            },
        forall|t: int|
            0 <= t < origin.len() ==> {
                &&& 0 <= (#[trigger] origin[t]) < o.len()
                &&& lacks_key(b, o[origin[t]].0@)
                &&& out[b.len() + t].0@ == o[origin[t]].0@
                &&& out[b.len() + t].1@ == o[origin[t]].1@
                &&& out[b.len() + t].1.wf()
            },
        forall|s: int, t: int|
            0 <= s < t < origin.len() ==> (#[trigger] origin[s]) < (#[trigger] origin[t]),
        forall|k: int|
            0 <= k < o.len() && lacks_key(b, (#[trigger] o[k]).0@) ==> exists|t: int|
                0 <= t < origin.len() && #[trigger] origin[t] == k,
    ensures
        distinct_keys(out),
        forall|k: int| 0 <= k < out.len() ==> (#[trigger] out[k]).1.wf(),
        Tree::Table(table_view(out)) == merge_trees(
            Tree::Table(table_view(b)),
            Tree::Table(table_view(o)),
        ),
{
    let n = b.len() as int;
    assert forall|x: int, y: int| 0 <= x < y < out.len() implies (#[trigger] out[x]).0@ != (
    #[trigger] out[y]).0@ by {
        if y < n {
            assert(b[x].0@ != b[y].0@);
        } else if x < n {
            let t = y - n;
            assert(lacks_key(b, o[origin[t]].0@));
            assert(b[x].0@ != o[origin[t]].0@);
        } else {
            let s = x - n;
            let t = y - n;
            assert(origin[s] < origin[t]);
            assert(o[origin[s]].0@ != o[origin[t]].0@);
        }
    }
    assert forall|k: int| 0 <= k < out.len() implies (#[trigger] out[k]).1.wf() by {
        if k >= n {
            let t = k - n;
            let src = origin[t];
            assert(out[n + t].1.wf());
        }
    }
    let bm = table_view(b);
    let om = table_view(o);
    let merged = merge_trees(Tree::Table(bm), Tree::Table(om))->Table_0;
    let got = table_view(out);
    assert forall|key: Seq<char>| #[trigger] got.contains_key(key) implies merged.contains_key(key)
        && merged[key] == got[key] by {
        let k = lemma_table_key(out, key);
        lemma_table_entry(out, k);
        if k < n {
            lemma_table_entry(b, k);
        } else {
            let t = k - n;
            let src = origin[t];
            lemma_table_entry(o, src);
            if bm.contains_key(key) {
                let p = lemma_table_key(b, key);
                assert(b[p].0@ == key);
            }
        }
    }
    assert forall|key: Seq<char>| #[trigger] merged.contains_key(key) implies got.contains_key(
        key,
    ) by {
        if bm.contains_key(key) {
            let p = lemma_table_key(b, key);
            lemma_table_entry(out, p);
        } else {
            let q = lemma_table_key(o, key);
            assert(lacks_key(b, o[q].0@)) by {
                assert forall|p: int| 0 <= p < b.len() implies (#[trigger] b[p]).0@ != key by {
                    if b[p].0@ == key {
                        lemma_table_entry(b, p);
                    }
                }
            }
            let t = choose|t: int| 0 <= t < origin.len() && #[trigger] origin[t] == q;
            lemma_table_entry(out, n + t);
        }
    }
    assert(got =~= merged);
}


/// Where the higher source holds no table, or the lower one holds none, the
/// value of the higher source stands as it is.
pub proof fn law_later_value_wins(base: Tree, over: Tree)
    requires
        !(base is Table) || !(over is Table),
    ensures
        merge_trees(base, over) == over,
{
}

/// Two tables merge key by key. The merged table has a key where either
/// table has it. A key of one table alone keeps its value; under a key of
/// both, the two values are merged in turn, so that a table of the lower
/// source is not lost to a table of the higher one.
pub proof fn law_tables_merge(
    base: Map<Seq<char>, Tree>,
    over: Map<Seq<char>, Tree>,
    key: Seq<char>,
)
    ensures
        merge_trees(Tree::Table(base), Tree::Table(over)) matches Tree::Table(merged) && {
            &&& merged.contains_key(key) <==> base.contains_key(key) || over.contains_key(key)
            &&& base.contains_key(key) && !over.contains_key(key) ==> merged[key] == base[key]
            &&& !base.contains_key(key) && over.contains_key(key) ==> merged[key] == over[key]
            &&& base.contains_key(key) && over.contains_key(key) ==> merged[key] == merge_trees(
                base[key],
                over[key],
            )
        },
{
}

/// Laying a source over the chain is the last step of merging the longer chain.
pub proof fn law_merge_in_order(base: Tree, layers: Seq<Tree>, last: Tree)
    ensures
        merge_all(base, layers.push(last)) == merge_trees(merge_all(base, layers), last),
{
    assert(layers.push(last).drop_last() =~= layers);
}


/// What stands in `tree` at the end of `path`, a list of keys that leads
/// from the root through tables.
pub open spec fn at_path(tree: Tree, path: Seq<Seq<char>>) -> Option<Tree>
    decreases path.len(),
{
    if path.len() == 0 {
        Some(tree)
    } else {
        match tree {
            Tree::Table(table) => if table.contains_key(path[0]) {
                at_path(table[path[0]], path.skip(1))
            } else {
                None
            },
            _ => None,
        }
    }
}

/// `tree` says nothing of `path`: followed from the root, the path leaves
/// the tree at a table that lacks the next key.
pub open spec fn passes_by(tree: Tree, path: Seq<Seq<char>>) -> bool
    decreases path.len(),
{
    path.len() > 0 && match tree {
        Tree::Table(table) => !table.contains_key(path[0]) || passes_by(
            table[path[0]],
            path.skip(1),
        ),
        _ => false,
    }
}

/// A value of the higher source that is no table stands in the merged tree
/// at its path, whatever the lower source holds there.
pub proof fn law_later_leaf_wins(base: Tree, over: Tree, path: Seq<Seq<char>>, leaf: Tree)
    requires
        at_path(over, path) == Some(leaf),
        !(leaf is Table),
    ensures
        at_path(merge_trees(base, over), path) == Some(leaf),
    decreases path.len(),
{
    if path.len() > 0 {
        let lower = over->Table_0;
        if base is Table {
            let upper = base->Table_0;
            if upper.contains_key(path[0]) {
                law_later_leaf_wins(upper[path[0]], lower[path[0]], path.skip(1), leaf);
            }
        }
    }
}

/// A value of the lower source stays in the merged tree at its path where
/// the higher source says nothing of that path.
pub proof fn law_untouched_value_stays(base: Tree, over: Tree, path: Seq<Seq<char>>, value: Tree)
    requires
        at_path(base, path) == Some(value),
        passes_by(over, path),
    ensures
        at_path(merge_trees(base, over), path) == Some(value),
    decreases path.len(),
{
    let lower = base->Table_0;
    let upper = over->Table_0;
    if upper.contains_key(path[0]) {
        law_untouched_value_stays(lower[path[0]], upper[path[0]], path.skip(1), value);
    }
}

/// A source that is an empty table changes nothing in a table below it.
pub proof fn law_empty_source_adds_nothing(base: Map<Seq<char>, Tree>)
    ensures
        merge_trees(Tree::Table(base), Tree::Table(Map::empty())) == Tree::Table(base),
{
    let merged = merge_trees(Tree::Table(base), Tree::Table(Map::empty()))->Table_0;
    assert(merged =~= base);
}

} // verus!
