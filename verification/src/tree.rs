//! Generic configuration trees.
//!
//! A configuration source is a tree: tables map keys to further trees, arrays
//! hold trees in order, and the leaves are scalars. [`Tree`] is the
//! mathematical tree; [`Node`] is the value that the program holds, and its
//! view is a `Tree`.

use crate::assoc::{
    distinct_firsts, distinct_keys, find, lacks_key, lemma_pairs_map_entry, pairs_map,
};
use vstd::prelude::*;

verus! {

/// A configuration tree as a mathematical value.
pub enum Tree {
    /// No value.
    Nil,
    Boolean(bool),
    I64(i64),
    I128(i128),
    U64(u64),
    U128(u128),
    /// A floating-point number, given by the 64 bits of its IEEE 754 form.
    Float(u64),
    Text(Seq<char>),
    Table(Map<Seq<char>, Tree>),
    Array(Seq<Tree>),
}

/// A configuration tree as the program holds it. A table is a list of
/// entries; in a well-formed node no table has two entries with one key.
#[derive(Debug, PartialEq, Eq)]
pub enum Node {
    /// No value.
    Nil,
    Boolean(bool),
    I64(i64),
    I128(i128),
    U64(u64),
    U128(u128),
    /// A floating-point number, given by the 64 bits of its IEEE 754 form.
    Float(u64),
    Text(String),
    Table(Vec<(String, Node)>),
    Array(Vec<Node>),
}

/// The entries of a table, each with its key and its child as mathematical values.
pub open spec fn entry_views(entries: Seq<(String, Node)>) -> Seq<(Seq<char>, Tree)>
    decreases entries,
{
    Seq::new(
        entries.len(),
        |i: int|
            if 0 <= i < entries.len() {
                (entries[i].0@, entries[i].1.view())
            } else {
                (Seq::empty(), Tree::Nil)
            },
    )
}

/// The items of an array as mathematical values.
pub open spec fn item_views(items: Seq<Node>) -> Seq<Tree>
    decreases items,
{
    Seq::new(
        items.len(),
        |i: int|
            if 0 <= i < items.len() {
                items[i].view()
            } else {
                Tree::Nil
            },
    )
}

/// The map that the entries of a table stand for.
pub open spec fn table_view(entries: Seq<(String, Node)>) -> Map<Seq<char>, Tree> {
    pairs_map(entry_views(entries))
}

impl Node {
    /// The tree that this node stands for.
    pub open spec fn view(&self) -> Tree
        decreases self,
    {
        match self {
            Node::Nil => Tree::Nil,
            Node::Boolean(b) => Tree::Boolean(*b),
            Node::I64(n) => Tree::I64(*n),
            Node::I128(n) => Tree::I128(*n),
            Node::U64(n) => Tree::U64(*n),
            Node::U128(n) => Tree::U128(*n),
            Node::Float(bits) => Tree::Float(*bits),
            Node::Text(s) => Tree::Text(s@),
            Node::Table(entries) => Tree::Table(pairs_map(entry_views(entries@))),
            Node::Array(items) => Tree::Array(item_views(items@)),
        }
    }

    /// No table in this node, at any depth, has two entries with one key.
    pub open spec fn wf(&self) -> bool
        decreases self,
    {
        match self {
            Node::Table(entries) => {
                &&& distinct_keys(entries@)
                &&& forall|i: int| 0 <= i < entries@.len() ==> (#[trigger] entries@[i]).1.wf()
            },
            Node::Array(items) => forall|i: int|
                0 <= i < items@.len() ==> (#[trigger] items@[i]).wf(),
            _ => true,
        }
    }
}

/// In a table with distinct keys, each entry is an entry of the table's map.
pub proof fn lemma_table_entry(entries: Seq<(String, Node)>, i: int)
    requires
        distinct_keys(entries),
        0 <= i < entries.len(),
    ensures
        table_view(entries).contains_key(entries[i].0@),
        table_view(entries)[entries[i].0@] == entries[i].1@,
{
    let pairs = entry_views(entries);
    assert(distinct_firsts(pairs)) by {
        assert forall|a: int, b: int| 0 <= a < b < pairs.len() implies (#[trigger] pairs[a]).0
            != (#[trigger] pairs[b]).0 by {
            assert(entries[a].0@ != entries[b].0@);
        }
    }
    lemma_pairs_map_entry(pairs, i);
}

/// A key of a table's map is the key of one of its entries.
pub proof fn lemma_table_key(entries: Seq<(String, Node)>, key: Seq<char>) -> (i: int)
    requires
        table_view(entries).contains_key(key),
    ensures
        0 <= i < entries.len(),
        entries[i].0@ == key,
{
    let pairs = entry_views(entries);
    let i = choose|i: int| 0 <= i < pairs.len() && (#[trigger] pairs[i]).0 == key;
    i
}


impl Node {
    /// A copy of this node, table by table and item by item.
    pub fn duplicate(&self) -> (copy: Node)
        ensures
            copy@ == self@,
            self.wf() ==> copy.wf(),
        decreases self,
    {
        match self {
            Node::Nil => Node::Nil,
            Node::Boolean(b) => Node::Boolean(*b),
            Node::I64(n) => Node::I64(*n),
            Node::I128(n) => Node::I128(*n),
            Node::U64(n) => Node::U64(*n),
            Node::U128(n) => Node::U128(*n),
            Node::Float(bits) => Node::Float(*bits),
            Node::Text(s) => Node::Text(s.clone()),
            Node::Table(entries) => {
                let mut out: Vec<(String, Node)> = Vec::new();
                let mut i: usize = 0;
                while i < entries.len()
                    invariant
                        *self == Node::Table(*entries),
                        i <= entries.len(),
                        out.len() == i,
                        forall|k: int|
                            0 <= k < i ==> {
                                &&& (#[trigger] out[k]).0@ == entries[k].0@
                                &&& out[k].1@ == entries[k].1@
                                &&& entries[k].1.wf() ==> out[k].1.wf()
                            },
                    decreases entries.len() - i,
                {
                    let key = entries[i].0.clone();
                    proof {
                        assert(decreases_to!(*self => self->Table_0));
                        assert(decreases_to!(*entries => entries[i as int]));
                        assert(decreases_to!(entries[i as int] => entries[i as int].1));
                    }
                    let child = entries[i].1.duplicate();
                    out.push((key, child));
                    i = i + 1;
                }
                proof {
                    assert(entry_views(out@) =~= entry_views(entries@));
                    if self.wf() {
                        assert forall|a: int, b: int| 0 <= a < b < out@.len() implies (
                        #[trigger] out@[a]).0@ != (#[trigger] out@[b]).0@ by {
                            assert(entries@[a].0@ != entries@[b].0@);
                        }
                        assert forall|k: int| 0 <= k < out@.len() implies (
                        #[trigger] out@[k]).1.wf() by {
                            assert(entries@[k].1.wf());
                        }
                    }
                }
                Node::Table(out)
            },
            Node::Array(items) => {
                let mut out: Vec<Node> = Vec::new();
                let mut i: usize = 0;
                while i < items.len()
                    invariant
                        *self == Node::Array(*items),
                        i <= items.len(),
                        out.len() == i,
                        forall|k: int|
                            0 <= k < i ==> {
                                &&& (#[trigger] out[k])@ == items[k]@
                                &&& items[k].wf() ==> out[k].wf()
                            },
                    decreases items.len() - i,
                {
                    proof {
                        assert(decreases_to!(*self => self->Array_0));
                        assert(decreases_to!(*items => items[i as int]));
                    }
                    let item = items[i].duplicate();
                    out.push(item);
                    i = i + 1;
                }
                proof {
                    assert(item_views(out@) =~= item_views(items@));
                    if self.wf() {
                        assert forall|k: int| 0 <= k < out@.len() implies (
                        #[trigger] out@[k]).wf() by {
                            assert(items@[k].wf());
                        }
                    }
                }
                Node::Array(out)
            },
        }
    }
}

/// Looks `key` up among the entries of a table.
pub fn lookup<'a>(entries: &'a Vec<(String, Node)>, key: &str) -> (found: Option<&'a Node>)
    requires
        distinct_keys(entries@),
    ensures
        match found {
            Some(child) => {
                &&& table_view(entries@).contains_key(key@)
                &&& child@ == table_view(entries@)[key@]
                &&& exists|i: int| 0 <= i < entries.len() && *child == (#[trigger] entries[i]).1
            },
            None => !table_view(entries@).contains_key(key@),
        },
{
    let owned = key.to_owned();
    match find(entries, &owned) {
        Some(i) => {
            proof {
                lemma_table_entry(entries@, i as int);
            }
            Some(&entries[i].1)
        },
        None => {
            proof {
                if table_view(entries@).contains_key(key@) {
                    let i = lemma_table_key(entries@, key@);
                    assert(entries@[i].0@ == key@);
                }
            }
            None
        },
    }
}


/// A table without entries stands for the empty map.
pub proof fn lemma_table_empty(entries: Seq<(String, Node)>)
    requires
        entries.len() == 0,
    ensures
        table_view(entries) == Map::<Seq<char>, Tree>::empty(),
{
    assert(table_view(entries) =~= Map::<Seq<char>, Tree>::empty());
}

/// An entry with a new key, put behind the others, adds itself to the map.
pub proof fn lemma_table_push(entries: Seq<(String, Node)>, entry: (String, Node))
    requires
        distinct_keys(entries),
        lacks_key(entries, entry.0@),
    ensures
        distinct_keys(entries.push(entry)),
        table_view(entries.push(entry)) == table_view(entries).insert(entry.0@, entry.1@),
{
    let longer = entries.push(entry);
    assert forall|i: int, j: int| 0 <= i < j < longer.len() implies (#[trigger] longer[i]).0@ != (
    #[trigger] longer[j]).0@ by {
        if j < entries.len() {
            assert(entries[i].0@ != entries[j].0@);
        } else {
            assert(entries[i].0@ != entry.0@);
        }
    }
    let got = table_view(longer);
    let want = table_view(entries).insert(entry.0@, entry.1@);
    assert forall|key: Seq<char>| #[trigger] got.contains_key(key) implies want.contains_key(key)
        && want[key] == got[key] by {
        let i = lemma_table_key(longer, key);
        lemma_table_entry(longer, i);
        if i < entries.len() {
            lemma_table_entry(entries, i);
        }
    }
    assert forall|key: Seq<char>| #[trigger] want.contains_key(key) implies got.contains_key(
        key,
    ) by {
        if key == entry.0@ {
            lemma_table_entry(longer, entries.len() as int);
        } else {
            let i = lemma_table_key(entries, key);
            lemma_table_entry(longer, i);
        }
    }
    assert(got =~= want);
}


impl Node {
    /// Checks that no table in this node has two entries with one key.
    pub fn is_wf(&self) -> (ok: bool)
        ensures
            ok == self.wf(),
        decreases self,
    {
        match self {
            Node::Table(entries) => {
                let mut i: usize = 0;
                while i < entries.len()
                    invariant
                        *self == Node::Table(*entries),
                        i <= entries.len(),
                        distinct_keys(entries@.take(i as int)),
                        forall|k: int| 0 <= k < i ==> (#[trigger] entries@[k]).1.wf(),
                    decreases entries.len() - i,
                {
                    match find(entries, &entries[i].0) {
                        Some(first) => {
                            if first != i {
                                assert(entries@[first as int].0@ == entries@[i as int].0@);
                                return false;
                            }
                        },
                        None => {
                            assert(entries@[i as int].0@ == entries@[i as int].0@);
                            return false;
                        },
                    }
                    proof {
                        assert(decreases_to!(*self => self->Table_0));
                        assert(decreases_to!(*entries => entries[i as int]));
                        assert(decreases_to!(entries[i as int] => entries[i as int].1));
                    }
                    if !entries[i].1.is_wf() {
                        return false;
                    }
                    proof {
                        let shorter = entries@.take(i as int);
                        let longer = entries@.take(i + 1);
                        assert forall|a: int, b: int| 0 <= a < b < longer.len() implies (
                        #[trigger] longer[a]).0@ != (#[trigger] longer[b]).0@ by {
                            if b < i {
                                assert(shorter[a].0@ != shorter[b].0@);
                            } else {
                                assert(shorter[a].0@ != entries@[i as int].0@);
                            }
                        }
                    }
                    i = i + 1;
                }
                assert(entries@.take(entries@.len() as int) =~= entries@);
                true
            },
            Node::Array(items) => {
                let mut i: usize = 0;
                while i < items.len()
                    invariant
                        *self == Node::Array(*items),
                        i <= items.len(),
                        forall|k: int| 0 <= k < i ==> (#[trigger] items@[k]).wf(),
                    decreases items.len() - i,
                {
                    proof {
                        assert(decreases_to!(*self => self->Array_0));
                        assert(decreases_to!(*items => items[i as int]));
                    }
                    if !items[i].is_wf() {
                        return false;
                    }
                    i = i + 1;
                }
                true
            },
            _ => true,
        }
    }
}

} // verus!
