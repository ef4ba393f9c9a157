//! Association lists keyed by text.
//!
//! The library keeps every mapping from text to values as a vector of
//! `(key, value)` pairs in which no key occurs twice. This module holds what
//! all of them share: the mathematical reading of such a list as a `Map`, and
//! the search for a key.

use vstd::prelude::*;

verus! {

/// No two entries carry the same key.
pub open spec fn distinct_keys<V>(entries: Seq<(String, V)>) -> bool {
    forall|i: int, j: int|
        0 <= i < j < entries.len() ==> (#[trigger] entries[i]).0@ != (#[trigger] entries[j]).0@
}

/// No entry carries `key`.
pub open spec fn lacks_key<V>(entries: Seq<(String, V)>, key: Seq<char>) -> bool {
    forall|i: int| 0 <= i < entries.len() ==> (#[trigger] entries[i]).0@ != key
}

/// The map that a sequence of `(key, value)` pairs stands for. Where the
/// keys are pairwise different, each pair is one entry of the map.
pub open spec fn pairs_map<W>(pairs: Seq<(Seq<char>, W)>) -> Map<Seq<char>, W> {
    Map::new(
        |k: Seq<char>| exists|i: int| 0 <= i < pairs.len() && (#[trigger] pairs[i]).0 == k,
        |k: Seq<char>| pairs[choose|i: int| 0 <= i < pairs.len() && (#[trigger] pairs[i]).0 == k].1,
    )
}

/// The keys of `pairs` are pairwise different.
pub open spec fn distinct_firsts<W>(pairs: Seq<(Seq<char>, W)>) -> bool {
    forall|i: int, j: int|
        0 <= i < j < pairs.len() ==> (#[trigger] pairs[i]).0 != (#[trigger] pairs[j]).0
}

/// Each pair of a list with distinct keys is an entry of its map.
pub proof fn lemma_pairs_map_entry<W>(pairs: Seq<(Seq<char>, W)>, i: int)
    requires
        distinct_firsts(pairs),
        0 <= i < pairs.len(),
    ensures
        pairs_map(pairs).contains_key(pairs[i].0),
        pairs_map(pairs)[pairs[i].0] == pairs[i].1,
{
    let k = pairs[i].0;
    let j = choose|j: int| 0 <= j < pairs.len() && (#[trigger] pairs[j]).0 == k;
    assert(j == i);
}

/// A key of the map is the key of some pair.
pub proof fn lemma_pairs_map_key<W>(pairs: Seq<(Seq<char>, W)>, key: Seq<char>) -> (i: int)
    requires
        pairs_map(pairs).contains_key(key),
    ensures
        0 <= i < pairs.len(),
        pairs[i].0 == key,
{
    choose|i: int| 0 <= i < pairs.len() && (#[trigger] pairs[i]).0 == key
}

/// The map of a list has finitely many keys.
pub proof fn lemma_pairs_map_finite<W>(pairs: Seq<(Seq<char>, W)>)
    ensures
        pairs_map(pairs).dom().finite(),
    decreases pairs.len(),
{
    if pairs.len() == 0 {
        assert(pairs_map(pairs).dom() =~= Set::<Seq<char>>::empty());
    } else {
        let front = pairs.drop_last();
        lemma_pairs_map_finite(front);
        assert forall|k: Seq<char>|
            pairs_map(pairs).dom().contains(k) <==> pairs_map(front).dom().insert(
                pairs.last().0,
            ).contains(k) by {
            if pairs_map(pairs).dom().contains(k) {
                let i = lemma_pairs_map_key(pairs, k);
                if i < pairs.len() - 1 {
                    assert(front[i].0 == k);
                }
            }
            if pairs_map(front).dom().contains(k) {
                let i = lemma_pairs_map_key(front, k);
                assert(pairs[i].0 == k);
            }
            if k == pairs.last().0 {
                assert(pairs[pairs.len() - 1].0 == k);
            }
        }
        assert(pairs_map(pairs).dom() =~= pairs_map(front).dom().insert(pairs.last().0));
    }
}

/// Searches `entries` for `key`; the answer is the place of the first entry
/// that carries it.
pub fn find<V>(entries: &Vec<(String, V)>, key: &String) -> (found: Option<usize>)
    ensures
        match found {
            Some(i) => i < entries.len() && entries[i as int].0@ == key@ && lacks_key(
                entries@.take(i as int),
                key@,
            ),
            None => lacks_key(entries@, key@),
        },
{
    let n = entries.len();
    let mut i: usize = 0;
    while i < n
        invariant
            n == entries.len(),
            i <= n,
            lacks_key(entries@.take(i as int), key@),
        decreases n - i,
    {
        if entries[i].0 == *key {
            return Some(i);
        }
        assert(entries@.take(i + 1) =~= entries@.take(i as int).push(entries@[i as int]));
        i = i + 1;
    }
    assert(entries@.take(n as int) =~= entries@);
    None
}


/// A list of pairs read backwards stands for the same map.
pub proof fn lemma_pairs_map_reversed<W>(a: Seq<(Seq<char>, W)>, b: Seq<(Seq<char>, W)>)
    requires
        distinct_firsts(a),
        a.len() == b.len(),
        forall|i: int| 0 <= i < b.len() ==> #[trigger] b[i] == a[a.len() - 1 - i],
    ensures
        distinct_firsts(b),
        pairs_map(a) == pairs_map(b),
{
    let n = a.len() as int;
    assert forall|i: int, j: int| 0 <= i < j < b.len() implies (#[trigger] b[i]).0 != (
    #[trigger] b[j]).0 by {
        assert(a[n - 1 - j].0 != a[n - 1 - i].0);
    }
    assert forall|k: Seq<char>| #[trigger]
        pairs_map(a).contains_key(k) implies pairs_map(b).contains_key(k) && pairs_map(b)[k]
        == pairs_map(a)[k] by {
        let i = lemma_pairs_map_key(a, k);
        lemma_pairs_map_entry(a, i);
        assert(b[n - 1 - i] == a[i]);
        lemma_pairs_map_entry(b, n - 1 - i);
    }
    assert forall|k: Seq<char>| #[trigger]
        pairs_map(b).contains_key(k) implies pairs_map(a).contains_key(k) by {
        let i = lemma_pairs_map_key(b, k);
        lemma_pairs_map_entry(a, n - 1 - i);
    }
    assert(pairs_map(a) =~= pairs_map(b));
}

} // verus!
