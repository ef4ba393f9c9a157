//! The typed settings that resolution yields.

use crate::assoc::{
    distinct_firsts, distinct_keys, find, lemma_pairs_map_entry, lemma_pairs_map_key, pairs_map,
};
use vstd::prelude::*;

verus! {

/// The texts of a list of strings.
pub open spec fn texts(list: Seq<String>) -> Seq<Seq<char>> {
    Seq::new(list.len(), |i: int| list[i]@)
}

/// Global fallback selections.
#[derive(Debug, Clone, PartialEq, Eq)]
pub struct Defaults {
    pub interpreter: String,
    pub log_level: String,
}

/// [`Defaults`] as a mathematical value.
pub struct DefaultsView {
    pub interpreter: Seq<char>,
    pub log_level: Seq<char>,
}

impl View for Defaults {
    type V = DefaultsView;

    open spec fn view(&self) -> DefaultsView {
        DefaultsView { interpreter: self.interpreter@, log_level: self.log_level@ }
    }
}

/// Where the sandbox runtime is found.
#[derive(Debug, Clone, PartialEq, Eq)]
pub struct MuVM {
    pub path: String,
}

/// [`MuVM`] as a mathematical value.
pub struct MuVMView {
    pub path: Seq<char>,
}

impl View for MuVM {
    type V = MuVMView;

    open spec fn view(&self) -> MuVMView {
        MuVMView { path: self.path@ }
    }
}

/// One registered interpreter.
#[derive(Debug, Clone, PartialEq, Eq)]
pub struct Interpreter {
    pub name: Option<String>,
    pub path: String,
    pub required_paths: Option<Vec<String>>,
    pub use_muvm: Option<bool>,
}

/// [`Interpreter`] as a mathematical value.
pub struct InterpreterView {
    pub name: Option<Seq<char>>,
    pub path: Seq<char>,
    pub required_paths: Option<Seq<Seq<char>>>,
    pub use_muvm: Option<bool>,
}

impl View for Interpreter {
    type V = InterpreterView;

    open spec fn view(&self) -> InterpreterView {
        InterpreterView {
            name: match self.name {
                Some(name) => Some(name@),
                None => None,
            },
            path: self.path@,
            required_paths: match self.required_paths {
                Some(paths) => Some(texts(paths@)),
                None => None,
            },
            use_muvm: self.use_muvm,
        }
    }
}

/// The interpreter that handles one binary.
#[derive(Debug, Clone, PartialEq, Eq)]
pub struct Binaries {
    pub path: String,
    pub interpreter: String,
}

/// [`Binaries`] as a mathematical value.
pub struct BinariesView {
    pub path: Seq<char>,
    pub interpreter: Seq<char>,
}

impl View for Binaries {
    type V = BinariesView;

    open spec fn view(&self) -> BinariesView {
        BinariesView { path: self.path@, interpreter: self.interpreter@ }
    }
}

/// The settings as a whole. The two mappings are lists of entries, each
/// identifier of an interpreter or of a binary with what is registered
/// under it; in well-formed settings no identifier occurs twice in a list.
#[derive(Debug, Clone)]
pub struct ConfigFile {
    pub defaults: Defaults,
    pub muvm: MuVM,
    pub interpreters: Vec<(String, Interpreter)>,
    pub binaries: Vec<(String, Binaries)>,
}

/// [`ConfigFile`] as a mathematical value: the two lists are maps.
pub struct ConfigView {
    pub defaults: DefaultsView,
    pub muvm: MuVMView,
    pub interpreters: Map<Seq<char>, InterpreterView>,
    pub binaries: Map<Seq<char>, BinariesView>,
}

/// The entries of the interpreter list as mathematical values.
pub open spec fn interpreter_pairs(entries: Seq<(String, Interpreter)>) -> Seq<
    (Seq<char>, InterpreterView),
> {
    Seq::new(entries.len(), |i: int| (entries[i].0@, entries[i].1@))
}

/// The entries of the binary list as mathematical values.
pub open spec fn binary_pairs(entries: Seq<(String, Binaries)>) -> Seq<(Seq<char>, BinariesView)> {
    Seq::new(entries.len(), |i: int| (entries[i].0@, entries[i].1@))
}

impl View for ConfigFile {
    type V = ConfigView;

    open spec fn view(&self) -> ConfigView {
        ConfigView {
            defaults: self.defaults@,
            muvm: self.muvm@,
            interpreters: pairs_map(interpreter_pairs(self.interpreters@)),
            binaries: pairs_map(binary_pairs(self.binaries@)),
        }
    }
}

/// With distinct identifiers, each entry of the list is an entry of the map.
pub proof fn lemma_interpreter_entry(entries: Seq<(String, Interpreter)>, i: int)
    requires
        distinct_keys(entries),
        0 <= i < entries.len(),
    ensures
        distinct_firsts(interpreter_pairs(entries)),
        pairs_map(interpreter_pairs(entries)).contains_key(entries[i].0@),
        pairs_map(interpreter_pairs(entries))[entries[i].0@] == entries[i].1@,
{
    let pairs = interpreter_pairs(entries);
    assert forall|a: int, b: int| 0 <= a < b < pairs.len() implies (#[trigger] pairs[a]).0 != (
    #[trigger] pairs[b]).0 by {
        assert(entries[a].0@ != entries[b].0@);
    }
    lemma_pairs_map_entry(pairs, i);
}

/// With distinct identifiers, each entry of the list is an entry of the map.
pub proof fn lemma_binary_entry(entries: Seq<(String, Binaries)>, i: int)
    requires
        distinct_keys(entries),
        0 <= i < entries.len(),
    ensures
        distinct_firsts(binary_pairs(entries)),
        pairs_map(binary_pairs(entries)).contains_key(entries[i].0@),
        pairs_map(binary_pairs(entries))[entries[i].0@] == entries[i].1@,
{
    let pairs = binary_pairs(entries);
    assert forall|a: int, b: int| 0 <= a < b < pairs.len() implies (#[trigger] pairs[a]).0 != (
    #[trigger] pairs[b]).0 by {
        assert(entries[a].0@ != entries[b].0@);
    }
    lemma_pairs_map_entry(pairs, i);
}

impl ConfigFile {
    /// No identifier is registered twice.
    pub open spec fn wf(&self) -> bool {
        &&& distinct_keys(self.interpreters@)
        &&& distinct_keys(self.binaries@)
    }

    /// The interpreter registered under `id`, if there is one.
    pub fn interpreter(&self, id: &str) -> (found: Option<&Interpreter>)
        requires
            self.wf(),
        ensures
            match found {
                Some(entry) => self@.interpreters.contains_key(id@) && entry@
                    == self@.interpreters[id@],
                None => !self@.interpreters.contains_key(id@),
            },
    {
        let owned = id.to_owned();
        match find(&self.interpreters, &owned) {
            Some(i) => {
                proof {
                    lemma_interpreter_entry(self.interpreters@, i as int);
                }
                Some(&self.interpreters[i].1)
            },
            None => {
                proof {
                    let pairs = interpreter_pairs(self.interpreters@);
                    if pairs_map(pairs).contains_key(id@) {
                        let i = lemma_pairs_map_key(pairs, id@);
                        assert(self.interpreters@[i].0@ == id@);
                    }
                }
                None
            },
        }
    }

    /// The binary registered under `id`, if there is one.
    pub fn binary(&self, id: &str) -> (found: Option<&Binaries>)
        requires
            self.wf(),
        ensures
            match found {
                Some(entry) => self@.binaries.contains_key(id@) && entry@ == self@.binaries[id@],
                None => !self@.binaries.contains_key(id@),
            },
    {
        let owned = id.to_owned();
        match find(&self.binaries, &owned) {
            Some(i) => {
                proof {
                    lemma_binary_entry(self.binaries@, i as int);
                }
                Some(&self.binaries[i].1)
            },
            None => {
                proof {
                    let pairs = binary_pairs(self.binaries@);
                    if pairs_map(pairs).contains_key(id@) {
                        let i = lemma_pairs_map_key(pairs, id@);
                        assert(self.binaries@[i].0@ == id@);
                    }
                }
                None
            },
        }
    }
}


/// Compares two lists of strings by their texts.
fn same_texts(a: &Vec<String>, b: &Vec<String>) -> (same: bool)
    ensures
        same == (texts(a@) == texts(b@)),
{
    if a.len() != b.len() {
        assert(texts(a@).len() != texts(b@).len());
        return false;
    }
    let mut i: usize = 0;
    while i < a.len()
        invariant
            a.len() == b.len(),
            i <= a.len(),
            forall|k: int| 0 <= k < i ==> (#[trigger] a[k])@ == b[k]@,
        decreases a.len() - i,
    {
        if a[i] != b[i] {
            assert(texts(a@)[i as int] != texts(b@)[i as int]);
            return false;
        }
        i = i + 1;
    }
    assert(texts(a@) =~= texts(b@));
    true
}

impl Interpreter {
    /// Says whether two entries hold the same values.
    pub fn same_as(&self, other: &Interpreter) -> (same: bool)
        ensures
            same == (self@ == other@),
    {
        let names = match (&self.name, &other.name) {
            (Some(a), Some(b)) => *a == *b,
            (None, None) => true,
            _ => false,
        };
        let paths = match (&self.required_paths, &other.required_paths) {
            (Some(a), Some(b)) => same_texts(a, b),
            (None, None) => true,
            _ => false,
        };
        let flags = match (self.use_muvm, other.use_muvm) {
            (Some(a), Some(b)) => a == b,
            (None, None) => true,
            _ => false,
        };
        names && self.path == other.path && paths && flags
    }
}

impl Binaries {
    /// Says whether two entries hold the same values.
    pub fn same_as(&self, other: &Binaries) -> (same: bool)
        ensures
            same == (self@ == other@),
    {
        self.path == other.path && self.interpreter == other.interpreter
    }
}

/// Says whether each interpreter of `a` is registered in `b` with the same values.
fn interpreters_within(a: &Vec<(String, Interpreter)>, b: &Vec<(String, Interpreter)>) -> (within:
    bool)
    requires
        distinct_keys(a@),
        distinct_keys(b@),
    ensures
        within == pairs_map(interpreter_pairs(a@)).submap_of(pairs_map(interpreter_pairs(b@))),
{
    let ghost am = pairs_map(interpreter_pairs(a@));
    let ghost bm = pairs_map(interpreter_pairs(b@));
    let mut i: usize = 0;
    while i < a.len()
        invariant
            distinct_keys(a@),
            distinct_keys(b@),
            am == pairs_map(interpreter_pairs(a@)),
            bm == pairs_map(interpreter_pairs(b@)),
            i <= a.len(),
            forall|k: int|
                0 <= k < i ==> bm.contains_key((#[trigger] a[k]).0@) && bm[a[k].0@] == a[k].1@,
        decreases a.len() - i,
    {
        proof {
            lemma_interpreter_entry(a@, i as int);
        }
        let same = match find(b, &a[i].0) {
            Some(j) => {
                proof {
                    lemma_interpreter_entry(b@, j as int);
                }
                a[i].1.same_as(&b[j].1)
            },
            None => {
                proof {
                    if bm.contains_key(a@[i as int].0@) {
                        let j = lemma_pairs_map_key(interpreter_pairs(b@), a@[i as int].0@);
                        assert(b@[j].0@ == a@[i as int].0@);
                    }
                }
                false
            },
        };
        if !same {
            return false;
        }
        i = i + 1;
    }
    proof {
        assert forall|id: Seq<char>| #[trigger] am.contains_key(id) implies bm.contains_key(id)
            && am[id] == bm[id] by {
            let k = lemma_pairs_map_key(interpreter_pairs(a@), id);
            lemma_interpreter_entry(a@, k);
        }
    }
    true
}

/// Says whether each binary of `a` is registered in `b` with the same values.
fn binaries_within(a: &Vec<(String, Binaries)>, b: &Vec<(String, Binaries)>) -> (within: bool)
    requires
        distinct_keys(a@),
        distinct_keys(b@),
    ensures
        within == pairs_map(binary_pairs(a@)).submap_of(pairs_map(binary_pairs(b@))),
{
    let ghost am = pairs_map(binary_pairs(a@));
    let ghost bm = pairs_map(binary_pairs(b@));
    let mut i: usize = 0;
    while i < a.len()
        invariant
            distinct_keys(a@),
            distinct_keys(b@),
            am == pairs_map(binary_pairs(a@)),
            bm == pairs_map(binary_pairs(b@)),
            i <= a.len(),
            forall|k: int|
                0 <= k < i ==> bm.contains_key((#[trigger] a[k]).0@) && bm[a[k].0@] == a[k].1@,
        decreases a.len() - i,
    {
        proof {
            lemma_binary_entry(a@, i as int);
        }
        let same = match find(b, &a[i].0) {
            Some(j) => {
                proof {
                    lemma_binary_entry(b@, j as int);
                }
                a[i].1.same_as(&b[j].1)
            },
            None => {
                proof {
                    if bm.contains_key(a@[i as int].0@) {
                        let j = lemma_pairs_map_key(binary_pairs(b@), a@[i as int].0@);
                        assert(b@[j].0@ == a@[i as int].0@);
                    }
                }
                false
            },
        };
        if !same {
            return false;
        }
        i = i + 1;
    }
    proof {
        assert forall|id: Seq<char>| #[trigger] am.contains_key(id) implies bm.contains_key(id)
            && am[id] == bm[id] by {
            let k = lemma_pairs_map_key(binary_pairs(a@), id);
            lemma_binary_entry(a@, k);
        }
    }
    true
}

impl ConfigFile {
    /// Says whether two settings are equal as values: the same defaults and
    /// sandbox runtime, and the same entries under the same identifiers, in
    /// whatever order the lists hold them.
    pub fn same_as(&self, other: &ConfigFile) -> (same: bool)
        requires
            self.wf(),
            other.wf(),
        ensures
            same == (self@ == other@),
    {
        if self.defaults.interpreter != other.defaults.interpreter || self.defaults.log_level
            != other.defaults.log_level || self.muvm.path != other.muvm.path {
            return false;
        }
        let forth = interpreters_within(&self.interpreters, &other.interpreters);
        let back = interpreters_within(&other.interpreters, &self.interpreters);
        if !forth || !back {
            return false;
        }
        let forth = binaries_within(&self.binaries, &other.binaries);
        let back = binaries_within(&other.binaries, &self.binaries);
        if !forth || !back {
            return false;
        }
        proof {
            let a = self@.interpreters;
            let b = other@.interpreters;
            assert forall|id: Seq<char>| a.dom().contains(id) == b.dom().contains(id) by {
                if a.dom().contains(id) {
                    assert(b.dom().contains(id) || !b.dom().contains(id));
                }
                if b.dom().contains(id) {
                    assert(a.dom().contains(id) || !a.dom().contains(id));
                }
            }
            assert(a =~= b);
            let c = self@.binaries;
            let d = other@.binaries;
            assert forall|id: Seq<char>| c.dom().contains(id) == d.dom().contains(id) by {
                if c.dom().contains(id) {
                    assert(d.dom().contains(id) || !d.dom().contains(id));
                }
                if d.dom().contains(id) {
                    assert(c.dom().contains(id) || !c.dom().contains(id));
                }
            }
            assert(c =~= d);
        }
        true
    }
}

} // verus!
