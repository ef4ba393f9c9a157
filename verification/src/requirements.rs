//! Deriving what each interpreter requires.
//!
//! Every interpreter entry is completed on its own: it gets a name and a
//! sandbox flag where none was configured, its own binary is put in front of
//! the paths it requires, and the sandbox runtime behind them where the
//! entry asks for the sandbox. Nothing is removed from the list, so a path
//! that was configured as well occurs twice.

use crate::assoc::{distinct_keys, lemma_pairs_map_key, pairs_map};
use crate::settings::{
    interpreter_pairs, lemma_interpreter_entry, texts, ConfigFile, ConfigView, Interpreter,
    InterpreterView,
};
use vstd::prelude::*;

verus! {

/// The entry registered under `id`, completed; `sandbox` is the path of the sandbox runtime.
pub open spec fn derived(id: Seq<char>, entry: InterpreterView, sandbox: Seq<char>)
    -> InterpreterView {
    let use_muvm = match entry.use_muvm {
        Some(flag) => flag,
        None => false,
    };
    let configured = match entry.required_paths {
        Some(paths) => paths,
        None => Seq::empty(),
    };
    let checked = seq![entry.path] + configured;
    InterpreterView {
        name: Some(
            match entry.name {
                Some(name) => name,
                None => id,
            },
        ),
        path: entry.path,
        required_paths: Some(
            if use_muvm {
                checked.push(sandbox)
            } else {
                checked
            },
        ),
        use_muvm: Some(use_muvm),
    }
}

/// The settings with every interpreter entry completed.
pub open spec fn derived_settings(settings: ConfigView) -> ConfigView {
    ConfigView {
        interpreters: Map::new(
            |id: Seq<char>| settings.interpreters.contains_key(id),
            |id: Seq<char>| derived(id, settings.interpreters[id], settings.muvm.path),
        ),
        ..settings
    }
}

/// An entry is complete: it has a name and a sandbox flag, the paths it
/// requires begin with its own binary, and they end with the sandbox
/// runtime where the entry uses the sandbox.
pub open spec fn complete(entry: InterpreterView, sandbox: Seq<char>) -> bool {
    &&& entry.name is Some
    &&& entry.use_muvm is Some
    &&& entry.required_paths matches Some(paths) && paths.len() > 0 && paths[0] == entry.path && (
    entry.use_muvm == Some(true) ==> paths.last() == sandbox)
}

impl Interpreter {
    /// Completes this entry, registered under `id`.
    pub fn derive(&mut self, id: &str, sandbox: &str)
        ensures
            final(self)@ == derived(id@, old(self)@, sandbox@),
            complete(final(self)@, sandbox@),
    {
        if self.name.is_none() {
            self.name = Some(id.to_owned());
        }
        let use_muvm = match self.use_muvm {
            Some(flag) => flag,
            None => false,
        };
        self.use_muvm = Some(use_muvm);
        let ghost configured = match old(self).required_paths {
            Some(paths) => texts(paths@),
            None => Seq::empty(),
        };
        let own = self.path.clone();
        match &mut self.required_paths {
            Some(paths) => {
                paths.insert(0, own);
            },
            None => {
                let mut paths: Vec<String> = Vec::new();
                paths.push(own);
                self.required_paths = Some(paths);
            },
        }
        assert(self.required_paths is Some);
        assert(texts(self.required_paths->0@) =~= seq![old(self).path@] + configured);
        if use_muvm {
            match &mut self.required_paths {
                Some(paths) => {
                    paths.push(sandbox.to_owned());
                },
                None => {},
            }
            assert(texts(self.required_paths->0@) =~= (seq![old(self).path@] + configured).push(
                sandbox@,
            ));
        }
    }
}

/// Completes every interpreter entry of `settings`.
pub fn derive_requirements(settings: &mut ConfigFile)
    requires
        old(settings).wf(),
    ensures
        final(settings).wf(),
        final(settings)@ == derived_settings(old(settings)@),
{
    let n = settings.interpreters.len();
    let mut i: usize = 0;
    while i < n
        invariant
            n == old(settings).interpreters.len(),
            n == settings.interpreters.len(),
            i <= n,
            settings.defaults == old(settings).defaults,
            settings.muvm == old(settings).muvm,
            settings.binaries == old(settings).binaries,
            forall|k: int|
                0 <= k < n ==> (#[trigger] settings.interpreters[k]).0@ == old(
                    settings,
                ).interpreters[k].0@,
            forall|k: int|
                0 <= k < i ==> (#[trigger] settings.interpreters[k]).1@ == derived(
                    old(settings).interpreters[k].0@,
                    old(settings).interpreters[k].1@,
                    old(settings).muvm.path@,
                ),
            forall|k: int|
                i <= k < n ==> (#[trigger] settings.interpreters[k]).1 == old(
                    settings,
                ).interpreters[k].1,
        decreases n - i,
    {
        let id = settings.interpreters[i].0.clone();
        let sandbox = settings.muvm.path.clone();
        settings.interpreters[i].1.derive(id.as_str(), sandbox.as_str());
        i = i + 1;
    }
    proof {
        let before = old(settings).interpreters@;
        let after = settings.interpreters@;
        assert(distinct_keys(after)) by {
            assert forall|a: int, b: int| 0 <= a < b < after.len() implies (#[trigger] after[a]).0@
                != (#[trigger] after[b]).0@ by {
                assert(before[a].0@ != before[b].0@);
            }
        }
        let got = pairs_map(interpreter_pairs(after));
        let want = derived_settings(old(settings)@).interpreters;
        assert forall|id: Seq<char>| #[trigger] got.contains_key(id) implies want.contains_key(id)
            && want[id] == got[id] by {
            let k = lemma_pairs_map_key(interpreter_pairs(after), id);
            lemma_interpreter_entry(after, k);
            lemma_interpreter_entry(before, k);
        }
        assert forall|id: Seq<char>| #[trigger] want.contains_key(id) implies got.contains_key(
            id,
        ) by {
            let k = lemma_pairs_map_key(interpreter_pairs(before), id);
            lemma_interpreter_entry(after, k);
        }
        assert(got =~= want);
    }
}

/// A completed entry is complete, whatever was configured: it has a name
/// and a sandbox flag, its own path stands first among the paths it requires
/// and, where it uses the sandbox, the path of the sandbox runtime last.
pub proof fn law_derived_is_complete(id: Seq<char>, entry: InterpreterView, sandbox: Seq<char>)
    ensures
        complete(derived(id, entry, sandbox), sandbox),
{
}

} // verus!
