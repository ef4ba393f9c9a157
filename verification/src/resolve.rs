//! Resolution: from the sources to the finished settings.
//!
//! The sources form a chain of rising precedence: the built-in defaults,
//! the drop-in fragments in the order given, the system file, the user file.
//! A source that is absent adds nothing. One that cannot be read, or that is
//! no document, ends the resolution, and so does a merged tree that has not
//! the shape of the settings.

use crate::decode::{
    child, decode, decode_binaries, decode_defaults, decode_interpreter, decode_interpreters,
    decode_muvm, decode_settings, decoded_view, Section,
};
use crate::defaults::{default_node, default_tree};
use crate::merge::{merge, merge_all};
use crate::requirements::{complete, derive_requirements, derived_settings};
use crate::settings::{
    BinariesView, ConfigFile, ConfigView, DefaultsView, InterpreterView, MuVMView,
};
use crate::source::{parse_source, toml_document};
use crate::tree::{item_views, Node, Tree};
use vstd::prelude::*;

verus! {

/// One source of the chain, as it was found.
#[derive(Debug)]
pub enum Source {
    /// The source does not exist.
    Absent,
    /// The source exists and could not be read.
    Unreadable,
    /// The source's content.
    Text(String),
}

/// Why a resolution failed.
#[derive(Debug)]
pub enum ResolveError {
    /// The source at this place of the chain could not be read.
    Read { index: usize },
    /// The source at this place of the chain is no document.
    Parse { index: usize, cause: config::ConfigError },
    /// The merged tree has not the shape of the settings.
    Schema(Section),
}

/// A failed resolution as a mathematical value.
pub enum Failure {
    Read(int),
    Parse(int),
    Schema(Section),
}

impl View for ResolveError {
    type V = Failure;

    open spec fn view(&self) -> Failure {
        match self {
            ResolveError::Read { index } => Failure::Read(*index as int),
            ResolveError::Parse { index, .. } => Failure::Parse(*index as int),
            ResolveError::Schema(section) => Failure::Schema(*section),
        }
    }
}

/// The chain of the sources outside the program, lowest precedence first.
pub open spec fn chain(drop_ins: Seq<Source>, system: Source, user: Source) -> Seq<Source> {
    drop_ins.push(system).push(user)
}

/// The trees of the sources of `sources` that are present, in their order;
/// or the failure of the first source that is unreadable or no document.
pub open spec fn read_chain(sources: Seq<Source>) -> Result<Seq<Tree>, Failure>
    decreases sources.len(),
{
    if sources.len() == 0 {
        Ok(Seq::empty())
    } else {
        match read_chain(sources.drop_last()) {
            Err(failure) => Err(failure),
            Ok(trees) => match sources.last() {
                Source::Absent => Ok(trees),
                Source::Unreadable => Err(Failure::Read(sources.len() - 1)),
                Source::Text(text) => match toml_document(text@) {
                    Some(tree) => Ok(trees.push(tree)),
                    None => Err(Failure::Parse(sources.len() - 1)),
                },
            },
        }
    }
}

/// The settings that the trees `layers`, laid over the defaults in their
/// order, resolve to.
pub open spec fn resolve_spec(layers: Seq<Tree>) -> Result<ConfigView, Section> {
    match decode_settings(merge_all(default_tree(), layers)) {
        Ok(settings) => Ok(derived_settings(settings)),
        Err(section) => Err(section),
    }
}

/// The outcome of a resolution from the chain `sources`.
pub open spec fn parse_config_spec(sources: Seq<Source>) -> Result<ConfigView, Failure> {
    match read_chain(sources) {
        Err(failure) => Err(failure),
        Ok(layers) => match resolve_spec(layers) {
            Ok(settings) => Ok(settings),
            Err(section) => Err(Failure::Schema(section)),
        },
    }
}

/// Every interpreter entry of the settings is complete.
pub open spec fn resolved(settings: ConfigView) -> bool {
    forall|id: Seq<char>| #[trigger]
        settings.interpreters.contains_key(id) ==> complete(
            settings.interpreters[id],
            settings.muvm.path,
        )
}

/// What the outcome of a resolution stands for.
pub open spec fn outcome(result: Result<ConfigFile, ResolveError>) -> Result<ConfigView, Failure> {
    match result {
        Ok(settings) => Ok(settings@),
        Err(error) => Err(error@),
    }
}

/// All nodes of the list are well-formed.
pub open spec fn all_wf(nodes: Seq<Node>) -> bool {
    forall|i: int| 0 <= i < nodes.len() ==> (#[trigger] nodes[i]).wf()
}

/// Resolves the settings from the trees of the sources: lays them over the
/// defaults in their order, decodes the result and completes every
/// interpreter entry.
pub fn resolve(layers: &Vec<Node>) -> (result: Result<ConfigFile, Section>)
    requires
        all_wf(layers@),
    ensures
        decoded_view(result) == resolve_spec(item_views(layers@)),
        result matches Ok(settings) ==> settings.wf() && resolved(settings@),
{
    let mut merged = default_node();
    let mut i: usize = 0;
    while i < layers.len()
        invariant
            all_wf(layers@),
            i <= layers.len(),
            merged.wf(),
            merged@ == merge_all(default_tree(), item_views(layers@).take(i as int)),
        decreases layers.len() - i,
    {
        proof {
            let views = item_views(layers@);
            assert(views.take(i + 1).drop_last() =~= views.take(i as int));
            assert(views.take(i + 1).last() == layers@[i as int]@);
        }
        merged = merge(&merged, &layers[i]);
        i = i + 1;
    }
    proof {
        let views = item_views(layers@);
        assert(views.take(layers@.len() as int) =~= views);
    }
    match decode(&merged) {
        Ok(settings) => {
            let mut settings = settings;
            derive_requirements(&mut settings);
            Ok(settings)
        },
        Err(section) => Err(section),
    }
}

/// Reads one source of the chain: the node of a source that is present, or
/// nothing for an absent one.
fn read_source(source: &Source, index: usize) -> (read: Result<Option<Node>, ResolveError>)
    ensures
        match read {
            Ok(Some(node)) => source matches Source::Text(text) && toml_document(text@) == Some(
                node@,
            ) && node@ is Table && node.wf(),
            Ok(None) => source is Absent,
            Err(error) => {
                ||| source is Unreadable && error@ == Failure::Read(index as int)
                ||| source matches Source::Text(text) && toml_document(text@) is None && error@
                    == Failure::Parse(index as int)
            },
        },
{
    match source {
        Source::Absent => Ok(None),
        Source::Unreadable => Err(ResolveError::Read { index }),
        Source::Text(text) => match parse_source(text.as_str()) {
            Ok(node) => Ok(Some(node)),
            Err(cause) => Err(ResolveError::Parse { index, cause }),
        },
    }
}

/// Resolves the settings from the sources outside the program: the drop-in
/// fragments in the order given, then the system file, then the user file.
pub fn parse_config(drop_ins: &Vec<Source>, system: &Source, user: &Source) -> (result: Result<
    ConfigFile,
    ResolveError,
>)
    ensures
        outcome(result) == parse_config_spec(chain(drop_ins@, *system, *user)),
        result matches Ok(settings) ==> settings.wf() && resolved(settings@),
        result matches Err(error) ==> error@ != Failure::Schema(Section::Root),
{
    let mut sources: Vec<&Source> = Vec::new();
    let mut k: usize = 0;
    while k < drop_ins.len()
        invariant
            k <= drop_ins.len(),
            sources.len() == k,
            forall|j: int| 0 <= j < k ==> *(#[trigger] sources[j]) == drop_ins[j],
        decreases drop_ins.len() - k,
    {
        sources.push(&drop_ins[k]);
        k = k + 1;
    }
    sources.push(system);
    sources.push(user);
    let ghost all = chain(drop_ins@, *system, *user);
    assert(sources.len() == all.len());
    assert(forall|j: int| 0 <= j < all.len() ==> *(#[trigger] sources[j]) == all[j]);

    let mut layers: Vec<Node> = Vec::new();
    let mut i: usize = 0;
    proof {
        assert(all.take(0).len() == 0);
        assert(item_views(layers@) =~= Seq::<Tree>::empty());
    }
    while i < sources.len()
        invariant
            all == chain(drop_ins@, *system, *user),
            sources.len() == all.len(),
            forall|j: int| 0 <= j < all.len() ==> *(#[trigger] sources[j]) == all[j],
            i <= sources.len(),
            all_wf(layers@),
            all_tables(item_views(layers@)),
            read_chain(all.take(i as int)) == Ok::<Seq<Tree>, Failure>(item_views(layers@)),
        decreases sources.len() - i,
    {
        proof {
            assert(all.take(i + 1).drop_last() =~= all.take(i as int));
            assert(all.take(i + 1).last() == all[i as int]);
        }
        let ghost before = layers@;
        match read_source(sources[i], i) {
            Ok(Some(node)) => {
                layers.push(node);
                proof {
                    assert(item_views(layers@) =~= item_views(before).push(node@));
                    assert forall|j: int| 0 <= j < item_views(layers@).len() implies (
                    #[trigger] item_views(layers@)[j]) is Table by {
                        if j < before.len() {
                            assert(item_views(before)[j] is Table);
                        }
                    }
                }
            },
            Ok(None) => {},
            Err(error) => {
                proof {
                    lemma_failure_stays(all, i + 1);
                }
                return Err(error);
            },
        }
        i = i + 1;
    }
    proof {
        assert(all.take(all.len() as int) =~= all);
        lemma_tables_stay_a_table(item_views(layers@));
    }
    match resolve(&layers) {
        Ok(settings) => Ok(settings),
        Err(section) => Err(ResolveError::Schema(section)),
    }
}

/// Every tree of the list is a table.
pub open spec fn all_tables(layers: Seq<Tree>) -> bool {
    forall|i: int| 0 <= i < layers.len() ==> (#[trigger] layers[i]) is Table
}

/// Tables laid over the defaults leave a table.
proof fn lemma_tables_stay_a_table(layers: Seq<Tree>)
    requires
        all_tables(layers),
    ensures
        merge_all(default_tree(), layers) is Table,
    decreases layers.len(),
{
    if layers.len() > 0 {
        assert(all_tables(layers.drop_last())) by {
            assert forall|i: int| 0 <= i < layers.drop_last().len() implies (
            #[trigger] layers.drop_last()[i]) is Table by {
                assert(layers[i] is Table);
            }
        }
        lemma_tables_stay_a_table(layers.drop_last());
        assert(layers.last() is Table);
    }
}

/// Once a part of the chain has failed, the whole chain fails in the same way.
proof fn lemma_failure_stays(sources: Seq<Source>, upto: int)
    requires
        0 <= upto <= sources.len(),
        read_chain(sources.take(upto)) is Err,
    ensures
        read_chain(sources) == read_chain(sources.take(upto)),
    decreases sources.len() - upto,
{
    if upto < sources.len() {
        assert(sources.take(upto + 1).drop_last() =~= sources.take(upto));
        lemma_failure_stays(sources, upto + 1);
    } else {
        assert(sources.take(upto) =~= sources);
    }
}


/// In the settings that a resolution yields, the paths that an interpreter
/// requires begin with the interpreter's own path.
pub proof fn law_own_path_first(sources: Seq<Source>, id: Seq<char>)
    requires
        parse_config_spec(sources) matches Ok(settings) && settings.interpreters.contains_key(id),
    ensures
        parse_config_spec(sources) matches Ok(settings) && settings.interpreters[id].required_paths
            matches Some(paths) && paths.len() > 0 && paths[0] == settings.interpreters[id].path,
{
}

/// In the settings that a resolution yields, the paths that an interpreter
/// requires end with the path of the sandbox runtime where the interpreter
/// uses the sandbox.
pub proof fn law_sandbox_path_last(sources: Seq<Source>, id: Seq<char>)
    requires
        parse_config_spec(sources) matches Ok(settings) && settings.interpreters.contains_key(id)
            && settings.interpreters[id].use_muvm == Some(true),
    ensures
        parse_config_spec(sources) matches Ok(settings) && settings.interpreters[id].required_paths
            matches Some(paths) && paths.len() > 0 && paths.last() == settings.muvm.path,
{
}

/// Two resolutions from the same sources yield equal settings, or fail alike.
pub proof fn law_resolution_repeats(
    sources: Seq<Source>,
    first: Result<ConfigFile, ResolveError>,
    second: Result<ConfigFile, ResolveError>,
)
    requires
        outcome(first) == parse_config_spec(sources),
        outcome(second) == parse_config_spec(sources),
    ensures
        outcome(first) == outcome(second),
{
}

/// A source that is present and is no document makes the resolution fail,
/// whatever the other sources hold: at that source, or at one before it.
pub proof fn law_malformed_source_fails(sources: Seq<Source>, at: int)
    requires
        0 <= at < sources.len(),
        sources[at] matches Source::Text(text) && toml_document(text@) is None,
    ensures
        parse_config_spec(sources) matches Err(failure) && match failure {
            Failure::Read(index) => 0 <= index < at,
            Failure::Parse(index) => 0 <= index <= at,
            Failure::Schema(_) => false,
        },
{
    lemma_failure_within(sources.take(at + 1));
    assert(sources.take(at + 1).last() == sources[at]);
    lemma_failure_stays(sources, at + 1);
}

/// A failure to read the chain names a source of the chain.
proof fn lemma_failure_within(sources: Seq<Source>)
    ensures
        match read_chain(sources) {
            Ok(_) => true,
            Err(Failure::Read(index)) => 0 <= index < sources.len() && sources[index] is Unreadable,
            Err(Failure::Parse(index)) => 0 <= index < sources.len() && sources[index] is Text,
            Err(Failure::Schema(_)) => false,
        },
    decreases sources.len(),
{
    if sources.len() > 0 {
        lemma_failure_within(sources.drop_last());
    }
}

/// Sources that are all absent leave the defaults as they are: the
/// resolution is the one from no source at all.
pub proof fn law_absent_sources_add_nothing(sources: Seq<Source>)
    requires
        forall|i: int| 0 <= i < sources.len() ==> (#[trigger] sources[i]) is Absent,
    ensures
        read_chain(sources) == Ok::<Seq<Tree>, Failure>(Seq::empty()),
        parse_config_spec(sources) == parse_config_spec(Seq::empty()),
    decreases sources.len(),
{
    if sources.len() > 0 {
        law_absent_sources_add_nothing(sources.drop_last());
    }
}


/// The settings that the built-in defaults resolve to.
pub open spec fn default_settings() -> ConfigView {
    ConfigView {
        defaults: DefaultsView { interpreter: "qemu"@, log_level: "info"@ },
        muvm: MuVMView { path: "/usr/bin/muvm"@ },
        interpreters: map![
            "qemu"@ => InterpreterView {
                name: Some("qemu"@),
                path: "/usr/bin/qemu-x86_64"@,
                required_paths: Some(seq!["/usr/bin/qemu-x86_64"@]),
                use_muvm: Some(false),
            },
        ],
        binaries: Map::empty(),
    }
}

/// With no source outside the program, the resolution succeeds and yields
/// the settings of the built-in defaults.
pub proof fn law_defaults_alone()
    ensures
        parse_config_spec(Seq::empty()) == Ok::<ConfigView, Failure>(default_settings()),
{
    reveal_strlit("defaults");
    reveal_strlit("muvm");
    reveal_strlit("interpreters");
    reveal_strlit("binaries");
    reveal_strlit("interpreter");
    reveal_strlit("log_level");
    reveal_strlit("path");
    reveal_strlit("name");
    reveal_strlit("required_paths");
    reveal_strlit("use_muvm");
    reveal_strlit("qemu");
    assert("defaults"@.len() == 8 && "muvm"@.len() == 4 && "interpreters"@.len() == 12
        && "binaries"@.len() == 8);
    assert("defaults"@[0] != "binaries"@[0]);
    assert("interpreter"@.len() == 11 && "log_level"@.len() == 9);
    assert("path"@.len() == 4 && "name"@.len() == 4 && "required_paths"@.len() == 14
        && "use_muvm"@.len() == 8);
    assert("path"@[0] != "name"@[0]);
    let root = default_tree()->Table_0;
    let decoded = decode_settings(default_tree());
    assert(decode_defaults(child(root, "defaults"@)) == Some(default_settings().defaults));
    assert(decode_muvm(child(root, "muvm"@)) == Some(default_settings().muvm));
    let qemu = map!["path"@ => Tree::Text("/usr/bin/qemu-x86_64"@)];
    let plain = InterpreterView {
        name: None,
        path: "/usr/bin/qemu-x86_64"@,
        required_paths: None,
        use_muvm: None,
    };
    assert(decode_interpreter(Tree::Table(qemu)) == Some(plain));
    let interpreters = map!["qemu"@ => Tree::Table(qemu)];
    assert(child(root, "interpreters"@) == Tree::Table(interpreters));
    assert(decode_interpreters(Tree::Table(interpreters)) is Some);
    let listed = decode_interpreters(Tree::Table(interpreters))->0;
    assert(listed =~= map!["qemu"@ => plain]);
    assert(child(root, "binaries"@) == Tree::Table(Map::<Seq<char>, Tree>::empty()));
    let none = decode_binaries(Tree::Table(Map::<Seq<char>, Tree>::empty()));
    assert(none is Some);
    assert(none->0 =~= Map::<Seq<char>, BinariesView>::empty());
    assert(decoded is Ok);
    let settings = decoded->Ok_0;
    let done = derived_settings(settings);
    assert(seq!["/usr/bin/qemu-x86_64"@] + Seq::<Seq<char>>::empty() =~= seq![
        "/usr/bin/qemu-x86_64"@,
    ]);
    assert(done.interpreters =~= default_settings().interpreters);
    assert(merge_all(default_tree(), Seq::<Tree>::empty()) == default_tree());
}

} // verus!
