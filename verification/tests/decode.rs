use binfmt_dispatcher::decode::{decode, Section};
use binfmt_dispatcher::defaults::default_node;
use binfmt_dispatcher::merge::merge;
use binfmt_dispatcher::source::parse_source;
use binfmt_dispatcher::tree::Node;

/// The defaults with one document laid over them, decoded.
fn decoded(document: &str) -> Result<binfmt_dispatcher::settings::ConfigFile, Section> {
    let layer = parse_source(document).unwrap();
    decode(&merge(&default_node(), &layer))
}

#[test]
fn decode_the_defaults() {
    let settings = decode(&default_node()).unwrap();
    assert_eq!(settings.defaults.interpreter, "qemu");
    assert_eq!(settings.defaults.log_level, "info");
    assert_eq!(settings.muvm.path, "/usr/bin/muvm");
    assert_eq!(settings.binaries.len(), 0);
    assert_eq!(settings.interpreters.len(), 1);
    let (id, qemu) = &settings.interpreters[0];
    assert_eq!(id, "qemu");
    assert_eq!(qemu.name, None);
    assert_eq!(qemu.path, "/usr/bin/qemu-x86_64");
    assert_eq!(qemu.required_paths, None);
    assert_eq!(qemu.use_muvm, None);
}

#[test]
fn decode_every_field() {
    let settings = decoded(
        "[defaults]\ninterpreter = \"fex\"\nlog_level = \"trace\"\n\
         [muvm]\npath = \"/opt/muvm\"\n\
         [interpreters.fex]\nname = \"FEX\"\npath = \"/usr/bin/FEX\"\n\
         required_paths = [\"/a\", \"/b\"]\nuse_muvm = true\nunknown = 3\n\
         [binaries.steam]\npath = \"/usr/bin/steam\"\ninterpreter = \"fex\"\nextra = [1]\n\
         [other]\nkey = 1\n",
    )
    .unwrap();
    assert_eq!(settings.defaults.interpreter, "fex");
    assert_eq!(settings.defaults.log_level, "trace");
    assert_eq!(settings.muvm.path, "/opt/muvm");
    assert_eq!(settings.interpreters.len(), 2);
    let fex = settings.interpreter("fex").unwrap();
    assert_eq!(fex.name.as_deref(), Some("FEX"));
    assert_eq!(fex.path, "/usr/bin/FEX");
    assert_eq!(fex.required_paths, Some(vec!["/a".to_string(), "/b".to_string()]));
    assert_eq!(fex.use_muvm, Some(true));
    assert_eq!(settings.binaries.len(), 1);
    let steam = settings.binary("steam").unwrap();
    assert_eq!(steam.path, "/usr/bin/steam");
    assert_eq!(steam.interpreter, "fex");
    assert!(settings.binary("fex").is_none());
    assert!(settings.interpreter("steam").is_none());
}

#[test]
fn decode_an_empty_list_of_paths() {
    let settings = decoded("[interpreters.x]\npath = \"/x\"\nrequired_paths = []\n").unwrap();
    assert_eq!(settings.interpreter("x").unwrap().required_paths, Some(vec![]));
}

#[test]
fn what_is_no_table_has_no_shape() {
    assert_eq!(decode(&Node::Nil).err(), Some(Section::Root));
    assert_eq!(decode(&Node::Text("x".to_string())).err(), Some(Section::Root));
    assert_eq!(decode(&Node::Array(vec![])).err(), Some(Section::Root));
}

#[test]
fn an_empty_table_lacks_the_defaults() {
    assert_eq!(decode(&Node::Table(vec![])).err(), Some(Section::Defaults));
}

#[test]
fn defaults_of_the_wrong_kind() {
    assert_eq!(decoded("defaults = 3\n").err(), Some(Section::Defaults));
    assert_eq!(decoded("[defaults]\nlog_level = 3\n").err(), Some(Section::Defaults));
    assert_eq!(decoded("[defaults]\ninterpreter = true\n").err(), Some(Section::Defaults));
    assert_eq!(decoded("[defaults]\ninterpreter = [\"qemu\"]\n").err(), Some(Section::Defaults));
}

#[test]
fn sandbox_of_the_wrong_kind() {
    assert_eq!(decoded("muvm = \"/usr/bin/muvm\"\n").err(), Some(Section::Muvm));
    assert_eq!(decoded("[muvm]\npath = 7\n").err(), Some(Section::Muvm));
    assert_eq!(decoded("[muvm]\npath = 1.5\n").err(), Some(Section::Muvm));
}

#[test]
fn interpreter_without_a_path() {
    assert_eq!(decoded("[interpreters.box64]\nname = \"Box64\"\n").err(), Some(Section::Interpreters));
    assert_eq!(decoded("[interpreters.box64]\n").err(), Some(Section::Interpreters));
}

#[test]
fn interpreter_fields_of_the_wrong_kind() {
    assert_eq!(decoded("interpreters = 1\n").err(), Some(Section::Interpreters));
    assert_eq!(decoded("[interpreters]\nbox64 = \"/usr/bin/box64\"\n").err(), Some(Section::Interpreters));
    assert_eq!(decoded("[interpreters.b]\npath = 5\n").err(), Some(Section::Interpreters));
    assert_eq!(decoded("[interpreters.b]\npath = \"/b\"\nname = 5\n").err(), Some(Section::Interpreters));
    assert_eq!(
        decoded("[interpreters.b]\npath = \"/b\"\nuse_muvm = \"true\"\n").err(),
        Some(Section::Interpreters)
    );
    assert_eq!(
        decoded("[interpreters.b]\npath = \"/b\"\nuse_muvm = 1\n").err(),
        Some(Section::Interpreters)
    );
    assert_eq!(
        decoded("[interpreters.b]\npath = \"/b\"\nrequired_paths = \"/c\"\n").err(),
        Some(Section::Interpreters)
    );
    assert_eq!(
        decoded("[interpreters.b]\npath = \"/b\"\nrequired_paths = [\"/c\", 4]\n").err(),
        Some(Section::Interpreters)
    );
    assert_eq!(
        decoded("[interpreters.b]\npath = \"/b\"\nrequired_paths = [[\"/c\"]]\n").err(),
        Some(Section::Interpreters)
    );
}

#[test]
fn binaries_that_lack_the_shape() {
    assert_eq!(decoded("binaries = false\n").err(), Some(Section::Binaries));
    assert_eq!(decoded("[binaries.x]\npath = \"/x\"\n").err(), Some(Section::Binaries));
    assert_eq!(decoded("[binaries.x]\ninterpreter = \"qemu\"\n").err(), Some(Section::Binaries));
    assert_eq!(
        decoded("[binaries.x]\npath = \"/x\"\ninterpreter = 2\n").err(),
        Some(Section::Binaries)
    );
}

#[test]
fn the_first_section_without_the_shape_is_named() {
    assert_eq!(decoded("defaults = 1\nmuvm = 1\ninterpreters = 1\nbinaries = 1\n").err(), Some(Section::Defaults));
    assert_eq!(decoded("muvm = 1\ninterpreters = 1\nbinaries = 1\n").err(), Some(Section::Muvm));
    assert_eq!(decoded("interpreters = 1\nbinaries = 1\n").err(), Some(Section::Interpreters));
}

#[test]
fn an_absent_optional_field_is_unset() {
    let root = Node::Table(vec![
        (
            "defaults".to_string(),
            Node::Table(vec![
                ("interpreter".to_string(), Node::Text("q".to_string())),
                ("log_level".to_string(), Node::Text("info".to_string())),
            ]),
        ),
        ("muvm".to_string(), Node::Table(vec![("path".to_string(), Node::Text("/m".to_string()))])),
        (
            "interpreters".to_string(),
            Node::Table(vec![(
                "q".to_string(),
                Node::Table(vec![
                    ("path".to_string(), Node::Text("/q".to_string())),
                    ("name".to_string(), Node::Nil),
                    ("use_muvm".to_string(), Node::Nil),
                    ("required_paths".to_string(), Node::Nil),
                ]),
            )]),
        ),
        ("binaries".to_string(), Node::Table(vec![])),
    ]);
    let settings = decode(&root).unwrap();
    let q = settings.interpreter("q").unwrap();
    assert_eq!(q.name, None);
    assert_eq!(q.use_muvm, None);
    assert_eq!(q.required_paths, None);
    assert_eq!(q.path, "/q");
}
