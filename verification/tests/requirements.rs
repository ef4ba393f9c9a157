use binfmt_dispatcher::requirements::derive_requirements;
use binfmt_dispatcher::settings::{Binaries, ConfigFile, Defaults, Interpreter, MuVM};

fn entry(name: Option<&str>, path: &str, paths: Option<Vec<&str>>, use_muvm: Option<bool>) -> Interpreter {
    Interpreter {
        name: name.map(|n| n.to_string()),
        path: path.to_string(),
        required_paths: paths.map(|list| list.into_iter().map(|p| p.to_string()).collect()),
        use_muvm,
    }
}

fn strings(list: Vec<&str>) -> Option<Vec<String>> {
    Some(list.into_iter().map(|p| p.to_string()).collect())
}

#[test]
fn a_bare_entry_gets_its_defaults() {
    let mut e = entry(None, "/usr/bin/qemu-x86_64", None, None);
    e.derive("qemu", "/usr/bin/muvm");
    assert_eq!(e, entry(Some("qemu"), "/usr/bin/qemu-x86_64", Some(vec!["/usr/bin/qemu-x86_64"]), Some(false)));
}

#[test]
fn a_configured_name_stays() {
    let mut e = entry(Some("QEMU user mode"), "/q", None, Some(false));
    e.derive("qemu", "/usr/bin/muvm");
    assert_eq!(e.name.as_deref(), Some("QEMU user mode"));
    let mut e = entry(Some(""), "/q", None, None);
    e.derive("qemu", "/usr/bin/muvm");
    assert_eq!(e.name.as_deref(), Some(""));
}

#[test]
fn own_path_in_front_and_sandbox_behind() {
    let mut e = entry(None, "/usr/bin/box64", Some(vec!["/opt/custom"]), Some(true));
    e.derive("box64", "/usr/bin/muvm");
    assert_eq!(e.required_paths, strings(vec!["/usr/bin/box64", "/opt/custom", "/usr/bin/muvm"]));
    assert_eq!(e.use_muvm, Some(true));
    assert_eq!(e.name.as_deref(), Some("box64"));
    assert_eq!(e.path, "/usr/bin/box64");
}

#[test]
fn sandbox_behind_the_own_path_alone() {
    let mut e = entry(None, "/b", None, Some(true));
    e.derive("b", "/m");
    assert_eq!(e.required_paths, strings(vec!["/b", "/m"]));
}

#[test]
fn no_sandbox_path_without_the_flag() {
    let mut e = entry(None, "/b", Some(vec!["/x", "/y"]), Some(false));
    e.derive("b", "/m");
    assert_eq!(e.required_paths, strings(vec!["/b", "/x", "/y"]));
    let mut e = entry(None, "/b", Some(vec!["/x", "/y"]), None);
    e.derive("b", "/m");
    assert_eq!(e.required_paths, strings(vec!["/b", "/x", "/y"]));
    assert_eq!(e.use_muvm, Some(false));
}

#[test]
fn paths_that_occur_already_are_added_again() {
    let mut e = entry(None, "/b", Some(vec!["/m", "/b"]), Some(true));
    e.derive("b", "/m");
    assert_eq!(e.required_paths, strings(vec!["/b", "/m", "/b", "/m"]));
    let mut e = entry(None, "/b", Some(vec![]), Some(true));
    e.derive("b", "/b");
    assert_eq!(e.required_paths, strings(vec!["/b", "/b"]));
}

#[test]
fn every_entry_is_completed() {
    let mut settings = ConfigFile {
        defaults: Defaults { interpreter: "a".to_string(), log_level: "info".to_string() },
        muvm: MuVM { path: "/sandbox".to_string() },
        interpreters: vec![
            ("a".to_string(), entry(None, "/a", None, None)),
            ("b".to_string(), entry(Some("B"), "/b", Some(vec!["/x"]), Some(true))),
            ("c".to_string(), entry(None, "/c", Some(vec!["/c"]), Some(false))),
        ],
        binaries: vec![(
            "bin".to_string(),
            Binaries { path: "/bin".to_string(), interpreter: "a".to_string() },
        )],
    };
    derive_requirements(&mut settings);
    assert_eq!(settings.defaults.interpreter, "a");
    assert_eq!(settings.defaults.log_level, "info");
    assert_eq!(settings.muvm.path, "/sandbox");
    assert_eq!(settings.binaries.len(), 1);
    assert_eq!(settings.binaries[0].1, Binaries { path: "/bin".to_string(), interpreter: "a".to_string() });
    assert_eq!(settings.interpreters.len(), 3);
    assert_eq!(settings.interpreter("a").unwrap(), &entry(Some("a"), "/a", Some(vec!["/a"]), Some(false)));
    assert_eq!(
        settings.interpreter("b").unwrap(),
        &entry(Some("B"), "/b", Some(vec!["/b", "/x", "/sandbox"]), Some(true))
    );
    assert_eq!(settings.interpreter("c").unwrap(), &entry(Some("c"), "/c", Some(vec!["/c", "/c"]), Some(false)));
    for (_, e) in &settings.interpreters {
        let paths = e.required_paths.as_ref().unwrap();
        assert_eq!(paths[0], e.path);
        if e.use_muvm == Some(true) {
            assert_eq!(paths[paths.len() - 1], settings.muvm.path);
        }
    }
}

#[test]
fn settings_without_interpreters_stay() {
    let mut settings = ConfigFile {
        defaults: Defaults { interpreter: "a".to_string(), log_level: "info".to_string() },
        muvm: MuVM { path: "/sandbox".to_string() },
        interpreters: vec![],
        binaries: vec![],
    };
    derive_requirements(&mut settings);
    assert_eq!(settings.interpreters.len(), 0);
    assert_eq!(settings.binaries.len(), 0);
}
