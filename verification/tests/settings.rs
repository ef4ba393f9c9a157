use binfmt_dispatcher::settings::{Binaries, ConfigFile, Defaults, Interpreter, MuVM};

fn interpreter(path: &str, paths: Option<Vec<&str>>) -> Interpreter {
    Interpreter {
        name: None,
        path: path.to_string(),
        required_paths: paths.map(|list| list.into_iter().map(|p| p.to_string()).collect()),
        use_muvm: Some(true),
    }
}

fn settings(interpreters: Vec<(&str, Interpreter)>, binaries: Vec<(&str, &str)>) -> ConfigFile {
    ConfigFile {
        defaults: Defaults { interpreter: "qemu".to_string(), log_level: "info".to_string() },
        muvm: MuVM { path: "/usr/bin/muvm".to_string() },
        interpreters: interpreters.into_iter().map(|(k, v)| (k.to_string(), v)).collect(),
        binaries: binaries
            .into_iter()
            .map(|(k, i)| (k.to_string(), Binaries { path: k.to_string(), interpreter: i.to_string() }))
            .collect(),
    }
}

#[test]
fn lookups_by_identifier() {
    let s = settings(vec![("a", interpreter("/a", None)), ("b", interpreter("/b", None))], vec![("x", "a")]);
    assert_eq!(s.interpreter("a").unwrap().path, "/a");
    assert_eq!(s.interpreter("b").unwrap().path, "/b");
    assert!(s.interpreter("c").is_none());
    assert!(s.interpreter("A").is_none());
    assert_eq!(s.binary("x").unwrap().interpreter, "a");
    assert!(s.binary("a").is_none());
}

#[test]
fn equal_settings_in_another_order() {
    let one = settings(
        vec![("a", interpreter("/a", Some(vec!["/p"]))), ("b", interpreter("/b", None))],
        vec![("x", "a"), ("y", "b")],
    );
    let other = settings(
        vec![("b", interpreter("/b", None)), ("a", interpreter("/a", Some(vec!["/p"])))],
        vec![("y", "b"), ("x", "a")],
    );
    assert!(one.same_as(&other));
    assert!(other.same_as(&one));
    assert!(one.same_as(&one));
}

#[test]
fn settings_that_differ() {
    let one = settings(vec![("a", interpreter("/a", Some(vec!["/p"])))], vec![("x", "a")]);
    assert!(!one.same_as(&settings(vec![("a", interpreter("/a", Some(vec!["/q"])))], vec![("x", "a")])));
    assert!(!one.same_as(&settings(vec![("a", interpreter("/a", Some(vec!["/p", "/p"])))], vec![("x", "a")])));
    assert!(!one.same_as(&settings(vec![("a", interpreter("/a", None))], vec![("x", "a")])));
    assert!(!one.same_as(&settings(vec![("b", interpreter("/a", Some(vec!["/p"])))], vec![("x", "a")])));
    assert!(!one.same_as(&settings(vec![("a", interpreter("/a", Some(vec!["/p"])))], vec![("x", "b")])));
    assert!(!one.same_as(&settings(vec![("a", interpreter("/a", Some(vec!["/p"])))], vec![])));
    assert!(!one.same_as(&settings(
        vec![("a", interpreter("/a", Some(vec!["/p"]))), ("b", interpreter("/b", None))],
        vec![("x", "a")]
    )));
    let mut other = settings(vec![("a", interpreter("/a", Some(vec!["/p"])))], vec![("x", "a")]);
    other.muvm.path = "/opt/muvm".to_string();
    assert!(!one.same_as(&other));
    let mut other = settings(vec![("a", interpreter("/a", Some(vec!["/p"])))], vec![("x", "a")]);
    other.defaults.log_level = "debug".to_string();
    assert!(!one.same_as(&other));
}

#[test]
fn entries_compare_by_value() {
    let a = interpreter("/a", Some(vec!["/p"]));
    assert!(a.same_as(&interpreter("/a", Some(vec!["/p"]))));
    assert!(!a.same_as(&interpreter("/b", Some(vec!["/p"]))));
    let mut named = interpreter("/a", Some(vec!["/p"]));
    named.name = Some("a".to_string());
    assert!(!a.same_as(&named));
    let mut unflagged = interpreter("/a", Some(vec!["/p"]));
    unflagged.use_muvm = None;
    assert!(!a.same_as(&unflagged));
    let x = Binaries { path: "/x".to_string(), interpreter: "a".to_string() };
    assert!(x.same_as(&Binaries { path: "/x".to_string(), interpreter: "a".to_string() }));
    assert!(!x.same_as(&Binaries { path: "/x".to_string(), interpreter: "b".to_string() }));
    assert!(!x.same_as(&Binaries { path: "/y".to_string(), interpreter: "a".to_string() }));
}
