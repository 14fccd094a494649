use xy_build::options::{
    Config, NodeModules, NodePackageManagers, Parseable, ProjectType, Remainder, Run, StringValue,
};
use xy_build::parser::{Entry, Key, Value};

fn known(s: &str) -> Value {
    Value::KnownIdent(s.to_string())
}

fn quoted(s: &str) -> Value {
    Value::UnknownIdent(s.to_string())
}

fn entry(key: Key, value: Value) -> Entry {
    Entry { key, value, key_row: 0, key_col: 0 }
}

fn field(name: &str, value: Value) -> Entry {
    entry(Key::KnownIdent(name.to_string()), value)
}

fn extra(name: &str, value: Value) -> Entry {
    entry(Key::UnknownIdent(name.to_string()), value)
}

fn err<T>(r: Result<T, String>) -> String {
    match r {
        Ok(_) => panic!("expected an error"),
        Err(e) => e,
    }
}

#[test]
fn string_value_needs_quotes() {
    assert_eq!(StringValue::parse(&quoted("hello")).unwrap().0, "hello");
    assert_eq!(err(StringValue::parse(&known("hello"))), "this needs to be a quoted value");
    assert_eq!(err(StringValue::parse(&Value::Block(vec![]))), "this needs to be a quoted value");
    assert!(StringValue::options().is_none());
}

#[test]
fn remainder_is_never_parsed_directly() {
    assert_eq!(err(Remainder::parse(&quoted("x"))), "remainder should not be parsed");
    assert!(Remainder::options().is_none());
}

#[test]
fn project_type_reads_its_variants() {
    assert_eq!(ProjectType::parse(&known("Node")).unwrap(), ProjectType::Node);
    assert_eq!(ProjectType::parse(&known("Rust")).unwrap(), ProjectType::Rust);
    assert_eq!(err(ProjectType::parse(&known("Go"))), "unknown variant: Go");
    assert_eq!(err(ProjectType::parse(&quoted("Rust"))), "this needs to be an unquoted, known value");
    assert_eq!(ProjectType::options().unwrap(), vec!["Node".to_string(), "Rust".to_string()]);
}

#[test]
fn options_list_exactly_the_accepted_names() {
    for name in ProjectType::options().unwrap() {
        assert!(ProjectType::parse(&known(&name)).is_ok());
    }
    for name in NodePackageManagers::options().unwrap() {
        assert!(NodePackageManagers::parse(&known(&name)).is_ok());
    }
    assert!(ProjectType::parse(&known("node")).is_err());
    assert!(NodePackageManagers::parse(&known("yarn")).is_err());
}

#[test]
fn package_manager_reads_its_variants() {
    assert_eq!(NodePackageManagers::parse(&known("Pnpm")).unwrap(), NodePackageManagers::Pnpm);
    assert_eq!(NodePackageManagers::parse(&known("Npm")).unwrap(), NodePackageManagers::Npm);
    assert_eq!(err(NodePackageManagers::parse(&known("Yarn"))), "unknown variant: Yarn");
    assert_eq!(
        NodePackageManagers::options().unwrap(),
        vec!["Pnpm".to_string(), "Npm".to_string()]
    );
}

#[test]
fn remainder_insert_replaces_and_get_reads_back() {
    let mut r = Remainder::new();
    r.insert("a".to_string(), quoted("1"));
    r.insert("b".to_string(), quoted("2"));
    r.insert("a".to_string(), quoted("3"));
    assert_eq!(r.0.len(), 2);
    assert_eq!(r.get("a"), Some(&quoted("3")));
    assert_eq!(r.get("b"), Some(&quoted("2")));
    assert_eq!(r.get("c"), None);
    assert_eq!(r.0[0].0, "a");
}

#[test]
fn run_collects_quoted_keys() {
    let block = Value::Block(vec![
        extra("build", quoted("cargo build")),
        extra("test", quoted("cargo test")),
        extra("build", quoted("cargo build --release")),
    ]);
    let run = Run::parse(&block).unwrap();
    let rem = run.rem.unwrap();
    assert_eq!(rem.0.len(), 2);
    assert_eq!(rem.get("build"), Some(&quoted("cargo build --release")));
    assert_eq!(rem.get("test"), Some(&quoted("cargo test")));
}

#[test]
fn run_rejects_unquoted_keys() {
    let block = Value::Block(vec![extra("build", quoted("x")), field("build", quoted("y"))]);
    assert_eq!(err(Run::parse(&block)), "unknown field: build");
    assert_eq!(err(Run::parse(&known("x"))), "this needs to be a block");
    assert!(Run::options().unwrap().is_empty());
}

#[test]
fn node_modules_reads_manager_and_deps() {
    let block = Value::Block(vec![
        field("package_manager", known("Pnpm")),
        extra("react", quoted("18")),
    ]);
    let nm = NodeModules::parse(&block).unwrap();
    assert_eq!(nm.package_manager, Some(NodePackageManagers::Pnpm));
    assert_eq!(nm.deps.unwrap().get("react"), Some(&quoted("18")));
    assert_eq!(NodeModules::options().unwrap(), vec!["package_manager".to_string()]);
}

#[test]
fn node_modules_errors() {
    let dup = Value::Block(vec![
        field("package_manager", known("Pnpm")),
        field("package_manager", known("Npm")),
    ]);
    assert_eq!(err(NodeModules::parse(&dup)), "duplicate field: package_manager");
    let unknown = Value::Block(vec![field("registry", known("x"))]);
    assert_eq!(err(NodeModules::parse(&unknown)), "unknown field: registry");
    let bad = Value::Block(vec![field("package_manager", known("Yarn"))]);
    assert_eq!(err(NodeModules::parse(&bad)), "unknown variant: Yarn");
    assert_eq!(err(NodeModules::parse(&quoted("x"))), "this needs to be a block");
}

#[test]
fn config_reads_every_field() {
    let block = Value::Block(vec![
        field("project_type", known("Node")),
        field("node_modules", Value::Block(vec![field("package_manager", known("Npm"))])),
        field("run", Value::Block(vec![extra("start", quoted("node ."))])),
    ]);
    let config = Config::parse(&block).unwrap();
    assert_eq!(config.project_type, Some(ProjectType::Node));
    let nm = config.node_modules.unwrap();
    assert_eq!(nm.package_manager, Some(NodePackageManagers::Npm));
    assert_eq!(nm.deps.unwrap().0.len(), 0);
    assert_eq!(config.run.unwrap().rem.unwrap().get("start"), Some(&quoted("node .")));
    assert_eq!(
        Config::options().unwrap(),
        vec!["project_type".to_string(), "node_modules".to_string(), "run".to_string()]
    );
}

#[test]
fn config_fields_left_out_stay_unset() {
    let config = Config::parse(&Value::Block(vec![])).unwrap();
    assert!(config.project_type.is_none());
    assert!(config.node_modules.is_none());
    assert!(config.run.is_none());
    let only = Config::parse(&Value::Block(vec![field("project_type", known("Rust"))])).unwrap();
    assert_eq!(only.project_type, Some(ProjectType::Rust));
    assert!(only.run.is_none());
}

#[test]
fn config_errors() {
    let dup = Value::Block(vec![
        field("project_type", known("Node")),
        field("project_type", known("Rust")),
    ]);
    assert_eq!(err(Config::parse(&dup)), "duplicate field: project_type");
    let dup_run = Value::Block(vec![
        field("run", Value::Block(vec![])),
        field("run", Value::Block(vec![])),
    ]);
    assert_eq!(err(Config::parse(&dup_run)), "duplicate field: run");
    let dup_nm = Value::Block(vec![
        field("node_modules", Value::Block(vec![])),
        field("node_modules", Value::Block(vec![])),
    ]);
    assert_eq!(err(Config::parse(&dup_nm)), "duplicate field: node_modules");
    assert_eq!(
        err(Config::parse(&Value::Block(vec![field("colour", known("red"))]))),
        "unknown field: colour"
    );
    assert_eq!(
        err(Config::parse(&Value::Block(vec![extra("project_type", known("Rust"))]))),
        "unknown field: project_type"
    );
    assert_eq!(err(Config::parse(&known("x"))), "this needs to be a block");
    let nested = Value::Block(vec![field("run", known("x"))]);
    assert_eq!(err(Config::parse(&nested)), "this needs to be a block");
    let first_error_wins = Value::Block(vec![
        field("project_type", known("Go")),
        field("colour", known("red")),
    ]);
    assert_eq!(err(Config::parse(&first_error_wins)), "unknown variant: Go");
}
