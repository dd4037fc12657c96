use sizes::config::{normalize_root, Cli, Config, EntryKind, OutputFormat, RootKind};

fn cli(types: Vec<String>, min_size: &str, max_output_size: &str) -> Cli {
    Cli {
        root: "some-root".into(),
        depth: None,
        min_size: min_size.into(),
        types,
        output: None,
        format: OutputFormat::Jsonl,
        max_output_size: max_output_size.into(),
        include_hidden: false,
        follow_symlinks: false,
        no_color: true,
        top: 10,
    }
}

#[test]
fn repeated_type_values_parse() {
    let c = cli(vec!["file".into(), "dir".into()], "0", "1MB");
    let config = Config::try_from_cli(c, RootKind::Directory, "out".into()).unwrap();
    assert!(config.types.contains(&EntryKind::File));
    assert!(config.types.contains(&EntryKind::Directory));
}

#[test]
fn bad_type_fails() {
    let c = cli(vec!["banana".into()], "0", "1MB");
    assert!(Config::try_from_cli(c, RootKind::Directory, "out".into()).is_err());
}

#[test]
fn bare_drive_root_normalizes() {
    assert_eq!(normalize_root("C:"), "C:\\");
}

#[test]
fn other_roots_stay() {
    assert_eq!(normalize_root("C:\\x"), "C:\\x");
    assert_eq!(normalize_root("1:"), "1:");
    assert_eq!(normalize_root("."), ".");
    assert_eq!(normalize_root("z:"), "z:\\");
}

#[test]
fn config_fields_and_defaults() {
    let mut c = cli(vec![], "10KB", "50MB");
    c.depth = Some(3);
    c.top = 7;
    c.include_hidden = true;
    let config = Config::try_from_cli(c, RootKind::Directory, "size-report".into()).unwrap();
    assert_eq!(config.min_size, 10240);
    assert_eq!(config.max_output_size, 50 * 1048576);
    assert_eq!(config.depth, Some(3));
    assert_eq!(config.top, 7);
    assert!(config.include_hidden);
    assert_eq!(config.output_dir, "size-report");
    assert!(config.should_emit_kind(EntryKind::File));
    assert!(config.should_emit_kind(EntryKind::Directory));
}

#[test]
fn type_values_trim_and_case() {
    let c = cli(vec![" Files ".into()], "0", "1MB");
    let config = Config::try_from_cli(c, RootKind::Directory, "o".into()).unwrap();
    assert!(config.should_emit_kind(EntryKind::File));
    assert!(!config.should_emit_kind(EntryKind::Directory));
    let c = cli(vec!["DIRECTORIES".into()], "0", "1MB");
    let config = Config::try_from_cli(c, RootKind::Directory, "o".into()).unwrap();
    assert!(!config.should_emit_kind(EntryKind::File));
    assert!(config.should_emit_kind(EntryKind::Directory));
}

#[test]
fn config_errors_in_order() {
    let c = cli(vec!["banana".into()], "x", "0");
    assert_eq!(
        Config::try_from_cli(c.clone(), RootKind::Missing, "o".into()).unwrap_err(),
        "root does not exist: some-root"
    );
    assert_eq!(
        Config::try_from_cli(c.clone(), RootKind::NotDirectory, "o".into()).unwrap_err(),
        "root is not a directory: some-root"
    );
    assert_eq!(
        Config::try_from_cli(c, RootKind::Directory, "o".into()).unwrap_err(),
        "invalid size: x"
    );
    let c = cli(vec!["banana".into()], "1", "0");
    assert_eq!(
        Config::try_from_cli(c, RootKind::Directory, "o".into()).unwrap_err(),
        "--max-output-size must be greater than zero"
    );
    let c = cli(vec!["file".into(), " BaNaNa ".into(), "nope".into()], "1", "1");
    assert_eq!(
        Config::try_from_cli(c, RootKind::Directory, "o".into()).unwrap_err(),
        "invalid --type value: banana"
    );
    let mut c = cli(vec![], "1", "1");
    c.root = "D:".into();
    assert_eq!(
        Config::try_from_cli(c, RootKind::Missing, "o".into()).unwrap_err(),
        "root does not exist: D:\\"
    );
}
