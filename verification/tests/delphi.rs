use fixdpr::delphi::{
    parse_reg_query_value, resolve_source_roots, resolve_source_roots_with_lookup,
    version_candidates, RegistryAnswer,
};
use fixdpr::source_tree::SourceTree;
use fixdpr::text_map::TextMap;

#[test]
fn version_candidates_accept_short_and_long_forms() {
    assert_eq!(version_candidates("22"), vec!["22", "22.0"]);
    assert_eq!(version_candidates("22.0"), vec!["22.0", "22"]);
}

#[test]
fn version_candidates_edge_cases() {
    assert!(version_candidates("   ").is_empty());
    assert_eq!(version_candidates(" 22.1 "), vec!["22.1"]);
    assert_eq!(version_candidates(".0"), vec![".0"]);
    assert_eq!(version_candidates("X"), vec!["X", "X.0"]);
}

#[test]
fn parse_reg_query_value_extracts_root_dir() {
    let output = r#"
HKEY_CURRENT_USER\Software\Embarcadero\BDS\22.0
    RootDir    REG_SZ    C:\Program Files (x86)\Embarcadero\Studio\22.0\
"#;
    let value = parse_reg_query_value(output, "RootDir");
    assert_eq!(value.as_deref(), Some(r"C:\Program Files (x86)\Embarcadero\Studio\22.0\"));
}

#[test]
fn parse_reg_query_value_edge_cases() {
    assert_eq!(parse_reg_query_value("", "RootDir"), None);
    assert_eq!(parse_reg_query_value("RootDir\nRootDir REG_SZ C:\\x", "RootDir"), None);
    assert_eq!(
        parse_reg_query_value("rootdir REG_SZ\r\nROOTDIR REG_SZ  D:\\y  z \r\n", "RootDir"),
        Some("D:\\y z".to_string())
    );
    assert_eq!(parse_reg_query_value("Other REG_SZ C:\\x", "RootDir"), None);
}

#[test]
fn resolve_source_roots_with_lookup_builds_source_paths() {
    let tree = SourceTree::new();
    let dirs = vec!["/tmp/bds22/source".to_string(), "/tmp/bds23/source".to_string()];
    let mut lookup = TextMap::new();
    lookup.insert("22".to_string(), RegistryAnswer::Found("/tmp/bds22".to_string()));
    lookup.insert("23.0".to_string(), RegistryAnswer::Found("/tmp/bds23".to_string()));
    let versions = vec!["22".to_string(), "23.0".to_string()];
    let roots = resolve_source_roots_with_lookup(&tree, &dirs, &versions, &lookup)
        .expect("resolve roots");
    assert_eq!(roots.len(), 2);
    assert!(roots.iter().any(|path| path.ends_with("bds22/source")));
    assert!(roots.iter().any(|path| path.ends_with("bds23/source")));
    assert_eq!(roots, dirs);
}

#[test]
fn resolve_source_roots_with_lookup_requires_existing_source_dir() {
    let tree = SourceTree::new();
    let dirs: Vec<String> = Vec::new();
    let mut lookup = TextMap::new();
    lookup.insert("22".to_string(), RegistryAnswer::Found("/tmp/bds22".to_string()));
    let versions = vec!["22".to_string()];
    let err = resolve_source_roots_with_lookup(&tree, &dirs, &versions, &lookup)
        .expect_err("expected missing source error");
    assert!(err.contains("Delphi source path not found"), "{err}");
    assert_eq!(err, "Delphi source path not found for --delphi-version 22: /tmp/bds22/source");
}

#[test]
fn resolve_source_roots_with_lookup_reports_each_fault() {
    let mut tree = SourceTree::new();
    tree.add_file("/tmp/bds24/source".to_string(), Vec::new());
    let dirs = vec!["/tmp/B/source".to_string(), "/tmp/a/source".to_string()];
    let mut lookup = TextMap::new();
    lookup.insert("24".to_string(), RegistryAnswer::Found("/tmp/bds24".to_string()));
    lookup.insert("25".to_string(), RegistryAnswer::Missing);
    lookup.insert("26".to_string(), RegistryAnswer::Failed("no registry".to_string()));
    lookup.insert("1".to_string(), RegistryAnswer::Found("/tmp/B".to_string()));
    lookup.insert("2".to_string(), RegistryAnswer::Found("/tmp/a".to_string()));
    lookup.insert("3".to_string(), RegistryAnswer::Found("/tmp/A".to_string()));
    let run = |versions: &[&str]| {
        let versions: Vec<String> = versions.iter().map(|v| v.to_string()).collect();
        resolve_source_roots_with_lookup(&tree, &dirs, &versions, &lookup)
    };
    assert_eq!(
        run(&["24"]),
        Err("Delphi source path is not a directory for --delphi-version 24: /tmp/bds24/source"
            .to_string())
    );
    assert_eq!(run(&["25"]), Err("--delphi-version not found in registry: 25".to_string()));
    assert_eq!(run(&["27"]), Err("--delphi-version not found in registry: 27".to_string()));
    assert_eq!(run(&["26"]), Err("no registry".to_string()));
    assert_eq!(
        run(&[" 1 ", "", "2", "1"]),
        Ok(vec!["/tmp/a/source".to_string(), "/tmp/B/source".to_string()])
    );
}

#[test]
fn resolve_source_roots_needs_a_registry() {
    assert_eq!(resolve_source_roots(&vec![" ".to_string(), String::new()]), Ok(Vec::new()));
    assert_eq!(
        resolve_source_roots(&vec!["9999.9999".to_string()]),
        Err("--delphi-version is only supported on Windows".to_string())
    );
}
