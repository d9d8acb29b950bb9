use fixdpr::delphi::{lookup_bds_root_from_registry, registry_key_paths};
use fixdpr::dpr_closure::{collect_fix_root_paths, collect_missing_dpr_dependencies};
use fixdpr::dpr_parse::{detect_line_ending, infer_indent, parse_dpr_uses};
use fixdpr::dpr_resolve::{build_project_map, resolve_dpr_unit_path};
use fixdpr::dpr_walk::{
    compute_project_dependents, find_direct_introducer_index, mark_dependents, needs_new_unit,
};
use fixdpr::source_tree::SourceTree;
use fixdpr::text_map::TextMap;
use fixdpr::unit_cache::{build_unit_cache, load_unit_file, unit_name_from_stem, UnitCache};

fn tree_with(files: &[(&str, &str)]) -> SourceTree {
    let mut tree = SourceTree::new();
    for (path, contents) in files {
        tree.add_file(path.to_string(), contents.as_bytes().to_vec());
    }
    tree
}

fn cache_for(tree: &SourceTree, paths: &[&str]) -> (UnitCache, Vec<String>) {
    let paths: Vec<String> = paths.iter().map(|p| p.to_string()).collect();
    let mut warnings = Vec::new();
    match build_unit_cache(tree, &paths, &mut warnings) {
        Ok(cache) => (cache, warnings),
        Err(_) => panic!("unreadable unit"),
    }
}

fn unit(name: &str, uses: &str) -> String {
    if uses.is_empty() {
        format!("unit {name};\ninterface\nimplementation\nend.\n")
    } else {
        format!("unit {name};\ninterface\nuses {uses};\nimplementation\nend.\n")
    }
}

fn walk_fixture() -> SourceTree {
    tree_with(&[
        ("/p/App.dpr", "program App;\nuses A, B, C;\nbegin\nend.\n"),
        ("/p/A.pas", &unit("A", "Mid")),
        ("/p/B.pas", &unit("B", "NewUnit")),
        ("/p/C.pas", &unit("C", "")),
        ("/p/Mid.pas", &unit("Mid", "newunit")),
        ("/p/NewUnit.pas", &unit("NewUnit", "")),
    ])
}

const WALK_UNITS: [&str; 5] = ["/p/A.pas", "/p/B.pas", "/p/C.pas", "/p/Mid.pas", "/p/NewUnit.pas"];

#[test]
fn dependents_are_the_units_that_reach_a_direct_importer() {
    let tree = walk_fixture();
    let (cache, _) = cache_for(&tree, &WALK_UNITS);
    let mut warnings = Vec::new();
    let bytes = tree.read("/p/App.dpr").expect("dpr").clone();
    let list = parse_dpr_uses(&tree, "/p/App.dpr", &bytes, &mut warnings).expect("list");
    let map = build_project_map(&tree, "/p/App.dpr", &list, &cache, None, &mut warnings);
    assert_eq!(map.keys, vec!["a".to_string(), "b".to_string(), "c".to_string()]);
    assert_eq!(
        map.values,
        vec!["/p/A.pas".to_string(), "/p/B.pas".to_string(), "/p/C.pas".to_string()]
    );
    let new_unit = match load_unit_file(&tree, "/p/NewUnit.pas", &mut warnings) {
        Ok(Some(unit)) => unit,
        _ => panic!("new unit"),
    };
    let found = match compute_project_dependents(&tree, &cache, None, &map, &new_unit, &mut warnings)
    {
        Ok(found) => found,
        Err(_) => panic!("unreadable unit"),
    };
    assert_eq!(
        found.paths,
        vec![
            "/p/A.pas".to_string(),
            "/p/B.pas".to_string(),
            "/p/C.pas".to_string(),
            "/p/Mid.pas".to_string()
        ]
    );
    assert_eq!(found.direct, vec![false, true, false, true]);
    assert_eq!(found.dependents, vec![true, true, false, true]);
    assert!(needs_new_unit(&list, &map, &found));
    assert_eq!(find_direct_introducer_index(&list, &map, &found), Some(1));
    assert_eq!(
        warnings,
        vec![
            "warning: missing in-path for unit A in /p/App.dpr (resolved via scan)".to_string(),
            "warning: missing in-path for unit B in /p/App.dpr (resolved via scan)".to_string(),
            "warning: missing in-path for unit C in /p/App.dpr (resolved via scan)".to_string(),
        ]
    );
}

#[test]
fn a_project_without_importers_needs_nothing() {
    let tree = tree_with(&[
        ("/p/App.dpr", "program App;\nuses C;\nbegin\nend.\n"),
        ("/p/C.pas", &unit("C", "")),
        ("/p/NewUnit.pas", &unit("NewUnit", "")),
    ]);
    let (cache, _) = cache_for(&tree, &["/p/C.pas", "/p/NewUnit.pas"]);
    let mut warnings = Vec::new();
    let bytes = tree.read("/p/App.dpr").expect("dpr").clone();
    let list = parse_dpr_uses(&tree, "/p/App.dpr", &bytes, &mut warnings).expect("list");
    let map = build_project_map(&tree, "/p/App.dpr", &list, &cache, None, &mut warnings);
    let new_unit = match load_unit_file(&tree, "/p/NewUnit.pas", &mut warnings) {
        Ok(Some(unit)) => unit,
        _ => panic!("new unit"),
    };
    let found = match compute_project_dependents(&tree, &cache, None, &map, &new_unit, &mut warnings)
    {
        Ok(found) => found,
        Err(_) => panic!("unreadable unit"),
    };
    assert_eq!(found.direct, vec![false]);
    assert_eq!(found.dependents, vec![false]);
    assert!(!needs_new_unit(&list, &map, &found));
    assert_eq!(find_direct_introducer_index(&list, &map, &found), None);
}

#[test]
fn marks_go_back_along_the_users() {
    let users = vec![vec![1usize], vec![2usize], vec![], vec![]];
    assert_eq!(
        mark_dependents(&users, &vec![true, false, false, false]),
        vec![true, true, true, false]
    );
    assert_eq!(
        mark_dependents(&users, &vec![false, true, false, false]),
        vec![false, true, true, false]
    );
    assert_eq!(
        mark_dependents(&users, &vec![false, false, false, false]),
        vec![false, false, false, false]
    );
    let ring = vec![vec![1usize], vec![0usize]];
    assert_eq!(mark_dependents(&ring, &vec![false, true]), vec![true, true]);
}

#[test]
fn project_map_prefers_the_declared_file_that_exists() {
    let tree = tree_with(&[
        ("/p/App.dpr", "program App;\nuses A in 'lib/A.pas', B in 'gone/B.pas', Zed;\nbegin\nend.\n"),
        ("/p/lib/A.pas", &unit("A", "")),
        ("/p/src/A.pas", &unit("A", "")),
        ("/p/src/B.pas", &unit("B", "")),
    ]);
    let (cache, _) = cache_for(&tree, &["/p/src/A.pas", "/p/src/B.pas"]);
    let mut warnings = Vec::new();
    let bytes = tree.read("/p/App.dpr").expect("dpr").clone();
    let list = parse_dpr_uses(&tree, "/p/App.dpr", &bytes, &mut warnings).expect("list");
    let map = build_project_map(&tree, "/p/App.dpr", &list, &cache, None, &mut warnings);
    assert_eq!(map.keys, vec!["a".to_string(), "b".to_string()]);
    assert_eq!(map.values, vec!["/p/lib/A.pas".to_string(), "/p/src/B.pas".to_string()]);
    assert_eq!(resolve_dpr_unit_path(&tree, "/p/App.dpr", "lib/A.pas"), "/p/lib/A.pas");
    assert_eq!(resolve_dpr_unit_path(&tree, "/p/App.dpr", "/q/A.pas"), "/q/A.pas");
}

#[test]
fn repair_roots_are_the_declared_units_that_the_caches_know() {
    let tree = tree_with(&[
        ("/p/App.dpr", "program App;\nuses A, Loose in 'x/Loose.pas', a;\nbegin\nend.\n"),
        ("/p/A.pas", &unit("A", "B")),
        ("/p/B.pas", &unit("B", "C, A")),
        ("/p/C.pas", &unit("C", "")),
        ("/p/x/Loose.pas", &unit("Loose", "")),
    ]);
    let (cache, _) = cache_for(&tree, &["/p/A.pas", "/p/B.pas", "/p/C.pas"]);
    let mut warnings = Vec::new();
    let bytes = tree.read("/p/App.dpr").expect("dpr").clone();
    let list = parse_dpr_uses(&tree, "/p/App.dpr", &bytes, &mut warnings).expect("list");
    let map = build_project_map(&tree, "/p/App.dpr", &list, &cache, None, &mut warnings);
    let roots =
        collect_fix_root_paths(&tree, "/p/App.dpr", &list, &map, &cache, None, &mut warnings);
    assert_eq!(roots, vec!["/p/A.pas".to_string()]);
    assert_eq!(
        warnings,
        vec![
            "warning: missing in-path for unit A in /p/App.dpr (resolved via scan)".to_string(),
            "warning: missing in-path for unit a in /p/App.dpr (resolved via scan)".to_string(),
            "warning: unit Loose in /p/App.dpr resolved outside known unit caches and will be ignored"
                .to_string(),
        ]
    );
    let existing = vec!["a".to_string(), "loose".to_string()];
    let missing =
        collect_missing_dpr_dependencies(&tree, &roots, &existing, &cache, None, &mut warnings);
    let names: Vec<&str> = missing.iter().map(|unit| unit.name.as_str()).collect();
    assert_eq!(names, vec!["B", "C"]);
    assert_eq!(missing[0].path, "/p/B.pas");
}

#[test]
fn line_ending_and_indent_are_read_from_the_text() {
    assert!(detect_line_ending(b"uses\r\n  Foo;"));
    assert!(!detect_line_ending(b"uses\n  Foo;\r"));
    assert!(!detect_line_ending(b""));
    assert_eq!(infer_indent(b"uses\n  Foo;", 7), "  ");
    assert_eq!(infer_indent(b"uses\n\t Foo;", 7), "\t ");
    assert_eq!(infer_indent(b"uses Foo;", 5), "");
}

#[test]
fn the_file_name_gives_a_unit_name() {
    assert_eq!(unit_name_from_stem("/p/My.Unit.pas"), Some("My.Unit".to_string()));
    assert_eq!(unit_name_from_stem("/p/Plain"), Some("Plain".to_string()));
    assert_eq!(unit_name_from_stem("/"), None);
}

#[test]
fn the_registry_is_asked_under_each_spelling_and_base() {
    assert_eq!(
        registry_key_paths("23"),
        vec![
            "HKCU\\Software\\Embarcadero\\BDS\\23".to_string(),
            "HKLM\\Software\\Embarcadero\\BDS\\23".to_string(),
            "HKLM\\Software\\WOW6432Node\\Embarcadero\\BDS\\23".to_string(),
            "HKCU\\Software\\Embarcadero\\BDS\\23.0".to_string(),
            "HKLM\\Software\\Embarcadero\\BDS\\23.0".to_string(),
            "HKLM\\Software\\WOW6432Node\\Embarcadero\\BDS\\23.0".to_string(),
        ]
    );
    assert!(registry_key_paths("  ").is_empty());

    let mut outputs: TextMap<String> = TextMap::new();
    outputs.insert(
        "HKLM\\Software\\Embarcadero\\BDS\\23".to_string(),
        "\r\nHKEY\r\n    RootDir    REG_SZ    \r\n".to_string(),
    );
    outputs.insert(
        "HKCU\\Software\\Embarcadero\\BDS\\23.0".to_string(),
        "\r\nHKEY\r\n    RootDir    REG_SZ    \"C:\\Delphi 23\\\"\r\n".to_string(),
    );
    assert_eq!(lookup_bds_root_from_registry("23", &outputs), Some("C:\\Delphi 23\\".to_string()));
    assert_eq!(lookup_bds_root_from_registry("22", &outputs), None);
}
