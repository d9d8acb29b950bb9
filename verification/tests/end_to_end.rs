use fixdpr::dpr_edit::{fix_dpr_file, update_dpr_files, DprUpdateSummary};
use fixdpr::dpr_parse::parse_dpr_uses;
use fixdpr::fs_walk::{resolve_search_roots, search_pattern_walk_root};
use fixdpr::source_tree::SourceTree;
use fixdpr::unit_cache::{build_unit_cache, load_unit_file, UnitCache, UnitFileInfo};

fn tree_of(files: &[(&str, &str)]) -> SourceTree {
    let mut tree = SourceTree::new();
    for (path, contents) in files {
        tree.add_file(path.to_string(), contents.as_bytes().to_vec());
    }
    tree
}

fn cache_of(tree: &SourceTree, paths: &[&str]) -> UnitCache {
    let paths: Vec<String> = paths.iter().map(|p| p.to_string()).collect();
    let mut warnings = Vec::new();
    match build_unit_cache(tree, &paths, &mut warnings) {
        Ok(cache) => cache,
        Err(_) => panic!("unreadable unit"),
    }
}

fn unit_at(tree: &SourceTree, path: &str) -> UnitFileInfo {
    let mut warnings = Vec::new();
    match load_unit_file(tree, path, &mut warnings) {
        Ok(Some(unit)) => unit,
        _ => panic!("new unit"),
    }
}

fn run(
    tree: &mut SourceTree,
    dprs: &[&str],
    cache: &UnitCache,
    delphi: Option<&UnitCache>,
    new_unit: &UnitFileInfo,
    introduced: bool,
) -> DprUpdateSummary {
    let dprs: Vec<String> = dprs.iter().map(|p| p.to_string()).collect();
    let summary = match update_dpr_files(tree, &dprs, cache, delphi, new_unit, introduced) {
        Ok(summary) => summary,
        Err(_) => panic!("unreadable unit"),
    };
    for write in &summary.writes {
        tree.add_file(write.path.clone(), write.bytes.clone());
    }
    summary
}

fn contents(tree: &SourceTree, path: &str) -> String {
    String::from_utf8(tree.read(path).expect("file").clone()).unwrap()
}

fn delphi_path_fixture() -> SourceTree {
    tree_of(&[
        ("/t/project/App.dpr", "program App;\nuses\n  UnitA in 'UnitA.pas';\nbegin\nend.\n"),
        ("/t/project/UnitA.pas", "unit UnitA;\ninterface\nuses ExtMid;\nimplementation\nend.\n"),
        ("/t/delphi/ExtMid.pas", "unit ExtMid;\ninterface\nuses NewUnit;\nimplementation\nend.\n"),
        ("/t/delphi/NewUnit.pas", "unit NewUnit;\ninterface\nimplementation\nend.\n"),
    ])
}

#[test]
fn end_to_end_delphi_path_enables_transitive_external_resolution() {
    let mut without = delphi_path_fixture();
    let cache = cache_of(&without, &["/t/project/UnitA.pas"]);
    let new_unit = unit_at(&without, "/t/delphi/NewUnit.pas");
    let summary = run(&mut without, &["/t/project/App.dpr"], &cache, None, &new_unit, true);
    assert_eq!(summary.failures, 0);
    let without_dpr = contents(&without, "/t/project/App.dpr");
    assert!(
        !without_dpr.contains("NewUnit in "),
        "dpr should stay unchanged without the fallback cache:\n{without_dpr}"
    );

    let mut with = delphi_path_fixture();
    let delphi = cache_of(&with, &["/t/delphi/ExtMid.pas", "/t/delphi/NewUnit.pas"]);
    let summary = run(&mut with, &["/t/project/App.dpr"], &cache, Some(&delphi), &new_unit, true);
    assert_eq!(summary.failures, 0);
    let with_dpr = contents(&with, "/t/project/App.dpr");
    assert!(
        with_dpr.contains("NewUnit in '..\\delphi\\NewUnit.pas'"),
        "dpr should include NewUnit via transitive external dependency:\n{with_dpr}"
    );
}

fn introduced_fixture() -> SourceTree {
    tree_of(&[
        ("/t/app/App.dpr", "program App;\nuses\n  UnitA in 'UnitA.pas';\nbegin\nend.\n"),
        ("/t/app/UnitA.pas", "unit UnitA;\ninterface\nuses NewUnit;\nimplementation\nend.\n"),
        ("/t/shared/NewUnit.pas", "unit NewUnit;\ninterface\nuses MidUnit;\nimplementation\nend.\n"),
        ("/t/shared/MidUnit.pas", "unit MidUnit;\ninterface\nuses BaseUnit;\nimplementation\nend.\n"),
        ("/t/shared/BaseUnit.pas", "unit BaseUnit;\ninterface\nimplementation\nend.\n"),
    ])
}

const INTRODUCED_UNITS: [&str; 4] = [
    "/t/app/UnitA.pas",
    "/t/shared/BaseUnit.pas",
    "/t/shared/MidUnit.pas",
    "/t/shared/NewUnit.pas",
];

#[test]
fn end_to_end_adds_introduced_dependencies_by_default() {
    let mut tree = introduced_fixture();
    let cache = cache_of(&tree, &INTRODUCED_UNITS);
    let new_unit = unit_at(&tree, "/t/shared/NewUnit.pas");
    let summary = run(&mut tree, &["/t/app/App.dpr"], &cache, None, &new_unit, true);
    assert_eq!(summary.failures, 0);
    assert_eq!(summary.updated, 1);
    assert_eq!(summary.writes.len(), 3);
    let dpr = contents(&tree, "/t/app/App.dpr");
    assert!(dpr.contains("NewUnit in '..\\shared\\NewUnit.pas'"), "missing NewUnit entry:\n{dpr}");
    assert!(dpr.contains("MidUnit in '..\\shared\\MidUnit.pas'"), "missing MidUnit entry:\n{dpr}");
    assert!(dpr.contains("BaseUnit in '..\\shared\\BaseUnit.pas'"), "missing BaseUnit entry:\n{dpr}");
    assert_eq!(
        dpr,
        "program App;\nuses\n  UnitA in 'UnitA.pas',\n  NewUnit in '..\\shared\\NewUnit.pas',\n  \
         MidUnit in '..\\shared\\MidUnit.pas',\n  BaseUnit in '..\\shared\\BaseUnit.pas';\nbegin\nend.\n"
    );

    let again = run(&mut tree, &["/t/app/App.dpr"], &cache, None, &new_unit, true);
    assert_eq!(again.updated, 0);
    assert_eq!(again.failures, 0);
    assert!(again.writes.is_empty());
    assert_eq!(contents(&tree, "/t/app/App.dpr"), dpr);
}

#[test]
fn end_to_end_disable_introduced_dependencies_flag_restores_single_insert_behavior() {
    let mut tree = introduced_fixture();
    let cache = cache_of(&tree, &INTRODUCED_UNITS);
    let new_unit = unit_at(&tree, "/t/shared/NewUnit.pas");
    let summary = run(&mut tree, &["/t/app/App.dpr"], &cache, None, &new_unit, false);
    assert_eq!(summary.failures, 0);
    assert_eq!(summary.writes.len(), 1);
    let dpr = contents(&tree, "/t/app/App.dpr");
    assert!(dpr.contains("NewUnit in '..\\shared\\NewUnit.pas'"), "missing NewUnit entry:\n{dpr}");
    assert!(
        !dpr.contains("MidUnit in '..\\shared\\MidUnit.pas'"),
        "MidUnit should not be inserted when disabled:\n{dpr}"
    );
    assert!(
        !dpr.contains("BaseUnit in '..\\shared\\BaseUnit.pas'"),
        "BaseUnit should not be inserted when disabled:\n{dpr}"
    );
}

#[test]
fn two_files_with_one_unit_name_are_never_chosen_between() {
    let mut tree = tree_of(&[
        ("/t/App.dpr", "program App;\nuses Foo, Shared;\nbegin end."),
        ("/t/Foo.pas", "unit Foo;\ninterface\nuses Shared;\nend."),
        ("/t/a/Shared.pas", "unit Shared;\ninterface\nuses NewUnit;\nend."),
        ("/t/b/Shared.pas", "unit Shared;\ninterface\nend."),
        ("/t/NewUnit.pas", "unit NewUnit;\ninterface\nend."),
    ]);
    let cache = cache_of(
        &tree,
        &["/t/Foo.pas", "/t/a/Shared.pas", "/t/b/Shared.pas", "/t/NewUnit.pas"],
    );
    let new_unit = unit_at(&tree, "/t/NewUnit.pas");
    let summary = run(&mut tree, &["/t/App.dpr"], &cache, None, &new_unit, true);
    assert_eq!(summary.updated, 0);
    assert!(summary.writes.is_empty());
    assert_eq!(
        summary.warnings,
        vec![
            "warning: missing in-path for unit Foo in /t/App.dpr (resolved via scan)".to_string(),
            "warning: missing in-path for unit Shared in /t/App.dpr (2 project matches)"
                .to_string(),
            "warning: ambiguous unit Shared referenced by /t/Foo.pas (2 project matches)"
                .to_string(),
        ]
    );
}

#[test]
fn a_project_file_without_a_clause_is_a_failure() {
    let mut tree = tree_of(&[
        ("/t/Empty.dpr", "program Empty;\nbegin end."),
        ("/t/NewUnit.pas", "unit NewUnit;\ninterface\nend."),
    ]);
    let cache = cache_of(&tree, &["/t/NewUnit.pas"]);
    let new_unit = unit_at(&tree, "/t/NewUnit.pas");
    let summary = run(&mut tree, &["/t/Empty.dpr", "/t/Gone.dpr"], &cache, None, &new_unit, true);
    assert_eq!(summary.scanned, 2);
    assert_eq!(summary.failures, 2);
    assert_eq!(summary.updated, 0);
    assert_eq!(
        summary.warnings,
        vec![
            "warning: no uses list found in /t/Empty.dpr".to_string(),
            "warning: failed to read dpr /t/Gone.dpr".to_string(),
        ]
    );
}

#[test]
fn an_include_file_with_a_semicolon_spoils_the_clause() {
    let tree = tree_of(&[("/t/Odd.inc", "Foo;\nBar,")]);
    let mut warnings = Vec::new();
    let list = parse_dpr_uses(
        &tree,
        "/t/App.dpr",
        b"program App;\nuses {$I Odd.inc} Baz, {$I Gone.inc};\nbegin end.",
        &mut warnings,
    );
    assert!(list.is_none());
    assert_eq!(
        warnings,
        vec![
            "warning: include file /t/Odd.inc contains ';' in uses list",
            "warning: failed to read include /t/Gone.inc referenced by /t/App.dpr"
        ]
    );
    let tree = tree_of(&[("/t/Bad.inc", ";")]);
    let mut warnings = Vec::new();
    let list =
        parse_dpr_uses(&tree, "/t/App.dpr", b"uses Foo, {$I Bad.inc} Bar;", &mut warnings);
    assert!(list.is_none());
    assert_eq!(warnings, vec!["warning: include file /t/Bad.inc contains ';' in uses list"]);
}

#[test]
fn a_semicolon_behind_an_entry_of_an_include_file_is_a_failure() {
    let tree = tree_of(&[("/D/Uses.inc", "Foo;")]);
    let mut warnings = vec!["warning: before".to_string()];
    let list = parse_dpr_uses(
        &tree,
        "/D/Demo.dpr",
        b"program Demo;\nuses\n  {$I Uses.inc}\n  Qux;\nbegin end.",
        &mut warnings,
    );
    assert!(list.is_none());
    assert_eq!(
        warnings,
        vec![
            "warning: before".to_string(),
            "warning: include file /D/Uses.inc contains ';' in uses list".to_string()
        ]
    );
    let mut tree = tree;
    tree.add_file(
        "/D/Demo.dpr".to_string(),
        b"program Demo;\nuses\n  {$I Uses.inc}\n  Qux;\nbegin end.".to_vec(),
    );
    tree.add_file("/D/Qux.pas".to_string(), b"unit Qux;\ninterface\nuses NewUnit;\nend.".to_vec());
    tree.add_file("/D/NewUnit.pas".to_string(), b"unit NewUnit;\ninterface\nend.".to_vec());
    let cache = cache_of(&tree, &["/D/Qux.pas", "/D/NewUnit.pas"]);
    let new_unit = unit_at(&tree, "/D/NewUnit.pas");
    let summary = run(&mut tree, &["/D/Demo.dpr"], &cache, None, &new_unit, true);
    assert_eq!(summary.scanned, 1);
    assert_eq!(summary.updated, 0);
    assert_eq!(summary.failures, 1);
    assert!(summary.writes.is_empty());
}

#[test]
fn entries_of_include_files_are_no_anchors() {
    let mut tree = tree_of(&[
        ("/t/App.dpr", "program App;\nuses {$I Uses.inc} Last;\nbegin end."),
        ("/t/Uses.inc", "Importer,"),
        ("/t/Importer.pas", "unit Importer;\ninterface\nuses NewUnit;\nend."),
        ("/t/Last.pas", "unit Last;\ninterface\nend."),
        ("/t/NewUnit.pas", "unit NewUnit;\ninterface\nend."),
    ]);
    let cache = cache_of(&tree, &["/t/Importer.pas", "/t/Last.pas", "/t/NewUnit.pas"]);
    let new_unit = unit_at(&tree, "/t/NewUnit.pas");
    let summary = run(&mut tree, &["/t/App.dpr"], &cache, None, &new_unit, false);
    assert_eq!(summary.updated, 1);
    assert_eq!(
        contents(&tree, "/t/App.dpr"),
        "program App;\nuses {$I Uses.inc} Last, NewUnit in 'NewUnit.pas';\nbegin end."
    );
    assert_eq!(contents(&tree, "/t/Uses.inc"), "Importer,");
}

#[test]
fn fix_repairs_in_the_order_of_discovery() {
    let mut tree = tree_of(&[
        ("/t/App.dpr", "program App;\nuses A, B;\nbegin end."),
        ("/t/A.pas", "unit A;\ninterface\nuses C, D;\nend."),
        ("/t/B.pas", "unit B;\ninterface\nuses E;\nend."),
        ("/t/C.pas", "unit C;\ninterface\nuses F;\nend."),
        ("/t/D.pas", "unit D;\ninterface\nend."),
        ("/t/E.pas", "unit E;\ninterface\nend."),
        ("/t/F.pas", "unit F;\ninterface\nuses A;\nend."),
    ]);
    let cache = cache_of(
        &tree,
        &["/t/A.pas", "/t/B.pas", "/t/C.pas", "/t/D.pas", "/t/E.pas", "/t/F.pas"],
    );
    let summary = fix_dpr_file(&tree, "/t/App.dpr", &cache, None);
    assert_eq!(summary.updated, 1);
    assert_eq!(summary.updated_paths, vec!["/t/App.dpr".to_string()]);
    assert_eq!(summary.writes.len(), 4);
    for write in &summary.writes {
        tree.add_file(write.path.clone(), write.bytes.clone());
    }
    assert_eq!(
        contents(&tree, "/t/App.dpr"),
        "program App;\nuses A, B, C in 'C.pas', D in 'D.pas', E in 'E.pas', F in 'F.pas';\nbegin end."
    );
}

#[test]
fn search_roots_are_matched_sorted_and_kept_once() {
    let tree = SourceTree::new();
    let dirs = vec![
        "/repo".to_string(),
        "/repo/app2".to_string(),
        "/repo/app1".to_string(),
        "/repo/app1/sub".to_string(),
        "/repo/lib".to_string(),
    ];
    let raws = vec![
        "/repo/app*".to_string(),
        " /repo/app1 ".to_string(),
        "missing*".to_string(),
        "/repo/none".to_string(),
        "".to_string(),
    ];
    let found = resolve_search_roots(&tree, &raws, "/repo", &dirs).expect("roots");
    assert_eq!(found.roots, vec!["/repo/app1".to_string(), "/repo/app2".to_string()]);
    assert_eq!(found.unmatched_patterns, vec!["missing*".to_string(), "/repo/none".to_string()]);
    assert_eq!(
        resolve_search_roots(&tree, &vec!["nope".to_string()], "/repo", &dirs).err(),
        Some("--search-path did not match any directories".to_string())
    );
    let relative = resolve_search_roots(&tree, &vec!["app?".to_string()], "/repo", &dirs);
    assert_eq!(
        relative.expect("roots").roots,
        vec!["/repo/app1".to_string(), "/repo/app2".to_string()]
    );
    assert_eq!(search_pattern_walk_root("/repo/app*/sub"), "/repo");
    assert_eq!(search_pattern_walk_root("/repo/app"), "/repo/app");
}

#[test]
fn a_failed_write_is_a_failure_and_no_update() {
    let mut summary = DprUpdateSummary {
        scanned: 2,
        updated: 2,
        updated_paths: vec!["/t/A.dpr".to_string(), "/t/B.dpr".to_string()],
        warnings: Vec::new(),
        failures: 0,
        writes: Vec::new(),
    };
    fixdpr::cli::record_write_failure(&mut summary, "/t/A.dpr", "disk full");
    assert_eq!(summary.updated, 1);
    assert_eq!(summary.updated_paths, vec!["/t/B.dpr".to_string()]);
    assert_eq!(summary.failures, 1);
    assert_eq!(summary.warnings, vec!["warning: failed to update dpr /t/A.dpr: disk full".to_string()]);
    assert_eq!(summary.scanned, 2);
}

#[test]
fn the_repairs_after_a_run_add_their_files_once() {
    let mut summary = DprUpdateSummary {
        scanned: 3,
        updated: 1,
        updated_paths: vec!["/t/A.dpr".to_string()],
        warnings: Vec::new(),
        failures: 1,
        writes: Vec::new(),
    };
    let fix = DprUpdateSummary {
        scanned: 1,
        updated: 1,
        updated_paths: vec!["/T/a.dpr".to_string(), "/t/C.dpr".to_string()],
        warnings: vec!["warning: x".to_string()],
        failures: 2,
        writes: Vec::new(),
    };
    let mut totals = fixdpr::cli::FixPassTotals { scanned: 0, updated: 0, failures: 0 };
    fixdpr::cli::absorb_fix_summary(&mut summary, &mut totals, &fix);
    assert_eq!((totals.scanned, totals.updated, totals.failures), (1, 1, 2));
    assert_eq!(summary.updated_paths, vec!["/t/A.dpr".to_string(), "/t/C.dpr".to_string()]);
    assert_eq!(summary.updated, 1);
    fixdpr::cli::close_fix_pass(&mut summary, &totals);
    assert_eq!(summary.updated, 2);
    assert_eq!(summary.failures, 3);
    assert_eq!(summary.scanned, 3);
}

fn second_run_fixture() -> SourceTree {
    tree_of(&[
        ("/r/a/App1.dpr", "program App1;\nuses\n  Foo in '..\\lib\\Foo.pas',\n  Bar in '..\\lib\\Bar.pas';\nbegin\nend.\n"),
        ("/r/b/App2.dpr", "program App2;\nuses Bar in '../lib/Bar.pas';\nbegin end.\n"),
        ("/r/c/App3.dpr", "program App3;\nuses Foo in '../lib/Foo.pas', NewUnit in '../lib/NewUnit.pas';\nbegin end.\n"),
        ("/r/lib/Foo.pas", "unit Foo;\ninterface\nuses NewUnit;\nimplementation\nend.\n"),
        ("/r/lib/Bar.pas", "unit Bar;\ninterface\nimplementation\nend.\n"),
        ("/r/lib/NewUnit.pas", "unit NewUnit;\ninterface\nuses Base;\nimplementation\nend.\n"),
        ("/r/lib/Base.pas", "unit Base;\ninterface\nimplementation\nend.\n"),
    ])
}

fn run_twice(introduced: bool) {
    let mut tree = second_run_fixture();
    let cache = cache_of(
        &tree,
        &["/r/lib/Foo.pas", "/r/lib/Bar.pas", "/r/lib/NewUnit.pas", "/r/lib/Base.pas"],
    );
    let new_unit = unit_at(&tree, "/r/lib/NewUnit.pas");
    let dprs = ["/r/a/App1.dpr", "/r/b/App2.dpr", "/r/c/App3.dpr"];
    let first = run(&mut tree, &dprs, &cache, None, &new_unit, introduced);
    assert_eq!(first.scanned, 3);
    assert_eq!(first.failures, 0);
    assert!(first.updated >= 1);
    let texts: Vec<String> = dprs.iter().map(|path| contents(&tree, path)).collect();
    let second = run(&mut tree, &dprs, &cache, None, &new_unit, introduced);
    assert_eq!(second.scanned, 3);
    assert_eq!(second.updated, 0);
    assert!(second.updated_paths.is_empty());
    assert_eq!(second.failures, 0);
    assert!(second.writes.is_empty());
    let again: Vec<String> = dprs.iter().map(|path| contents(&tree, path)).collect();
    assert_eq!(texts, again);
}

#[test]
fn a_second_run_over_all_files_changes_nothing() {
    run_twice(false);
}

#[test]
fn a_second_run_with_introduced_units_changes_nothing() {
    run_twice(true);
}
