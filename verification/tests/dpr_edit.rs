use fixdpr::dpr_edit::{fix_dpr_file, insert_new_unit, update_dpr_files};
use fixdpr::dpr_closure::collect_introduced_dependencies;
use fixdpr::dpr_parse::{parse_dpr_uses, UsesList};
use fixdpr::dpr_resolve::{resolve_by_name, ResolutionSource, ResolveByName};
use fixdpr::source_tree::SourceTree;
use fixdpr::text_map::TextMap;
use fixdpr::unit_cache::{build_unit_cache, load_unit_file, UnitCache, UnitFileInfo};

fn names(list: &UsesList) -> Vec<String> {
    list.entries.iter().map(|entry| entry.name.clone()).collect()
}

fn text(bytes: &[u8]) -> String {
    String::from_utf8(bytes.to_vec()).unwrap()
}

fn tree_of(files: &[(&str, &str)]) -> SourceTree {
    let mut tree = SourceTree::new();
    for (path, contents) in files {
        tree.add_file(path.to_string(), contents.as_bytes().to_vec());
    }
    tree
}

fn cache_of(tree: &SourceTree, paths: &[&str], warnings: &mut Vec<String>) -> UnitCache {
    let paths: Vec<String> = paths.iter().map(|p| p.to_string()).collect();
    match build_unit_cache(tree, &paths, warnings) {
        Ok(cache) => cache,
        Err(_) => panic!("unreadable unit"),
    }
}

#[test]
fn parse_dpr_uses_single_line() {
    let src = b"program Demo;\nuses Foo, Bar;\nbegin end.";
    let tree = SourceTree::new();
    let mut warnings = Vec::new();
    let list = parse_dpr_uses(&tree, "/proj/Demo.dpr", src, &mut warnings).expect("uses list");
    assert_eq!(list.entries.len(), 2);
    assert_eq!(list.entries[0].name, "Foo");
    assert_eq!(list.entries[1].name, "Bar");
    assert!(list.entries[0].in_path.is_none());
    assert!(list.entries[1].in_path.is_none());
    assert!(!list.multiline);
    assert!(list.indent.is_empty());
}

#[test]
fn parse_dpr_uses_multiline_with_indent_and_paths() {
    let src = b"program Demo;\nuses\n  Foo,\n  Bar in 'lib\\Bar.pas',\n  Baz;\nbegin end.";
    let tree = SourceTree::new();
    let mut warnings = Vec::new();
    let list = parse_dpr_uses(&tree, "/proj/Demo.dpr", src, &mut warnings).expect("uses list");
    assert_eq!(list.entries.len(), 3);
    assert!(list.multiline);
    assert_eq!(list.indent, "  ");
    assert!(list.has_backslash, "expected backslash path detection");
    assert!(!list.has_slash);
    assert_eq!(list.entries[1].in_path.as_deref(), Some("lib\\Bar.pas"));
}

#[test]
fn parse_dpr_uses_ignores_comments_and_directives() {
    let src = br#"
program Demo;
uses Foo, {Bar}, (*Baz*), {$IFDEF X} Qux, {$ENDIF} RealUnit;
begin end.
"#;
    let tree = SourceTree::new();
    let mut warnings = Vec::new();
    let list = parse_dpr_uses(&tree, "/proj/Demo.dpr", src, &mut warnings).expect("uses list");
    assert_eq!(names(&list), vec!["Foo", "Qux", "RealUnit"]);
    assert!(list.entries.iter().all(|entry| entry.in_path.is_none()));
}

fn new_unit_at(path: &str) -> UnitFileInfo {
    UnitFileInfo { name: "NewUnit".to_string(), path: path.to_string(), uses: Vec::new() }
}

#[test]
fn insert_new_unit_single_line() {
    let bytes = b"program Demo;\nuses Foo, Bar;\nbegin end.";
    let tree = tree_of(&[("/proj/NewUnit.pas", "unit NewUnit;\ninterface\nend.")]);
    let mut warnings = Vec::new();
    let list = parse_dpr_uses(&tree, "/proj/Demo.dpr", bytes, &mut warnings).expect("uses list");
    let new_unit = new_unit_at("/proj/NewUnit.pas");
    let updated = text(&insert_new_unit(bytes, "/proj/Demo.dpr", &list, &new_unit, None));
    assert!(updated.contains("uses Foo, Bar, NewUnit in 'NewUnit.pas';"), "{updated}");
    assert_eq!(updated, "program Demo;\nuses Foo, Bar, NewUnit in 'NewUnit.pas';\nbegin end.");
}

#[test]
fn insert_new_unit_multiline_keeps_indent_and_separator() {
    let bytes =
        b"program Demo;\r\nuses\r\n  Foo,\r\n  Bar in 'lib/Bar.pas',\r\n  Baz;\r\nbegin end.";
    let tree = SourceTree::new();
    let mut warnings = Vec::new();
    let list = parse_dpr_uses(&tree, "/proj/Demo.dpr", bytes, &mut warnings).expect("uses list");
    let new_unit = new_unit_at("/proj/sub/NewUnit.pas");
    let updated = text(&insert_new_unit(bytes, "/proj/Demo.dpr", &list, &new_unit, None));
    assert!(updated.contains("Baz,\r\n  NewUnit in 'sub/NewUnit.pas';"), "{updated}");
}

#[test]
fn insert_new_unit_after_entry_single_line() {
    let bytes = b"program Demo;\nuses Foo, Bar, Baz;\nbegin end.";
    let tree = SourceTree::new();
    let mut warnings = Vec::new();
    let list = parse_dpr_uses(&tree, "/proj/Demo.dpr", bytes, &mut warnings).expect("uses list");
    let insert_after = list.entries.iter().position(|entry| entry.name == "Bar").expect("Bar entry");
    let new_unit = new_unit_at("/proj/NewUnit.pas");
    let updated =
        text(&insert_new_unit(bytes, "/proj/Demo.dpr", &list, &new_unit, Some(insert_after)));
    assert!(updated.contains("uses Foo, Bar, NewUnit in 'NewUnit.pas', Baz;"), "{updated}");
}

#[test]
fn insert_new_unit_after_entry_multiline() {
    let bytes = b"program Demo;\r\nuses\r\n  Foo,\r\n  Bar,\r\n  Baz;\r\nbegin end.";
    let tree = SourceTree::new();
    let mut warnings = Vec::new();
    let list = parse_dpr_uses(&tree, "/proj/Demo.dpr", bytes, &mut warnings).expect("uses list");
    let insert_after = list.entries.iter().position(|entry| entry.name == "Bar").expect("Bar entry");
    let new_unit = new_unit_at("/proj/NewUnit.pas");
    let updated =
        text(&insert_new_unit(bytes, "/proj/Demo.dpr", &list, &new_unit, Some(insert_after)));
    assert!(updated.contains("Bar,\r\n  NewUnit in 'NewUnit.pas',\r\n  Baz;"), "{updated}");
}

#[test]
fn parse_dpr_uses_semicolon_on_own_line() {
    let src = b"program Demo;\nuses\n  Foo,\n  Bar\n;\nbegin end.";
    let tree = SourceTree::new();
    let mut warnings = Vec::new();
    let list = parse_dpr_uses(&tree, "/proj/Demo.dpr", src, &mut warnings).expect("uses list");
    assert_eq!(names(&list), vec!["Foo", "Bar"]);
    assert!(list.multiline);
    assert_eq!(list.indent, "  ");
}

#[test]
fn parse_dpr_uses_mixed_separators_prefers_existing() {
    let src = b"program Demo;\nuses Foo in 'lib/Foo.pas', Bar in 'lib\\\\Bar.pas';\nbegin end.";
    let tree = SourceTree::new();
    let mut warnings = Vec::new();
    let list = parse_dpr_uses(&tree, "/proj/Demo.dpr", src, &mut warnings).expect("uses list");
    assert!(list.has_slash);
    assert!(list.has_backslash);
}

#[test]
fn parse_dpr_uses_supports_include_fragments() {
    let tree = tree_of(&[(
        "/proj/Uses.inc",
        "Foo in 'lib\\\\Foo.pas',\nBar,\nBaz in 'lib/Baz.pas',",
    )]);
    let src = b"program Demo;\nuses\n  {$I Uses.inc}\n  Qux;\nbegin end.";
    let mut warnings = Vec::new();
    let list = parse_dpr_uses(&tree, "/proj/Demo.dpr", src, &mut warnings).expect("uses list");
    assert_eq!(names(&list), vec!["Foo", "Bar", "Baz", "Qux"]);
    assert!(list.has_backslash);
    assert!(list.has_slash);
    assert!(list.entries[0].from_include);
    assert!(!list.entries[3].from_include);
}

#[test]
fn resolve_by_name_prefers_project_cache_before_delphi_cache() {
    let mut project_cache = UnitCache::new();
    let project_path = r"C:\project\Foo.pas".to_string();
    project_cache.by_name.insert("foo".to_string(), vec![project_path.clone()]);
    let mut delphi_cache = UnitCache::new();
    let delphi_path = r"C:\delphi\Foo.pas".to_string();
    delphi_cache.by_name.insert("foo".to_string(), vec![delphi_path.clone()]);

    match resolve_by_name(&project_cache, Some(&delphi_cache), "Foo") {
        ResolveByName::Unique { path, source } => {
            assert_eq!(path, project_path);
            assert!(source == ResolutionSource::Project);
        }
        _ => panic!("expected unique project resolution"),
    }
}

#[test]
fn resolve_by_name_uses_delphi_cache_when_project_missing() {
    let project_cache = UnitCache::new();
    let mut delphi_cache = UnitCache::new();
    let delphi_path = r"C:\delphi\ExtUnit.pas".to_string();
    delphi_cache.by_name.insert("extunit".to_string(), vec![delphi_path.clone()]);

    match resolve_by_name(&project_cache, Some(&delphi_cache), "ExtUnit") {
        ResolveByName::Unique { path, source } => {
            assert_eq!(path, delphi_path);
            assert!(source == ResolutionSource::Delphi);
        }
        _ => panic!("expected unique delphi resolution"),
    }
}

#[test]
fn collect_introduced_dependencies_returns_transitive_closure_without_root() {
    let tree = tree_of(&[
        ("/proj/NewUnit.pas", "unit NewUnit;\ninterface\nuses MidUnit;\nimplementation\nend.\n"),
        (
            "/proj/MidUnit.pas",
            "unit MidUnit;\ninterface\nuses BaseUnit, NewUnit;\nimplementation\nend.\n",
        ),
        ("/proj/BaseUnit.pas", "unit BaseUnit;\ninterface\nimplementation\nend.\n"),
    ]);
    let mut warnings = Vec::new();
    let project_cache = cache_of(
        &tree,
        &["/proj/NewUnit.pas", "/proj/MidUnit.pas", "/proj/BaseUnit.pas"],
        &mut warnings,
    );
    let new_unit = match load_unit_file(&tree, "/proj/NewUnit.pas", &mut warnings) {
        Ok(Some(unit)) => unit,
        _ => panic!("new unit"),
    };
    let project_map: TextMap<String> = TextMap::new();
    let introduced = match collect_introduced_dependencies(
        &tree,
        &project_cache,
        None,
        &project_map,
        &new_unit,
        &mut warnings,
    ) {
        Ok(units) => units,
        Err(_) => panic!("unreadable unit"),
    };
    let names: Vec<String> =
        introduced.into_iter().map(|unit| unit.name.to_ascii_lowercase()).collect();
    assert_eq!(names, vec!["midunit", "baseunit"]);
}

fn apply(tree: &mut SourceTree, summary: &fixdpr::dpr_edit::DprUpdateSummary) {
    for write in &summary.writes {
        tree.add_file(write.path.clone(), write.bytes.clone());
    }
}

fn contents(tree: &SourceTree, path: &str) -> String {
    text(tree.read(path).expect("file"))
}

#[test]
fn fix_dpr_file_adds_missing_transitive_dependencies_from_project_cache() {
    let mut tree = tree_of(&[
        ("/proj/App.dpr", "program App;\nuses\n  UnitA in 'UnitA.pas';\nbegin\nend.\n"),
        ("/proj/UnitA.pas", "unit UnitA;\ninterface\nuses UnitB;\nimplementation\nend.\n"),
        ("/proj/UnitB.pas", "unit UnitB;\ninterface\nuses UnitC;\nimplementation\nend.\n"),
        ("/proj/UnitC.pas", "unit UnitC;\ninterface\nimplementation\nend.\n"),
    ]);
    let mut warnings = Vec::new();
    let cache = cache_of(
        &tree,
        &["/proj/UnitA.pas", "/proj/UnitB.pas", "/proj/UnitC.pas"],
        &mut warnings,
    );

    let first = fix_dpr_file(&tree, "/proj/App.dpr", &cache, None);
    assert_eq!(first.failures, 0, "{:?}", first.warnings);
    assert_eq!(first.updated, 1, "{:?}", first.warnings);
    apply(&mut tree, &first);
    let updated = contents(&tree, "/proj/App.dpr");
    assert!(updated.contains("UnitB in 'UnitB.pas'"), "{updated}");
    assert!(updated.contains("UnitC in 'UnitC.pas'"), "{updated}");

    let second = fix_dpr_file(&tree, "/proj/App.dpr", &cache, None);
    assert_eq!(second.failures, 0, "{:?}", second.warnings);
    assert_eq!(second.updated, 0, "{:?}", second.warnings);
}

#[test]
fn fix_dpr_file_skips_dependencies_not_in_project_cache() {
    let mut tree = tree_of(&[
        ("/proj/App.dpr", "program App;\nuses\n  UnitA in 'UnitA.pas';\nbegin\nend.\n"),
        ("/proj/UnitA.pas", "unit UnitA;\ninterface\nuses ExtUnit;\nimplementation\nend.\n"),
        ("/proj/external/ExtUnit.pas", "unit ExtUnit;\ninterface\nimplementation\nend.\n"),
    ]);
    let mut warnings = Vec::new();
    let cache = cache_of(&tree, &["/proj/UnitA.pas"], &mut warnings);

    let result = fix_dpr_file(&tree, "/proj/App.dpr", &cache, None);
    assert_eq!(result.failures, 0, "{:?}", result.warnings);
    assert_eq!(result.updated, 0, "{:?}", result.warnings);
    apply(&mut tree, &result);
    let updated = contents(&tree, "/proj/App.dpr");
    assert!(!updated.contains("ExtUnit in "), "{updated}");
}

#[test]
fn fix_dpr_file_uses_delphi_fallback_cache_when_provided() {
    let mut tree = tree_of(&[
        ("/proj/App.dpr", "program App;\nuses\n  UnitA in 'UnitA.pas';\nbegin\nend.\n"),
        ("/proj/UnitA.pas", "unit UnitA;\ninterface\nuses ExtMid;\nimplementation\nend.\n"),
        ("/proj/delphi/ExtMid.pas", "unit ExtMid;\ninterface\nuses NewUnit;\nimplementation\nend.\n"),
        ("/proj/delphi/NewUnit.pas", "unit NewUnit;\ninterface\nimplementation\nend.\n"),
    ]);
    let mut warnings = Vec::new();
    let project_cache = cache_of(&tree, &["/proj/UnitA.pas"], &mut warnings);
    let delphi_cache =
        cache_of(&tree, &["/proj/delphi/ExtMid.pas", "/proj/delphi/NewUnit.pas"], &mut warnings);

    let result = fix_dpr_file(&tree, "/proj/App.dpr", &project_cache, Some(&delphi_cache));
    assert_eq!(result.failures, 0, "{:?}", result.warnings);
    assert_eq!(result.updated, 1, "{:?}", result.warnings);
    apply(&mut tree, &result);
    let updated = contents(&tree, "/proj/App.dpr");
    assert!(updated.contains("ExtMid in "), "{updated}");
    assert!(updated.contains("NewUnit in "), "{updated}");
}

#[test]
fn add_dependency_appends_behind_the_direct_importer() {
    let mut tree = tree_of(&[
        ("/proj/App.dpr", "program App;\nuses Foo, Bar;\nbegin end."),
        ("/proj/Foo.pas", "unit Foo;\ninterface\nimplementation\nend."),
        ("/proj/Bar.pas", "unit Bar;\ninterface\nuses NewUnit;\nimplementation\nend."),
        ("/proj/NewUnit.pas", "unit NewUnit;\ninterface\nimplementation\nend."),
    ]);
    let mut warnings = Vec::new();
    let cache =
        cache_of(&tree, &["/proj/Foo.pas", "/proj/Bar.pas", "/proj/NewUnit.pas"], &mut warnings);
    let new_unit = match load_unit_file(&tree, "/proj/NewUnit.pas", &mut warnings) {
        Ok(Some(unit)) => unit,
        _ => panic!("new unit"),
    };
    let dprs = vec!["/proj/App.dpr".to_string()];
    let first = match update_dpr_files(&tree, &dprs, &cache, None, &new_unit, true) {
        Ok(summary) => summary,
        Err(_) => panic!("unreadable unit"),
    };
    assert_eq!(first.scanned, 1);
    assert_eq!(first.updated, 1);
    assert_eq!(first.failures, 0);
    assert_eq!(first.updated_paths, vec!["/proj/App.dpr".to_string()]);
    apply(&mut tree, &first);
    assert_eq!(
        contents(&tree, "/proj/App.dpr"),
        "program App;\nuses Foo, Bar, NewUnit in 'NewUnit.pas';\nbegin end."
    );

    let second = match update_dpr_files(&tree, &dprs, &cache, None, &new_unit, true) {
        Ok(summary) => summary,
        Err(_) => panic!("unreadable unit"),
    };
    assert_eq!(second.updated, 0);
    assert!(second.writes.is_empty());
}

#[test]
fn insertion_takes_over_the_space_behind_the_anchor() {
    let tree = SourceTree::new();
    let new_unit = new_unit_at("/proj/NewUnit.pas");
    let put = |src: &[u8], after: Option<usize>| {
        let mut warnings = Vec::new();
        let list = parse_dpr_uses(&tree, "/proj/Demo.dpr", src, &mut warnings).expect("uses list");
        text(&insert_new_unit(src, "/proj/Demo.dpr", &list, &new_unit, after))
    };
    assert_eq!(put(b"uses A,B;", Some(0)), "uses A,NewUnit in 'NewUnit.pas',B;");
    assert_eq!(put(b"uses A,\t B;", Some(0)), "uses A,\t NewUnit in 'NewUnit.pas',\t B;");
    assert_eq!(put(b"uses A, {c} B;", Some(0)), "uses A, NewUnit in 'NewUnit.pas', {c} B;");
    assert_eq!(put(b"uses A,{c}\n B;", Some(0)), "uses A,\nNewUnit in 'NewUnit.pas',{c}\n B;");
    assert_eq!(put(b"uses A,B;", Some(1)), "uses A,B, NewUnit in 'NewUnit.pas';");
    assert_eq!(put(b"uses A,B;", Some(7)), "uses A,B, NewUnit in 'NewUnit.pas';");
    assert_eq!(put(b"uses A,B,;", None), "uses A,B, NewUnit in 'NewUnit.pas';");
    assert_eq!(put(b"uses\n\tA\n;", None), "uses\n\tA,\n\tNewUnit in 'NewUnit.pas'\n;");
    assert_eq!(put(b"uses\r\n  A,\r\n;", None), "uses\r\n  A,\r\n\r\n  NewUnit in 'NewUnit.pas';");
    assert_eq!(
        put(b"uses A in 'x/A.pas';", None),
        "uses A in 'x/A.pas', NewUnit in 'NewUnit.pas';"
    );
}

#[test]
fn a_reread_clause_holds_the_new_entry_once_and_the_old_ones_as_before() {
    let tree = tree_of(&[("/proj/Uses.inc", "Inc1, Inc2 in 'i/Inc2.pas',")]);
    let src: &[u8] =
        b"program Demo;\nuses\n  A, // first\n  {$I Uses.inc}\n  B in 'lib\\B.pas' {x},\n  C;\nbegin end.";
    let mut warnings = Vec::new();
    let list = parse_dpr_uses(&tree, "/proj/Demo.dpr", src, &mut warnings).expect("uses list");
    let before: Vec<(String, Option<String>)> =
        list.entries.iter().map(|e| (e.name.clone(), e.in_path.clone())).collect();
    let new_unit = new_unit_at("/proj/sub/NewUnit.pas");
    for after in [None, Some(0), Some(1), Some(2), Some(3), Some(4)] {
        let bytes = insert_new_unit(src, "/proj/Demo.dpr", &list, &new_unit, after);
        let again = parse_dpr_uses(&tree, "/proj/Demo.dpr", &bytes, &mut warnings).expect("list");
        let names: Vec<(String, Option<String>)> =
            again.entries.iter().map(|e| (e.name.clone(), e.in_path.clone())).collect();
        let new = ("NewUnit".to_string(), Some("sub\\NewUnit.pas".to_string()));
        assert_eq!(names.iter().filter(|entry| **entry == new).count(), 1);
        let rest: Vec<(String, Option<String>)> =
            names.into_iter().filter(|entry| *entry != new).collect();
        assert_eq!(rest, before);
    }
    assert!(warnings.is_empty());
}

#[test]
fn a_reread_clause_keeps_its_layout() {
    let tree = SourceTree::new();
    let new_unit = new_unit_at("/proj/sub/NewUnit.pas");
    let texts: [&[u8]; 4] = [
        b"program Demo;\r\nuses\r\n    Foo,\r\n    Bar;\r\nbegin end.",
        b"program Demo;\nuses\n\tFoo,\n\tBar\n\t;\nbegin end.",
        b"program Demo; uses Foo, Bar; begin end.",
        b"uses Foo,   Bar in 'b/Bar.pas',;",
    ];
    for src in texts {
        let mut warnings = Vec::new();
        let list = parse_dpr_uses(&tree, "/proj/Demo.dpr", src, &mut warnings).expect("list");
        for after in [None, Some(0), Some(1)] {
            let bytes = insert_new_unit(src, "/proj/Demo.dpr", &list, &new_unit, after);
            let again =
                parse_dpr_uses(&tree, "/proj/Demo.dpr", &bytes, &mut warnings).expect("list");
            assert_eq!(again.multiline, list.multiline, "{}", text(&bytes));
            assert_eq!(again.indent, list.indent, "{}", text(&bytes));
            assert_eq!(again.entries[0].start, list.entries[0].start);
            assert_eq!(again.entries.len(), list.entries.len() + 1);
            assert_eq!(again.semicolon, list.semicolon + (bytes.len() - src.len()));
        }
    }
}
