use fixdpr::source_tree::SourceTree;
use fixdpr::unit_cache::{
    build_unit_cache, get_or_load, load_unit_file, parse_unit_name, parse_unit_uses, UnitCache,
};

fn parse_uses_for_test(src: &[u8]) -> Vec<String> {
    let tree = SourceTree::new();
    let mut warnings = Vec::new();
    parse_unit_uses(&tree, "/proj/Demo.pas", src, &mut warnings)
}

fn tree_of(files: &[(&str, &str)]) -> SourceTree {
    let mut tree = SourceTree::new();
    for (path, contents) in files {
        tree.add_file(path.to_string(), contents.as_bytes().to_vec());
    }
    tree
}

#[test]
fn unit_cache_parse_unit_name_basic() {
    let src = b"unit Foo.Bar;\ninterface\nimplementation\nend.";
    assert_eq!(parse_unit_name(src), Some("Foo.Bar".to_string()));
}

#[test]
fn unit_cache_parse_unit_name_ignores_comments() {
    let src = br#"
{ unit Wrong; }
(* unit AlsoWrong; *)
// unit NoWay;
unit RealUnit;
interface
implementation
end.
"#;
    assert_eq!(parse_unit_name(src), Some("RealUnit".to_string()));
}

#[test]
fn unit_cache_parse_unit_name_ignores_strings() {
    let src = b"const S = 'unit Fake;';\nunit Real;\ninterface\nend.";
    assert_eq!(parse_unit_name(src), Some("Real".to_string()));
}

#[test]
fn unit_cache_parse_unit_name_allows_ifdef_blocks_braces() {
    let src = br#"
{$IFDEF FOO}
{$IFDEF BAR}
{$ENDIF}
{$ENDIF}
unit Real;
"#;
    assert_eq!(parse_unit_name(src), Some("Real".to_string()));
}

#[test]
fn unit_cache_parse_unit_name_allows_ifdef_blocks_paren() {
    let src = br#"
(*$IFDEF FOO*)
unit Conditional;
(*$ENDIF*)
"#;
    assert_eq!(parse_unit_name(src), Some("Conditional".to_string()));
}

#[test]
fn unit_cache_parse_unit_name_allows_nested_ifdefs() {
    let src = br#"
{$IFDEF OUTER}
{$IFNDEF INNER}
unit NestedUnit;
{$ENDIF}
{$ENDIF}
"#;
    assert_eq!(parse_unit_name(src), Some("NestedUnit".to_string()));
}

#[test]
fn unit_cache_parse_unit_name_allows_if_and_ifopt_markers() {
    let src = br#"
{$IFDEF ENABLED}
{$IF 1}
{$IFOPT N+}
unit OptUnit;
{$ENDIF}
{$ENDIF}
{$ENDIF}
"#;
    assert_eq!(parse_unit_name(src), Some("OptUnit".to_string()));
}

#[test]
fn unit_cache_parse_unit_uses_in_interface_and_implementation() {
    let src = br#"
unit Demo;
interface
uses Foo, Bar;
implementation
uses Baz;
end.
"#;
    let deps = parse_uses_for_test(src);
    assert_eq!(deps, vec!["Foo", "Bar", "Baz"]);
}

#[test]
fn unit_cache_parse_unit_uses_ignores_comments_and_strings() {
    let src = br#"
unit Demo;
interface
uses Foo, {Bar}, (*Baz*), // Quux
  'NotAUnit', RealUnit;
implementation
uses ImplUnit;
end.
"#;
    let deps = parse_uses_for_test(src);
    assert_eq!(deps, vec!["Foo", "RealUnit", "ImplUnit"]);
}

#[test]
fn unit_cache_parse_unit_uses_allows_directives_inside_list() {
    let src = br#"
unit Demo;
interface
uses Foo, {$IFDEF X} Bar, {$ENDIF} Baz;
implementation
uses Qux;
end.
"#;
    let deps = parse_uses_for_test(src);
    assert_eq!(deps, vec!["Foo", "Bar", "Baz", "Qux"]);
}

#[test]
fn unit_cache_parse_unit_uses_with_in_paths() {
    let src = br#"
unit Demo;
interface
uses Foo in 'Foo.pas', Bar in 'path\Bar.pas';
implementation
end.
"#;
    let deps = parse_uses_for_test(src);
    assert_eq!(deps, vec!["Foo", "Bar"]);
}

#[test]
fn parse_unit_uses_supports_include_fragments() {
    let tree = tree_of(&[("/proj/Uses.inc", "Foo,\nBar in 'lib\\\\Bar.pas',\nBaz,")]);
    let src = br#"
unit Demo;
interface
uses {$I Uses.inc} Qux;
implementation
end.
"#;
    let mut warnings = Vec::new();
    let deps = parse_unit_uses(&tree, "/proj/Demo.pas", src, &mut warnings);
    assert_eq!(deps, vec!["Foo", "Bar", "Baz", "Qux"]);
    assert!(warnings.is_empty());
}

#[test]
fn load_unit_file_uses_fallback_name() {
    let tree = tree_of(&[("/proj/Fallback.pas", "const X = 1;")]);
    let mut warnings = Vec::new();
    let info = match load_unit_file(&tree, "/proj/Fallback.pas", &mut warnings) {
        Ok(Some(info)) => info,
        _ => panic!("unit"),
    };
    assert_eq!(info.name, "Fallback");
    assert!(!warnings.is_empty());
    assert_eq!(
        warnings,
        vec!["warning: fallback to filename stem for unit name: /proj/Fallback.pas".to_string()]
    );
}

#[test]
fn parse_unit_name_finds_nothing_without_a_unit_statement() {
    assert_eq!(parse_unit_name(b"program Demo; begin end."), None);
    assert_eq!(parse_unit_name(b""), None);
    assert_eq!(parse_unit_name(b"unit ;"), None);
    assert_eq!(parse_unit_name(b"UNIT\t{x} Late;"), Some("Late".to_string()));
}

#[test]
fn uses_before_a_section_is_not_read() {
    let deps = parse_uses_for_test(b"unit Demo;\nuses Early;\ninterface\nuses Late;\nend.");
    assert_eq!(deps, vec!["Late"]);
}

#[test]
fn include_that_includes_itself_gives_a_warning_and_ends() {
    let tree = tree_of(&[("/proj/Loop.inc", "Foo, {$I Loop.inc} Bar,")]);
    let src = b"unit Demo;\ninterface\nuses {$I Loop.inc} Qux;\nend.";
    let mut warnings = Vec::new();
    let deps = parse_unit_uses(&tree, "/proj/Demo.pas", src, &mut warnings);
    assert_eq!(deps, vec!["Foo", "Bar", "Qux"]);
    assert_eq!(
        warnings,
        vec![
            "warning: include cycle detected for /proj/Loop.inc (from /proj/Loop.inc)".to_string()
        ]
    );
}

#[test]
fn include_of_the_unit_itself_is_a_cycle() {
    let tree = tree_of(&[("/proj/Demo.pas", "unit Demo;")]);
    let src = b"unit Demo;\ninterface\nuses {$I Demo.pas} Qux;\nend.";
    let mut warnings = Vec::new();
    let deps = parse_unit_uses(&tree, "/proj/Demo.pas", src, &mut warnings);
    assert_eq!(deps, vec!["Qux"]);
    assert_eq!(
        warnings,
        vec![
            "warning: include cycle detected for /proj/Demo.pas (from /proj/Demo.pas)".to_string()
        ]
    );
}

#[test]
fn include_that_is_missing_gives_a_warning() {
    let tree = SourceTree::new();
    let src = b"unit Demo;\ninterface\nuses Foo, {$INCLUDE 'Gone.inc'} Bar;\nend.";
    let mut warnings = Vec::new();
    let deps = parse_unit_uses(&tree, "/proj/Demo.pas", src, &mut warnings);
    assert_eq!(deps, vec!["Foo", "Bar"]);
    assert_eq!(
        warnings,
        vec!["warning: failed to read include /proj/Gone.inc referenced by /proj/Demo.pas"
            .to_string()]
    );
}

#[test]
fn include_is_found_through_a_link() {
    let mut tree = tree_of(&[("/real/Uses.inc", "Foo,")]);
    tree.add_link("/proj/Uses.inc".to_string(), "/real/Uses.inc".to_string());
    let src = b"unit Demo;\ninterface\nuses {$I Uses.inc} Bar;\nend.";
    let mut warnings = Vec::new();
    let deps = parse_unit_uses(&tree, "/proj/Demo.pas", src, &mut warnings);
    assert_eq!(deps, vec!["Foo", "Bar"]);
    assert!(warnings.is_empty());
}

#[test]
fn build_unit_cache_collects_names_and_ambiguity() {
    let tree = tree_of(&[
        ("/proj/a/Shared.pas", "unit Shared;\ninterface\nuses Foo;\nend."),
        ("/proj/b/Shared.pas", "unit SHARED;\ninterface\nend."),
        ("/proj/Foo.pas", "unit Foo;\ninterface\nend."),
    ]);
    let paths: Vec<String> = vec![
        "/proj/a/Shared.pas".to_string(),
        "/proj/b/Shared.pas".to_string(),
        "/proj/Foo.pas".to_string(),
        "/proj/a/Shared.pas".to_string(),
    ];
    let mut warnings = Vec::new();
    let cache = match build_unit_cache(&tree, &paths, &mut warnings) {
        Ok(cache) => cache,
        Err(_) => panic!("unreadable"),
    };
    assert_eq!(cache.by_path.len(), 3);
    assert_eq!(
        cache.by_name.get("shared"),
        Some(&vec!["/proj/a/Shared.pas".to_string(), "/proj/b/Shared.pas".to_string()])
    );
    assert_eq!(cache.by_name.get("foo"), Some(&vec!["/proj/Foo.pas".to_string()]));
    let shared = cache.by_path.get("/proj/a/Shared.pas").expect("unit");
    assert_eq!(shared.name, "Shared");
    assert_eq!(shared.uses, vec!["Foo"]);
}

#[test]
fn build_unit_cache_goes_on_past_a_file_that_is_not_there() {
    let tree = tree_of(&[("/proj/Foo.pas", "unit Foo;\ninterface\nend.")]);
    let paths: Vec<String> = vec!["/proj/Gone.pas".to_string(), "/proj/Foo.pas".to_string()];
    let mut warnings = vec!["warning: before".to_string()];
    let cache = match build_unit_cache(&tree, &paths, &mut warnings) {
        Ok(cache) => cache,
        Err(_) => panic!("the building always ends with a cache"),
    };
    assert_eq!(cache.by_path.keys, vec!["/proj/Foo.pas".to_string()]);
    assert_eq!(cache.by_name.keys, vec!["foo".to_string()]);
    assert_eq!(cache.by_name.values, vec![vec!["/proj/Foo.pas".to_string()]]);
    assert_eq!(
        warnings,
        vec![
            "warning: before".to_string(),
            "warning: failed to read unit at /proj/Gone.pas".to_string()
        ]
    );
}

#[test]
fn get_or_load_gives_a_warning_for_a_file_that_is_not_there() {
    let tree = tree_of(&[("/proj/Foo.pas", "unit Foo;\ninterface\nend.")]);
    let mut cache = UnitCache::new();
    let mut warnings = Vec::new();
    match get_or_load(&mut cache, &tree, "/proj/Gone.pas", &mut warnings) {
        Ok(None) => {}
        _ => panic!("no unit"),
    }
    assert!(cache.by_path.keys.is_empty());
    assert_eq!(warnings, vec!["warning: failed to read unit at /proj/Gone.pas".to_string()]);
}

#[test]
fn get_or_load_adds_the_unit_once() {
    let tree = tree_of(&[("/proj/Foo.pas", "unit Foo;\ninterface\nuses Bar;\nend.")]);
    let mut cache = UnitCache::new();
    let mut warnings = Vec::new();
    let first = match get_or_load(&mut cache, &tree, "/proj/Foo.pas", &mut warnings) {
        Ok(Some(unit)) => unit,
        _ => panic!("unit"),
    };
    assert_eq!(first.name, "Foo");
    assert_eq!(first.uses, vec!["Bar"]);
    let second = match get_or_load(&mut cache, &tree, "/proj/Foo.pas", &mut warnings) {
        Ok(Some(unit)) => unit,
        _ => panic!("unit"),
    };
    assert_eq!(second.path, "/proj/Foo.pas");
    assert_eq!(cache.by_path.len(), 1);
    assert_eq!(cache.by_name.get("foo"), Some(&vec!["/proj/Foo.pas".to_string()]));
}
