use fixdpr::pas_index::{build_unit_index, derive_unit_name_from_file, parse_unit_name};
use fixdpr::source_tree::SourceTree;

#[test]
fn pas_index_parse_unit_name_basic() {
    let src = b"unit Foo.Bar;\ninterface\nimplementation\nend.";
    assert_eq!(parse_unit_name(src), Some("Foo.Bar".to_string()));
}

#[test]
fn pas_index_parse_unit_name_ignores_comments() {
    let src = br#"
{ unit Wrong; }
(* unit AlsoWrong; *)
// unit NoWay;
unit RealUnit;
interface
implementation
end.
"#;
    assert_eq!(parse_unit_name(src), Some("RealUnit".to_string()));
}

#[test]
fn pas_index_parse_unit_name_ignores_strings() {
    let src = b"const S = 'unit Fake;';\nunit Real;\ninterface\nend.";
    assert_eq!(parse_unit_name(src), Some("Real".to_string()));
}

#[test]
fn pas_index_parse_unit_name_allows_ifdef_blocks_braces() {
    let src = br#"
{$IFDEF FOO}
{$IFDEF BAR}
{$ENDIF}
{$ENDIF}
unit Real;
"#;
    assert_eq!(parse_unit_name(src), Some("Real".to_string()));
}

#[test]
fn pas_index_parse_unit_name_allows_ifdef_blocks_paren() {
    let src = br#"
(*$IFDEF FOO*)
unit Conditional;
(*$ENDIF*)
"#;
    assert_eq!(parse_unit_name(src), Some("Conditional".to_string()));
}

#[test]
fn pas_index_parse_unit_name_allows_nested_ifdefs() {
    let src = br#"
{$IFDEF OUTER}
{$IFNDEF INNER}
unit NestedUnit;
{$ENDIF}
{$ENDIF}
"#;
    assert_eq!(parse_unit_name(src), Some("NestedUnit".to_string()));
}

#[test]
fn pas_index_parse_unit_name_allows_if_and_ifopt_markers() {
    let src = br#"
{$IFDEF ENABLED}
{$IF 1}
{$IFOPT N+}
unit OptUnit;
{$ENDIF}
{$ENDIF}
{$ENDIF}
"#;
    assert_eq!(parse_unit_name(src), Some("OptUnit".to_string()));
}

#[test]
fn build_unit_index_detects_ambiguous_units() {
    let mut tree = SourceTree::new();
    tree.add_file("/proj/First.pas".to_string(), b"unit Shared;\ninterface\nend.".to_vec());
    tree.add_file("/proj/Second.pas".to_string(), b"unit Shared;\ninterface\nend.".to_vec());
    let paths = vec!["/proj/First.pas".to_string(), "/proj/Second.pas".to_string()];
    let index = match build_unit_index(&tree, &paths) {
        Ok(index) => index,
        Err(_) => panic!("index"),
    };
    let entry = index.ambiguous.get("shared").expect("expected ambiguity");
    assert_eq!(entry.len(), 2);
    assert_eq!(entry, &vec!["/proj/First.pas".to_string(), "/proj/Second.pas".to_string()]);
    assert!(index.units.contains_key("shared"));
    assert_eq!(index.units.get("shared").expect("unit").path, "/proj/First.pas");
}

#[test]
fn derive_unit_name_falls_back_to_the_stem() {
    let mut tree = SourceTree::new();
    tree.add_file("/proj/Plain.pas".to_string(), b"const X = 1;".to_vec());
    tree.add_file("/proj/Named.pas".to_string(), b"unit Other;".to_vec());
    match derive_unit_name_from_file(&tree, "/proj/Plain.pas") {
        Ok((name, fallback)) => {
            assert_eq!(name, "Plain");
            assert!(fallback);
        }
        Err(_) => panic!("file"),
    }
    match derive_unit_name_from_file(&tree, "/proj/Named.pas") {
        Ok((name, fallback)) => {
            assert_eq!(name, "Other");
            assert!(!fallback);
        }
        Err(_) => panic!("file"),
    }
    assert!(derive_unit_name_from_file(&tree, "/proj/Gone.pas").is_err());
}
