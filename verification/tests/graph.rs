use fixdpr::graph::{
    build_unit_graph, compute_dependents, parse_unit_uses, resolve_new_unit_id, UnitGraph, UnitId,
};
use fixdpr::pas_index::{build_unit_index, UnitInfo};
use fixdpr::source_tree::SourceTree;
use fixdpr::text_map::TextMap;

#[test]
fn graph_parse_unit_uses_in_interface_and_implementation() {
    let src = br#"
unit Demo;
interface
uses Foo, Bar;
implementation
uses Baz;
end.
"#;
    let deps = parse_unit_uses(src);
    assert_eq!(deps, vec!["Foo", "Bar", "Baz"]);
}

#[test]
fn graph_parse_unit_uses_ignores_comments_and_strings() {
    let src = br#"
unit Demo;
interface
uses Foo, {Bar}, (*Baz*), // Quux
  'NotAUnit', RealUnit;
implementation
uses ImplUnit;
end.
"#;
    let deps = parse_unit_uses(src);
    assert_eq!(deps, vec!["Foo", "RealUnit", "ImplUnit"]);
}

#[test]
fn graph_parse_unit_uses_allows_directives_inside_list() {
    let src = br#"
unit Demo;
interface
uses Foo, {$IFDEF X} Bar, {$ENDIF} Baz;
implementation
uses Qux;
end.
"#;
    let deps = parse_unit_uses(src);
    assert_eq!(deps, vec!["Foo", "Bar", "Baz", "Qux"]);
}

#[test]
fn graph_parse_unit_uses_with_in_paths() {
    let src = br#"
unit Demo;
interface
uses Foo in 'Foo.pas', Bar in 'path\Bar.pas';
implementation
end.
"#;
    let deps = parse_unit_uses(src);
    assert_eq!(deps, vec!["Foo", "Bar"]);
}

fn unit(name: &str) -> UnitInfo {
    UnitInfo { name: name.to_string(), path: format!("/proj/{name}.pas") }
}

fn sample_graph() -> UnitGraph {
    let mut name_to_id = TextMap::new();
    name_to_id.insert("a".to_string(), UnitId(0));
    name_to_id.insert("b".to_string(), UnitId(1));
    name_to_id.insert("c".to_string(), UnitId(2));
    name_to_id.insert("d".to_string(), UnitId(3));
    UnitGraph {
        units: vec![unit("A"), unit("B"), unit("C"), unit("D")],
        deps: vec![vec![UnitId(1)], vec![UnitId(2)], vec![], vec![]],
        rev: vec![vec![], vec![UnitId(0)], vec![UnitId(1)], vec![]],
        name_to_id,
        warnings: Vec::new(),
    }
}

#[test]
fn compute_dependents_follows_users_transitively() {
    let graph = sample_graph();
    assert_eq!(compute_dependents(&graph, UnitId(2)), vec![true, true, true, false]);
    assert_eq!(compute_dependents(&graph, UnitId(1)), vec![true, true, false, false]);
    assert_eq!(compute_dependents(&graph, UnitId(3)), vec![false, false, false, true]);
}

#[test]
fn graph_uses_take_include_directives_as_comments() {
    let deps = parse_unit_uses(b"unit Demo;\ninterface\nuses {$I Uses.inc} Foo;\nend.");
    assert_eq!(deps, vec!["Foo"]);
}

#[test]
fn resolve_new_unit_id_by_name_and_by_path() {
    let graph = sample_graph();
    let mut tree = SourceTree::new();
    tree.add_file("/proj/B.pas".to_string(), b"unit B;\ninterface\nend.".to_vec());
    tree.add_file("/proj/Lost.pas".to_string(), b"unit Lost;\ninterface\nend.".to_vec());
    assert!(resolve_new_unit_id(&tree, " C ", &graph, "/proj") == Ok(UnitId(2)));
    assert!(resolve_new_unit_id(&tree, "B.pas", &graph, "/proj") == Ok(UnitId(1)));
    assert!(resolve_new_unit_id(&tree, "/proj/B.pas", &graph, "/other") == Ok(UnitId(1)));
    assert_eq!(
        resolve_new_unit_id(&tree, "  ", &graph, "/proj"),
        Err("--new-dependency cannot be empty".to_string())
    );
    assert_eq!(
        resolve_new_unit_id(&tree, "Nope", &graph, "/proj"),
        Err("new dependency unit not found in index: Nope".to_string())
    );
    assert_eq!(
        resolve_new_unit_id(&tree, "sub/Gone.pas", &graph, "/proj"),
        Err("--new-dependency path not found: sub/Gone.pas".to_string())
    );
    assert_eq!(
        resolve_new_unit_id(&tree, "Lost.pas", &graph, "/proj"),
        Err("new dependency unit not found in index: Lost (from /proj/Lost.pas)".to_string())
    );
}

#[test]
fn build_unit_graph_numbers_units_by_name_and_links_users() {
    let mut tree = SourceTree::new();
    let files = [
        ("/p/Zed.pas", "unit Zed;\ninterface\nuses Alpha, Mid, alpha, Twin, Nowhere;\nend."),
        ("/p/Mid.pas", "unit Mid;\ninterface\nuses Alpha;\nend."),
        ("/p/Alpha.pas", "unit Alpha;\ninterface\nend."),
        ("/p/a/Twin.pas", "unit Twin;\ninterface\nend."),
        ("/p/b/Twin.pas", "unit Twin;\ninterface\nuses Zed;\nend."),
    ];
    let mut paths = Vec::new();
    for (path, text) in files {
        tree.add_file(path.to_string(), text.as_bytes().to_vec());
        paths.push(path.to_string());
    }
    let index = match build_unit_index(&tree, &paths) {
        Ok(index) => index,
        Err(_) => panic!("index"),
    };
    let graph = match build_unit_graph(&tree, &index) {
        Ok(graph) => graph,
        Err(_) => panic!("graph"),
    };
    assert!(graph.is_sound());
    let names: Vec<&str> = graph.units.iter().map(|unit| unit.name.as_str()).collect();
    assert_eq!(names, vec!["Alpha", "Mid", "Twin", "Zed"]);
    assert_eq!(graph.units[2].path, "/p/a/Twin.pas");
    assert!(graph.name_to_id.get("zed") == Some(&UnitId(3)));
    assert!(graph.deps == vec![vec![], vec![UnitId(0)], vec![], vec![UnitId(0), UnitId(1), UnitId(2)]]);
    assert!(graph.rev == vec![vec![UnitId(1), UnitId(3)], vec![UnitId(3)], vec![UnitId(3)], vec![]]);
    assert_eq!(
        graph.warnings,
        vec!["warning: ambiguous unit reference 'Twin' in /p/Zed.pas".to_string()]
    );
    assert_eq!(compute_dependents(&graph, UnitId(0)), vec![true, true, false, true]);
}
