use fixdpr::cli::{
    contains_path, count_unchanged, dedupe_paths, display_path, format_values, is_dpr_file,
    is_pas_file, normalize_path_key, resolve_dpr_file_path, resolve_new_dependency_path,
    validate_dpr_file_path, validate_new_dependency_path,
};
use fixdpr::dpr_edit::DprUpdateSummary;
use fixdpr::source_tree::SourceTree;
use fixdpr::text::{
    chars_of, decimal, eq_ignore_case, insert_sorted, join_texts, split_on, split_words,
    str_le, string_of, strip_char, to_lower, trim,
};
use fixdpr::text_map::TextMap;
use fixdpr::uses_include::{referenced_names, resolve_include_path};

#[test]
fn text_helpers() {
    assert_eq!(trim(" \t a b \u{a0}\r\n"), "a b");
    assert_eq!(trim("\u{3000}"), "");
    assert_eq!(to_lower("AbC.\u{c9}Z"), "abc.\u{c9}z");
    assert!(eq_ignore_case("NewUnit", "NEWUNIT"));
    assert!(!eq_ignore_case("NewUnit", "NewUnit2"));
    assert_eq!(decimal(0), "0");
    assert_eq!(decimal(7), "7");
    assert_eq!(decimal(1205), "1205");
    assert_eq!(string_of(&chars_of("h\u{e9}llo")), "h\u{e9}llo");
    assert_eq!(split_on("a\nb\n", '\n'), vec!["a", "b", ""]);
    assert_eq!(split_words("  a  b\tc "), vec!["a", "b", "c"]);
    assert_eq!(join_texts(&vec!["a".to_string(), "b".to_string(), "c".to_string()], 1, ", "), "b, c");
    assert_eq!(strip_char("\"\"a\"b\"", '"'), "a\"b");
    assert_eq!(strip_char("\"\"", '"'), "");
    assert!(str_le("a", "ab") && str_le("ab", "b") && str_le("a", "a"));
    assert!(!str_le("b", "ab") && !str_le("ab", "a"));
    let mut sorted = Vec::new();
    for item in ["m", "a", "z", "m", "b"] {
        insert_sorted(&mut sorted, item.to_string());
    }
    assert_eq!(sorted, vec!["a", "b", "m", "m", "z"]);
}

#[test]
fn text_map_keeps_the_first_key() {
    let mut map: TextMap<usize> = TextMap::new();
    assert!(map.is_empty());
    map.insert("a".to_string(), 1);
    map.insert("b".to_string(), 2);
    map.insert("a".to_string(), 3);
    assert_eq!(map.len(), 2);
    assert_eq!(map.get("a"), Some(&3));
    assert_eq!(map.get("b"), Some(&2));
    assert_eq!(map.get("c"), None);
    assert_eq!(map.find("b"), Some(1));
    assert!(map.contains_key("a") && !map.contains_key("A"));
}

#[test]
fn source_tree_follows_links() {
    let mut tree = SourceTree::new();
    tree.add_file("/real/a.pas".to_string(), b"x".to_vec());
    tree.add_link("/link/a.pas".to_string(), "/real/a.pas".to_string());
    assert!(tree.is_sound());
    assert_eq!(tree.canonicalize("/link/a.pas"), "/real/a.pas");
    assert_eq!(tree.canonicalize("/other/a.pas"), "/other/a.pas");
    assert!(tree.is_file("/link/a.pas") && tree.is_file("/real/a.pas"));
    assert!(!tree.is_file("/other/a.pas"));
    assert_eq!(tree.read("/link/a.pas"), Some(&b"x".to_vec()));
    assert_eq!(tree.read("/other/a.pas"), None);
    tree.add_file("/real/a.pas".to_string(), b"y".to_vec());
    assert_eq!(tree.read("/link/a.pas"), Some(&b"y".to_vec()));
}

#[test]
fn include_paths_and_references() {
    assert_eq!(resolve_include_path("/proj/app/App.dpr", "Uses.inc"), "/proj/app/Uses.inc");
    assert_eq!(resolve_include_path("/proj/app/App.dpr", "/abs/Uses.inc"), "/abs/Uses.inc");
    assert_eq!(resolve_include_path("App.dpr", "sub/Uses.inc"), "sub/Uses.inc");
    assert_eq!(
        referenced_names(b"uses {$I a.inc} Foo in 'lib\\Foo.pas', (*$I 'b c.inc'*) x;"),
        vec!["a.inc", "lib\\Foo.pas", ", (*$I ", "b c.inc", "b c.inc"]
    );
}

#[test]
fn command_line_values() {
    assert_eq!(resolve_new_dependency_path(" a/N.pas ", "/cwd"), Ok("/cwd/a/N.pas".to_string()));
    assert_eq!(resolve_new_dependency_path("/abs/N.pas", "/cwd"), Ok("/abs/N.pas".to_string()));
    assert_eq!(
        resolve_new_dependency_path("  ", "/cwd"),
        Err("NEW_DEPENDENCY cannot be empty".to_string())
    );
    assert_eq!(resolve_dpr_file_path("", "/cwd"), Err("DPR_FILE cannot be empty".to_string()));
    assert!(is_pas_file("/a/U.Pas") && !is_pas_file("/a/U.dpr"));
    assert!(is_dpr_file("/a/U.DPR") && !is_dpr_file("/a/U"));
    let mut tree = SourceTree::new();
    tree.add_file("/a/N.pas".to_string(), Vec::new());
    tree.add_file("/a/App.dpr".to_string(), Vec::new());
    assert_eq!(validate_new_dependency_path(&tree, "/a/N.pas"), Ok(()));
    assert_eq!(
        validate_new_dependency_path(&tree, "/a/Gone.pas"),
        Err("NEW_DEPENDENCY path not found: /a/Gone.pas".to_string())
    );
    assert_eq!(
        validate_new_dependency_path(&tree, "/a/App.dpr"),
        Err("NEW_DEPENDENCY must point to a .pas file: /a/App.dpr".to_string())
    );
    assert_eq!(validate_dpr_file_path(&tree, "/a/App.dpr", "DPR_FILE"), Ok(()));
    assert_eq!(
        validate_dpr_file_path(&tree, "/a/N.pas", "DPR_FILE"),
        Err("DPR_FILE must point to a .dpr file: /a/N.pas".to_string())
    );
    assert_eq!(
        validate_dpr_file_path(&tree, "/a/Gone.dpr", "DPR_FILE"),
        Err("DPR_FILE path not found: /a/Gone.dpr".to_string())
    );
    assert_eq!(format_values(&vec![" a ".to_string(), " ".to_string(), "b".to_string()]), "a, b");
    assert_eq!(format_values(&Vec::new()), "");
}

#[test]
fn path_lists() {
    assert_eq!(normalize_path_key("C:/Repo/App.DPR"), "c:\\repo\\app.dpr");
    let paths = vec!["/B/x".to_string(), "/a/y".to_string(), "\\b\\X".to_string()];
    assert!(contains_path(&paths, "/A/Y"));
    assert!(!contains_path(&paths, "/a/z"));
    assert_eq!(dedupe_paths(paths), vec!["/a/y".to_string(), "/B/x".to_string()]);
    let roots = vec!["/repo/one".to_string(), "/repo".to_string()];
    assert_eq!(display_path("/repo/app/App.dpr", &roots), "app/App.dpr");
    assert_eq!(display_path("/repo/one/App.dpr", &roots), "App.dpr");
    assert_eq!(display_path("/else/App.dpr", &roots), "/else/App.dpr");
    assert_eq!(display_path("/repository/App.dpr", &roots), "/repository/App.dpr");
}

#[test]
fn unchanged_files_are_counted_without_underflow() {
    let summary = |scanned, updated, failures| DprUpdateSummary {
        scanned,
        updated,
        updated_paths: Vec::new(),
        warnings: Vec::new(),
        failures,
        writes: Vec::new(),
    };
    assert_eq!(count_unchanged(&summary(5, 2, 1)), 2);
    assert_eq!(count_unchanged(&summary(1, 2, 0)), 0);
    assert_eq!(count_unchanged(&summary(3, 2, 4)), 0);
}
