use fixdpr::fs_walk::{
    build_dpr_ignore_matcher, build_ignore_matcher, filter_ignored_dpr_files, has_extension,
    is_prefix, normalize_path_for_prefix_match, normalize_path_like_for_match, scan_files,
    IgnoreMatcher,
};
use fixdpr::glob::{glob_matches, parse_glob_tokens, GlobToken};
use fixdpr::source_tree::SourceTree;

#[test]
fn build_dpr_ignore_matcher_normalizes_absolute_pattern() {
    let cwd = "/tmp/fixdpr_ignore_abs";
    let pattern = "/tmp/fixdpr_ignore_abs/apps/Demo.dpr";
    let matcher = build_dpr_ignore_matcher(&vec![pattern.to_string()], cwd).expect("matcher");
    let expected = normalize_path_like_for_match(pattern);
    assert_eq!(matcher.normalized_patterns(), &vec![expected.clone()]);
    assert_eq!(expected, "/tmp/fixdpr_ignore_abs/apps/demo.dpr");
    assert!(matcher.is_ignored(pattern));
}

#[test]
fn relative_pattern_is_anchored_to_cwd_as_absolute_pattern() {
    let cwd = "/tmp/fixdpr_ignore_rel";
    let matcher = build_dpr_ignore_matcher(&vec!["app2/*.dpr".to_string()], cwd).expect("matcher");
    assert!(matcher.is_ignored("/tmp/fixdpr_ignore_rel/app2/App2.dpr"));
}

#[test]
fn filter_ignored_dpr_files_matches_absolute_paths() {
    let cwd = "/tmp/fixdpr_ignore_filter";
    let dpr_a = "/tmp/fixdpr_ignore_filter/app1/App1.dpr".to_string();
    let dpr_b = "/tmp/fixdpr_ignore_filter/app2/App2.dpr".to_string();
    let matcher = build_dpr_ignore_matcher(&vec!["app2/*.dpr".to_string()], cwd).expect("matcher");
    let filtered = filter_ignored_dpr_files(&vec![dpr_a.clone(), dpr_b.clone()], &matcher);
    assert_eq!(filtered.included_files, vec![dpr_a]);
    assert_eq!(filtered.ignored_files, vec![dpr_b]);
}

#[test]
fn dpr_glob_matcher_supports_single_and_double_star() {
    let cwd = "/tmp/fixdpr_ignore_glob";
    let single =
        build_dpr_ignore_matcher(&vec!["app/*.dpr".to_string()], cwd).expect("single matcher");
    assert!(single.is_ignored("/tmp/fixdpr_ignore_glob/app/Test.dpr"));
    assert!(!single.is_ignored("/tmp/fixdpr_ignore_glob/app/sub/Test.dpr"));

    let double =
        build_dpr_ignore_matcher(&vec!["app/**/*.dpr".to_string()], cwd).expect("double matcher");
    assert!(double.is_ignored("/tmp/fixdpr_ignore_glob/app/sub/Test.dpr"));
}

#[test]
fn filter_without_patterns_keeps_every_file() {
    let matcher = build_dpr_ignore_matcher(&vec!["  ".to_string()], "/tmp").expect("matcher");
    assert!(matcher.is_empty());
    let files = vec!["/a/A.dpr".to_string(), "/b/B.dpr".to_string()];
    let filtered = filter_ignored_dpr_files(&files, &matcher);
    assert_eq!(filtered.included_files, files);
    assert!(filtered.ignored_files.is_empty());
}

#[test]
fn glob_tokens_and_matching() {
    assert!(parse_glob_tokens("a*?**b***")
        == vec![
            GlobToken::Literal('a'),
            GlobToken::Star,
            GlobToken::Question,
            GlobToken::DoubleStar,
            GlobToken::Literal('b'),
            GlobToken::DoubleStar,
        ]);
    let matches = |pattern: &str, value: &str| glob_matches(&parse_glob_tokens(pattern), value);
    assert!(matches("", ""));
    assert!(!matches("", "a"));
    assert!(matches("*", ""));
    assert!(matches("*", "abc"));
    assert!(!matches("*", "a/b"));
    assert!(matches("**", "a/b"));
    assert!(matches("a?c", "abc"));
    assert!(!matches("a?c", "a/c"));
    assert!(!matches("a?c", "ac"));
    assert!(matches("*/x/*.dpr", "r/x/y.dpr"));
    assert!(!matches("*/x/*.dpr", "r/x/z/y.dpr"));
    assert!(matches("**/y.dpr", "r/x/z/y.dpr"));
    assert!(matches("a*b*c", "aXbYbZc"));
    assert!(!matches("a*b*c", "aXbYbZ"));
}

#[test]
fn path_keys() {
    assert_eq!(normalize_path_for_prefix_match("C:/Repo/App/"), "c:\\repo\\app");
    assert_eq!(normalize_path_for_prefix_match("C:\\"), "c:");
    assert_eq!(normalize_path_for_prefix_match("/"), "\\");
    assert_eq!(normalize_path_for_prefix_match("a//"), "a\\");
    assert_eq!(normalize_path_for_prefix_match("\u{e9}\\"), "\u{e9}");
    assert_eq!(normalize_path_like_for_match("\\\\?\\UNC\\Srv\\Share"), "//srv/share");
    assert_eq!(normalize_path_like_for_match("\\\\?\\C:\\Repo"), "c:/repo");
    assert_eq!(normalize_path_like_for_match("\\\\.\\C:\\Repo"), "c:/repo");
    assert_eq!(normalize_path_like_for_match("C:\\Repo\\A.DPR"), "c:/repo/a.dpr");
}

#[test]
fn prefixes_and_extensions() {
    assert!(is_prefix("c:\\repo\\app", "c:\\repo"));
    assert!(is_prefix("c:\\repo", "c:\\repo"));
    assert!(!is_prefix("c:\\repository", "c:\\repo"));
    assert!(!is_prefix("c:\\rep", "c:\\repo"));
    assert!(!is_prefix("c:\\repo", ""));
    assert!(has_extension("/a/Unit.PAS", "pas"));
    assert!(!has_extension("/a/Unit.pas.bak", "pas"));
    assert!(!has_extension("/a/pas", "pas"));
}

#[test]
fn build_ignore_matcher_sorts_and_dedupes() {
    let tree = SourceTree::new();
    let roots = vec!["/repo/b".to_string(), "/repo/a".to_string()];
    let raws = vec![
        "ignored".to_string(),
        " ".to_string(),
        "/abs/Skip".to_string(),
        "ignored/".to_string(),
    ];
    let matcher = build_ignore_matcher(&tree, &raws, &roots);
    assert_eq!(
        matcher.prefixes,
        vec![
            "\\abs\\skip".to_string(),
            "\\repo\\a\\ignored".to_string(),
            "\\repo\\b\\ignored".to_string(),
        ]
    );
    assert!(matcher.is_ignored("/repo/a/ignored"));
    assert!(matcher.is_ignored("/repo/a/Ignored/x/Y.pas"));
    assert!(!matcher.is_ignored("/repo/a/ignored2/Y.pas"));
    assert!(!IgnoreMatcher::default().is_ignored("/repo/a/ignored"));
}

#[test]
fn scan_files_sorts_and_keeps_each_file_once() {
    let tree = SourceTree::new();
    let matcher = build_ignore_matcher(&tree, &vec!["/repo/skip".to_string()], &Vec::new());
    let found = vec![
        "/repo/b/Unit.pas".to_string(),
        "/repo/a/App.dpr".to_string(),
        "/repo/a/Unit.PAS".to_string(),
        "/repo/skip/Other.pas".to_string(),
        "/repo/a/readme.txt".to_string(),
        "/repo/B/unit.pas".to_string(),
        "/repo/a/App.dpr".to_string(),
    ];
    let scan = scan_files(&found, &matcher);
    assert_eq!(scan.pas_files, vec!["/repo/a/Unit.PAS".to_string(), "/repo/b/Unit.pas".to_string()]);
    assert_eq!(scan.dpr_files, vec!["/repo/a/App.dpr".to_string()]);
}

#[test]
fn scan_files_orders_paths_by_their_components() {
    let found = vec![
        "/repo/lib-old/Unit.pas".to_string(),
        "/repo/lib/Unit.pas".to_string(),
        "/repo/lib.v2/App.dpr".to_string(),
        "/repo/lib/App.dpr".to_string(),
    ];
    let scan = scan_files(&found, &IgnoreMatcher::default());
    assert_eq!(
        scan.pas_files,
        vec!["/repo/lib/Unit.pas".to_string(), "/repo/lib-old/Unit.pas".to_string()]
    );
    assert_eq!(
        scan.dpr_files,
        vec!["/repo/lib/App.dpr".to_string(), "/repo/lib.v2/App.dpr".to_string()]
    );
}
