use vstd::prelude::*;

use crate::glob::{glob_accepts, glob_matches, glob_tokens, parse_glob_tokens, GlobToken};
use crate::paths::{
    absolute, extension_of, joined, parts_of, path_components, path_extension, path_is_absolute,
    path_join, path_le, path_not_after, PartModel,
};
use crate::source_tree::SourceTree;
use crate::text::{
    char_at, chars_of, chars_start_with, contains_char, copy_text, eq_ignore_case, insert_by_key,
    insert_sorted, lower_text, replace_char, replaced, same_ignoring_case, sorted_position,
    starts_with, string_of_range, to_lower, trim, trimmed, utf8, with_sorted,
};
use crate::text_map::{contains_text, push_text};

verus! {

/// The files that a walk found: the unit files and the project files,
/// each list sorted and without a file twice.
pub struct FsScan {
    pub pas_files: Vec<String>,
    pub dpr_files: Vec<String>,
}

/// The directories whose files are passed over.
pub struct IgnoreMatcher {
    pub prefixes: Vec<String>,
}

/// One pattern, as tokens.
pub struct GlobPattern {
    pub tokens: Vec<GlobToken>,
}

/// The patterns of the project files that are passed over.
pub struct DprIgnoreMatcher {
    pub patterns: Vec<GlobPattern>,
    pub normalized_patterns: Vec<String>,
}

/// The project files that a run works on, and those that it passes over.
pub struct DprFilterResult {
    pub included_files: Vec<String>,
    pub ignored_files: Vec<String>,
}

/// The directories that a run searches, and the patterns that led to none.
pub struct SearchRootsResolution {
    pub roots: Vec<String>,
    pub unmatched_patterns: Vec<String>,
}

/// `s` without backslashes at its end, as far as `bytes`, the length of
/// `s` in bytes, stays above two.
pub open spec fn without_trailing(s: Seq<char>, bytes: int) -> Seq<char>
    decreases s.len(),
{
    if s.len() > 0 && s.last() == '\\' && bytes > 2 {
        without_trailing(s.drop_last(), bytes - 1)
    } else {
        s
    }
}

/// `s` without the backslashes at its end; a text of two bytes or less
/// stays as it is, so that a drive with its separator does.
pub open spec fn trimmed_separators(s: Seq<char>) -> Seq<char> {
    without_trailing(s, utf8(s).len() as int)
}

/// The key by which paths are compared with prefixes: backslashes for
/// slashes, lower case, no separator at the end.
pub open spec fn prefix_key(path: Seq<char>) -> Seq<char> {
    trimmed_separators(lower_text(replaced(path, '/', '\\')))
}

fn trim_trailing_separators(value: String) -> (r: String)
    ensures
        r@ == trimmed_separators(value@),
{
    let chars = chars_of(value.as_str());
    let mut bytes = value.as_str().as_bytes().len();
    let mut end = chars.len();
    assert(chars@.take(end as int) =~= chars@);
    while end > 0 && char_at(&chars, end - 1) == '\\' && bytes > 2
        invariant
            end <= chars.len(),
            without_trailing(chars@.take(end as int), bytes as int) == trimmed_separators(value@),
        decreases end,
    {
        assert(chars@.take(end as int).drop_last() =~= chars@.take(end - 1));
        end -= 1;
        bytes -= 1;
    }
    assert(chars@.take(end as int) =~= chars@.subrange(0, end as int));
    string_of_range(&chars, 0, end)
}

/// The key of a path for matching by prefix: with backslashes for
/// slashes, in lower case, without backslashes at its end.
pub fn normalize_path_for_prefix_match(path: &str) -> (r: String)
    ensures
        r@ == prefix_key(path@),
{
    let replaced = replace_char(path, '/', '\\');
    let lowered = to_lower(replaced.as_str());
    trim_trailing_separators(lowered)
}

/// `s` without the prefix that marks a verbatim path.
pub open spec fn without_verbatim(s: Seq<char>) -> Seq<char> {
    if starts_with(s, "//?/unc/"@) {
        "//"@ + s.skip("//?/unc/"@.len() as int)
    } else if starts_with(s, "//?/"@) {
        s.skip("//?/"@.len() as int)
    } else if starts_with(s, "//./"@) {
        s.skip("//./"@.len() as int)
    } else {
        s
    }
}

/// The key by which paths are compared with patterns: slashes for
/// backslashes, lower case, no verbatim prefix.
pub open spec fn match_key(value: Seq<char>) -> Seq<char> {
    without_verbatim(lower_text(replaced(value, '\\', '/')))
}

fn strip_windows_verbatim_prefix(value: String) -> (r: String)
    ensures
        r@ == without_verbatim(value@),
{
    let chars = chars_of(value.as_str());
    let unc = chars_of("//?/unc/");
    let verbatim = chars_of("//?/");
    let device = chars_of("//./");
    if chars_start_with(&chars, &unc) {
        let rest = string_of_range(&chars, unc.len(), chars.len());
        let parts = vec!["//", rest.as_str()];
        assert(parts.deep_view() =~= seq!["//"@, rest@]);
        let r = crate::text::concat(&parts);
        proof {
            let all = seq!["//"@, rest@];
            assert(all.drop_last() =~= seq!["//"@]);
            assert(seq!["//"@].drop_last() =~= Seq::<Seq<char>>::empty());
            assert(crate::text::concat_all(all) =~= "//"@ + rest@) by {
                reveal_with_fuel(crate::text::concat_all, 3);
            }
            assert(chars@.skip(unc.len() as int) =~= chars@.subrange(
                unc.len() as int,
                chars.len() as int,
            ));
        }
        r
    } else if chars_start_with(&chars, &verbatim) {
        assert(chars@.skip(verbatim.len() as int) =~= chars@.subrange(
            verbatim.len() as int,
            chars.len() as int,
        ));
        string_of_range(&chars, verbatim.len(), chars.len())
    } else if chars_start_with(&chars, &device) {
        assert(chars@.skip(device.len() as int) =~= chars@.subrange(
            device.len() as int,
            chars.len() as int,
        ));
        string_of_range(&chars, device.len(), chars.len())
    } else {
        value
    }
}

/// The key of a path or pattern for matching by glob: with slashes for
/// backslashes, in lower case, without the verbatim prefix of Windows.
pub fn normalize_path_like_for_match(value: &str) -> (r: String)
    ensures
        r@ == match_key(value@),
{
    let replaced = replace_char(value, '\\', '/');
    let lowered = to_lower(replaced.as_str());
    strip_windows_verbatim_prefix(lowered)
}

/// Whether a pattern holds `*` or `?`.
pub fn contains_glob_chars(value: &str) -> (r: bool)
    ensures
        r == (value@.contains('*') || value@.contains('?')),
{
    contains_char(value, '*') || contains_char(value, '?')
}

/// Whether `path` is `prefix` or lies below it: it starts with `prefix`,
/// which is not empty, and goes on with a backslash if it goes on.
pub open spec fn below_prefix(path: Seq<char>, prefix: Seq<char>) -> bool {
    prefix.len() > 0 && starts_with(path, prefix) && (path.len() == prefix.len()
        || path[prefix.len() as int] == '\\')
}

/// Whether `path` is `prefix` or lies below it; both are keys.
pub fn is_prefix(path: &str, prefix: &str) -> (r: bool)
    ensures
        r == below_prefix(path@, prefix@),
{
    let p = chars_of(path);
    let q = chars_of(prefix);
    if q.len() == 0 || !chars_start_with(&p, &q) {
        return false;
    }
    p.len() == q.len() || char_at(&p, q.len()) == '\\'
}

/// Whether the file name of `path` has the extension `extension`, in any
/// case.
pub open spec fn extension_is(path: Seq<char>, extension: Seq<char>) -> bool {
    match extension_of(path) {
        Some(ext) => same_ignoring_case(ext, extension),
        None => false,
    }
}

/// Whether the path has the extension, in any case.
pub fn has_extension(path: &str, extension: &str) -> (r: bool)
    ensures
        r == extension_is(path@, extension@),
{
    match path_extension(path) {
        Some(ext) => eq_ignore_case(ext.as_str(), extension),
        None => false,
    }
}

impl IgnoreMatcher {
    /// Whether `path` is one of the directories that are passed over, or
    /// lies below one.
    pub open spec fn ignores(&self, path: Seq<char>) -> bool {
        exists|k: int|
            0 <= k < self.prefixes.len() && below_prefix(
                prefix_key(path),
                (#[trigger] self.prefixes[k])@,
            )
    }

    /// Whether the path stands at or below one of the ignored directories.
    pub fn is_ignored(&self, path: &str) -> (r: bool)
        ensures
            r == self.ignores(path@),
    {
        if self.prefixes.len() == 0 {
            return false;
        }
        let normalized = normalize_path_for_prefix_match(path);
        let mut k: usize = 0;
        while k < self.prefixes.len()
            invariant
                k <= self.prefixes.len(),
                forall|j: int|
                    0 <= j < k ==> !below_prefix(normalized@, (#[trigger] self.prefixes[j])@),
            decreases self.prefixes.len() - k,
        {
            if is_prefix(normalized.as_str(), self.prefixes[k].as_str()) {
                return true;
            }
            k += 1;
        }
        false
    }
}

impl Default for IgnoreMatcher {
    fn default() -> (r: IgnoreMatcher)
        ensures
            r.prefixes.len() == 0,
    {
        IgnoreMatcher { prefixes: Vec::new() }
    }
}

impl DprIgnoreMatcher {
    /// Each pattern has its tokens.
    pub open spec fn wf(&self) -> bool {
        &&& self.patterns.len() == self.normalized_patterns.len()
        &&& forall|k: int|
            0 <= k < self.patterns.len() ==> (#[trigger] self.patterns[k]).tokens@ == glob_tokens(
                self.normalized_patterns[k]@,
            )
    }

    /// Whether the path matches one of the patterns.
    pub open spec fn ignores(&self, path: Seq<char>) -> bool {
        exists|k: int|
            0 <= k < self.patterns.len() && glob_accepts(
                (#[trigger] self.patterns[k]).tokens@,
                match_key(path),
            )
    }

    /// Whether the matcher has no pattern.
    pub fn is_empty(&self) -> (r: bool)
        ensures
            r == (self.patterns.len() == 0),
    {
        self.patterns.len() == 0
    }

    /// The patterns as they are matched.
    pub fn normalized_patterns(&self) -> (r: &Vec<String>)
        ensures
            r == &self.normalized_patterns,
    {
        &self.normalized_patterns
    }

    /// Whether one of the patterns matches the path.
    pub fn is_ignored(&self, absolute_path: &str) -> (r: bool)
        ensures
            r == self.ignores(absolute_path@),
    {
        let normalized = normalize_path_like_for_match(absolute_path);
        let mut k: usize = 0;
        while k < self.patterns.len()
            invariant
                k <= self.patterns.len(),
                forall|j: int|
                    0 <= j < k ==> !glob_accepts(
                        (#[trigger] self.patterns[j]).tokens@,
                        normalized@,
                    ),
            decreases self.patterns.len() - k,
        {
            if glob_matches(&self.patterns[k].tokens, normalized.as_str()) {
                return true;
            }
            k += 1;
        }
        false
    }
}

/// The canonical path of a root.
pub fn canonicalize_root(tree: &SourceTree, root: &str) -> (r: String)
    requires
        tree.wf(),
    ensures
        r@ == tree.canonical(root@),
{
    tree.canonicalize(root)
}

/// `keys` with `key` where it belongs, unless `keys` holds it or it is
/// empty.
pub open spec fn with_prefix(keys: Seq<Seq<char>>, key: Seq<char>) -> Seq<Seq<char>> {
    if key.len() == 0 || keys.contains(key) {
        keys
    } else {
        with_sorted(keys, key)
    }
}

/// The prefixes with those that the relative path `rel` gives below each
/// of the roots `roots[j..]`.
pub open spec fn prefixes_below(
    tree: SourceTree,
    rel: Seq<char>,
    roots: Seq<Seq<char>>,
    j: int,
    keys: Seq<Seq<char>>,
) -> Seq<Seq<char>>
    decreases roots.len() - j,
{
    if j < 0 || j >= roots.len() {
        keys
    } else {
        prefixes_below(
            tree,
            rel,
            roots,
            j + 1,
            with_prefix(keys, prefix_key(tree.canonical(joined(roots[j], rel)))),
        )
    }
}

/// The prefixes with those that the values `raws[k..]` give: an absolute
/// path gives its own key, a relative path one key for each root; a
/// blank value gives none.
pub open spec fn prefixes_from(
    tree: SourceTree,
    raws: Seq<Seq<char>>,
    k: int,
    roots: Seq<Seq<char>>,
    keys: Seq<Seq<char>>,
) -> Seq<Seq<char>>
    decreases raws.len() - k,
{
    if k < 0 || k >= raws.len() {
        keys
    } else {
        let value = trimmed(raws[k]);
        prefixes_from(
            tree,
            raws,
            k + 1,
            roots,
            if value.len() == 0 {
                keys
            } else if absolute(value) {
                with_prefix(keys, prefix_key(tree.canonical(value)))
            } else {
                prefixes_below(tree, value, roots, 0, keys)
            },
        )
    }
}

fn add_prefix(prefixes: &mut Vec<String>, key: String)
    ensures
        final(prefixes).deep_view() == with_prefix(old(prefixes).deep_view(), key@),
{
    if key.as_str().unicode_len() == 0 || contains_text(prefixes, key.as_str()) {
        return ;
    }
    insert_sorted(prefixes, key);
}

/// Builds the matcher for the directories that are passed over: its
/// prefixes are sorted, and none stands twice.
pub fn build_ignore_matcher(
    tree: &SourceTree,
    raw_values: &Vec<String>,
    search_roots: &Vec<String>,
) -> (r: IgnoreMatcher)
    requires
        tree.wf(),
    ensures
        r.prefixes.deep_view() == prefixes_from(
            *tree,
            raw_values.deep_view(),
            0,
            search_roots.deep_view(),
            Seq::empty(),
        ),
{
    let mut prefixes: Vec<String> = Vec::new();
    assert(prefixes.deep_view() =~= Seq::<Seq<char>>::empty());
    let ghost goal = prefixes_from(
        *tree,
        raw_values.deep_view(),
        0,
        search_roots.deep_view(),
        Seq::empty(),
    );
    let mut k: usize = 0;
    while k < raw_values.len()
        invariant
            k <= raw_values.len(),
            prefixes_from(
                *tree,
                raw_values.deep_view(),
                k as int,
                search_roots.deep_view(),
                prefixes.deep_view(),
            ) == goal,
        decreases raw_values.len() - k,
    {
        assert(raw_values.deep_view()[k as int] == raw_values[k as int]@);
        let value = trim(raw_values[k].as_str());
        k += 1;
        if value.as_str().unicode_len() == 0 {
            continue ;
        }
        if path_is_absolute(value.as_str()) {
            let path = tree.canonicalize(value.as_str());
            add_prefix(&mut prefixes, normalize_path_for_prefix_match(path.as_str()));
            continue ;
        }
        let ghost start = prefixes.deep_view();
        let mut j: usize = 0;
        while j < search_roots.len()
            invariant
                j <= search_roots.len(),
                prefixes_below(*tree, value@, search_roots.deep_view(), j as int, prefixes.deep_view())
                    == prefixes_below(*tree, value@, search_roots.deep_view(), 0, start),
            decreases search_roots.len() - j,
        {
            assert(search_roots.deep_view()[j as int] == search_roots[j as int]@);
            let below = path_join(search_roots[j].as_str(), value.as_str());
            let path = tree.canonicalize(below.as_str());
            add_prefix(&mut prefixes, normalize_path_for_prefix_match(path.as_str()));
            j += 1;
        }
    }
    IgnoreMatcher { prefixes }
}

/// The pattern `raw` as it is compared: made absolute from `cwd`, and
/// as a key.
pub open spec fn dpr_pattern(raw: Seq<char>, cwd: Seq<char>) -> Seq<char> {
    match_key(
        if absolute(raw) {
            raw
        } else {
            joined(cwd, raw)
        },
    )
}

fn normalize_dpr_glob_pattern(raw_pattern: &str, cwd: &str) -> (r: String)
    ensures
        r@ == dpr_pattern(raw_pattern@, cwd@),
{
    let absolute_pattern = if path_is_absolute(raw_pattern) {
        copy_text(raw_pattern)
    } else {
        path_join(cwd, raw_pattern)
    };
    normalize_path_like_for_match(absolute_pattern.as_str())
}

/// The patterns that the values `raws[k..]` give, behind `found`: one
/// for each value that is not blank.
pub open spec fn dpr_patterns_from(
    raws: Seq<Seq<char>>,
    k: int,
    cwd: Seq<char>,
    found: Seq<Seq<char>>,
) -> Seq<Seq<char>>
    decreases raws.len() - k,
{
    if k < 0 || k >= raws.len() {
        found
    } else {
        let value = trimmed(raws[k]);
        dpr_patterns_from(
            raws,
            k + 1,
            cwd,
            if value.len() == 0 {
                found
            } else {
                found.push(dpr_pattern(value, cwd))
            },
        )
    }
}

/// Builds the matcher for the project files that are passed over.
pub fn build_dpr_ignore_matcher(raw_values: &Vec<String>, cwd: &str) -> (r: Result<
    DprIgnoreMatcher,
    String,
>)
    ensures
        r matches Ok(matcher) && matcher.wf() && matcher.normalized_patterns.deep_view()
            == dpr_patterns_from(raw_values.deep_view(), 0, cwd@, Seq::empty()),
{
    let mut patterns: Vec<GlobPattern> = Vec::new();
    let mut normalized_patterns: Vec<String> = Vec::new();
    assert(normalized_patterns.deep_view() =~= Seq::<Seq<char>>::empty());
    let mut k: usize = 0;
    while k < raw_values.len()
        invariant
            k <= raw_values.len(),
            patterns.len() == normalized_patterns.len(),
            forall|j: int|
                0 <= j < patterns.len() ==> (#[trigger] patterns[j]).tokens@ == glob_tokens(
                    normalized_patterns[j]@,
                ),
            dpr_patterns_from(raw_values.deep_view(), k as int, cwd@, normalized_patterns.deep_view())
                == dpr_patterns_from(raw_values.deep_view(), 0, cwd@, Seq::empty()),
        decreases raw_values.len() - k,
    {
        assert(raw_values.deep_view()[k as int] == raw_values[k as int]@);
        let value = trim(raw_values[k].as_str());
        k += 1;
        if value.as_str().unicode_len() == 0 {
            continue ;
        }
        let normalized = normalize_dpr_glob_pattern(value.as_str(), cwd);
        patterns.push(GlobPattern { tokens: parse_glob_tokens(normalized.as_str()) });
        push_text(&mut normalized_patterns, normalized);
    }
    Ok(DprIgnoreMatcher { patterns, normalized_patterns })
}

/// Those of the paths that the matcher passes over, if `ignored` says
/// so, else those that it does not pass over; in their order.
pub open spec fn selected(paths: Seq<Seq<char>>, matcher: DprIgnoreMatcher, ignored: bool) -> Seq<
    Seq<char>,
>
    decreases paths.len(),
{
    if paths.len() == 0 {
        Seq::empty()
    } else {
        let rest = selected(paths.drop_last(), matcher, ignored);
        if matcher.ignores(paths.last()) == ignored {
            rest.push(paths.last())
        } else {
            rest
        }
    }
}

/// Parts the project files into those that a run works on and those
/// that it passes over.
pub fn filter_ignored_dpr_files(dpr_files: &Vec<String>, ignore_dpr_matcher: &DprIgnoreMatcher) -> (r:
    DprFilterResult)
    ensures
        r.included_files.deep_view() == selected(
            dpr_files.deep_view(),
            *ignore_dpr_matcher,
            false,
        ),
        r.ignored_files.deep_view() == selected(dpr_files.deep_view(), *ignore_dpr_matcher, true),
{
    let mut included_files: Vec<String> = Vec::new();
    let mut ignored_files: Vec<String> = Vec::new();
    let ghost paths = dpr_files.deep_view();
    assert(included_files.deep_view() =~= Seq::<Seq<char>>::empty());
    assert(ignored_files.deep_view() =~= Seq::<Seq<char>>::empty());
    assert(paths.take(0) =~= Seq::<Seq<char>>::empty());
    let mut k: usize = 0;
    while k < dpr_files.len()
        invariant
            k <= dpr_files.len(),
            included_files.deep_view() == selected(paths.take(k as int), *ignore_dpr_matcher, false),
            ignored_files.deep_view() == selected(paths.take(k as int), *ignore_dpr_matcher, true),
        decreases dpr_files.len() - k,
    {
        assert(paths[k as int] == dpr_files[k as int]@);
        assert(paths.take(k + 1).drop_last() =~= paths.take(k as int));
        assert(paths.take(k + 1).last() == paths[k as int]);
        if ignore_dpr_matcher.is_ignored(dpr_files[k].as_str()) {
            push_text(&mut ignored_files, dpr_files[k].clone());
        } else {
            push_text(&mut included_files, dpr_files[k].clone());
        }
        k += 1;
    }
    assert(paths.take(k as int) =~= paths);
    DprFilterResult { included_files, ignored_files }
}

/// Where the path `key` belongs among the paths `keys`, which stand in
/// the order of paths: behind the paths at or after `i` that do not come
/// behind it.
pub open spec fn path_position(keys: Seq<Seq<char>>, key: Seq<char>, i: int) -> int
    decreases keys.len() - i,
{
    if 0 <= i < keys.len() && path_not_after(keys[i], key) {
        path_position(keys, key, i + 1)
    } else {
        i
    }
}

pub proof fn lemma_path_position(keys: Seq<Seq<char>>, key: Seq<char>, i: int)
    requires
        0 <= i <= keys.len(),
    ensures
        i <= path_position(keys, key, i) <= keys.len(),
    decreases keys.len() - i,
{
    if i < keys.len() && path_not_after(keys[i], key) {
        lemma_path_position(keys, key, i + 1);
    }
}

/// `keys` with the path `key` put in where it belongs.
pub open spec fn with_path(keys: Seq<Seq<char>>, key: Seq<char>) -> Seq<Seq<char>> {
    keys.insert(path_position(keys, key, 0), key)
}

/// Puts the path `item` into `items` where it belongs in the order of
/// paths.
pub fn insert_path(items: &mut Vec<String>, item: String)
    ensures
        final(items).deep_view() == with_path(old(items).deep_view(), item@),
{
    let ghost keys = items.deep_view();
    let mut i: usize = 0;
    proof {
        lemma_path_position(keys, item@, 0);
    }
    while i < items.len() && path_le(items[i].as_str(), item.as_str())
        invariant
            i <= items.len(),
            *items == *old(items),
            path_position(keys, item@, i as int) == path_position(keys, item@, 0),
        decreases items.len() - i,
    {
        assert(keys[i as int] == items[i as int]@);
        i += 1;
    }
    if i < items.len() {
        assert(keys[i as int] == items[i as int]@);
    }
    items.insert(i, item);
    assert(items.deep_view() =~= keys.insert(i as int, item@));
}

/// The files found so far and the keys of those files.
pub struct ScanState {
    pub pas_files: Seq<Seq<char>>,
    pub dpr_files: Seq<Seq<char>>,
    pub seen_pas: Seq<Seq<char>>,
    pub seen_dpr: Seq<Seq<char>>,
}

/// The state after the walk met the file `path`: a file that is passed
/// over counts for nothing; a unit file or a project file whose key was
/// not met before is put where it belongs in its list.
pub open spec fn with_file(matcher: IgnoreMatcher, path: Seq<char>, st: ScanState) -> ScanState {
    let key = prefix_key(path);
    if matcher.ignores(path) {
        st
    } else if extension_is(path, "pas"@) {
        if st.seen_pas.contains(key) {
            st
        } else {
            ScanState {
                pas_files: with_path(st.pas_files, path),
                dpr_files: st.dpr_files,
                seen_pas: st.seen_pas.push(key),
                seen_dpr: st.seen_dpr,
            }
        }
    } else if extension_is(path, "dpr"@) && !st.seen_dpr.contains(key) {
        ScanState {
            pas_files: st.pas_files,
            dpr_files: with_path(st.dpr_files, path),
            seen_pas: st.seen_pas,
            seen_dpr: st.seen_dpr.push(key),
        }
    } else {
        st
    }
}

pub open spec fn scanned_from(
    matcher: IgnoreMatcher,
    found: Seq<Seq<char>>,
    k: int,
    st: ScanState,
) -> ScanState
    decreases found.len() - k,
{
    if k < 0 || k >= found.len() {
        st
    } else {
        scanned_from(matcher, found, k + 1, with_file(matcher, found[k], st))
    }
}

/// Sorts the files that a walk met into unit files and project files,
/// each once and in the order of their paths. `found` holds the regular
/// files that the walk met, in the order in which it met them.
pub fn scan_files(found: &Vec<String>, ignore: &IgnoreMatcher) -> (r: FsScan)
    ensures
        ({
            let end = scanned_from(
                *ignore,
                found.deep_view(),
                0,
                ScanState {
                    pas_files: Seq::empty(),
                    dpr_files: Seq::empty(),
                    seen_pas: Seq::empty(),
                    seen_dpr: Seq::empty(),
                },
            );
            r.pas_files.deep_view() == end.pas_files && r.dpr_files.deep_view() == end.dpr_files
        }),
{
    let mut pas_files: Vec<String> = Vec::new();
    let mut dpr_files: Vec<String> = Vec::new();
    let mut seen_pas: Vec<String> = Vec::new();
    let mut seen_dpr: Vec<String> = Vec::new();
    assert(pas_files.deep_view() =~= Seq::<Seq<char>>::empty());
    assert(dpr_files.deep_view() =~= Seq::<Seq<char>>::empty());
    assert(seen_pas.deep_view() =~= Seq::<Seq<char>>::empty());
    assert(seen_dpr.deep_view() =~= Seq::<Seq<char>>::empty());
    let ghost goal = scanned_from(
        *ignore,
        found.deep_view(),
        0,
        ScanState {
            pas_files: Seq::empty(),
            dpr_files: Seq::empty(),
            seen_pas: Seq::empty(),
            seen_dpr: Seq::empty(),
        },
    );
    let mut k: usize = 0;
    while k < found.len()
        invariant
            k <= found.len(),
            scanned_from(
                *ignore,
                found.deep_view(),
                k as int,
                ScanState {
                    pas_files: pas_files.deep_view(),
                    dpr_files: dpr_files.deep_view(),
                    seen_pas: seen_pas.deep_view(),
                    seen_dpr: seen_dpr.deep_view(),
                },
            ) == goal,
        decreases found.len() - k,
    {
        assert(found.deep_view()[k as int] == found[k as int]@);
        let path = found[k].as_str();
        k += 1;
        if ignore.is_ignored(path) {
            continue ;
        }
        let key = normalize_path_for_prefix_match(path);
        if has_extension(path, "pas") {
            if !contains_text(&seen_pas, key.as_str()) {
                push_text(&mut seen_pas, key);
                insert_path(&mut pas_files, copy_text(path));
            }
        } else if has_extension(path, "dpr") && !contains_text(&seen_dpr, key.as_str()) {
            push_text(&mut seen_dpr, key);
            insert_path(&mut dpr_files, copy_text(path));
        }
    }
    FsScan { pas_files, dpr_files }
}

/// Whether a text holds `*` or `?`.
pub open spec fn has_glob_chars(value: Seq<char>) -> bool {
    value.contains('*') || value.contains('?')
}

/// The path made of the components `parts[k..]` up to the first name
/// that holds `*` or `?`, joined onto `root`.
pub open spec fn walk_root_from(parts: Seq<PartModel>, k: int, root: Seq<char>) -> Seq<char>
    decreases parts.len() - k,
{
    if k < 0 || k >= parts.len() || (parts[k].normal && has_glob_chars(parts[k].text)) {
        root
    } else {
        walk_root_from(parts, k + 1, joined(root, parts[k].text))
    }
}

/// The directory below which a pattern can match: the pattern up to its
/// first component that holds `*` or `?`.
pub open spec fn walk_root(pattern: Seq<char>) -> Seq<char> {
    walk_root_from(parts_of(pattern), 0, Seq::empty())
}

/// The directory from which the files that a pattern can match are
/// looked for: the path up to the first component that holds `*` or `?`.
pub fn search_pattern_walk_root(absolute_pattern: &str) -> (r: String)
    ensures
        r@ == walk_root(absolute_pattern@),
{
    let parts = path_components(absolute_pattern);
    let mut root = String::new();
    let mut k: usize = 0;
    while k < parts.len()
        invariant
            k <= parts.len(),
            parts.deep_view() == parts_of(absolute_pattern@),
            walk_root_from(parts.deep_view(), k as int, root@) == walk_root(absolute_pattern@),
        decreases parts.len() - k,
    {
        assert(parts.deep_view()[k as int] == parts[k as int].deep_view());
        if parts[k].normal && contains_glob_chars(parts[k].text.as_str()) {
            return root;
        }
        root = path_join(root.as_str(), parts[k].text.as_str());
        k += 1;
    }
    root
}

/// The roots found so far and their keys.
pub struct RootsState {
    pub roots: Seq<Seq<char>>,
    pub seen: Seq<Seq<char>>,
}

/// The roots with the canonical path of `path`, unless a root with its
/// key is among them.
pub open spec fn with_unique_root(tree: SourceTree, st: RootsState, path: Seq<char>) -> RootsState {
    let canonical = tree.canonical(path);
    let key = prefix_key(canonical);
    if st.seen.contains(key) {
        st
    } else {
        RootsState { roots: st.roots.push(canonical), seen: st.seen.push(key) }
    }
}

fn push_unique_root(tree: &SourceTree, roots: &mut Vec<String>, seen: &mut Vec<String>, path: &str)
    requires
        tree.wf(),
    ensures
        (RootsState { roots: final(roots).deep_view(), seen: final(seen).deep_view() })
            == with_unique_root(
            *tree,
            RootsState { roots: old(roots).deep_view(), seen: old(seen).deep_view() },
            path@,
        ),
{
    let canonical = tree.canonicalize(path);
    let key = normalize_path_for_prefix_match(canonical.as_str());
    if !contains_text(seen, key.as_str()) {
        push_text(seen, key);
        push_text(roots, canonical);
    }
}

/// The roots with each of the directories `dirs[j..]` that the tokens
/// match, and whether one of them does.
pub struct MatchState {
    pub found: RootsState,
    pub matched: bool,
}

pub open spec fn matched_dirs(
    tree: SourceTree,
    tokens: Seq<GlobToken>,
    dirs: Seq<Seq<char>>,
    j: int,
    st: MatchState,
) -> MatchState
    decreases dirs.len() - j,
{
    if j < 0 || j >= dirs.len() {
        st
    } else {
        matched_dirs(
            tree,
            tokens,
            dirs,
            j + 1,
            if glob_accepts(tokens, match_key(dirs[j])) {
                MatchState { found: with_unique_root(tree, st.found, dirs[j]), matched: true }
            } else {
                st
            },
        )
    }
}

/// The roots and the patterns without a match while the values are
/// taken in.
pub struct SearchState {
    pub found: RootsState,
    pub unmatched: Seq<Seq<char>>,
}

/// The state after one value was taken in. A blank value counts for
/// nothing. A pattern with `*` or `?` gives every directory that it
/// matches; any other value gives itself if it is a directory. A value
/// that gives nothing is kept as unmatched.
pub open spec fn with_search_value(
    tree: SourceTree,
    raw: Seq<char>,
    cwd: Seq<char>,
    dirs: Seq<Seq<char>>,
    st: SearchState,
) -> SearchState {
    let value = trimmed(raw);
    let pattern = if absolute(value) {
        value
    } else {
        joined(cwd, value)
    };
    let end = if has_glob_chars(value) {
        matched_dirs(
            tree,
            glob_tokens(match_key(pattern)),
            dirs,
            0,
            MatchState { found: st.found, matched: false },
        )
    } else if dirs.contains(pattern) {
        MatchState { found: with_unique_root(tree, st.found, pattern), matched: true }
    } else {
        MatchState { found: st.found, matched: false }
    };
    if value.len() == 0 {
        st
    } else {
        SearchState {
            found: end.found,
            unmatched: if end.matched {
                st.unmatched
            } else {
                st.unmatched.push(value)
            },
        }
    }
}

pub open spec fn search_from(
    tree: SourceTree,
    raws: Seq<Seq<char>>,
    k: int,
    cwd: Seq<char>,
    dirs: Seq<Seq<char>>,
    st: SearchState,
) -> SearchState
    decreases raws.len() - k,
{
    if k < 0 || k >= raws.len() {
        st
    } else {
        search_from(tree, raws, k + 1, cwd, dirs, with_search_value(tree, raws[k], cwd, dirs, st))
    }
}

/// The roots sorted by their keys: the roots `roots[k..]` put into
/// `sorted`, each behind the roots whose keys do not come behind its own.
pub open spec fn sorted_roots_from(
    roots: Seq<Seq<char>>,
    k: int,
    sorted: Seq<Seq<char>>,
    keys: Seq<Seq<char>>,
) -> Seq<Seq<char>>
    decreases roots.len() - k,
{
    if k < 0 || k >= roots.len() {
        sorted
    } else {
        let key = prefix_key(roots[k]);
        let at = sorted_position(keys, key, 0);
        sorted_roots_from(roots, k + 1, sorted.insert(at, roots[k]), keys.insert(at, key))
    }
}

fn sort_roots(roots: &Vec<String>) -> (r: Vec<String>)
    ensures
        r.deep_view() == sorted_roots_from(roots.deep_view(), 0, Seq::empty(), Seq::empty()),
{
    let mut sorted: Vec<String> = Vec::new();
    let mut keys: Vec<String> = Vec::new();
    assert(sorted.deep_view() =~= Seq::<Seq<char>>::empty());
    assert(keys.deep_view() =~= Seq::<Seq<char>>::empty());
    let mut k: usize = 0;
    while k < roots.len()
        invariant
            k <= roots.len(),
            sorted.len() == keys.len(),
            sorted_roots_from(roots.deep_view(), k as int, sorted.deep_view(), keys.deep_view())
                == sorted_roots_from(roots.deep_view(), 0, Seq::empty(), Seq::empty()),
        decreases roots.len() - k,
    {
        assert(roots.deep_view()[k as int] == roots[k as int]@);
        let key = normalize_path_for_prefix_match(roots[k].as_str());
        insert_by_key(&mut sorted, &mut keys, roots[k].clone(), key);
        k += 1;
    }
    sorted
}

/// The directories that a run searches, or why there are none.
pub open spec fn search_roots(
    tree: SourceTree,
    raws: Seq<Seq<char>>,
    cwd: Seq<char>,
    dirs: Seq<Seq<char>>,
) -> Result<(Seq<Seq<char>>, Seq<Seq<char>>), Seq<char>> {
    let end = search_from(
        tree,
        raws,
        0,
        cwd,
        dirs,
        SearchState {
            found: RootsState { roots: Seq::empty(), seen: Seq::empty() },
            unmatched: Seq::empty(),
        },
    );
    if end.found.roots.len() == 0 {
        Err("--search-path did not match any directories"@)
    } else {
        Ok((sorted_roots_from(end.found.roots, 0, Seq::empty(), Seq::empty()), end.unmatched))
    }
}

/// The view of a resolution or a message.
pub open spec fn search_result_view(r: Result<SearchRootsResolution, String>) -> Result<
    (Seq<Seq<char>>, Seq<Seq<char>>),
    Seq<char>,
> {
    match r {
        Ok(found) => Ok((found.roots.deep_view(), found.unmatched_patterns.deep_view())),
        Err(message) => Err(message@),
    }
}

fn take_search_value(
    tree: &SourceTree,
    raw: &str,
    cwd: &str,
    dirs: &Vec<String>,
    roots: &mut Vec<String>,
    seen: &mut Vec<String>,
    unmatched: &mut Vec<String>,
)
    requires
        tree.wf(),
    ensures
        (SearchState {
            found: RootsState { roots: final(roots).deep_view(), seen: final(seen).deep_view() },
            unmatched: final(unmatched).deep_view(),
        }) == with_search_value(
            *tree,
            raw@,
            cwd@,
            dirs.deep_view(),
            SearchState {
                found: RootsState { roots: old(roots).deep_view(), seen: old(seen).deep_view() },
                unmatched: old(unmatched).deep_view(),
            },
        ),
{
    let value = trim(raw);
    if value.as_str().unicode_len() == 0 {
        return ;
    }
    let pattern = if path_is_absolute(value.as_str()) {
        value.clone()
    } else {
        path_join(cwd, value.as_str())
    };
    let mut matched = false;
    if contains_glob_chars(value.as_str()) {
        let normalized = normalize_path_like_for_match(pattern.as_str());
        let tokens = parse_glob_tokens(normalized.as_str());
        let ghost start = MatchState {
            found: RootsState { roots: roots.deep_view(), seen: seen.deep_view() },
            matched: false,
        };
        let mut j: usize = 0;
        while j < dirs.len()
            invariant
                j <= dirs.len(),
                matched_dirs(
                    *tree,
                    tokens@,
                    dirs.deep_view(),
                    j as int,
                    MatchState {
                        found: RootsState { roots: roots.deep_view(), seen: seen.deep_view() },
                        matched,
                    },
                ) == matched_dirs(*tree, tokens@, dirs.deep_view(), 0, start),
            decreases dirs.len() - j,
        {
            assert(dirs.deep_view()[j as int] == dirs[j as int]@);
            let entry = normalize_path_like_for_match(dirs[j].as_str());
            if glob_matches(&tokens, entry.as_str()) {
                matched = true;
                push_unique_root(tree, roots, seen, dirs[j].as_str());
            }
            j += 1;
        }
    } else if contains_text(dirs, pattern.as_str()) {
        matched = true;
        push_unique_root(tree, roots, seen, pattern.as_str());
    }
    if !matched {
        push_text(unmatched, value);
    }
}

/// Finds the directories that a run searches. `dirs` holds the
/// directories that exist: for a value without `*` and `?` the directory
/// that it names, for a pattern every directory at or below the place
/// where it can match. The roots come sorted by their keys, each once.
pub fn resolve_search_roots(
    tree: &SourceTree,
    raw_values: &Vec<String>,
    cwd: &str,
    dirs: &Vec<String>,
) -> (r: Result<SearchRootsResolution, String>)
    requires
        tree.wf(),
    ensures
        search_result_view(r) == search_roots(
            *tree,
            raw_values.deep_view(),
            cwd@,
            dirs.deep_view(),
        ),
{
    let mut roots: Vec<String> = Vec::new();
    let mut seen: Vec<String> = Vec::new();
    let mut unmatched: Vec<String> = Vec::new();
    assert(roots.deep_view() =~= Seq::<Seq<char>>::empty());
    assert(seen.deep_view() =~= Seq::<Seq<char>>::empty());
    assert(unmatched.deep_view() =~= Seq::<Seq<char>>::empty());
    let ghost goal = search_from(
        *tree,
        raw_values.deep_view(),
        0,
        cwd@,
        dirs.deep_view(),
        SearchState {
            found: RootsState { roots: Seq::empty(), seen: Seq::empty() },
            unmatched: Seq::empty(),
        },
    );
    let mut k: usize = 0;
    while k < raw_values.len()
        invariant
            k <= raw_values.len(),
            search_from(
                *tree,
                raw_values.deep_view(),
                k as int,
                cwd@,
                dirs.deep_view(),
                SearchState {
                    found: RootsState { roots: roots.deep_view(), seen: seen.deep_view() },
                    unmatched: unmatched.deep_view(),
                },
            ) == goal,
        decreases raw_values.len() - k,
    {
        assert(raw_values.deep_view()[k as int] == raw_values[k as int]@);
        take_search_value(
            tree,
            raw_values[k].as_str(),
            cwd,
            dirs,
            &mut roots,
            &mut seen,
            &mut unmatched,
        );
        k += 1;
    }
    assert(roots.deep_view().len() == roots.len());
    if roots.len() == 0 {
        return Err(copy_text("--search-path did not match any directories"));
    }
    Ok(SearchRootsResolution { roots: sort_roots(&roots), unmatched_patterns: unmatched })
}

} // verus!
