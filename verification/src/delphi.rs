use vstd::prelude::*;

use crate::fs_walk::{normalize_path_for_prefix_match, prefix_key};
use crate::graph::{chars_end_with, ends_with};
use crate::paths::{joined, path_join};
use crate::source_tree::SourceTree;
use crate::text::{
    chars_of, concat, concat_all, contains_char, copy_text, eq_ignore_case, insert_by_key,
    join_text, join_texts, lower_text, option_text, same_ignoring_case, sorted_position, split_on,
    split_text, split_words, string_of_range, strip_char, stripped, to_lower, trim, trimmed,
    words_of,
};
use crate::text_map::{contains_text, push_text, TextMap};

verus! {

/// Whether one of the values is not blank.
pub open spec fn any_version(raws: Seq<Seq<char>>) -> bool {
    exists|k: int| 0 <= k < raws.len() && trimmed(#[trigger] raws[k]).len() > 0
}

/// The source roots of the named versions, on a platform without a
/// registry: none if no version is named, else an error.
pub fn resolve_source_roots(raw_versions: &Vec<String>) -> (r: Result<Vec<String>, String>)
    ensures
        match r {
            Ok(roots) => !any_version(raw_versions.deep_view()) && roots.len() == 0,
            Err(message) => any_version(raw_versions.deep_view()) && message@
                == "--delphi-version is only supported on Windows"@,
        },
{
    let mut k: usize = 0;
    while k < raw_versions.len()
        invariant
            k <= raw_versions.len(),
            forall|j: int| 0 <= j < k ==> trimmed(#[trigger] raw_versions.deep_view()[j]).len() == 0,
        decreases raw_versions.len() - k,
    {
        assert(raw_versions.deep_view()[k as int] == raw_versions[k as int]@);
        let version = trim(raw_versions[k].as_str());
        if version.as_str().unicode_len() > 0 {
            return Err(copy_text("--delphi-version is only supported on Windows"));
        }
        k += 1;
    }
    Ok(Vec::new())
}

/// The key by which source roots are told apart.
pub fn normalize_for_dedupe(path: &str) -> (r: String)
    ensures
        r@ == prefix_key(path@),
{
    normalize_path_for_prefix_match(path)
}

/// What the registry said of a version.
pub enum RegistryAnswer {
    /// The directory in which the version is installed.
    Found(String),
    /// The registry does not know the version.
    Missing,
    /// The registry could not be asked.
    Failed(String),
}

/// The source roots found so far, sorted by their keys, and those keys.
pub struct RootsFound {
    pub roots: Seq<Seq<char>>,
    pub keys: Seq<Seq<char>>,
}

/// The source roots, or why there are none.
pub enum RootsEnd {
    Done(RootsFound),
    Failed(Seq<char>),
}

pub open spec fn not_in_registry(version: Seq<char>) -> Seq<char> {
    concat_all(seq!["--delphi-version not found in registry: "@, version])
}

pub open spec fn source_not_found(version: Seq<char>, root: Seq<char>) -> Seq<char> {
    concat_all(
        seq!["Delphi source path not found for --delphi-version "@, version, ": "@, root],
    )
}

pub open spec fn source_not_directory(version: Seq<char>, root: Seq<char>) -> Seq<char> {
    concat_all(
        seq![
            "Delphi source path is not a directory for --delphi-version "@,
            version,
            ": "@,
            root,
        ],
    )
}

/// The roots with one more, where its key says that it belongs, unless a
/// root with that key is among them.
pub open spec fn with_root_by_key(found: RootsFound, root: Seq<char>) -> RootsFound {
    let key = prefix_key(root);
    if found.keys.contains(key) {
        found
    } else {
        let at = sorted_position(found.keys, key, 0);
        RootsFound { roots: found.roots.insert(at, root), keys: found.keys.insert(at, key) }
    }
}

/// The source roots of the versions `raws[k..]`. Each version that is
/// not blank must be known to the registry, and the directory `source`
/// below the place where it is installed must exist.
pub open spec fn source_roots_from(
    tree: SourceTree,
    dirs: Seq<Seq<char>>,
    raws: Seq<Seq<char>>,
    k: int,
    answers: TextMap<RegistryAnswer>,
    found: RootsFound,
) -> RootsEnd
    decreases raws.len() - k,
{
    if k < 0 || k >= raws.len() {
        RootsEnd::Done(found)
    } else {
        let version = trimmed(raws[k]);
        if version.len() == 0 {
            source_roots_from(tree, dirs, raws, k + 1, answers, found)
        } else {
            match answers.lookup(version) {
                Some(RegistryAnswer::Failed(message)) => RootsEnd::Failed(message@),
                Some(RegistryAnswer::Found(bds_root)) => {
                    let root = joined(bds_root@, "source"@);
                    if !dirs.contains(root) {
                        if tree.has_file(root) {
                            RootsEnd::Failed(source_not_directory(version, root))
                        } else {
                            RootsEnd::Failed(source_not_found(version, root))
                        }
                    } else {
                        source_roots_from(
                            tree,
                            dirs,
                            raws,
                            k + 1,
                            answers,
                            with_root_by_key(found, tree.canonical(root)),
                        )
                    }
                },
                _ => RootsEnd::Failed(not_in_registry(version)),
            }
        }
    }
}

/// The view of roots or a message.
pub open spec fn roots_result_view(r: Result<Vec<String>, String>) -> Result<
    Seq<Seq<char>>,
    Seq<char>,
> {
    match r {
        Ok(roots) => Ok(roots.deep_view()),
        Err(message) => Err(message@),
    }
}

/// The source roots of the named versions, sorted by their keys, each
/// once. `answers` holds what the registry said of each version, and
/// `dirs` the directories that exist.
pub fn resolve_source_roots_with_lookup(
    tree: &SourceTree,
    dirs: &Vec<String>,
    raw_versions: &Vec<String>,
    answers: &TextMap<RegistryAnswer>,
) -> (r: Result<Vec<String>, String>)
    requires
        tree.wf(),
        answers.wf(),
    ensures
        roots_result_view(r) == match source_roots_from(
            *tree,
            dirs.deep_view(),
            raw_versions.deep_view(),
            0,
            *answers,
            RootsFound { roots: Seq::empty(), keys: Seq::empty() },
        ) {
            RootsEnd::Done(found) => Ok(found.roots),
            RootsEnd::Failed(message) => Err(message),
        },
{
    let mut roots: Vec<String> = Vec::new();
    let mut keys: Vec<String> = Vec::new();
    assert(roots.deep_view() =~= Seq::<Seq<char>>::empty());
    assert(keys.deep_view() =~= Seq::<Seq<char>>::empty());
    let ghost goal = source_roots_from(
        *tree,
        dirs.deep_view(),
        raw_versions.deep_view(),
        0,
        *answers,
        RootsFound { roots: Seq::empty(), keys: Seq::empty() },
    );
    let mut k: usize = 0;
    while k < raw_versions.len()
        invariant
            k <= raw_versions.len(),
            roots.len() == keys.len(),
            source_roots_from(
                *tree,
                dirs.deep_view(),
                raw_versions.deep_view(),
                k as int,
                *answers,
                RootsFound { roots: roots.deep_view(), keys: keys.deep_view() },
            ) == goal,
        decreases raw_versions.len() - k,
    {
        assert(raw_versions.deep_view()[k as int] == raw_versions[k as int]@);
        let version = trim(raw_versions[k].as_str());
        k += 1;
        if version.as_str().unicode_len() == 0 {
            continue ;
        }
        let bds_root = match answers.get(version.as_str()) {
            Some(RegistryAnswer::Found(path)) => path,
            Some(RegistryAnswer::Failed(message)) => {
                return Err(message.clone());
            },
            _ => {
                let parts = vec!["--delphi-version not found in registry: ", version.as_str()];
                assert(parts.deep_view() =~= seq![
                    "--delphi-version not found in registry: "@,
                    version@,
                ]);
                return Err(concat(&parts));
            },
        };
        let source_root = path_join(bds_root.as_str(), "source");
        if !contains_text(dirs, source_root.as_str()) {
            if tree.is_file(source_root.as_str()) {
                let parts = vec![
                    "Delphi source path is not a directory for --delphi-version ",
                    version.as_str(),
                    ": ",
                    source_root.as_str(),
                ];
                assert(parts.deep_view() =~= seq![
                    "Delphi source path is not a directory for --delphi-version "@,
                    version@,
                    ": "@,
                    source_root@,
                ]);
                return Err(concat(&parts));
            }
            let parts = vec![
                "Delphi source path not found for --delphi-version ",
                version.as_str(),
                ": ",
                source_root.as_str(),
            ];
            assert(parts.deep_view() =~= seq![
                "Delphi source path not found for --delphi-version "@,
                version@,
                ": "@,
                source_root@,
            ]);
            return Err(concat(&parts));
        }
        let canonical = tree.canonicalize(source_root.as_str());
        let key = normalize_for_dedupe(canonical.as_str());
        if !contains_text(&keys, key.as_str()) {
            insert_by_key(&mut roots, &mut keys, canonical, key);
        }
    }
    Ok(roots)
}

/// The value that the line `lines[k]` or a later line gives for `name`:
/// that of the first line whose first word is `name`, in any case, and
/// which holds a value behind the word that follows the name. A line
/// with the name and nothing behind it ends the search.
pub open spec fn reg_value_from(lines: Seq<Seq<char>>, k: int, name: Seq<char>) -> Option<Seq<char>>
    decreases lines.len() - k,
{
    if k < 0 || k >= lines.len() {
        None
    } else {
        let words = words_of(trimmed(lines[k]));
        if words.len() == 0 || !same_ignoring_case(words[0], name) {
            reg_value_from(lines, k + 1, name)
        } else if words.len() < 2 {
            None
        } else if join_text(words.skip(2), " "@).len() == 0 {
            reg_value_from(lines, k + 1, name)
        } else {
            Some(join_text(words.skip(2), " "@))
        }
    }
}

/// The value that the output of a registry query gives for `name`.
pub open spec fn reg_value(output: Seq<char>, name: Seq<char>) -> Option<Seq<char>> {
    reg_value_from(split_text(output, '\n'), 0, name)
}

/// Reads the value named `value_name` from the output of a registry
/// query.
pub fn parse_reg_query_value(output: &str, value_name: &str) -> (r: Option<String>)
    ensures
        option_text(r) == reg_value(output@, value_name@),
{
    let lines = split_on(output, '\n');
    let mut k: usize = 0;
    while k < lines.len()
        invariant
            k <= lines.len(),
            lines.deep_view() == split_text(output@, '\n'),
            reg_value_from(lines.deep_view(), k as int, value_name@) == reg_value(
                output@,
                value_name@,
            ),
        decreases lines.len() - k,
    {
        assert(lines.deep_view()[k as int] == lines[k as int]@);
        let line = trim(lines[k].as_str());
        k += 1;
        let words = split_words(line.as_str());
        assert(words.deep_view().len() == words.len());
        if words.len() == 0 {
            continue ;
        }
        assert(words.deep_view()[0] == words[0]@);
        if !eq_ignore_case(words[0].as_str(), value_name) {
            continue ;
        }
        if words.len() < 2 {
            return None;
        }
        let value = join_texts(&words, 2, " ");
        if value.as_str().unicode_len() == 0 {
            continue ;
        }
        return Some(value);
    }
    None
}

/// The first of the candidates `candidates[k..]`, in any case, that are
/// not among `seen`, behind `kept`.
pub open spec fn distinct_from(
    candidates: Seq<Seq<char>>,
    k: int,
    seen: Seq<Seq<char>>,
    kept: Seq<Seq<char>>,
) -> Seq<Seq<char>>
    decreases candidates.len() - k,
{
    if k < 0 || k >= candidates.len() {
        kept
    } else if seen.contains(lower_text(candidates[k])) {
        distinct_from(candidates, k + 1, seen, kept)
    } else {
        distinct_from(
            candidates,
            k + 1,
            seen.push(lower_text(candidates[k])),
            kept.push(candidates[k]),
        )
    }
}

/// The spellings under which a version may stand in the registry: the
/// version as given; with `.0` behind it if it holds no dot; without a
/// `.0` at its end. A blank version has none.
pub open spec fn candidates_of(version: Seq<char>) -> Seq<Seq<char>> {
    let wanted = trimmed(version);
    let long = if wanted.contains('.') {
        seq![wanted]
    } else {
        seq![wanted, wanted + ".0"@]
    };
    let all = if ends_with(wanted, ".0"@) && wanted.len() > ".0"@.len() {
        long.push(wanted.subrange(0, wanted.len() - ".0"@.len()))
    } else {
        long
    };
    if wanted.len() == 0 {
        Seq::empty()
    } else {
        distinct_from(all, 0, Seq::empty(), Seq::empty())
    }
}

/// The versions under which the registry may hold the version that was
/// asked for: the version itself, and its other spellings.
pub fn version_candidates(version: &str) -> (r: Vec<String>)
    ensures
        r.deep_view() == candidates_of(version@),
{
    let wanted = trim(version);
    let mut kept: Vec<String> = Vec::new();
    assert(kept.deep_view() =~= Seq::<Seq<char>>::empty());
    if wanted.as_str().unicode_len() == 0 {
        return kept;
    }
    let mut candidates: Vec<String> = Vec::new();
    push_text(&mut candidates, wanted.clone());
    assert(candidates.deep_view() =~= seq![wanted@]);
    if !contains_char(wanted.as_str(), '.') {
        let parts = vec![wanted.as_str(), ".0"];
        assert(parts.deep_view() =~= seq![wanted@, ".0"@]);
        let long = concat(&parts);
        proof {
            let all = seq![wanted@, ".0"@];
            assert(all.drop_last() =~= seq![wanted@]);
            assert(seq![wanted@].drop_last() =~= Seq::<Seq<char>>::empty());
            assert(concat_all(all) =~= wanted@ + ".0"@) by {
                reveal_with_fuel(concat_all, 3);
            }
        }
        push_text(&mut candidates, long);
        assert(candidates.deep_view() =~= seq![wanted@, wanted@ + ".0"@]);
    }
    let chars = chars_of(wanted.as_str());
    let suffix = chars_of(".0");
    if chars_end_with(&chars, &suffix) && chars.len() > suffix.len() {
        push_text(&mut candidates, string_of_range(&chars, 0, chars.len() - suffix.len()));
    }
    let mut seen: Vec<String> = Vec::new();
    assert(seen.deep_view() =~= Seq::<Seq<char>>::empty());
    let ghost all = candidates.deep_view();
    let mut k: usize = 0;
    while k < candidates.len()
        invariant
            k <= candidates.len(),
            all == candidates.deep_view(),
            distinct_from(all, k as int, seen.deep_view(), kept.deep_view()) == candidates_of(
                version@,
            ),
        decreases candidates.len() - k,
    {
        assert(all[k as int] == candidates[k as int]@);
        let key = to_lower(candidates[k].as_str());
        if !contains_text(&seen, key.as_str()) {
            push_text(&mut seen, key);
            push_text(&mut kept, candidates[k].clone());
        }
        k += 1;
    }
    kept
}

/// The key below `base` for the candidate `candidate`.
pub open spec fn key_path(base: Seq<char>, candidate: Seq<char>) -> Seq<char> {
    concat_all(seq![base, "\\"@, candidate])
}

/// The three places of the registry that may know a version.
pub open spec fn registry_bases() -> Seq<Seq<char>> {
    seq![
        "HKCU\\Software\\Embarcadero\\BDS"@,
        "HKLM\\Software\\Embarcadero\\BDS"@,
        "HKLM\\Software\\WOW6432Node\\Embarcadero\\BDS"@,
    ]
}

/// The keys for the candidates `candidates[k..]`, behind `keys`: for
/// each candidate one below each base.
pub open spec fn key_paths_from(candidates: Seq<Seq<char>>, k: int, keys: Seq<Seq<char>>) -> Seq<
    Seq<char>,
>
    decreases candidates.len() - k,
{
    if k < 0 || k >= candidates.len() {
        keys
    } else {
        let bases = registry_bases();
        key_paths_from(
            candidates,
            k + 1,
            keys.push(key_path(bases[0], candidates[k])).push(
                key_path(bases[1], candidates[k]),
            ).push(key_path(bases[2], candidates[k])),
        )
    }
}

/// The keys of the registry under which a version may stand, in the
/// order in which they are to be asked.
pub open spec fn key_paths(version: Seq<char>) -> Seq<Seq<char>> {
    key_paths_from(candidates_of(version), 0, Seq::empty())
}

fn push_key(keys: &mut Vec<String>, base: &str, candidate: &str)
    ensures
        final(keys).deep_view() == old(keys).deep_view().push(key_path(base@, candidate@)),
{
    let parts = vec![base, "\\", candidate];
    assert(parts.deep_view() =~= seq![base@, "\\"@, candidate@]);
    push_text(keys, concat(&parts));
}

/// The registry keys that may hold the root directory of a version.
pub fn registry_key_paths(version: &str) -> (r: Vec<String>)
    ensures
        r.deep_view() == key_paths(version@),
{
    let candidates = version_candidates(version);
    let mut keys: Vec<String> = Vec::new();
    assert(keys.deep_view() =~= Seq::<Seq<char>>::empty());
    let mut k: usize = 0;
    while k < candidates.len()
        invariant
            k <= candidates.len(),
            candidates.deep_view() == candidates_of(version@),
            key_paths_from(candidates.deep_view(), k as int, keys.deep_view()) == key_paths(
                version@,
            ),
        decreases candidates.len() - k,
    {
        assert(candidates.deep_view()[k as int] == candidates[k as int]@);
        let candidate = candidates[k].as_str();
        push_key(&mut keys, "HKCU\\Software\\Embarcadero\\BDS", candidate);
        push_key(&mut keys, "HKLM\\Software\\Embarcadero\\BDS", candidate);
        push_key(&mut keys, "HKLM\\Software\\WOW6432Node\\Embarcadero\\BDS", candidate);
        k += 1;
    }
    keys
}

/// The directory that the output of a query names: the value of
/// `RootDir`, trimmed and without quotes around it, unless that is empty.
pub open spec fn root_dir_of(output: Seq<char>) -> Option<Seq<char>> {
    match reg_value(output, "RootDir"@) {
        Some(value) => if stripped(trimmed(value), '"').len() == 0 {
            None
        } else {
            Some(stripped(trimmed(value), '"'))
        },
        None => None,
    }
}

/// The directory that the first of the keys `keys[k..]` names whose
/// query gave an output with one.
pub open spec fn bds_root_from(keys: Seq<Seq<char>>, k: int, outputs: TextMap<String>) -> Option<
    Seq<char>,
>
    decreases keys.len() - k,
{
    if k < 0 || k >= keys.len() {
        None
    } else if outputs.contains(keys[k]) && root_dir_of(outputs.value(keys[k])@) is Some {
        root_dir_of(outputs.value(keys[k])@)
    } else {
        bds_root_from(keys, k + 1, outputs)
    }
}

/// Finds the directory in which a version is installed. `outputs` holds
/// for each key of the registry that could be read what the query of
/// its `RootDir` printed.
pub fn lookup_bds_root_from_registry(version: &str, outputs: &TextMap<String>) -> (r: Option<String>)
    requires
        outputs.wf(),
    ensures
        option_text(r) == bds_root_from(key_paths(version@), 0, *outputs),
{
    let keys = registry_key_paths(version);
    let mut k: usize = 0;
    while k < keys.len()
        invariant
            k <= keys.len(),
            keys.deep_view() == key_paths(version@),
            bds_root_from(keys.deep_view(), k as int, *outputs) == bds_root_from(
                key_paths(version@),
                0,
                *outputs,
            ),
        decreases keys.len() - k,
    {
        assert(keys.deep_view()[k as int] == keys[k as int]@);
        match outputs.get(keys[k].as_str()) {
            Some(output) => match parse_reg_query_value(output.as_str(), "RootDir") {
                Some(value) => {
                    let trimmed = trim(value.as_str());
                    let root = strip_char(trimmed.as_str(), '"');
                    if root.as_str().unicode_len() > 0 {
                        return Some(root);
                    }
                },
                None => {},
            },
            None => {},
        }
        k += 1;
    }
    None
}

} // verus!
