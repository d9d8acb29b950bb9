use vstd::prelude::*;

use crate::dpr_edit::{DprUpdateSummary, SummaryModel};
use crate::fs_walk::{extension_is, has_extension};
use crate::paths::{absolute, diff_paths, joined, path_is_absolute, path_join, relative_to};
use crate::source_tree::SourceTree;
use crate::text::{
    concat, concat_all, copy_text, insert_by_key, join_text, join_texts, lower_text, replace_char,
    replaced, sorted_position, text_eq, to_lower, trim, trimmed,
};
use crate::text_map::{contains_text, push_text};

verus! {

/// Whether the path of `parent` is a prefix of the components of `path`,
/// as `std::path` takes them.
pub uninterp spec fn path_below(path: Seq<char>, parent: Seq<char>) -> bool;

/// Calls `Path::starts_with`, which compares whole components. The
/// result depends on the two texts alone.
#[verifier::external_body]
fn path_starts_with(path: &str, parent: &str) -> (r: bool)
    ensures
        r == path_below(path@, parent@),
{
    std::path::Path::new(path).starts_with(std::path::Path::new(parent))
}

/// The view of a path or a message.
pub open spec fn text_result_view(r: Result<String, String>) -> Result<Seq<char>, Seq<char>> {
    match r {
        Ok(path) => Ok(path@),
        Err(message) => Err(message@),
    }
}

/// The path that a value of the command line names: the value, trimmed,
/// below `cwd` if it is relative. A blank value is an error.
pub open spec fn flag_path(value: Seq<char>, cwd: Seq<char>, flag_name: Seq<char>) -> Result<
    Seq<char>,
    Seq<char>,
> {
    let wanted = trimmed(value);
    if wanted.len() == 0 {
        Err(concat_all(seq![flag_name, " cannot be empty"@]))
    } else if absolute(wanted) {
        Ok(wanted)
    } else {
        Ok(joined(cwd, wanted))
    }
}

/// The path that a value of the command line names, or the message that
/// says what is wrong with the value; `flag_name` names the value there.
pub fn resolve_path_with_flag(value: &str, cwd: &str, flag_name: &str) -> (r: Result<String, String>)
    ensures
        text_result_view(r) == flag_path(value@, cwd@, flag_name@),
{
    let wanted = trim(value);
    if wanted.as_str().unicode_len() == 0 {
        let parts = vec![flag_name, " cannot be empty"];
        assert(parts.deep_view() =~= seq![flag_name@, " cannot be empty"@]);
        return Err(concat(&parts));
    }
    if path_is_absolute(wanted.as_str()) {
        Ok(wanted)
    } else {
        Ok(path_join(cwd, wanted.as_str()))
    }
}

/// The path of the new unit that the command line names.
pub fn resolve_new_dependency_path(value: &str, cwd: &str) -> (r: Result<String, String>)
    ensures
        text_result_view(r) == flag_path(value@, cwd@, "NEW_DEPENDENCY"@),
{
    resolve_path_with_flag(value, cwd, "NEW_DEPENDENCY")
}

/// The path of the project file that the command line names.
pub fn resolve_dpr_file_path(value: &str, cwd: &str) -> (r: Result<String, String>)
    ensures
        text_result_view(r) == flag_path(value@, cwd@, "DPR_FILE"@),
{
    resolve_path_with_flag(value, cwd, "DPR_FILE")
}

/// Whether the path has the extension of a unit file, in any case.
pub fn is_pas_file(path: &str) -> (r: bool)
    ensures
        r == extension_is(path@, "pas"@),
{
    has_extension(path, "pas")
}

/// Whether the path has the extension of a project file, in any case.
pub fn is_dpr_file(path: &str) -> (r: bool)
    ensures
        r == extension_is(path@, "dpr"@),
{
    has_extension(path, "dpr")
}

/// The view of nothing or a message.
pub open spec fn unit_result_view(r: Result<(), String>) -> Option<Seq<char>> {
    match r {
        Ok(_) => None,
        Err(message) => Some(message@),
    }
}

/// What is wrong with the path of the new dependency, if anything: it
/// must lead to a file, and to a unit file.
pub open spec fn new_dependency_fault(tree: SourceTree, path: Seq<char>) -> Option<Seq<char>> {
    if !tree.has_file(path) {
        Some(concat_all(seq!["NEW_DEPENDENCY path not found: "@, path]))
    } else if !extension_is(path, "pas"@) {
        Some(concat_all(seq!["NEW_DEPENDENCY must point to a .pas file: "@, path]))
    } else {
        None
    }
}

/// Checks that the new unit is a unit file that the tree holds; the
/// message says what is wrong with it.
pub fn validate_new_dependency_path(tree: &SourceTree, path: &str) -> (r: Result<(), String>)
    requires
        tree.wf(),
    ensures
        unit_result_view(r) == new_dependency_fault(*tree, path@),
{
    if !tree.is_file(path) {
        let parts = vec!["NEW_DEPENDENCY path not found: ", path];
        assert(parts.deep_view() =~= seq!["NEW_DEPENDENCY path not found: "@, path@]);
        return Err(concat(&parts));
    }
    if !is_pas_file(path) {
        let parts = vec!["NEW_DEPENDENCY must point to a .pas file: ", path];
        assert(parts.deep_view() =~= seq!["NEW_DEPENDENCY must point to a .pas file: "@, path@]);
        return Err(concat(&parts));
    }
    Ok(())
}

/// What is wrong with the path of the project file, if anything.
pub open spec fn dpr_file_fault(tree: SourceTree, path: Seq<char>, flag_name: Seq<char>) -> Option<
    Seq<char>,
> {
    if !tree.has_file(path) {
        Some(concat_all(seq![flag_name, " path not found: "@, path]))
    } else if !extension_is(path, "dpr"@) {
        Some(concat_all(seq![flag_name, " must point to a .dpr file: "@, path]))
    } else {
        None
    }
}

/// Checks that the project file is a project file that the tree holds;
/// the message says what is wrong with it.
pub fn validate_dpr_file_path(tree: &SourceTree, path: &str, flag_name: &str) -> (r: Result<
    (),
    String,
>)
    requires
        tree.wf(),
    ensures
        unit_result_view(r) == dpr_file_fault(*tree, path@, flag_name@),
{
    if !tree.is_file(path) {
        let parts = vec![flag_name, " path not found: ", path];
        assert(parts.deep_view() =~= seq![flag_name@, " path not found: "@, path@]);
        return Err(concat(&parts));
    }
    if !is_dpr_file(path) {
        let parts = vec![flag_name, " must point to a .dpr file: ", path];
        assert(parts.deep_view() =~= seq![flag_name@, " must point to a .dpr file: "@, path@]);
        return Err(concat(&parts));
    }
    Ok(())
}

/// The values `values[k..]` that are not blank, trimmed, behind `kept`.
pub open spec fn shown_from(values: Seq<Seq<char>>, k: int, kept: Seq<Seq<char>>) -> Seq<Seq<char>>
    decreases values.len() - k,
{
    if k < 0 || k >= values.len() {
        kept
    } else if trimmed(values[k]).len() == 0 {
        shown_from(values, k + 1, kept)
    } else {
        shown_from(values, k + 1, kept.push(trimmed(values[k])))
    }
}

/// The values that are not blank, trimmed, with `, ` between them.
pub open spec fn shown_values(values: Seq<Seq<char>>) -> Seq<char> {
    join_text(shown_from(values, 0, Seq::empty()), ", "@)
}

/// The values that are not blank, trimmed and joined by commas.
pub fn format_values(values: &Vec<String>) -> (r: String)
    ensures
        r@ == shown_values(values.deep_view()),
{
    let mut entries: Vec<String> = Vec::new();
    assert(entries.deep_view() =~= Seq::<Seq<char>>::empty());
    let mut k: usize = 0;
    while k < values.len()
        invariant
            k <= values.len(),
            shown_from(values.deep_view(), k as int, entries.deep_view()) == shown_from(
                values.deep_view(),
                0,
                Seq::empty(),
            ),
        decreases values.len() - k,
    {
        assert(values.deep_view()[k as int] == values[k as int]@);
        let value = trim(values[k].as_str());
        if value.as_str().unicode_len() > 0 {
            push_text(&mut entries, value);
        }
        k += 1;
    }
    assert(entries.deep_view().skip(0) =~= entries.deep_view());
    join_texts(&entries, 0, ", ")
}

/// The key by which paths are compared: backslashes for slashes, and
/// lower case.
pub open spec fn path_key(path: Seq<char>) -> Seq<char> {
    lower_text(replaced(path, '/', '\\'))
}

/// The key by which paths are told apart: the path with backslashes for
/// slashes, in lower case.
pub fn normalize_path_key(path: &str) -> (r: String)
    ensures
        r@ == path_key(path@),
{
    let replaced = replace_char(path, '/', '\\');
    to_lower(replaced.as_str())
}

/// Whether one of the paths has the key of `target`.
pub open spec fn holds_path(paths: Seq<Seq<char>>, target: Seq<char>) -> bool {
    exists|k: int| 0 <= k < paths.len() && path_key(#[trigger] paths[k]) == path_key(target)
}

/// Whether one of the paths has the key of `target`.
pub fn contains_path(paths: &Vec<String>, target: &str) -> (r: bool)
    ensures
        r == holds_path(paths.deep_view(), target@),
{
    let key = normalize_path_key(target);
    let mut k: usize = 0;
    while k < paths.len()
        invariant
            k <= paths.len(),
            forall|j: int| 0 <= j < k ==> path_key(#[trigger] paths.deep_view()[j]) != key@,
        decreases paths.len() - k,
    {
        assert(paths.deep_view()[k as int] == paths[k as int]@);
        let other = normalize_path_key(paths[k].as_str());
        if text_eq(other.as_str(), key.as_str()) {
            return true;
        }
        k += 1;
    }
    false
}

/// The paths kept so far, sorted by their keys, and those keys.
pub struct Kept {
    pub paths: Seq<Seq<char>>,
    pub keys: Seq<Seq<char>>,
}

/// The paths `paths[k..]` added to those kept: each where its key says
/// that it belongs, unless a path with that key is kept.
pub open spec fn deduped_from(paths: Seq<Seq<char>>, k: int, kept: Kept) -> Kept
    decreases paths.len() - k,
{
    if k < 0 || k >= paths.len() {
        kept
    } else {
        let key = path_key(paths[k]);
        deduped_from(
            paths,
            k + 1,
            if kept.keys.contains(key) {
                kept
            } else {
                let at = sorted_position(kept.keys, key, 0);
                Kept { paths: kept.paths.insert(at, paths[k]), keys: kept.keys.insert(at, key) }
            },
        )
    }
}

/// The paths without those whose key an earlier path has, sorted by
/// their keys.
pub fn dedupe_paths(paths: Vec<String>) -> (r: Vec<String>)
    ensures
        r.deep_view() == deduped_from(
            paths.deep_view(),
            0,
            Kept { paths: Seq::empty(), keys: Seq::empty() },
        ).paths,
{
    let mut kept: Vec<String> = Vec::new();
    let mut keys: Vec<String> = Vec::new();
    assert(kept.deep_view() =~= Seq::<Seq<char>>::empty());
    assert(keys.deep_view() =~= Seq::<Seq<char>>::empty());
    let mut k: usize = 0;
    while k < paths.len()
        invariant
            k <= paths.len(),
            kept.len() == keys.len(),
            deduped_from(
                paths.deep_view(),
                k as int,
                Kept { paths: kept.deep_view(), keys: keys.deep_view() },
            ) == deduped_from(
                paths.deep_view(),
                0,
                Kept { paths: Seq::empty(), keys: Seq::empty() },
            ),
        decreases paths.len() - k,
    {
        assert(paths.deep_view()[k as int] == paths[k as int]@);
        let key = normalize_path_key(paths[k].as_str());
        if !contains_text(&keys, key.as_str()) {
            insert_by_key(&mut kept, &mut keys, paths[k].clone(), key);
        }
        k += 1;
    }
    kept
}

/// The path as a report shows it: relative to the first of the roots
/// `roots[k..]` below which it lies, else as it is.
pub open spec fn shown_path(path: Seq<char>, roots: Seq<Seq<char>>, k: int) -> Seq<char>
    decreases roots.len() - k,
{
    if k < 0 || k >= roots.len() {
        path
    } else if path_below(path, roots[k]) {
        match relative_to(path, roots[k]) {
            Some(diff) => diff,
            None => path,
        }
    } else {
        shown_path(path, roots, k + 1)
    }
}

/// The path as a report shows it: relative to the first root that it
/// stands below, else as it is.
pub fn display_path(path: &str, roots: &Vec<String>) -> (r: String)
    ensures
        r@ == shown_path(path@, roots.deep_view(), 0),
{
    let mut k: usize = 0;
    while k < roots.len()
        invariant
            k <= roots.len(),
            shown_path(path@, roots.deep_view(), k as int) == shown_path(
                path@,
                roots.deep_view(),
                0,
            ),
        decreases roots.len() - k,
    {
        assert(roots.deep_view()[k as int] == roots[k as int]@);
        if path_starts_with(path, roots[k].as_str()) {
            return match diff_paths(path, roots[k].as_str()) {
                Some(diff) => diff,
                None => copy_text(path),
            };
        }
        k += 1;
    }
    copy_text(path)
}

/// How many of the project files that a run looked at it left as they
/// were.
pub open spec fn unchanged_count(summary: SummaryModel) -> int {
    let rest = if summary.scanned >= summary.updated {
        summary.scanned - summary.updated
    } else {
        0
    };
    if rest >= summary.failures {
        rest - summary.failures
    } else {
        0
    }
}

/// How many of the files that a run looked at it left as they were.
pub fn count_unchanged(summary: &DprUpdateSummary) -> (r: usize)
    ensures
        r == unchanged_count(summary.deep_view()),
{
    let rest = if summary.scanned >= summary.updated {
        summary.scanned - summary.updated
    } else {
        0
    };
    if rest >= summary.failures {
        rest - summary.failures
    } else {
        0
    }
}

/// The totals of the repairs that follow a run.
pub struct FixPassTotals {
    pub scanned: usize,
    pub updated: usize,
    pub failures: usize,
}

/// `paths` with the paths `more[k..]` behind them, each unless a path
/// with its key stands there already.
pub open spec fn with_new_paths(paths: Seq<Seq<char>>, more: Seq<Seq<char>>, k: int) -> Seq<Seq<char>>
    decreases more.len() - k,
{
    if k < 0 || k >= more.len() {
        paths
    } else if holds_path(paths, more[k]) {
        with_new_paths(paths, more, k + 1)
    } else {
        with_new_paths(paths.push(more[k]), more, k + 1)
    }
}

/// Takes the repair of one project file into the totals of the repairs,
/// and the files that it changed into the files that the run changed.
pub fn absorb_fix_summary(
    summary: &mut DprUpdateSummary,
    totals: &mut FixPassTotals,
    fix: &DprUpdateSummary,
)
    requires
        old(totals).scanned + fix.scanned <= usize::MAX,
        old(totals).updated + fix.updated <= usize::MAX,
        old(totals).failures + fix.failures <= usize::MAX,
    ensures
        final(totals).scanned == old(totals).scanned + fix.scanned,
        final(totals).updated == old(totals).updated + fix.updated,
        final(totals).failures == old(totals).failures + fix.failures,
        final(summary).updated_paths.deep_view() == with_new_paths(
            old(summary).updated_paths.deep_view(),
            fix.updated_paths.deep_view(),
            0,
        ),
        final(summary).scanned == old(summary).scanned,
        final(summary).updated == old(summary).updated,
        final(summary).failures == old(summary).failures,
        final(summary).warnings == old(summary).warnings,
        final(summary).writes == old(summary).writes,
{
    totals.scanned = totals.scanned + fix.scanned;
    totals.updated = totals.updated + fix.updated;
    totals.failures = totals.failures + fix.failures;
    let ghost more = fix.updated_paths.deep_view();
    let ghost goal = with_new_paths(summary.updated_paths.deep_view(), more, 0);
    let mut k: usize = 0;
    while k < fix.updated_paths.len()
        invariant
            k <= fix.updated_paths.len(),
            with_new_paths(summary.updated_paths.deep_view(), more, k as int) == goal,
            summary.scanned == old(summary).scanned,
            summary.updated == old(summary).updated,
            summary.failures == old(summary).failures,
            summary.warnings == old(summary).warnings,
            summary.writes == old(summary).writes,
        decreases fix.updated_paths.len() - k,
    {
        assert(more[k as int] == fix.updated_paths[k as int]@);
        if !contains_path(&summary.updated_paths, fix.updated_paths[k].as_str()) {
            push_text(&mut summary.updated_paths, fix.updated_paths[k].clone());
        }
        k += 1;
    }
}

/// Closes the repairs that follow a run: the run has changed as many
/// files as it names, and has the failures of the repairs as well.
pub fn close_fix_pass(summary: &mut DprUpdateSummary, totals: &FixPassTotals)
    requires
        old(summary).failures + totals.failures <= usize::MAX,
    ensures
        final(summary).updated == old(summary).updated_paths.len(),
        final(summary).failures == old(summary).failures + totals.failures,
        final(summary).scanned == old(summary).scanned,
        final(summary).updated_paths == old(summary).updated_paths,
        final(summary).warnings == old(summary).warnings,
        final(summary).writes == old(summary).writes,
{
    summary.updated = summary.updated_paths.len();
    summary.failures = summary.failures + totals.failures;
}

pub open spec fn failed_write_warning(path: Seq<char>, reason: Seq<char>) -> Seq<char> {
    concat_all(seq!["warning: failed to update dpr "@, path, ": "@, reason])
}

/// The paths `paths[k..]` but `path`.
pub open spec fn without_path(paths: Seq<Seq<char>>, path: Seq<char>, k: int) -> Seq<Seq<char>>
    decreases paths.len() - k,
{
    if k < 0 || k >= paths.len() {
        Seq::empty()
    } else if paths[k] == path {
        without_path(paths, path, k + 1)
    } else {
        seq![paths[k]] + without_path(paths, path, k + 1)
    }
}

pub proof fn lemma_without_path_step(paths: Seq<Seq<char>>, path: Seq<char>, k: int)
    requires
        0 <= k < paths.len(),
    ensures
        without_path(paths.take(k + 1), path, 0) == if paths[k] == path {
            without_path(paths.take(k), path, 0)
        } else {
            without_path(paths.take(k), path, 0).push(paths[k])
        },
{
    lemma_without_path_last(paths.take(k + 1), path, 0);
    assert(paths.take(k + 1).drop_last() =~= paths.take(k));
}

proof fn lemma_without_path_last(paths: Seq<Seq<char>>, path: Seq<char>, k: int)
    requires
        0 <= k < paths.len(),
    ensures
        without_path(paths, path, k) == if paths.last() == path {
            without_path(paths.drop_last(), path, k)
        } else {
            without_path(paths.drop_last(), path, k).push(paths.last())
        },
    decreases paths.len() - k,
{
    let front = paths.drop_last();
    if k + 1 < paths.len() {
        lemma_without_path_last(paths, path, k + 1);
        assert(front[k] == paths[k]);
        if paths[k] != path {
            if paths.last() != path {
                assert(seq![paths[k]] + without_path(front, path, k + 1).push(paths.last()) =~= (
                seq![paths[k]] + without_path(front, path, k + 1)).push(paths.last()));
            }
        }
    } else {
        assert(without_path(paths, path, k + 1) =~= Seq::<Seq<char>>::empty());
        assert(without_path(front, path, k) =~= Seq::<Seq<char>>::empty());
        if paths[k] != path {
            assert(seq![paths[k]] + Seq::<Seq<char>>::empty() =~= Seq::<Seq<char>>::empty().push(
                paths.last(),
            ));
        }
    }
}

/// Takes note that the text of the project file `path` could not be
/// written: the run warns of it, counts one more failure, and has not
/// changed the file.
pub fn record_write_failure(summary: &mut DprUpdateSummary, path: &str, reason: &str)
    requires
        old(summary).failures < usize::MAX,
    ensures
        final(summary).warnings.deep_view() == old(summary).warnings.deep_view().push(
            failed_write_warning(path@, reason@),
        ),
        final(summary).failures == old(summary).failures + 1,
        final(summary).updated_paths.deep_view() == without_path(
            old(summary).updated_paths.deep_view(),
            path@,
            0,
        ),
        final(summary).updated == final(summary).updated_paths.len(),
        final(summary).scanned == old(summary).scanned,
        final(summary).writes == old(summary).writes,
{
    let parts = vec!["warning: failed to update dpr ", path, ": ", reason];
    assert(parts.deep_view() =~= seq!["warning: failed to update dpr "@, path@, ": "@, reason@]);
    push_text(&mut summary.warnings, concat(&parts));
    summary.failures = summary.failures + 1;
    let ghost paths = summary.updated_paths.deep_view();
    let mut kept: Vec<String> = Vec::new();
    assert(kept.deep_view() =~= Seq::<Seq<char>>::empty());
    assert(paths.take(0) =~= Seq::<Seq<char>>::empty());
    let mut k: usize = 0;
    while k < summary.updated_paths.len()
        invariant
            k <= summary.updated_paths.len(),
            paths == summary.updated_paths.deep_view(),
            kept.deep_view() == without_path(paths.take(k as int), path@, 0),
        decreases summary.updated_paths.len() - k,
    {
        assert(paths[k as int] == summary.updated_paths[k as int]@);
        proof {
            lemma_without_path_step(paths, path@, k as int);
        }
        if !text_eq(summary.updated_paths[k].as_str(), path) {
            push_text(&mut kept, summary.updated_paths[k].clone());
        }
        k += 1;
    }
    assert(paths.take(k as int) =~= paths);
    summary.updated_paths = kept;
    summary.updated = summary.updated_paths.len();
}

} // verus!
